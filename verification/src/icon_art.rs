//! Pictures of folders and files, for systems without icons of their own, and the pixels
//! of icons that a system has.

use vstd::prelude::*;

verus! {

/// The width and the height of a picture.
pub const SIZE: u32 = 64;

/// A colour with its opacity.
#[derive(Clone, Copy, Debug, PartialEq, Eq, Structural)]
pub struct Pixel {
    pub r: u8,
    pub g: u8,
    pub b: u8,
    pub a: u8,
}

/// The pixel with these components.
pub open spec fn rgba(r: u8, g: u8, b: u8, a: u8) -> Pixel {
    Pixel { r, g, b, a }
}

/// Nothing painted.
pub open spec fn transparent() -> Pixel {
    rgba(0, 0, 0, 0)
}

/// A square picture.
pub struct Picture {
    pixels: Vec<Pixel>,
}

impl Picture {
    /// Whether there is a pixel for each place.
    #[verifier::type_invariant]
    spec fn complete(&self) -> bool {
        self.pixels@.len() == SIZE * SIZE
    }

    /// The pixel in column `x` of row `y`, counted from the top left.
    pub closed spec fn at(&self, x: int, y: int) -> Pixel {
        self.pixels@[y * SIZE + x]
    }

    /// A picture with nothing in it.
    pub fn new() -> (picture: Self)
        ensures
            forall|x: int, y: int|
                0 <= x < SIZE && 0 <= y < SIZE ==> #[trigger] picture.at(x, y) == transparent(),
    {
        let mut pixels: Vec<Pixel> = Vec::new();
        let mut i: usize = 0;
        while i < 4096
            invariant
                i <= 4096,
                pixels@.len() == i,
                forall|j: int| 0 <= j < i ==> pixels@[j] == transparent(),
            decreases 4096 - i,
        {
            pixels.push(Pixel { r: 0, g: 0, b: 0, a: 0 });
            i += 1;
        }
        Picture { pixels }
    }

    pub fn get(&self, x: u32, y: u32) -> (pixel: Pixel)
        requires
            x < SIZE,
            y < SIZE,
        ensures
            pixel == self.at(x as int, y as int),
    {
        proof {
            use_type_invariant(self);
        }
        self.pixels[y as usize * 64 + x as usize]
    }

    pub fn put(&mut self, x: u32, y: u32, pixel: Pixel)
        requires
            x < SIZE,
            y < SIZE,
        ensures
            forall|i: int, j: int|
                0 <= i < SIZE && 0 <= j < SIZE ==> #[trigger] final(self).at(i, j) == if i == x
                    && j == y {
                    pixel
                } else {
                    old(self).at(i, j)
                },
    {
        proof {
            use_type_invariant(&*self);
        }
        self.pixels[y as usize * 64 + x as usize] = pixel;
    }

    /// The components of all pixels, row by row.
    pub fn bytes(&self) -> (bytes: Vec<u8>)
        ensures
            bytes@.len() == 4 * SIZE * SIZE,
            forall|x: int, y: int|
                #![trigger self.at(x, y)]
                0 <= x < SIZE && 0 <= y < SIZE ==> self.at(x, y) == rgba(
                    bytes@[4 * (y * SIZE + x)],
                    bytes@[4 * (y * SIZE + x) + 1],
                    bytes@[4 * (y * SIZE + x) + 2],
                    bytes@[4 * (y * SIZE + x) + 3],
                ),
    {
        proof {
            use_type_invariant(self);
        }
        let mut bytes: Vec<u8> = Vec::new();
        let mut i: usize = 0;
        while i < self.pixels.len()
            invariant
                i <= self.pixels@.len() == SIZE * SIZE,
                bytes@.len() == 4 * i,
                forall|j: int|
                    0 <= j < i ==> #[trigger] self.pixels@[j] == rgba(
                        bytes@[4 * j],
                        bytes@[4 * j + 1],
                        bytes@[4 * j + 2],
                        bytes@[4 * j + 3],
                    ),
            decreases self.pixels@.len() - i,
        {
            let pixel = self.pixels[i];
            bytes.push(pixel.r);
            bytes.push(pixel.g);
            bytes.push(pixel.b);
            bytes.push(pixel.a);
            i += 1;
        }
        bytes
    }

    /// Whether two pictures agree everywhere but in a rectangle, which the second
    /// has in one colour. The rectangle reaches up to `x2` and `y2`, without them.
    pub open spec fn filled(
        self,
        before: Picture,
        x1: int,
        y1: int,
        x2: int,
        y2: int,
        color: Pixel,
    ) -> bool {
        forall|i: int, j: int|
            0 <= i < SIZE && 0 <= j < SIZE ==> #[trigger] self.at(i, j) == if x1 <= i < x2 && y1
                <= j < y2 {
                color
            } else {
                before.at(i, j)
            }
    }

    /// Fills a rectangle, as far as it lies in the picture.
    pub fn fill_rect(&mut self, x1: u32, y1: u32, x2: u32, y2: u32, color: Pixel)
        ensures
            final(self).filled(*old(self), x1 as int, y1 as int, x2 as int, y2 as int, color),
    {
        let mut y: u32 = y1;
        while y < y2 && y < SIZE
            invariant
                y1 <= y,
                self.filled(
                    *old(self),
                    x1 as int,
                    y1 as int,
                    x2 as int,
                    if y < y2 {
                        y as int
                    } else {
                        y2 as int
                    },
                    color,
                ),
            decreases SIZE - y,
        {
            let ghost above = *self;
            let mut x: u32 = x1;
            while x < x2 && x < SIZE
                invariant
                    x1 <= x,
                    y < SIZE,
                    self.filled(
                        above,
                        x1 as int,
                        y as int,
                        if x < x2 {
                            x as int
                        } else {
                            x2 as int
                        },
                        y + 1,
                        color,
                    ),
                decreases SIZE - x,
            {
                self.put(x, y, color);
                x += 1;
            }
            y += 1;
        }
    }
}

/// The colour at a place of the picture of a file: a page with a folded corner and
/// four lines of text.
pub open spec fn file_pixel(x: int, y: int) -> Pixel {
    let text = 18 <= x < 44 && (24 <= y < 26 || 32 <= y < 34 || 40 <= y < 42) || 18 <= x < 36
        && 48 <= y < 50;
    // Within the square of the corner, counted from its top left.
    let dx = x - 40;
    let dy = y - 4;
    let corner = 0 <= dx < 12 && 0 <= dy < 12;
    if text {
        rgba(195, 205, 218, 255)
    } else if corner && dx <= dy && dx + dy < 12 || corner && dx == 0 || 0 <= dx < 12 && dy == 12 {
        rgba(215, 222, 232, 255)
    } else if 0 <= dx <= 12 && dx == dy || y == 4 && 12 <= x < 40 || x == 51 && 16 <= y < 60 || y
        == 59 && 12 <= x <= 52 || x == 12 && 4 <= y < 60 {
        rgba(185, 195, 210, 255)
    } else if 4 <= y < 60 && 12 <= x < 52 && !(corner && dx + dy >= 12) {
        rgba(245, 247, 250, 255)
    } else {
        transparent()
    }
}

/// The picture of a file.
pub fn generate_file_icon() -> (picture: Picture)
    ensures
        forall|x: int, y: int|
            0 <= x < SIZE && 0 <= y < SIZE ==> #[trigger] picture.at(x, y) == file_pixel(x, y),
{
    let page = Pixel { r: 245, g: 247, b: 250, a: 255 };
    let border = Pixel { r: 185, g: 195, b: 210, a: 255 };
    let fold = Pixel { r: 215, g: 222, b: 232, a: 255 };
    let line = Pixel { r: 195, g: 205, b: 218, a: 255 };
    let mut picture = Picture::new();
    // The page, without the corner beyond the fold.
    picture.fill_rect(12, 16, 52, 60, page);
    let mut dy: u32 = 0;
    let ghost below = picture;
    while dy < 12
        invariant
            dy <= 12,
            forall|x: int, y: int|
                0 <= x < SIZE && 0 <= y < SIZE ==> #[trigger] picture.at(x, y) == if 4 <= y < 4 + dy
                    && 12 <= x < 52 && !(x >= 40 && x - 40 + y - 4 >= 12) {
                    page
                } else {
                    below.at(x, y)
                },
        decreases 12 - dy,
    {
        picture.fill_rect(12, 4 + dy, 52 - dy, 5 + dy, page);
        dy += 1;
    }
    picture.fill_rect(12, 4, 13, 60, border);
    picture.fill_rect(12, 59, 53, 60, border);
    picture.fill_rect(51, 16, 52, 60, border);
    picture.fill_rect(12, 4, 40, 5, border);
    let ghost framed = picture;
    let mut i: u32 = 0;
    while i <= 12
        invariant
            i <= 13,
            forall|x: int, y: int|
                0 <= x < SIZE && 0 <= y < SIZE ==> #[trigger] picture.at(x, y) == if 0 <= x - 40 < i
                    && x - 40 == y - 4 {
                    border
                } else {
                    framed.at(x, y)
                },
        decreases 13 - i,
    {
        picture.put(40 + i, 4 + i, border);
        i += 1;
    }
    picture.fill_rect(40, 4, 41, 16, fold);
    picture.fill_rect(40, 16, 52, 17, fold);
    let ghost creased = picture;
    dy = 0;
    while dy < 12
        invariant
            dy <= 12,
            forall|x: int, y: int|
                0 <= x < SIZE && 0 <= y < SIZE ==> #[trigger] picture.at(x, y) == if 4 <= y < 4 + dy
                    && 0 <= x - 40 <= y - 4 && x - 40 + y - 4 < 12 {
                    fold
                } else {
                    creased.at(x, y)
                },
        decreases 12 - dy,
    {
        let end: u32 = if dy < 6 {
            41 + dy
        } else {
            52 - dy
        };
        picture.fill_rect(40, 4 + dy, end, 5 + dy, fold);
        dy += 1;
    }
    picture.fill_rect(18, 24, 44, 26, line);
    picture.fill_rect(18, 32, 44, 34, line);
    picture.fill_rect(18, 40, 44, 42, line);
    picture.fill_rect(18, 48, 36, 50, line);
    picture
}

/// How many of a pixel's components stand in a bitmap: without a fourth, pixels are
/// opaque.
pub open spec fn channels(samples: nat) -> nat {
    if samples >= 4 {
        4
    } else {
        3
    }
}

/// Whether a bitmap holds its pixels: `height` rows, each beginning `row` bytes after the
/// one before, of `width` pixels, each beginning `samples` bytes after the one before.
pub open spec fn holds_rows(
    length: nat,
    width: nat,
    height: nat,
    row: nat,
    samples: nat,
) -> bool {
    width > 0 && height > 0 ==> (height - 1) * row + (width - 1) * samples + channels(samples)
        <= length
}

/// A component of the pixel at `x` in the row that is `y`th from below.
pub open spec fn component(
    data: Seq<u8>,
    height: nat,
    row: nat,
    samples: nat,
    x: int,
    y: int,
    c: int,
) -> u8 {
    if c < channels(samples) {
        data[(height - 1 - y) * row + x * samples + c]
    } else {
        255
    }
}

/// Where a component stands among the packed ones.
pub open spec fn packed_at(width: nat, x: int, y: int, c: int) -> int {
    4 * (y * width + x) + c
}

proof fn lemma_pixel_in_bitmap(
    length: nat,
    width: nat,
    height: nat,
    row: nat,
    samples: nat,
    x: int,
    y: int,
)
    requires
        holds_rows(length, width, height, row, samples),
        0 <= x < width,
        0 <= y < height,
    ensures
        0 <= y * row,
        0 <= x * samples,
        y * row + x * samples + channels(samples) <= length,
{
    assert(0 <= y * row <= (height - 1) * row) by (nonlinear_arith)
        requires
            0 <= y <= height - 1,
            0 <= row,
    ;
    assert(0 <= x * samples <= (width - 1) * samples) by (nonlinear_arith)
        requires
            0 <= x <= width - 1,
            0 <= samples,
    ;
}

/// The pixels of a bitmap, packed row by row with the lowest row first.
pub fn rgba_rows(
    data: &[u8],
    width: usize,
    height: usize,
    row: usize,
    samples: usize,
) -> (pixels: Vec<u8>)
    requires
        holds_rows(data@.len(), width as nat, height as nat, row as nat, samples as nat),
        4 * (width * height) <= usize::MAX,
    ensures
        pixels@.len() == 4 * (width * height),
        forall|x: int, y: int, c: int|
            0 <= x < width && 0 <= y < height && 0 <= c < 4 ==> pixels@[
                #[trigger] packed_at(width as nat, x, y, c)
            ] == component(data@, height as nat, row as nat, samples as nat, x, y, c),
{
    let ghost (w, h, r, s) = (width as nat, height as nat, row as nat, samples as nat);
    let length: usize = data.len();
    let mut pixels: Vec<u8> = Vec::new();
    let mut y: usize = 0;
    assert(0 * w == 0);
    while y < height
        invariant
            y <= height,
            w == width,
            h == height,
            r == row,
            s == samples,
            length == data@.len(),
            holds_rows(data@.len(), w, h, r, s),
            4 * (w * h) <= usize::MAX,
            pixels@.len() == 4 * (y * w),
            forall|a: int, b: int, c: int|
                0 <= a < w && 0 <= b < y && 0 <= c < 4 ==> pixels@[
                    #[trigger] packed_at(w, a, b, c)
                ] == component(data@, h, r, s, a, b, c),
        decreases height - y,
    {
        let from: usize = height - 1 - y;
        let mut x: usize = 0;
        while x < width
            invariant
                y < height,
                from == height - 1 - y,
                x <= width,
                w == width,
                h == height,
                r == row,
                s == samples,
                length == data@.len(),
                holds_rows(data@.len(), w, h, r, s),
                4 * (w * h) <= usize::MAX,
                pixels@.len() == 4 * (y * w + x),
                forall|a: int, b: int, c: int|
                    0 <= a < w && (0 <= b < y || (b == y && a < x)) && 0 <= c < 4 ==> pixels@[
                        #[trigger] packed_at(w, a, b, c)
                    ] == component(data@, h, r, s, a, b, c),
            decreases width - x,
        {
            let ghost before = pixels@;
            proof {
                lemma_pixel_in_bitmap(data@.len(), w, h, r, s, x as int, from as int);
            }
            let at: usize = from * row + x * samples;
            let alpha: u8 = if samples >= 4 {
                data[at + 3]
            } else {
                255
            };
            pixels.push(data[at]);
            pixels.push(data[at + 1]);
            pixels.push(data[at + 2]);
            pixels.push(alpha);
            proof {
                assert forall|a: int, b: int, c: int|
                    0 <= a < w && (0 <= b < y || (b == y && a < x + 1)) && 0 <= c < 4 implies pixels@[
                    #[trigger] packed_at(w, a, b, c)] == component(data@, h, r, s, a, b, c) by {
                    if b == y && a == x {
                        assert(packed_at(w, a, b, c) == before.len() + c);
                    } else {
                        assert(0 <= packed_at(w, a, b, c) < before.len()) by {
                            lemma_packed_before(w, a, b, x as int, y as int);
                        }
                        assert(pixels@[packed_at(w, a, b, c)] == before[packed_at(w, a, b, c)]);
                    }
                }
            }
            x += 1;
        }
        assert((y + 1) * w == y * w + w) by (nonlinear_arith);
        y += 1;
    }
    assert(h * w == w * h) by (nonlinear_arith);
    pixels
}

proof fn lemma_packed_before(width: nat, a: int, b: int, x: int, y: int)
    requires
        0 <= a < width,
        0 <= b,
        0 <= x,
        b < y || (b == y && a < x),
    ensures
        0 <= b * width + a < y * width + x,
{
    assert(0 <= b * width) by (nonlinear_arith)
        requires
            0 <= b,
            0 <= width,
    ;
    if b < y {
        assert(b * width + width <= y * width) by (nonlinear_arith)
            requires
                b + 1 <= y,
                0 <= width,
        ;
    }
}

/// Turning a bitmap upside down: of rows that lie close together, four bytes to a pixel, the
/// row that is packed first is the last of the bitmap.
pub proof fn lemma_upside_down(data: Seq<u8>, width: nat, height: nat, x: int, y: int, c: int)
    requires
        0 <= x < width,
        0 <= y < height,
        0 <= c < 4,
    ensures
        component(data, height, 4 * width, 4, x, y, c) == data[packed_at(
            width,
            x,
            height - 1 - y,
            c,
        )],
        component(data, height, 3 * width, 3, x, y, 3) == 255,
{
    assert((height - 1 - y) * (4 * width) == 4 * ((height - 1 - y) * width)) by (nonlinear_arith);
}

/// The page lies within its margins: around it nothing is painted, and what is painted
/// covers what lies below. Its lines stand on the page.
pub proof fn lemma_page(x: int, y: int)
    ensures
        x < 12 || x > 52 || y < 4 || y >= 60 ==> file_pixel(x, y) == transparent(),
        file_pixel(x, y) == transparent() || file_pixel(x, y).a == 255,
        18 <= x < 40 && 18 <= y < 56 ==> file_pixel(x, y).a == 255,
        18 <= x < 36 && 24 <= y < 26 ==> file_pixel(x, y) == file_pixel(x, y + 8) && file_pixel(
            x,
            y,
        ) == file_pixel(x, y + 24),
{
}

/// A rectangle is filled up to its right and lower edge, without them, and nothing beside
/// it is changed.
pub proof fn lemma_rectangle(
    picture: &mut Picture,
    x1: u32,
    y1: u32,
    x2: u32,
    y2: u32,
    color: Pixel,
    x: int,
    y: int,
)
    requires
        call_ensures(Picture::fill_rect, (picture, x1, y1, x2, y2, color), ()),
        0 <= x < SIZE,
        0 <= y < SIZE,
    ensures
        x1 <= x < x2 && y1 <= y < y2 ==> final(picture).at(x, y) == color,
        x < x1 || x >= x2 || y < y1 || y >= y2 ==> final(picture).at(x, y) == old(picture).at(
            x,
            y,
        ),
{
}

} // verus!
