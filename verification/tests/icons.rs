use disk_cleaner::icon_art::{generate_file_icon, rgba_rows, Picture, Pixel, SIZE};

const TRANSPARENT: Pixel = Pixel { r: 0, g: 0, b: 0, a: 0 };
const PAGE: Pixel = Pixel { r: 245, g: 247, b: 250, a: 255 };
const BORDER: Pixel = Pixel { r: 185, g: 195, b: 210, a: 255 };
const FOLD: Pixel = Pixel { r: 215, g: 222, b: 232, a: 255 };
const LINE: Pixel = Pixel { r: 195, g: 205, b: 218, a: 255 };

#[test]
fn the_file_is_a_page_with_a_folded_corner() {
    let picture = generate_file_icon();
    assert_eq!(picture.get(0, 0), TRANSPARENT);
    assert_eq!(picture.get(12, 4), BORDER);
    assert_eq!(picture.get(30, 10), PAGE);
    assert_eq!(picture.get(51, 5), TRANSPARENT);
    assert_eq!(picture.get(45, 6), PAGE);
    // The diagonal, where the triangle does not reach.
    assert_eq!(picture.get(50, 14), BORDER);
    assert_eq!(picture.get(44, 8), FOLD);
    assert_eq!(picture.get(40, 10), FOLD);
    assert_eq!(picture.get(45, 16), FOLD);
    assert_eq!(picture.get(52, 16), BORDER);
    assert_eq!(picture.get(51, 30), BORDER);
    assert_eq!(picture.get(52, 59), BORDER);
    assert_eq!(picture.get(53, 59), TRANSPARENT);
}

#[test]
fn the_file_has_four_lines_of_text() {
    let picture = generate_file_icon();
    for y in [24, 25, 32, 33, 40, 41] {
        assert_eq!(picture.get(18, y), LINE);
        assert_eq!(picture.get(43, y), LINE);
        assert_eq!(picture.get(44, y), PAGE);
    }
    assert_eq!(picture.get(35, 48), LINE);
    assert_eq!(picture.get(36, 48), PAGE);
    assert_eq!(picture.get(18, 26), PAGE);
}

#[test]
fn rectangles_are_filled_up_to_their_end() {
    let mut picture = Picture::new();
    picture.fill_rect(2, 3, 4, 5, PAGE);
    assert_eq!(picture.get(2, 3), PAGE);
    assert_eq!(picture.get(3, 4), PAGE);
    assert_eq!(picture.get(4, 4), TRANSPARENT);
    assert_eq!(picture.get(3, 5), TRANSPARENT);
    picture.fill_rect(60, 60, 100, 100, LINE);
    assert_eq!(picture.get(SIZE - 1, SIZE - 1), LINE);
    assert_eq!(picture.get(59, 60), TRANSPARENT);
}

#[test]
fn the_bytes_follow_the_rows() {
    let mut picture = Picture::new();
    picture.put(1, 2, LINE);
    let bytes = picture.bytes();
    assert_eq!(bytes.len(), 64 * 64 * 4);
    let at = (2 * 64 + 1) * 4;
    assert_eq!(&bytes[at..at + 4], &[195, 205, 218, 255]);
    assert_eq!(bytes[at - 1], 0);
}

#[test]
fn bitmaps_are_packed_from_the_lowest_row_up() {
    // Two rows of two pixels, each row with two bytes to spare.
    let data = [1, 2, 3, 4, 5, 6, 7, 8, 0, 0, 11, 12, 13, 14, 15, 16, 17, 18];
    assert_eq!(
        rgba_rows(&data, 2, 2, 10, 4),
        [11, 12, 13, 14, 15, 16, 17, 18, 1, 2, 3, 4, 5, 6, 7, 8]
    );
    assert_eq!(rgba_rows(&data[..6], 2, 1, 6, 3), [1, 2, 3, 255, 4, 5, 6, 255]);
    assert_eq!(rgba_rows(&data[..7], 2, 1, 6, 3), [1, 2, 3, 255, 4, 5, 6, 255]);
    assert!(rgba_rows(&[], 0, 5, 4, 4).is_empty());
}
