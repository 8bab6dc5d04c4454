//! File categories by extension, and how much of a tree falls into each.

use std::sync::atomic::AtomicBool;

use vstd::prelude::*;

use crate::color;
use crate::color::Rgb;
use crate::order;
use crate::order::{pick, rank};
use crate::text;
use crate::text::{is_listed, lower_extension};
use crate::tree;
use crate::tree::{FileNode, Tree};

verus! {

/// High-level file category for grouping by type.
#[derive(Clone, Copy, PartialEq, Eq, Hash, Debug, Structural)]
pub enum FileCategory {
    Video,
    Image,
    Audio,
    Document,
    Archive,
    Code,
    Other,
}

/// Every category, in the order in which equally large ones are listed.
pub const ALL: [FileCategory; 7] = [
    FileCategory::Video,
    FileCategory::Image,
    FileCategory::Audio,
    FileCategory::Document,
    FileCategory::Archive,
    FileCategory::Code,
    FileCategory::Other,
];

pub const VIDEO: [&'static str; 8] = ["mp4", "mkv", "avi", "mov", "wmv", "flv", "webm", "m4v"];

pub const IMAGE: [&'static str; 10] = [
    "jpg",
    "jpeg",
    "png",
    "gif",
    "bmp",
    "svg",
    "webp",
    "tiff",
    "ico",
    "heic",
];

pub const AUDIO: [&'static str; 8] = ["mp3", "wav", "flac", "aac", "ogg", "wma", "m4a", "opus"];

pub const DOCUMENT: [&'static str; 13] = [
    "pdf",
    "doc",
    "docx",
    "xls",
    "xlsx",
    "ppt",
    "pptx",
    "txt",
    "rtf",
    "csv",
    "pages",
    "numbers",
    "key",
];

pub const ARCHIVE: [&'static str; 11] = [
    "zip",
    "tar",
    "gz",
    "rar",
    "7z",
    "bz2",
    "xz",
    "tgz",
    "zst",
    "dmg",
    "iso",
];

pub const CODE: [&'static str; 35] = [
    "rs",
    "js",
    "ts",
    "py",
    "go",
    "c",
    "cpp",
    "h",
    "hpp",
    "java",
    "rb",
    "swift",
    "kt",
    "cs",
    "jsx",
    "tsx",
    "vue",
    "svelte",
    "json",
    "yaml",
    "yml",
    "toml",
    "xml",
    "ini",
    "cfg",
    "conf",
    "lock",
    "html",
    "htm",
    "css",
    "scss",
    "sass",
    "less",
    "md",
    "mdx",
];

impl FileCategory {
    /// What the category is called.
    pub open spec fn title(self) -> Seq<char> {
        match self {
            FileCategory::Video => "Videos"@,
            FileCategory::Image => "Images"@,
            FileCategory::Audio => "Audio"@,
            FileCategory::Document => "Documents"@,
            FileCategory::Archive => "Archives"@,
            FileCategory::Code => "Code"@,
            FileCategory::Other => "Other"@,
        }
    }

    pub fn label(self) -> (label: &'static str)
        ensures
            label@ == self.title(),
    {
        match self {
            FileCategory::Video => "Videos",
            FileCategory::Image => "Images",
            FileCategory::Audio => "Audio",
            FileCategory::Document => "Documents",
            FileCategory::Archive => "Archives",
            FileCategory::Code => "Code",
            FileCategory::Other => "Other",
        }
    }

    /// The colour in which the category is drawn.
    pub open spec fn hue(self) -> Rgb {
        match self {
            FileCategory::Video => color::rgb(192, 57, 43),
            FileCategory::Image => color::rgb(39, 174, 96),
            FileCategory::Audio => color::rgb(142, 68, 173),
            FileCategory::Document => color::rgb(41, 128, 185),
            FileCategory::Archive => color::rgb(211, 84, 0),
            FileCategory::Code => color::rgb(22, 160, 133),
            FileCategory::Other => color::rgb(93, 109, 126),
        }
    }

    pub fn color(self) -> (color: Rgb)
        ensures
            color == self.hue(),
    {
        match self {
            FileCategory::Video => Rgb { r: 192, g: 57, b: 43 },
            FileCategory::Image => Rgb { r: 39, g: 174, b: 96 },
            FileCategory::Audio => Rgb { r: 142, g: 68, b: 173 },
            FileCategory::Document => Rgb { r: 41, g: 128, b: 185 },
            FileCategory::Archive => Rgb { r: 211, g: 84, b: 0 },
            FileCategory::Code => Rgb { r: 22, g: 160, b: 133 },
            FileCategory::Other => Rgb { r: 93, g: 109, b: 126 },
        }
    }
}

/// The category of an extension in small letters.
pub open spec fn extension_category(ext: Seq<char>) -> FileCategory {
    if text::listed(ext, VIDEO@) {
        FileCategory::Video
    } else if text::listed(ext, IMAGE@) {
        FileCategory::Image
    } else if text::listed(ext, AUDIO@) {
        FileCategory::Audio
    } else if text::listed(ext, DOCUMENT@) {
        FileCategory::Document
    } else if text::listed(ext, ARCHIVE@) {
        FileCategory::Archive
    } else if text::listed(ext, CODE@) {
        FileCategory::Code
    } else {
        FileCategory::Other
    }
}

/// The category of a file by what follows the last dot of its name, ASCII
/// case aside; a name without a dot is taken whole.
pub open spec fn category_of(name: Seq<char>) -> FileCategory {
    extension_category(text::lowered(text::extension(name)))
}

/// Categorize a file by its name.
pub fn categorize(name: &str) -> (category: FileCategory)
    ensures
        category == category_of(name@),
{
    let ext = lower_extension(name);
    let ext: &str = ext.as_str();
    if is_listed(ext, &VIDEO) {
        FileCategory::Video
    } else if is_listed(ext, &IMAGE) {
        FileCategory::Image
    } else if is_listed(ext, &AUDIO) {
        FileCategory::Audio
    } else if is_listed(ext, &DOCUMENT) {
        FileCategory::Document
    } else if is_listed(ext, &ARCHIVE) {
        FileCategory::Archive
    } else if is_listed(ext, &CODE) {
        FileCategory::Code
    } else {
        FileCategory::Other
    }
}

/// Those of `files` that are of category `cat`.
pub open spec fn of_category(files: Seq<Tree>, cat: FileCategory) -> Seq<Tree> {
    files.filter(|file: Tree| category_of(file.name) == cat)
}

/// Whether a file of category `cat` is in the tree.
pub open spec fn has_category(tree: Tree, cat: FileCategory) -> bool {
    exists|i: int|
        0 <= i < tree::files(tree).len() && category_of(#[trigger] tree::files(tree)[i].name) == cat
}

/// Returns true if this node (or any descendant) matches the given category.
pub fn node_matches_category(node: &FileNode, cat: FileCategory) -> (found: bool)
    ensures
        found == has_category(node@, cat),
    decreases node@,
{
    if !node.is_dir() {
        proof {
            reveal_with_fuel(tree::files_of, 2);
            assert(tree::files(node@) =~= seq![node@]);
            assert(tree::files(node@)[0] == node@);
        }
        return categorize(node.name()) == cat;
    }
    let children = node.children();
    let ghost kids = node@.kids;
    let mut i: usize = 0;
    while i < children.len()
        invariant
            i <= children@.len(),
            node@.dir,
            kids == node@.kids,
            kids == tree::trees(children@),
            forall|k: int|
                0 <= k < tree::files_of(kids.take(i as int)).len() ==> category_of(
                    #[trigger] tree::files_of(kids.take(i as int))[k].name,
                ) != cat,
        decreases children@.len() - i,
    {
        let ghost done = tree::files_of(kids.take(i as int));
        let ghost here = tree::files(kids[i as int]);
        proof {
            tree::lemma_files_step(kids, i as int);
            tree::lemma_files_prefix(kids, i + 1);
            assert(children@[i as int]@ == kids[i as int]);
        }
        let found = node_matches_category(&children[i], cat);
        proof {
            if found {
                let k = choose|k: int| 0 <= k < here.len() && category_of(#[trigger] here[k].name) == cat;
                let rest = choose|rest: Seq<Tree>|
                    tree::files_of(kids) == #[trigger] (tree::files_of(kids.take(i + 1)) + rest);
                assert(tree::files(node@)[done.len() + k] == here[k]);
            } else {
                let both = tree::files_of(kids.take(i + 1));
                assert forall|k: int| 0 <= k < both.len() implies category_of(
                    #[trigger] both[k].name,
                ) != cat by {
                    if k < done.len() {
                        assert(both[k] == done[k]);
                    } else {
                        assert(both[k] == here[k - done.len()]);
                    }
                }
            }
        }
        if found {
            return true;
        }
        i += 1;
    }
    proof {
        assert(kids.take(i as int) =~= kids);
        assert forall|k: int| 0 <= k < tree::files(node@).len() implies category_of(
            #[trigger] tree::files(node@)[k].name,
        ) != cat by {
            assert(tree::files(node@)[k] == tree::files_of(kids)[k]);
        }
    }
    false
}

/// Per-category statistics: the category, the bytes in it and its files.
pub struct CategoryStats {
    pub entries: Vec<(FileCategory, u64, usize)>,
}

/// The bytes in the first `n` entries of statistics.
pub open spec fn bytes_in(entries: Seq<(FileCategory, u64, usize)>, n: nat) -> nat
    decreases n,
{
    if n == 0 {
        0
    } else {
        bytes_in(entries, (n - 1) as nat) + entries[n - 1].1 as nat
    }
}

proof fn lemma_bytes_in_grow(entries: Seq<(FileCategory, u64, usize)>, n: nat, m: nat)
    requires
        n <= m,
    ensures
        bytes_in(entries, n) <= bytes_in(entries, m),
    decreases m,
{
    if n < m {
        lemma_bytes_in_grow(entries, n, (m - 1) as nat);
    }
}

impl CategoryStats {
    /// The bytes in all categories; None where their number does not fit.
    pub fn total_bytes(&self) -> (total: Option<u64>)
        ensures
            ({
                let sum = bytes_in(self.entries@, self.entries@.len());
                total == if sum <= u64::MAX {
                    Some(sum as u64)
                } else {
                    None
                }
            }),
    {
        let mut total: u64 = 0;
        let mut i: usize = 0;
        while i < self.entries.len()
            invariant
                i <= self.entries@.len(),
                total == bytes_in(self.entries@, i as nat),
            decreases self.entries@.len() - i,
        {
            proof {
                lemma_bytes_in_grow(self.entries@, (i + 1) as nat, self.entries@.len());
            }
            let bytes: u64 = self.entries[i].1;
            if bytes > u64::MAX - total {
                return None;
            }
            total += bytes;
            i += 1;
        }
        Some(total)
    }
}

/// The bytes in the files of a category.
pub open spec fn category_bytes(files: Seq<Tree>, cat: FileCategory) -> nat {
    tree::total_size(of_category(files, cat))
}

/// The number of files of a category.
pub open spec fn category_count(files: Seq<Tree>, cat: FileCategory) -> nat {
    of_category(files, cat).len()
}

/// Whether bytes and numbers of files of each category can be counted.
pub open spec fn countable(files: Seq<Tree>) -> bool {
    forall|cat: FileCategory| #[trigger]
        category_bytes(files, cat) <= u64::MAX && category_count(files, cat) <= usize::MAX
}

/// Those of the first `n` categories of which there are files, with their
/// bytes and files.
pub open spec fn present(files: Seq<Tree>, n: int) -> Seq<(FileCategory, u64, usize)>
    decreases n,
{
    if n <= 0 {
        Seq::empty()
    } else {
        let before = present(files, n - 1);
        let cat = ALL@[n - 1];
        if category_count(files, cat) == 0 {
            before
        } else {
            before.push(
                (cat, category_bytes(files, cat) as u64, category_count(files, cat) as usize),
            )
        }
    }
}

/// The bytes of each entry.
pub open spec fn entry_bytes(entries: Seq<(FileCategory, u64, usize)>) -> Seq<u64> {
    entries.map_values(|entry: (FileCategory, u64, usize)| entry.1)
}

/// The categories of which there are files, the one with most bytes first.
pub open spec fn stats_of(files: Seq<Tree>) -> Seq<(FileCategory, u64, usize)> {
    let entries = present(files, 7);
    order::picked(entries, order::order_of(entry_bytes(entries)))
}

/// The running totals of each category.
struct Totals {
    bytes: Vec<u64>,
    count: Vec<usize>,
}

impl Totals {
    spec fn wf(&self) -> bool {
        self.bytes@.len() == 7 && self.count@.len() == 7
    }

    /// Whether these are the totals of `before` with those of `files` added.
    spec fn adds(&self, before: Totals, files: Seq<Tree>) -> bool {
        &&& self.wf()
        &&& forall|cat: FileCategory|
            self.bytes@[position(cat)] == before.bytes@[position(cat)] + #[trigger] category_bytes(
                files,
                cat,
            )
        &&& forall|cat: FileCategory|
            self.count@[position(cat)] == before.count@[position(cat)] + #[trigger] category_count(
                files,
                cat,
            )
    }

    /// Whether the totals can take in those of `files`.
    spec fn room(&self, files: Seq<Tree>) -> bool {
        &&& forall|cat: FileCategory|
            self.bytes@[position(cat)] + #[trigger] category_bytes(files, cat) <= u64::MAX
        &&& forall|cat: FileCategory|
            self.count@[position(cat)] + #[trigger] category_count(files, cat) <= usize::MAX
    }
}

/// The place of a category among all of them.
spec fn position(cat: FileCategory) -> int {
    match cat {
        FileCategory::Video => 0,
        FileCategory::Image => 1,
        FileCategory::Audio => 2,
        FileCategory::Document => 3,
        FileCategory::Archive => 4,
        FileCategory::Code => 5,
        FileCategory::Other => 6,
    }
}

fn index_of(cat: FileCategory) -> (index: usize)
    ensures
        index == position(cat),
        index < 7,
{
    match cat {
        FileCategory::Video => 0,
        FileCategory::Image => 1,
        FileCategory::Audio => 2,
        FileCategory::Document => 3,
        FileCategory::Archive => 4,
        FileCategory::Code => 5,
        FileCategory::Other => 6,
    }
}

/// Bytes and numbers of files add up.
proof fn lemma_category_add(a: Seq<Tree>, b: Seq<Tree>)
    ensures
        forall|cat: FileCategory| #[trigger]
            category_bytes(a + b, cat) == category_bytes(a, cat) + category_bytes(b, cat),
        forall|cat: FileCategory| #[trigger]
            category_count(a + b, cat) == category_count(a, cat) + category_count(b, cat),
{
    assert forall|cat: FileCategory|
        category_bytes(a + b, cat) == category_bytes(a, cat) + category_bytes(b, cat)
            && category_count(a + b, cat) == category_count(a, cat) + category_count(b, cat) by {
        Seq::filter_distributes_over_add(a, b, |file: Tree| category_of(file.name) == cat);
        tree::lemma_total_add(of_category(a, cat), of_category(b, cat));
    }
}

/// Adds the files in `node` to the totals, and asks `cancelled` before each
/// node. False where that answered yes.
fn collect_stats<F: Fn() -> bool>(node: &FileNode, totals: &mut Totals, cancelled: &F) -> (done:
    bool)
    requires
        cancelled.requires(()),
        old(totals).wf(),
        old(totals).room(tree::files(node@)),
    ensures
        done ==> final(totals).adds(*old(totals), tree::files(node@)),
        cancelled.ensures((), !done),
    decreases node@,
{
    if cancelled() {
        return false;
    }
    let ghost start = *totals;
    let ghost kids = node@.kids;
    let ghost own: Seq<Tree> = if node@.dir {
        Seq::empty()
    } else {
        seq![node@]
    };
    let ghost all = tree::files(node@);
    proof {
        assert(all =~= own + tree::files_of(kids));
        lemma_category_add(own, tree::files_of(kids));
        assert(tree::files_of(kids.take(0)) =~= Seq::empty());
        assert(own + tree::files_of(kids.take(0)) =~= own);
        lemma_category_one(node@);
        lemma_category_none();
    }
    if !node.is_dir() {
        let cat = categorize(node.name());
        let at: usize = index_of(cat);
        proof {
            assert(category_bytes(own, cat) == node@.size);
            assert(category_count(own, cat) == 1);
            assert(start.bytes@[position(cat)] + category_bytes(all, cat) <= u64::MAX);
            assert(start.count@[position(cat)] + category_count(all, cat) <= usize::MAX);
            assert(category_bytes(all, cat) == category_bytes(own, cat) + category_bytes(
                tree::files_of(kids),
                cat,
            ));
            assert(category_count(all, cat) == category_count(own, cat) + category_count(
                tree::files_of(kids),
                cat,
            ));
        }
        let bytes: u64 = totals.bytes[at];
        let count: usize = totals.count[at];
        totals.bytes.set(at, bytes + node.size());
        totals.count.set(at, count + 1);
        assert(totals.adds(start, own));
    } else {
        assert(totals.adds(start, own));
    }
    let children = node.children();
    let mut i: usize = 0;
    while i < children.len()
        invariant
            i <= children@.len(),
            kids == node@.kids,
            kids == tree::trees(children@),
            all == own + tree::files_of(kids),
            start.room(all),
            cancelled.requires(()),
            totals.adds(start, own + tree::files_of(kids.take(i as int))),
        decreases children@.len() - i,
    {
        let ghost sofar = own + tree::files_of(kids.take(i as int));
        let ghost here = tree::files(kids[i as int]);
        let ghost before = *totals;
        proof {
            tree::lemma_files_step(kids, i as int);
            tree::lemma_files_prefix(kids, i + 1);
            let rest = choose|rest: Seq<Tree>|
                tree::files_of(kids) == #[trigger] (tree::files_of(kids.take(i + 1)) + rest);
            assert(children@[i as int]@ == kids[i as int]);
            assert(all =~= (sofar + here) + rest);
            lemma_category_add(sofar + here, rest);
            lemma_category_add(sofar, here);
            assert forall|cat: FileCategory|
                before.bytes@[position(cat)] + #[trigger] category_bytes(here, cat) <= u64::MAX by {
                assert(start.bytes@[position(cat)] + category_bytes(all, cat) <= u64::MAX);
                assert(before.bytes@[position(cat)] == start.bytes@[position(cat)] + category_bytes(
                    sofar,
                    cat,
                ));
                assert(category_bytes(all, cat) == category_bytes(sofar + here, cat)
                    + category_bytes(rest, cat));
                assert(category_bytes(sofar + here, cat) == category_bytes(sofar, cat)
                    + category_bytes(here, cat));
            }
            assert forall|cat: FileCategory|
                before.count@[position(cat)] + #[trigger] category_count(here, cat) <= usize::MAX by {
                assert(start.count@[position(cat)] + category_count(all, cat) <= usize::MAX);
                assert(before.count@[position(cat)] == start.count@[position(cat)] + category_count(
                    sofar,
                    cat,
                ));
                assert(category_count(all, cat) == category_count(sofar + here, cat)
                    + category_count(rest, cat));
                assert(category_count(sofar + here, cat) == category_count(sofar, cat)
                    + category_count(here, cat));
            }
        }
        if !collect_stats(&children[i], totals, cancelled) {
            return false;
        }
        proof {
            assert(own + tree::files_of(kids.take(i + 1)) =~= sofar + here);
            assert forall|cat: FileCategory|
                totals.bytes@[position(cat)] == start.bytes@[position(cat)]
                    + #[trigger] category_bytes(sofar + here, cat) by {
                assert(totals.bytes@[position(cat)] == before.bytes@[position(cat)]
                    + category_bytes(here, cat));
                assert(before.bytes@[position(cat)] == start.bytes@[position(cat)]
                    + category_bytes(sofar, cat));
            }
            assert forall|cat: FileCategory|
                totals.count@[position(cat)] == start.count@[position(cat)]
                    + #[trigger] category_count(sofar + here, cat) by {
                assert(totals.count@[position(cat)] == before.count@[position(cat)]
                    + category_count(here, cat));
                assert(before.count@[position(cat)] == start.count@[position(cat)]
                    + category_count(sofar, cat));
            }
        }
        i += 1;
    }
    assert(kids.take(i as int) =~= kids);
    true
}

proof fn lemma_category_one(file: Tree)
    ensures
        forall|cat: FileCategory| #[trigger]
            category_bytes(seq![file], cat) == if category_of(file.name) == cat {
                file.size as nat
            } else {
                0
            },
        forall|cat: FileCategory| #[trigger]
            category_count(seq![file], cat) == if category_of(file.name) == cat {
                1nat
            } else {
                0
            },
{
    reveal(Seq::filter);
    assert forall|cat: FileCategory|
        category_bytes(seq![file], cat) == (if category_of(file.name) == cat {
            file.size as nat
        } else {
            0
        }) && category_count(seq![file], cat) == (if category_of(file.name) == cat {
            1nat
        } else {
            0
        }) by {
        let one = seq![file];
        assert(one.drop_last() =~= Seq::empty());
        reveal_with_fuel(Seq::filter, 2);
        reveal_with_fuel(tree::total_size, 2);
    }
}

proof fn lemma_category_none()
    ensures
        forall|cat: FileCategory| #[trigger] category_bytes(Seq::empty(), cat) == 0,
        forall|cat: FileCategory| #[trigger] category_count(Seq::empty(), cat) == 0,
{
    reveal(Seq::filter);
}

/// The statistics of the files in `tree`, unless `cancelled` answers yes
/// before a node. It is asked at least once: where there are statistics it
/// has answered no, and where there are none it has answered yes.
pub fn compute_stats_inner<F: Fn() -> bool>(tree: &FileNode, cancelled: &F) -> (stats: Option<
    CategoryStats,
>)
    requires
        cancelled.requires(()),
        countable(tree::files(tree@)),
    ensures
        stats is Some ==> stats->0.entries@ == stats_of(tree::files(tree@)),
        cancelled.ensures((), stats is None),
{
    let ghost files = tree::files(tree@);
    let mut totals = Totals { bytes: vec![0u64; 7], count: vec![0usize; 7] };
    proof {
        assert forall|cat: FileCategory|
            totals.bytes@[position(cat)] + #[trigger] category_bytes(files, cat) <= u64::MAX by {}
        assert forall|cat: FileCategory|
            totals.count@[position(cat)] + #[trigger] category_count(files, cat) <= usize::MAX by {
            assert(category_bytes(files, cat) <= u64::MAX);
        }
    }
    if !collect_stats(tree, &mut totals, cancelled) {
        return None;
    }
    let mut entries: Vec<(FileCategory, u64, usize)> = Vec::new();
    let mut keys: Vec<u64> = Vec::new();
    let mut i: usize = 0;
    while i < 7
        invariant
            i <= 7,
            totals.wf(),
            files == tree::files(tree@),
            forall|cat: FileCategory|
                totals.bytes@[position(cat)] == #[trigger] category_bytes(files, cat),
            forall|cat: FileCategory|
                totals.count@[position(cat)] == #[trigger] category_count(files, cat),
            entries@ == present(files, i as int),
            keys@ == entry_bytes(entries@),
        decreases 7 - i,
    {
        let cat: FileCategory = ALL[i];
        proof {
            assert(position(cat) == i);
            assert(totals.bytes@[position(cat)] == category_bytes(files, cat));
            assert(totals.count@[position(cat)] == category_count(files, cat));
        }
        if totals.count[i] != 0 {
            entries.push((cat, totals.bytes[i], totals.count[i]));
            keys.push(totals.bytes[i]);
            assert(keys@ =~= entry_bytes(entries@));
        }
        i += 1;
    }
    let order = rank(&keys);
    Some(CategoryStats { entries: pick(entries, &order) })
}

/// Compute file category statistics from a scanned tree.
pub fn compute_stats(tree: &FileNode) -> (stats: CategoryStats)
    requires
        countable(tree::files(tree@)),
    ensures
        stats.entries@ == stats_of(tree::files(tree@)),
{
    let never = || -> (stop: bool)
        ensures
            !stop,
        { false };
    compute_stats_inner(tree, &never).unwrap()
}

/// Compute file category statistics, or give up once `cancelled` is set.
/// There are none only where a read of it has given true, and some only where
/// one has given false.
pub fn compute_stats_cancellable(tree: &FileNode, cancelled: &AtomicBool) -> (stats: Option<
    CategoryStats,
>)
    requires
        countable(tree::files(tree@)),
    ensures
        stats is Some ==> stats->0.entries@ == stats_of(tree::files(tree@)),
        call_ensures(
            AtomicBool::load,
            (cancelled, std::sync::atomic::Ordering::Relaxed),
            stats is None,
        ),
{
    let ask = || -> (stop: bool)
        ensures
            call_ensures(AtomicBool::load, (cancelled, std::sync::atomic::Ordering::Relaxed), stop),
        { cancelled.load(std::sync::atomic::Ordering::Relaxed) };
    compute_stats_inner(tree, &ask)
}

/// The bytes of all categories together.
pub open spec fn all_bytes(files: Seq<Tree>) -> nat {
    category_bytes(files, FileCategory::Video) + category_bytes(files, FileCategory::Image)
        + category_bytes(files, FileCategory::Audio) + category_bytes(files, FileCategory::Document)
        + category_bytes(files, FileCategory::Archive) + category_bytes(files, FileCategory::Code)
        + category_bytes(files, FileCategory::Other)
}

/// The files of all categories together.
pub open spec fn all_count(files: Seq<Tree>) -> nat {
    category_count(files, FileCategory::Video) + category_count(files, FileCategory::Image)
        + category_count(files, FileCategory::Audio) + category_count(files, FileCategory::Document)
        + category_count(files, FileCategory::Archive) + category_count(files, FileCategory::Code)
        + category_count(files, FileCategory::Other)
}

/// Every file counts in exactly one category: the categories together have as
/// many files and bytes as there are.
pub proof fn lemma_categories_partition(files: Seq<Tree>)
    ensures
        all_bytes(files) == tree::total_size(files),
        all_count(files) == files.len(),
    decreases files.len(),
{
    lemma_category_none();
    if files.len() == 0 {
        assert(files =~= Seq::empty());
    } else {
        let (front, last) = (files.drop_last(), files.last());
        lemma_categories_partition(front);
        lemma_category_add(front, seq![last]);
        lemma_category_one(last);
        assert(files =~= front + seq![last]);
    }
}

/// A category has files exactly where the tree holds one of it.
pub proof fn lemma_count_is_presence(tree: Tree, cat: FileCategory)
    ensures
        (category_count(tree::files(tree), cat) > 0) == has_category(tree, cat),
{
    let files = tree::files(tree);
    let keep = |file: Tree| category_of(file.name) == cat;
    let kept = files.filter(keep);
    if kept.len() > 0 {
        crate::seqs::lemma_filter_contains(files, keep, kept[0]);
        assert(kept.contains(kept[0]));
        let i = files.index_of(kept[0]);
        assert(category_of(files[i].name) == cat);
    }
    if has_category(tree, cat) {
        let i = choose|i: int| 0 <= i < files.len() && category_of(#[trigger] files[i].name) == cat;
        crate::seqs::lemma_filter_contains(files, keep, files[i]);
        assert(files.contains(files[i]));
    }
}

/// The statistics list the category with most bytes first.
pub proof fn lemma_stats_largest_first(files: Seq<Tree>, i: int, j: int)
    requires
        0 <= i <= j < stats_of(files).len(),
    ensures
        stats_of(files)[i].1 >= stats_of(files)[j].1,
{
    let entries = present(files, 7);
    let keys = entry_bytes(entries);
    lemma_present_short(files, 7);
    let order = order::lemma_order_exists(keys);
    if i < j {
        assert(order::comes_first(keys, order[i] as int, order[j] as int));
    }
    assert(order[i] < keys.len() && order[j] < keys.len());
}

proof fn lemma_present_short(files: Seq<Tree>, n: int)
    requires
        0 <= n,
    ensures
        present(files, n).len() <= n,
    decreases n,
{
    if n > 0 {
        lemma_present_short(files, n - 1);
    }
}

proof fn lemma_present_entries(files: Seq<Tree>, n: int)
    requires
        0 <= n <= 7,
    ensures
        forall|i: int|
            0 <= i < present(files, n).len() ==> ({
                let entry = #[trigger] present(files, n)[i];
                &&& entry.1 == category_bytes(files, entry.0) as u64
                &&& entry.2 == category_count(files, entry.0) as usize
                &&& category_count(files, entry.0) > 0
                &&& position(entry.0) < n
            }),
        forall|i: int, j: int|
            0 <= i < j < present(files, n).len() ==> (#[trigger] present(files, n)[i]).0 != (
            #[trigger] present(files, n)[j]).0,
        forall|cat: FileCategory|
            #![trigger position(cat)]
            position(cat) < n && category_count(files, cat) > 0 ==> exists|i: int|
                0 <= i < present(files, n).len() && (#[trigger] present(files, n)[i]).0 == cat,
    decreases n,
{
    if n > 0 {
        lemma_present_entries(files, n - 1);
        let (before, all) = (present(files, n - 1), present(files, n));
        let cat = ALL@[n - 1];
        assert(position(cat) == n - 1);
        assert forall|other: FileCategory|
            #![trigger position(other)]
            position(other) < n && category_count(files, other) > 0 implies exists|i: int|
            0 <= i < all.len() && (#[trigger] all[i]).0 == other by {
            if other == cat {
                assert(all[all.len() - 1].0 == cat);
            } else {
                assert(position(other) != n - 1) by {
                    assert(ALL@[position(other)] == other);
                }
                let i = choose|i: int| 0 <= i < before.len() && (#[trigger] before[i]).0 == other;
                assert(all[i] == before[i]);
            }
        }
    }
}

/// The statistics of a tree tell, for each category of which the tree holds files, how
/// many they are and how many bytes are in them; each category once, and none of which
/// there is no file.
pub proof fn lemma_totals(tree: &FileNode, stats: CategoryStats, cat: FileCategory)
    requires
        countable(tree::files(tree@)),
        call_ensures(compute_stats, (tree,), stats),
    ensures
        ({
            let mine = tree::files(tree@).filter(|file: Tree| category_of(file.name) == cat);
            &&& (exists|i: int| 0 <= i < stats.entries@.len() && stats.entries@[i].0 == cat)
                <==> mine.len() > 0
            &&& forall|i: int|
                0 <= i < stats.entries@.len() && (#[trigger] stats.entries@[i]).0 == cat ==> {
                    &&& stats.entries@[i].1 == tree::total_size(mine)
                    &&& stats.entries@[i].2 == mine.len()
                }
            &&& forall|i: int, j: int|
                0 <= i < j < stats.entries@.len() ==> (#[trigger] stats.entries@[i]).0 != (
                #[trigger] stats.entries@[j]).0
        }),
{
    let files = tree::files(tree@);
    let mine = files.filter(|file: Tree| category_of(file.name) == cat);
    assert(mine == of_category(files, cat));
    let entries = present(files, 7);
    let keys = entry_bytes(entries);
    lemma_present_short(files, 7);
    lemma_present_entries(files, 7);
    let order = order::lemma_order_exists(keys);
    order::lemma_ranked_distinct(keys, order);
    let listed = stats.entries@;
    assert(listed == order::picked(entries, order));
    assert(category_bytes(files, cat) <= u64::MAX);
    assert forall|i: int| 0 <= i < listed.len() implies (#[trigger] listed[i])
        == entries[order[i] as int] && order[i] < entries.len() by {}
    if mine.len() > 0 {
        assert(position(cat) < 7);
        let k = choose|k: int| 0 <= k < entries.len() && (#[trigger] entries[k]).0 == cat;
        order::lemma_covers(order, k as usize);
        let i = order.index_of(k as usize);
        assert(listed[i].0 == cat);
    }
}

proof fn lemma_bytes_in_front(
    a: Seq<(FileCategory, u64, usize)>,
    b: Seq<(FileCategory, u64, usize)>,
    n: nat,
)
    requires
        n <= a.len() <= b.len(),
        a == b.take(a.len() as int),
    ensures
        bytes_in(a, n) == bytes_in(b, n),
    decreases n,
{
    if n > 0 {
        lemma_bytes_in_front(a, b, (n - 1) as nat);
        assert(a[n - 1] == b[n - 1]);
    }
}

/// No entries have no bytes, and one more entry adds its own, as long as they can be
/// counted.
pub proof fn lemma_total_bytes(
    stats: &CategoryStats,
    more: &CategoryStats,
    entry: (FileCategory, u64, usize),
    total: Option<u64>,
    with: Option<u64>,
)
    requires
        more.entries@ == stats.entries@.push(entry),
        call_ensures(CategoryStats::total_bytes, (stats,), total),
        call_ensures(CategoryStats::total_bytes, (more,), with),
    ensures
        stats.entries@.len() == 0 ==> total == Some(0u64),
        total is None ==> with is None,
        total matches Some(total) ==> if total + entry.1 <= u64::MAX {
            with == Some((total + entry.1) as u64)
        } else {
            with is None
        },
{
    let (a, b) = (stats.entries@, more.entries@);
    assert(b.take(a.len() as int) =~= a);
    lemma_bytes_in_front(a, b, a.len());
    assert(b[a.len() as int] == entry);
    assert(bytes_in(b, b.len()) == bytes_in(a, a.len()) + entry.1);
}

} // verus!
