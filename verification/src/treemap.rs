//! What a treemap shows: which entries get a tile, in which colour, and what
//! is folded together.

use vstd::prelude::*;

use crate::categories;
use crate::categories::{node_matches_category, FileCategory};
use crate::color;
use crate::color::Rgb;
use crate::navigate;
use crate::navigate::{breadcrumbs, find_node};
use crate::order;
use crate::order::rank;
use crate::path;
use crate::path::{NodePath, Place};
use crate::scanner;
use crate::scanner::dir_name;
use crate::sizes;
use crate::sizes::fmt_size_compact;
use crate::text;
use crate::text::{is_listed, lower_extension, owned, push_decimal};
use crate::tree;
use crate::tree::{FileNode, Tree};

verus! {

// Colours.

pub const SOURCE: [&'static str; 18] = [
    "rs",
    "js",
    "ts",
    "py",
    "go",
    "c",
    "cpp",
    "h",
    "hpp",
    "java",
    "rb",
    "swift",
    "kt",
    "cs",
    "jsx",
    "tsx",
    "vue",
    "svelte",
];

pub const CONFIG: [&'static str; 9] = [
    "json",
    "yaml",
    "yml",
    "toml",
    "xml",
    "ini",
    "cfg",
    "conf",
    "lock",
];

pub const MARKUP: [&'static str; 8] = ["html", "htm", "css", "scss", "sass", "less", "md", "mdx"];

pub const BUILD_OUTPUT: [&'static str; 9] = [
    "o",
    "obj",
    "a",
    "lib",
    "rlib",
    "d",
    "rmeta",
    "wasm",
    "class",
];

pub const EXECUTABLE: [&'static str; 9] = [
    "exe",
    "dll",
    "so",
    "dylib",
    "app",
    "bin",
    "msi",
    "deb",
    "rpm",
];

pub const TEMPORARY: [&'static str; 6] = ["log", "tmp", "cache", "bak", "swp", "swo"];

/// The colour of an extension in small letters.
pub open spec fn extension_hue(ext: Seq<char>) -> Rgb {
    if text::listed(ext, categories::VIDEO@) {
        color::rgb(192, 57, 43)
    } else if text::listed(ext, categories::IMAGE@) {
        color::rgb(39, 174, 96)
    } else if text::listed(ext, categories::AUDIO@) {
        color::rgb(142, 68, 173)
    } else if text::listed(ext, categories::DOCUMENT@) {
        color::rgb(41, 128, 185)
    } else if text::listed(ext, categories::ARCHIVE@) {
        color::rgb(211, 84, 0)
    } else if text::listed(ext, SOURCE@) {
        color::rgb(22, 160, 133)
    } else if text::listed(ext, CONFIG@) {
        color::rgb(44, 62, 80)
    } else if text::listed(ext, MARKUP@) {
        color::rgb(26, 188, 156)
    } else if text::listed(ext, BUILD_OUTPUT@) {
        color::rgb(146, 43, 33)
    } else if text::listed(ext, EXECUTABLE@) {
        color::rgb(230, 126, 34)
    } else if text::listed(ext, TEMPORARY@) {
        color::rgb(127, 140, 141)
    } else {
        color::rgb(93, 109, 126)
    }
}

/// The colour of an entry: one for directories, and for files by extension.
pub open spec fn entry_hue(name: Seq<char>, is_dir: bool) -> Rgb {
    if is_dir {
        color::rgb(70, 75, 85)
    } else {
        extension_hue(text::lowered(text::extension(name)))
    }
}

/// Returns a fill color based on file extension category.
pub fn extension_color(name: &str, is_dir: bool) -> (fill: Rgb)
    ensures
        fill == entry_hue(name@, is_dir),
{
    if is_dir {
        return Rgb { r: 70, g: 75, b: 85 };
    }
    let ext = lower_extension(name);
    let ext: &str = ext.as_str();
    if is_listed(ext, &categories::VIDEO) {
        Rgb { r: 192, g: 57, b: 43 }
    } else if is_listed(ext, &categories::IMAGE) {
        Rgb { r: 39, g: 174, b: 96 }
    } else if is_listed(ext, &categories::AUDIO) {
        Rgb { r: 142, g: 68, b: 173 }
    } else if is_listed(ext, &categories::DOCUMENT) {
        Rgb { r: 41, g: 128, b: 185 }
    } else if is_listed(ext, &categories::ARCHIVE) {
        Rgb { r: 211, g: 84, b: 0 }
    } else if is_listed(ext, &SOURCE) {
        Rgb { r: 22, g: 160, b: 133 }
    } else if is_listed(ext, &CONFIG) {
        Rgb { r: 44, g: 62, b: 80 }
    } else if is_listed(ext, &MARKUP) {
        Rgb { r: 26, g: 188, b: 156 }
    } else if is_listed(ext, &BUILD_OUTPUT) {
        Rgb { r: 146, g: 43, b: 33 }
    } else if is_listed(ext, &EXECUTABLE) {
        Rgb { r: 230, g: 126, b: 34 }
    } else if is_listed(ext, &TEMPORARY) {
        Rgb { r: 127, g: 140, b: 141 }
    } else {
        Rgb { r: 93, g: 109, b: 126 }
    }
}

/// `component` reduced by `amount`, but not below zero.
pub open spec fn darker(component: u8, amount: u8) -> u8 {
    if component >= amount {
        (component - amount) as u8
    } else {
        0
    }
}

/// The colour with every component reduced by `amount`.
pub fn darken(c: Rgb, amount: u8) -> (dark: Rgb)
    ensures
        dark == color::rgb(darker(c.r, amount), darker(c.g, amount), darker(c.b, amount)),
{
    Rgb {
        r: c.r.saturating_sub(amount),
        g: c.g.saturating_sub(amount),
        b: c.b.saturating_sub(amount),
    }
}

/// The colour of the entry with this rank; every eighth is the same.
pub open spec fn rank_hue(rank: nat) -> Rgb {
    let i = rank % 8;
    if i == 0 {
        color::rgb(58, 93, 139)
    } else if i == 1 {
        color::rgb(42, 109, 77)
    } else if i == 2 {
        color::rgb(122, 74, 48)
    } else if i == 3 {
        color::rgb(74, 58, 107)
    } else if i == 4 {
        color::rgb(90, 74, 58)
    } else if i == 5 {
        color::rgb(48, 90, 100)
    } else if i == 6 {
        color::rgb(110, 60, 90)
    } else {
        color::rgb(86, 86, 56)
    }
}

/// Per-rank colour of the tiles, the largest first.
pub fn scan_rank_palette(idx: usize) -> (fill: Rgb)
    ensures
        fill == rank_hue(idx as nat),
{
    let i: usize = idx % 8;
    if i == 0 {
        Rgb { r: 58, g: 93, b: 139 }
    } else if i == 1 {
        Rgb { r: 42, g: 109, b: 77 }
    } else if i == 2 {
        Rgb { r: 122, g: 74, b: 48 }
    } else if i == 3 {
        Rgb { r: 74, g: 58, b: 107 }
    } else if i == 4 {
        Rgb { r: 90, g: 74, b: 58 }
    } else if i == 5 {
        Rgb { r: 48, g: 90, b: 100 }
    } else if i == 6 {
        Rgb { r: 110, g: 60, b: 90 }
    } else {
        Rgb { r: 86, g: 86, b: 56 }
    }
}

// Which entries get a tile.

/// Hard cap on visible top-level entries.
pub const MAX_VISIBLE_ENTRIES: usize = 200;

/// Maximum nested children to show inside a directory tile.
pub const MAX_NESTED_CHILDREN: usize = 50;

/// Budget for nested tiles across all directory tiles.
pub const MAX_TOTAL_NESTED: usize = 1000;

/// Whether an entry is shown at all: it has a size, is not hidden away, and is
/// or holds what the category filter asks for.
pub open spec fn eligible(kid: Tree, category: Option<FileCategory>, show_hidden: bool) -> bool {
    &&& kid.size > 0
    &&& show_hidden || !kid.hidden
    &&& category is Some ==> categories::has_category(kid, category->0)
}

/// The entries of a node that are shown.
pub open spec fn candidates(
    tree: Tree,
    category: Option<FileCategory>,
    show_hidden: bool,
) -> Seq<Tree> {
    tree.kids.filter(|kid: Tree| eligible(kid, category, show_hidden))
}

/// The entries that are not small files: directories, and what reaches the
/// threshold.
pub open spec fn prominent(entries: Seq<Tree>, threshold: u64) -> Seq<Tree> {
    entries.filter(|entry: Tree| entry.dir || entry.size >= threshold)
}

/// The first `limit` of the entries, the largest first, where there are more
/// than that; else all of them as they stand.
pub open spec fn largest(entries: Seq<Tree>, limit: nat) -> Seq<Tree> {
    if entries.len() > limit {
        tree::by_size(entries).take(limit as int)
    } else {
        entries
    }
}

/// The entries that get a tile of their own.
pub open spec fn tiled(
    tree: Tree,
    category: Option<FileCategory>,
    show_hidden: bool,
    threshold: u64,
) -> Seq<Tree> {
    largest(
        prominent(candidates(tree, category, show_hidden), threshold),
        MAX_VISIBLE_ENTRIES as nat,
    )
}

/// The nodes behind references, as mathematical values.
pub open spec fn referred(nodes: Seq<&FileNode>) -> Seq<Tree> {
    nodes.map_values(|node: &FileNode| node@)
}

fn select_candidates<'a>(
    node: &'a FileNode,
    category_filter: Option<FileCategory>,
    show_hidden: bool,
) -> (chosen: Vec<&'a FileNode>)
    ensures
        referred(chosen@) == candidates(node@, category_filter, show_hidden),
{
    let children = node.children();
    let ghost kids = node@.kids;
    let ghost keep = |kid: Tree| eligible(kid, category_filter, show_hidden);
    let mut chosen: Vec<&'a FileNode> = Vec::new();
    let mut i: usize = 0;
    proof {
        reveal(Seq::filter);
        assert(kids.take(0).filter(keep) =~= Seq::empty());
        assert(referred(chosen@) =~= kids.take(0).filter(keep));
    }
    while i < children.len()
        invariant
            i <= children@.len(),
            kids == tree::trees(children@),
            keep == (|kid: Tree| eligible(kid, category_filter, show_hidden)),
            referred(chosen@) == kids.take(i as int).filter(keep),
        decreases children@.len() - i,
    {
        let child = &children[i];
        let ghost before = referred(chosen@);
        proof {
            reveal(Seq::filter);
            assert(child@ == kids[i as int]);
            assert(kids.take(i + 1).drop_last() =~= kids.take(i as int));
        }
        let wanted: bool = match category_filter {
            Some(cat) => node_matches_category(child, cat),
            None => true,
        };
        if child.size() > 0 && (show_hidden || !child.is_hidden()) && wanted {
            chosen.push(child);
            assert(referred(chosen@) =~= before.push(child@));
        }
        i += 1;
    }
    assert(kids.take(i as int) =~= kids);
    chosen
}

fn select_prominent<'a>(entries: &Vec<&'a FileNode>, threshold: u64) -> (chosen: Vec<&'a FileNode>)
    ensures
        referred(chosen@) == prominent(referred(entries@), threshold),
{
    let ghost all = referred(entries@);
    let ghost keep = |entry: Tree| entry.dir || entry.size >= threshold;
    let mut chosen: Vec<&'a FileNode> = Vec::new();
    let mut i: usize = 0;
    proof {
        reveal(Seq::filter);
        assert(all.take(0).filter(keep) =~= Seq::empty());
        assert(referred(chosen@) =~= all.take(0).filter(keep));
    }
    while i < entries.len()
        invariant
            i <= entries@.len(),
            all == referred(entries@),
            keep == (|entry: Tree| entry.dir || entry.size >= threshold),
            referred(chosen@) == all.take(i as int).filter(keep),
        decreases entries@.len() - i,
    {
        let entry = entries[i];
        let ghost before = referred(chosen@);
        proof {
            reveal(Seq::filter);
            assert(entry@ == all[i as int]);
            assert(all.take(i + 1).drop_last() =~= all.take(i as int));
        }
        if entry.is_dir() || entry.size() >= threshold {
            chosen.push(entry);
            assert(referred(chosen@) =~= before.push(entry@));
        }
        i += 1;
    }
    assert(all.take(i as int) =~= all);
    chosen
}

fn select_largest<'a>(entries: Vec<&'a FileNode>, limit: usize) -> (chosen: Vec<&'a FileNode>)
    ensures
        referred(chosen@) == largest(referred(entries@), limit as nat),
{
    if entries.len() <= limit {
        return entries;
    }
    let ghost all = referred(entries@);
    let mut keys: Vec<u64> = Vec::new();
    let mut i: usize = 0;
    while i < entries.len()
        invariant
            i <= entries@.len(),
            all == referred(entries@),
            keys@ == tree::sizes(all).take(i as int),
        decreases entries@.len() - i,
    {
        keys.push(entries[i].size());
        i += 1;
        assert(keys@ =~= tree::sizes(all).take(i as int));
    }
    assert(keys@ =~= tree::sizes(all));
    let order = rank(&keys);
    let mut chosen: Vec<&'a FileNode> = Vec::new();
    let mut k: usize = 0;
    assert(referred(chosen@) =~= tree::by_size(all).take(0));
    while k < limit
        invariant
            k <= limit < entries@.len(),
            all == referred(entries@),
            keys@ == tree::sizes(all),
            order::largest_first(keys@, order@),
            order@ == order::order_of(keys@),
            referred(chosen@) == tree::by_size(all).take(k as int),
        decreases limit - k,
    {
        let ghost before = referred(chosen@);
        assert(order@[k as int] < keys@.len());
        let entry = entries[order[k]];
        chosen.push(entry);
        proof {
            assert(entry@ == all[order@[k as int] as int]);
            assert(referred(chosen@) =~= before.push(entry@));
            assert(tree::by_size(all).take(k + 1) =~= before.push(entry@));
        }
        k += 1;
    }
    chosen
}

fn sum_sizes_of(entries: &Vec<&FileNode>) -> (total: u64)
    requires
        tree::total_size(referred(entries@)) <= u64::MAX,
    ensures
        total == tree::total_size(referred(entries@)),
{
    let ghost all = referred(entries@);
    let mut total: u64 = 0;
    let mut i: usize = 0;
    assert(all.take(0) =~= Seq::empty());
    while i < entries.len()
        invariant
            i <= entries@.len(),
            all == referred(entries@),
            tree::total_size(all) <= u64::MAX,
            total == tree::total_size(all.take(i as int)),
        decreases entries@.len() - i,
    {
        proof {
            assert(all.take(i + 1).drop_last() =~= all.take(i as int));
            tree::lemma_total_prefix(all, i + 1);
        }
        total += entries[i].size();
        i += 1;
    }
    assert(all.take(i as int) =~= all);
    total
}

/// What gets a tile is no larger and no more than what is shown.
pub proof fn lemma_tiled_within(entries: Seq<Tree>, threshold: u64, limit: nat)
    requires
        entries.len() <= usize::MAX,
    ensures
        tree::total_size(largest(prominent(entries, threshold), limit)) <= tree::total_size(
            entries,
        ),
        largest(prominent(entries, threshold), limit).len() <= entries.len(),
        largest(prominent(entries, threshold), limit).len() <= limit,
{
    let keep = |entry: Tree| entry.dir || entry.size >= threshold;
    let chosen = prominent(entries, threshold);
    tree::lemma_total_filter(entries, keep);
    if chosen.len() > limit {
        tree::lemma_by_size(chosen);
        tree::lemma_total_prefix(tree::by_size(chosen), limit as int);
    }
}

// The plan of a treemap.

/// A tile-to-be: where it leads, what it is called, and how it is drawn.
pub struct TreemapEntry {
    pub path: NodePath,
    pub name: String,
    pub size: u64,
    pub is_dir: bool,
    pub color: Rgb,
    pub child_count: Option<usize>,
}

/// A tile-to-be as a mathematical value.
pub struct Tile {
    pub at: Place,
    pub name: Seq<char>,
    pub size: u64,
    pub is_dir: bool,
    pub color: Rgb,
    pub child_count: Option<int>,
}

impl View for TreemapEntry {
    type V = Tile;

    open spec fn view(&self) -> Tile {
        Tile {
            at: self.path.place(),
            name: self.name@,
            size: self.size,
            is_dir: self.is_dir,
            color: self.color,
            child_count: match self.child_count {
                Some(n) => Some(n as int),
                None => None,
            },
        }
    }
}

/// The entries that are folded into one block.
pub struct OtherEntries {
    pub count: usize,
    pub size: u64,
    pub label_short: String,
}

/// Everything about a treemap but where its tiles lie.
pub struct TreemapPlan {
    pub entries: Vec<TreemapEntry>,
    pub other: Option<OtherEntries>,
    pub breadcrumbs: Vec<(String, NodePath)>,
    pub view_path: NodePath,
    pub view_size: u64,
    pub view_size_label: String,
}

/// The node that is viewed and its path: the one at `zoom` where the tree has
/// it, else the root.
pub open spec fn viewed(root: Tree, zoom: Option<Place>) -> (Tree, Place) {
    let top = path::place(root.name);
    match zoom {
        Some(target) => match navigate::node_at(root, top.parts, target.parts) {
            Some(node) => (node, target),
            None => (root, top),
        },
        None => (root, top),
    }
}

/// The tile of an entry of the folder at `at`.
pub open spec fn tile_of(entry: Tree, at: Place, color: Rgb) -> Tile {
    Tile {
        at: path::join_place(at, entry.name),
        name: entry.name,
        size: entry.size,
        is_dir: entry.dir,
        color,
        child_count: if entry.dir {
            Some(entry.kids.len() as int)
        } else {
            None
        },
    }
}

/// The tiles of entries of the folder at `at`, coloured by their place.
pub open spec fn tiles_of(entries: Seq<Tree>, at: Place) -> Seq<Tile> {
    entries.map(|i: int, entry: Tree| tile_of(entry, at, rank_hue(i as nat)))
}

/// The tiles of entries of the folder at `at`, coloured by what they are.
pub open spec fn plain_tiles_of(entries: Seq<Tree>, at: Place) -> Seq<Tile> {
    entries.map_values(|entry: Tree| tile_of(entry, at, entry_hue(entry.name, entry.dir)))
}

/// The tiles as mathematical values.
pub open spec fn tile_views(entries: Seq<TreemapEntry>) -> Seq<Tile> {
    entries.map_values(|entry: TreemapEntry| entry@)
}

/// A path that may be missing.
pub open spec fn path_of(path: Option<&NodePath>) -> Option<Place> {
    match path {
        Some(path) => Some(path.place()),
        None => None,
    }
}

/// The trail of names that leads to the view.
pub open spec fn view_trail(root: Tree, zoom: Option<Place>) -> Seq<navigate::Crumb> {
    match zoom {
        Some(target) => navigate::trail(root, target.parts),
        None => seq![(root.name, path::place(root.name))],
    }
}

/// The label of the folded entries.
pub open spec fn other_label(count: nat) -> Seq<char> {
    "Other ("@ + text::decimal(count) + ")"@
}

/// The label of the size of the view.
pub open spec fn view_label(size: nat) -> Seq<char> {
    "  ("@ + sizes::compact(size) + ")"@
}

fn view_node<'a>(root: &'a FileNode, zoom: Option<&NodePath>) -> (view: (&'a FileNode, NodePath))
    ensures
        (view.0@, view.1.place()) == viewed(root@, path_of(zoom)),
{
    let top = NodePath::new(root.name());
    match zoom {
        Some(target) => match find_node(root, target) {
            Some(node) => (node, target.clone()),
            None => (root, top),
        },
        None => (root, top),
    }
}

/// The size of all that the view shows, from which the threshold for small
/// files is derived.
pub fn treemap_total(
    root: &FileNode,
    zoom: Option<&NodePath>,
    category_filter: Option<FileCategory>,
    show_hidden: bool,
) -> (total: u64)
    requires
        tree::total_size(viewed(root@, path_of(zoom)).0.kids) <= u64::MAX,
    ensures
        total == tree::total_size(
            candidates(viewed(root@, path_of(zoom)).0, category_filter, show_hidden),
        ),
{
    let (node, _) = view_node(root, zoom);
    let chosen = select_candidates(node, category_filter, show_hidden);
    proof {
        tree::lemma_total_filter(
            node@.kids,
            |kid: Tree| eligible(kid, category_filter, show_hidden),
        );
    }
    sum_sizes_of(&chosen)
}

fn make_tile(entry: &FileNode, at: &NodePath, color: Rgb) -> (tile: TreemapEntry)
    ensures
        tile@ == tile_of(entry@, at.place(), color),
{
    let is_dir: bool = entry.is_dir();
    TreemapEntry {
        path: at.join(entry.name()),
        name: owned(entry.name()),
        size: entry.size(),
        is_dir,
        color,
        child_count: if is_dir {
            Some(entry.children().len())
        } else {
            None
        },
    }
}

fn make_tiles(entries: &Vec<&FileNode>, at: &NodePath) -> (tiles: Vec<TreemapEntry>)
    ensures
        tile_views(tiles@) == tiles_of(referred(entries@), at.place()),
{
    let ghost all = referred(entries@);
    let mut tiles: Vec<TreemapEntry> = Vec::new();
    let mut i: usize = 0;
    assert(tile_views(tiles@) =~= tiles_of(all, at.place()).take(0));
    while i < entries.len()
        invariant
            i <= entries@.len(),
            all == referred(entries@),
            tile_views(tiles@) == tiles_of(all, at.place()).take(i as int),
        decreases entries@.len() - i,
    {
        let tile = make_tile(entries[i], at, scan_rank_palette(i));
        let ghost before = tile_views(tiles@);
        tiles.push(tile);
        proof {
            assert(entries@[i as int]@ == all[i as int]);
            assert(tile@ == tiles_of(all, at.place())[i as int]);
            assert(tile_views(tiles@) =~= before.push(tile@));
            assert(tiles_of(all, at.place()).take(i + 1) =~= before.push(tile@));
        }
        i += 1;
    }
    assert(tiles_of(all, at.place()).take(i as int) =~= tiles_of(all, at.place()));
    tiles
}

/// Plan a treemap of the view: small files below `threshold` and entries past
/// the cap are folded together, all others get a tile.
pub fn plan_treemap(
    root: &FileNode,
    zoom: Option<&NodePath>,
    category_filter: Option<FileCategory>,
    show_hidden: bool,
    threshold: u64,
) -> (plan: TreemapPlan)
    requires
        tree::total_size(viewed(root@, path_of(zoom)).0.kids) <= u64::MAX,
    ensures
        ({
            let (node, at) = viewed(root@, path_of(zoom));
            let shown = candidates(node, category_filter, show_hidden);
            let own = tiled(node, category_filter, show_hidden, threshold);
            &&& tile_views(plan.entries@) == tiles_of(own, at)
            &&& plan.other is Some <==> own.len() < shown.len()
            &&& plan.other matches Some(other) ==> {
                &&& other.count == shown.len() - own.len()
                &&& other.size == tree::total_size(shown) - tree::total_size(own)
                &&& other.label_short@ == other_label(other.count as nat)
            }
            &&& navigate::crumb_views(plan.breadcrumbs@) == view_trail(root@, path_of(zoom))
            &&& plan.view_path.place() == at
            &&& plan.view_size == node.size
            &&& plan.view_size_label@ == view_label(node.size as nat)
        }),
{
    let (node, at) = view_node(root, zoom);
    let shown = select_candidates(node, category_filter, show_hidden);
    let ghost all = referred(shown@);
    let count: usize = shown.len();
    proof {
        tree::lemma_total_filter(
            node@.kids,
            |kid: Tree| eligible(kid, category_filter, show_hidden),
        );
        lemma_tiled_within(all, threshold, MAX_VISIBLE_ENTRIES as nat);
    }
    let total: u64 = sum_sizes_of(&shown);
    let chosen = select_prominent(&shown, threshold);
    let own = select_largest(chosen, MAX_VISIBLE_ENTRIES);
    let own_total: u64 = sum_sizes_of(&own);
    assert(referred(own@).len() == own@.len());
    let other: Option<OtherEntries> = if own.len() < count {
        let folded: usize = count - own.len();
        let mut label = owned("Other (");
        push_decimal(&mut label, folded as u64);
        label.append(")");
        Some(OtherEntries { count: folded, size: total - own_total, label_short: label })
    } else {
        None
    };
    let crumbs: Vec<(String, NodePath)> = match zoom {
        Some(target) => breadcrumbs(root, target),
        None => {
            let mut crumbs: Vec<(String, NodePath)> = Vec::new();
            crumbs.push((owned(root.name()), NodePath::new(root.name())));
            assert(navigate::crumb_views(crumbs@) =~= view_trail(root@, path_of(zoom)));
            crumbs
        },
    };
    let mut size_label = owned("  (");
    size_label.append(fmt_size_compact(node.size()).as_str());
    size_label.append(")");
    let entries = make_tiles(&own, &at);
    TreemapPlan {
        entries,
        other,
        breadcrumbs: crumbs,
        view_path: at,
        view_size: node.size(),
        view_size_label: size_label,
    }
}

/// The entries shown inside a directory's tile: those with a size, and no more
/// than the cap and the budget allow.
pub open spec fn nested_entries(tree: Tree, budget: nat) -> Seq<Tree> {
    let limit = if budget < MAX_NESTED_CHILDREN {
        budget
    } else {
        MAX_NESTED_CHILDREN as nat
    };
    largest(tree.kids.filter(|kid: Tree| kid.size > 0), limit)
}

/// The tiles inside the tile of the directory at `node_path`, coloured by what they
/// are. A caller that has a colour for the directory shades that instead.
pub fn build_nested_tiles(node: &FileNode, node_path: &NodePath, budget: usize) -> (nested: Vec<
    TreemapEntry,
>)
    ensures
        tile_views(nested@) == plain_tiles_of(nested_entries(node@, budget as nat), node_path.place()),
{
    let shown = select_candidates(node, None, true);
    proof {
        let a = |kid: Tree| eligible(kid, None, true);
        let b = |kid: Tree| kid.size > 0;
        assert(a =~= b);
    }
    let limit: usize = if budget < MAX_NESTED_CHILDREN {
        budget
    } else {
        MAX_NESTED_CHILDREN
    };
    let own = select_largest(shown, limit);
    let ghost all = referred(own@);
    let mut tiles: Vec<TreemapEntry> = Vec::new();
    let mut i: usize = 0;
    assert(tile_views(tiles@) =~= plain_tiles_of(all, node_path.place()).take(0));
    while i < own.len()
        invariant
            i <= own@.len(),
            all == referred(own@),
            tile_views(tiles@) == plain_tiles_of(all, node_path.place()).take(i as int),
        decreases own@.len() - i,
    {
        let entry = own[i];
        let tile = make_tile(entry, node_path, extension_color(entry.name(), entry.is_dir()));
        let ghost before = tile_views(tiles@);
        tiles.push(tile);
        proof {
            assert(entry@ == all[i as int]);
            assert(tile@ == plain_tiles_of(all, node_path.place())[i as int]);
            assert(tile_views(tiles@) =~= before.push(tile@));
            assert(plain_tiles_of(all, node_path.place()).take(i + 1) =~= before.push(tile@));
        }
        i += 1;
    }
    assert(plain_tiles_of(all, node_path.place()).take(i as int) =~= plain_tiles_of(all, node_path.place()));
    tiles
}

/// What a tile at `nested` inside that at `tile` is called: its path from there;
/// where it does not lie there its name, or its path.
pub open spec fn nested_name(tile: Seq<Seq<char>>, nested: Place) -> Seq<char> {
    if tile.len() <= nested.parts.len() && tile == nested.parts.take(tile.len() as int) {
        path::text_from(nested, tile.len())
    } else {
        scanner::dir_label(nested)
    }
}

pub fn nested_label(tile: &NodePath, nested: &NodePath) -> (label: String)
    ensures
        label@ == nested_name(tile@, nested.place()),
{
    match nested.text_below(tile) {
        Some(label) => label,
        None => dir_name(nested),
    }
}

// What a click does.

/// What a treemap asks for.
pub enum TreemapAction {
    ZoomTo(NodePath),
    Focus(NodePath),
}

/// An action as a mathematical value.
pub enum Asked {
    ZoomTo(Place),
    Focus(Place),
}

impl View for TreemapAction {
    type V = Asked;

    open spec fn view(&self) -> Asked {
        match self {
            TreemapAction::ZoomTo(path) => Asked::ZoomTo(path.place()),
            TreemapAction::Focus(path) => Asked::Focus(path.place()),
        }
    }
}

/// Actions as mathematical values.
pub open spec fn asked(actions: Seq<TreemapAction>) -> Seq<Asked> {
    actions.map_values(|action: TreemapAction| action@)
}

/// What a click on a tile asks for: a directory is zoomed to, and either is
/// focused.
pub fn tile_clicked(path: &NodePath, is_dir: bool) -> (actions: Vec<TreemapAction>)
    ensures
        asked(actions@) == if is_dir {
            seq![Asked::ZoomTo(path.place()), Asked::Focus(path.place())]
        } else {
            seq![Asked::Focus(path.place())]
        },
{
    let mut actions: Vec<TreemapAction> = Vec::new();
    if is_dir {
        actions.push(TreemapAction::ZoomTo(path.clone()));
    }
    actions.push(TreemapAction::Focus(path.clone()));
    proof {
        if is_dir {
            assert(asked(actions@) =~= seq![Asked::ZoomTo(path.place()), Asked::Focus(path.place())]);
        } else {
            assert(asked(actions@) =~= seq![Asked::Focus(path.place())]);
        }
    }
    actions
}

/// Where the back button of a trail leads: one step up, where there is one.
pub fn back_target(crumbs: &Vec<(String, NodePath)>) -> (back: Option<NodePath>)
    ensures
        back is Some <==> crumbs@.len() > 1,
        back is Some ==> back->0.place() == crumbs@[crumbs@.len() - 2].1.place(),
{
    if crumbs.len() > 1 {
        Some(crumbs[crumbs.len() - 2].1.clone())
    } else {
        None
    }
}

/// The way back leads one step up the trail; from its beginning there is none.
pub proof fn lemma_way_back(
    crumbs: &Vec<(String, NodePath)>,
    above: Seq<(String, NodePath)>,
    parent: (String, NodePath),
    here: (String, NodePath),
    back: Option<NodePath>,
)
    requires
        call_ensures(back_target, (crumbs,), back),
    ensures
        crumbs@ == above.push(parent).push(here) ==> back is Some && back->0.place()
            == parent.1.place(),
        crumbs@ == seq![here] ==> back is None,
{
    if crumbs@ == above.push(parent).push(here) {
        assert(crumbs@[crumbs@.len() - 2] == parent);
    }
}

} // verus!
