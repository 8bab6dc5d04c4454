//! The rows of the tree view.

use vstd::prelude::*;

use crate::categories;
use crate::categories::{categorize, node_matches_category, FileCategory};
use crate::matching;
use crate::matching::{node_matches, Wanted};
use crate::path;
use crate::path::{NodePath, PathSet, Place};
use crate::text;
use crate::text::{owned, push_decimal, starts_with_dot};
use crate::tree;
use crate::tree::{FileNode, Tree};

verus! {

/// Minimum number of loose files in a folder to trigger grouping.
pub const FILE_GROUP_THRESHOLD: usize = 2;

/// The name under which the row of a file group stands in its folder.
pub const FILE_GROUP_NAME: &'static str = "__file_group__";

/// One row of the tree view. It owns its data, so that it can outlive the
/// frame that drew it.
#[derive(Debug, PartialEq, Eq)]
pub struct CachedRow {
    pub path: NodePath,
    pub name: String,
    pub size: u64,
    pub is_dir: bool,
    pub expanded: bool,
    pub depth: usize,
    pub parent_size: u64,
    pub children_count: usize,
    pub category: FileCategory,
    /// True when the file or folder is hidden.
    pub is_hidden: bool,
    /// True for the rows that stand for the loose files of a folder.
    pub is_file_group: bool,
}

/// A row as a mathematical value.
pub struct Row {
    pub path: Seq<Seq<char>>,
    /// How the path is written.
    pub text: Seq<char>,
    pub name: Seq<char>,
    pub size: u64,
    pub is_dir: bool,
    pub expanded: bool,
    pub depth: int,
    pub parent_size: u64,
    pub children_count: int,
    pub category: FileCategory,
    pub is_hidden: bool,
    pub is_file_group: bool,
}

impl View for CachedRow {
    type V = Row;

    open spec fn view(&self) -> Row {
        Row {
            path: self.path@,
            text: self.path.spelling(),
            name: self.name@,
            size: self.size,
            is_dir: self.is_dir,
            expanded: self.expanded,
            depth: self.depth as int,
            parent_size: self.parent_size,
            children_count: self.children_count as int,
            category: self.category,
            is_hidden: self.is_hidden,
            is_file_group: self.is_file_group,
        }
    }
}

/// The place that a row stands for.
pub open spec fn row_place(row: Row) -> Place {
    Place { parts: row.path, text: row.text }
}

/// The rows as mathematical values.
pub open spec fn row_views(rows: Seq<CachedRow>) -> Seq<Row> {
    rows.map_values(|row: CachedRow| row@)
}

/// What the view shows: a name filter, a category filter, hidden entries or
/// not, the paths that pass the filters where they were computed before, and
/// the folders whose file groups are open.
pub struct Shown {
    pub filter: Seq<char>,
    pub category: Option<FileCategory>,
    pub show_hidden: bool,
    pub text_cache: Option<Set<Seq<Seq<char>>>>,
    pub cat_cache: Option<Set<Seq<Seq<char>>>>,
    pub groups: Option<Set<Seq<Seq<char>>>>,
}

/// Whether the node at `at` has a row.
pub open spec fn visible(tree: Tree, at: Seq<Seq<char>>, shown: Shown) -> bool {
    &&& shown.show_hidden || !tree.hidden
    &&& match shown.text_cache {
        Some(cache) => cache.contains(at),
        None => shown.filter.len() == 0 || matching::holds_wanted(tree, Wanted::Text(shown.filter)),
    }
    &&& match shown.cat_cache {
        Some(cache) => cache.contains(at),
        None => match shown.category {
            Some(cat) => categories::has_category(tree, cat),
            None => true,
        },
    }
}

/// The row of the node at `at`.
pub open spec fn node_row(tree: Tree, at: Place, depth: int, parent_size: u64) -> Row {
    Row {
        path: at.parts,
        text: at.text,
        name: tree.name,
        size: tree.size,
        is_dir: tree.dir,
        expanded: tree.expanded,
        depth,
        parent_size,
        children_count: tree.kids.len() as int,
        category: if tree.dir {
            FileCategory::Other
        } else {
            categories::category_of(tree.name)
        },
        is_hidden: tree.hidden,
        is_file_group: false,
    }
}

/// Which entries of a folder are listed.
#[derive(Clone, Copy)]
pub enum Entries {
    Folders,
    LooseFiles,
    All,
}

/// Whether an entry's name alone does not keep it from being listed.
pub open spec fn name_shown(kid: Tree, show_hidden: bool) -> bool {
    show_hidden || !text::dotted(kid.name)
}

/// Whether an entry is a file that a group takes in.
pub open spec fn is_loose(kid: Tree, show_hidden: bool) -> bool {
    !kid.dir && name_shown(kid, show_hidden)
}

/// Whether an entry is among those that are listed.
pub open spec fn is_among(kid: Tree, entries: Entries, show_hidden: bool) -> bool {
    match entries {
        Entries::Folders => kid.dir,
        Entries::LooseFiles => is_loose(kid, show_hidden),
        Entries::All => name_shown(kid, show_hidden),
    }
}

/// The files of a folder that a group takes in.
pub open spec fn loose_files(kids: Seq<Tree>, show_hidden: bool) -> Seq<Tree> {
    kids.filter(|kid: Tree| is_loose(kid, show_hidden))
}

/// Whether the loose files of a folder are shown as one group: there are at
/// least two, nothing is filtered, and no entry has the name of the group's row.
pub open spec fn grouped(kids: Seq<Tree>, shown: Shown) -> bool {
    &&& loose_files(kids, shown.show_hidden).len() >= FILE_GROUP_THRESHOLD
    &&& shown.filter.len() == 0
    &&& shown.category is None
    &&& !exists|i: int| 0 <= i < kids.len() && #[trigger] kids[i].name == FILE_GROUP_NAME@
}

/// Whether the group of the folder at `at` is open.
pub open spec fn group_open(at: Seq<Seq<char>>, shown: Shown) -> bool {
    shown.groups is Some && shown.groups->0.contains(at)
}

/// The text of a group's row.
pub open spec fn group_label(count: nat) -> Seq<char> {
    "["@ + text::decimal(count) + " files]"@
}

/// The row of the group of loose files in the folder at `at`.
pub open spec fn group_row(tree: Tree, at: Place, depth: int, shown: Shown) -> Row {
    let loose = loose_files(tree.kids, shown.show_hidden);
    Row {
        path: path::join_parts(at.parts, FILE_GROUP_NAME@),
        text: path::join_text(at.text, FILE_GROUP_NAME@),
        name: group_label(loose.len()),
        size: tree::total_size(loose) as u64,
        is_dir: false,
        expanded: group_open(at.parts, shown),
        depth: depth + 1,
        parent_size: tree.size,
        children_count: loose.len() as int,
        category: FileCategory::Other,
        is_hidden: false,
        is_file_group: true,
    }
}

/// Where among the entries the group stands: before the first folder that is
/// smaller than the group, or at the end.
pub open spec fn group_place(kids: Seq<Tree>, group_size: nat, from: int) -> int
    decreases kids.len() - from,
{
    if from >= kids.len() {
        kids.len() as int
    } else if kids[from].dir && kids[from].size < group_size {
        from
    } else {
        group_place(kids, group_size, from + 1)
    }
}

/// The rows of a tree whose own path is `at`.
pub open spec fn rows(
    tree: Tree,
    at: Place,
    depth: int,
    parent_size: u64,
    shown: Shown,
) -> Seq<Row>
    decreases tree, 0nat,
{
    if !visible(tree, at.parts, shown) {
        Seq::empty()
    } else {
        let own = seq![node_row(tree, at, depth, parent_size)];
        let n = tree.kids.len() as int;
        if !tree.dir || !(tree.expanded || shown.filter.len() > 0) {
            own
        } else if grouped(tree.kids, shown) {
            let size = tree::total_size(loose_files(tree.kids, shown.show_hidden));
            let place = group_place(tree.kids, size, 0);
            let before = entry_rows(
                tree.kids,
                0,
                place,
                Entries::Folders,
                at,
                depth + 1,
                tree.size,
                shown,
            );
            let group = seq![group_row(tree, at, depth, shown)];
            let members = if group_open(at.parts, shown) {
                entry_rows(
                    tree.kids,
                    0,
                    n,
                    Entries::LooseFiles,
                    at,
                    depth + 2,
                    size as u64,
                    shown,
                )
            } else {
                Seq::empty()
            };
            let after = entry_rows(
                tree.kids,
                place,
                n,
                Entries::Folders,
                at,
                depth + 1,
                tree.size,
                shown,
            );
            own + before + group + members + after
        } else {
            own + entry_rows(tree.kids, 0, n, Entries::All, at, depth + 1, tree.size, shown)
        }
    }
}

/// The rows of those of the entries `kids[from..to]` of the folder at `at` that are
/// listed.
pub open spec fn entry_rows(
    kids: Seq<Tree>,
    from: int,
    to: int,
    entries: Entries,
    at: Place,
    depth: int,
    parent_size: u64,
    shown: Shown,
) -> Seq<Row>
    decreases kids, (to - from) as nat,
{
    if from < 0 || to > kids.len() || from >= to {
        Seq::empty()
    } else {
        let before = entry_rows(kids, from, to - 1, entries, at, depth, parent_size, shown);
        let kid = kids[to - 1];
        if is_among(kid, entries, shown.show_hidden) {
            before + rows(kid, path::join_place(at, kid.name), depth, parent_size, shown)
        } else {
            before
        }
    }
}

/// The rows of the whole view.
pub open spec fn view_rows(tree: Tree, shown: Shown) -> Seq<Row> {
    rows(tree, path::place(tree.name), 0, tree.size, shown)
}

/// What the view shows, as the caller passed it.
struct Options<'a> {
    filter: &'a str,
    category_filter: Option<FileCategory>,
    show_hidden: bool,
    text_cache: Option<&'a PathSet>,
    cat_cache: Option<&'a PathSet>,
    expanded_file_groups: Option<&'a PathSet>,
}

/// The members of a set that may be missing.
pub open spec fn members_of(set: Option<&PathSet>) -> Option<Set<Seq<Seq<char>>>> {
    match set {
        Some(set) => Some(set@),
        None => None,
    }
}

impl<'a> Options<'a> {
    spec fn shown(&self) -> Shown {
        Shown {
            filter: self.filter@,
            category: self.category_filter,
            show_hidden: self.show_hidden,
            text_cache: members_of(self.text_cache),
            cat_cache: members_of(self.cat_cache),
            groups: members_of(self.expanded_file_groups),
        }
    }
}

fn is_visible(node: &FileNode, at: &NodePath, opts: &Options) -> (shown: bool)
    ensures
        shown == visible(node@, at@, opts.shown()),
{
    if !opts.show_hidden && node.is_hidden() {
        return false;
    }
    match opts.text_cache {
        Some(cache) => {
            if !cache.contains(at) {
                return false;
            }
        },
        None => {
            if !opts.filter.is_empty() && !node_matches(node, opts.filter) {
                return false;
            }
        },
    }
    match opts.cat_cache {
        Some(cache) => cache.contains(at),
        None => match opts.category_filter {
            Some(cat) => node_matches_category(node, cat),
            None => true,
        },
    }
}

/// How many files a group takes in and how large they are together, and
/// whether an entry has the name of the group's row.
fn measure_loose(children: &[FileNode], show_hidden: bool) -> (measured: (usize, u64, bool))
    requires
        tree::total_size(tree::trees(children@)) <= u64::MAX,
    ensures
        ({
            let kids = tree::trees(children@);
            let loose = loose_files(kids, show_hidden);
            &&& measured.0 == loose.len()
            &&& measured.1 == tree::total_size(loose)
            &&& measured.2 == exists|i: int|
                0 <= i < kids.len() && #[trigger] kids[i].name == FILE_GROUP_NAME@
        }),
{
    let ghost kids = tree::trees(children@);
    let ghost keep = |kid: Tree| is_loose(kid, show_hidden);
    let mut count: usize = 0;
    let mut size: u64 = 0;
    let mut clash: bool = false;
    let mut i: usize = 0;
    proof {
        reveal(Seq::filter);
        assert(kids.take(0).filter(keep) =~= Seq::empty());
    }
    while i < children.len()
        invariant
            i <= children@.len(),
            kids == tree::trees(children@),
            keep == (|kid: Tree| is_loose(kid, show_hidden)),
            tree::total_size(kids) <= u64::MAX,
            count <= i,
            count == kids.take(i as int).filter(keep).len(),
            size == tree::total_size(kids.take(i as int).filter(keep)),
            clash == exists|k: int| 0 <= k < i && #[trigger] kids[k].name == FILE_GROUP_NAME@,
        decreases children@.len() - i,
    {
        proof {
            reveal(Seq::filter);
            assert(children@[i as int]@ == kids[i as int]);
            assert(kids.take(i + 1).drop_last() =~= kids.take(i as int));
            tree::lemma_total_filter(kids.take(i + 1), keep);
            tree::lemma_total_prefix(kids, i + 1);
        }
        let child = &children[i];
        if !child.is_dir() && (show_hidden || !starts_with_dot(child.name())) {
            proof {
                let more = kids.take(i + 1).filter(keep);
                assert(more.drop_last() =~= kids.take(i as int).filter(keep));
            }
            count += 1;
            size += child.size();
        }
        if child.name().eq(FILE_GROUP_NAME) {
            clash = true;
        }
        i += 1;
    }
    assert(kids.take(i as int) =~= kids);
    (count, size, clash)
}

fn find_group_place(children: &[FileNode], group_size: u64) -> (place: usize)
    ensures
        place == group_place(tree::trees(children@), group_size as nat, 0),
        place <= children@.len(),
{
    let ghost kids = tree::trees(children@);
    let mut i: usize = 0;
    while i < children.len()
        invariant
            i <= children@.len(),
            kids == tree::trees(children@),
            group_place(kids, group_size as nat, 0) == group_place(
                kids,
                group_size as nat,
                i as int,
            ),
        decreases children@.len() - i,
    {
        assert(children@[i as int]@ == kids[i as int]);
        if children[i].is_dir() && children[i].size() < group_size {
            return i;
        }
        i += 1;
    }
    i
}

fn group_text(count: usize) -> (label: String)
    ensures
        label@ == group_label(count as nat),
{
    let mut label = owned("[");
    push_decimal(&mut label, count as u64);
    label.append(" files]");
    label
}

/// Adds the row of the group of loose files in `node`, and the rows of those
/// files where the group is open.
fn emit_file_group(
    node: &FileNode,
    depth: usize,
    at: &NodePath,
    count: usize,
    size: u64,
    opts: &Options,
    result: &mut Vec<CachedRow>,
)
    requires
        depth + 2 <= usize::MAX,
        tree::sums_fit(node@),
        count == loose_files(node@.kids, opts.shown().show_hidden).len(),
        size == tree::total_size(loose_files(node@.kids, opts.shown().show_hidden)),
    ensures
        row_views(final(result)@) == row_views(old(result)@) + seq![
            group_row(node@, at.place(), depth as int, opts.shown()),
        ] + if group_open(at@, opts.shown()) {
            entry_rows(
                node@.kids,
                0,
                node@.kids.len() as int,
                Entries::LooseFiles,
                at.place(),
                depth + 2,
                size,
                opts.shown(),
            )
        } else {
            Seq::empty()
        },
    decreases node@, 0nat,
{
    let ghost shown = opts.shown();
    let ghost kids = node@.kids;
    let open: bool = match opts.expanded_file_groups {
        Some(groups) => groups.contains(at),
        None => false,
    };
    let row = CachedRow {
        path: at.join(FILE_GROUP_NAME),
        name: group_text(count),
        size,
        is_dir: false,
        expanded: open,
        depth: depth + 1,
        parent_size: node.size(),
        children_count: count,
        category: FileCategory::Other,
        is_hidden: false,
        is_file_group: true,
    };
    let ghost before = row_views(result@);
    assert(row@ == group_row(node@, at.place(), depth as int, shown));
    result.push(row);
    assert(row_views(result@) =~= before.push(row@));
    assert(before.push(row@) =~= before + seq![row@]);
    if open {
        let children = node.children();
        proof {
            assert forall|i: int|
                0 <= i < kids.len() && is_among(
                    #[trigger] kids[i],
                    Entries::LooseFiles,
                    shown.show_hidden,
                ) implies depth + 2 + 2 * tree::height(kids[i]) <= usize::MAX by {
                assert(children@[i]@ == kids[i]);
                tree::lemma_files_are_leaves(children@[i]);
            }
        }
        collect_entries(
            children,
            0,
            children.len(),
            Entries::LooseFiles,
            depth + 2,
            size,
            at,
            opts,
            result,
        );
    } else {
        assert(row_views(result@) =~= before + seq![row@] + Seq::<Row>::empty());
    }
}

/// Adds the rows of those of the entries `children[from..to]` of the folder at
/// `at` that are listed.
fn collect_entries(
    children: &[FileNode],
    from: usize,
    to: usize,
    entries: Entries,
    depth: usize,
    parent_size: u64,
    at: &NodePath,
    opts: &Options,
    result: &mut Vec<CachedRow>,
)
    requires
        from <= to <= children@.len(),
        forall|i: int|
            from <= i < to && is_among(
                #[trigger] tree::trees(children@)[i],
                entries,
                opts.shown().show_hidden,
            ) ==> depth + 2 * tree::height(tree::trees(children@)[i]) <= usize::MAX,
        forall|i: int| from <= i < to ==> tree::sums_fit(#[trigger] tree::trees(children@)[i]),
    ensures
        row_views(final(result)@) == row_views(old(result)@) + entry_rows(
            tree::trees(children@),
            from as int,
            to as int,
            entries,
            at.place(),
            depth as int,
            parent_size,
            opts.shown(),
        ),
    decreases tree::trees(children@), 0nat,
{
    let ghost kids = tree::trees(children@);
    let ghost shown = opts.shown();
    let ghost before = row_views(result@);
    let mut i: usize = from;
    assert(row_views(result@) =~= before + Seq::<Row>::empty());
    while i < to
        invariant
            from <= i <= to <= children@.len(),
            kids == tree::trees(children@),
            shown == opts.shown(),
            forall|k: int|
                from <= k < to && is_among(#[trigger] kids[k], entries, shown.show_hidden)
                    ==> depth + 2 * tree::height(kids[k]) <= usize::MAX,
            forall|k: int| from <= k < to ==> tree::sums_fit(#[trigger] kids[k]),
            row_views(result@) == before + entry_rows(
                kids,
                from as int,
                i as int,
                entries,
                at.place(),
                depth as int,
                parent_size,
                shown,
            ),
        decreases to - i,
    {
        let child = &children[i];
        assert(child@ == kids[i as int]);
        let named: bool = opts.show_hidden || !starts_with_dot(child.name());
        let listed: bool = match entries {
            Entries::Folders => child.is_dir(),
            Entries::LooseFiles => !child.is_dir() && named,
            Entries::All => named,
        };
        if listed {
            let below = at.join(child.name());
            collect_cached_rows_inner(child, depth, parent_size, &below, opts, result);
            proof {
                let done = entry_rows(
                    kids,
                    from as int,
                    i as int,
                    entries,
                    at.place(),
                    depth as int,
                    parent_size,
                    shown,
                );
                let own = rows(kids[i as int], below.place(), depth as int, parent_size, shown);
                assert((before + done) + own =~= before + (done + own));
            }
        }
        i += 1;
    }
}

/// Adds the rows of `node` and of what it shows.
fn collect_cached_rows_inner(
    node: &FileNode,
    depth: usize,
    parent_size: u64,
    at: &NodePath,
    opts: &Options,
    result: &mut Vec<CachedRow>,
)
    requires
        depth + 2 * tree::height(node@) <= usize::MAX,
        tree::sums_fit(node@),
    ensures
        row_views(final(result)@) == row_views(old(result)@) + rows(
            node@,
            at.place(),
            depth as int,
            parent_size,
            opts.shown(),
        ),
    decreases node@, 1nat,
{
    let ghost shown = opts.shown();
    let ghost kids = node@.kids;
    let ghost before = row_views(result@);
    if !is_visible(node, at, opts) {
        assert(before + Seq::<Row>::empty() =~= before);
        return;
    }
    let children = node.children();
    let row = CachedRow {
        path: at.clone(),
        name: owned(node.name()),
        size: node.size(),
        is_dir: node.is_dir(),
        expanded: node.expanded(),
        depth,
        parent_size,
        children_count: children.len(),
        category: if node.is_dir() {
            FileCategory::Other
        } else {
            categorize(node.name())
        },
        is_hidden: node.is_hidden(),
        is_file_group: false,
    };
    let ghost own = row@;
    assert(own == node_row(node@, at.place(), depth as int, parent_size));
    result.push(row);
    assert(row_views(result@) =~= before + seq![own]);
    if !node.is_dir() || !(node.expanded() || !opts.filter.is_empty()) {
        return;
    }
    if children.len() == 0 {
        proof {
            reveal(Seq::filter);
            assert(entry_rows(kids, 0, 0, Entries::All, at.place(), depth + 1, node@.size, shown)
                =~= Seq::empty());
            assert(seq![own] + Seq::<Row>::empty() =~= seq![own]);
        }
        return;
    }
    proof {
        assert forall|i: int| 0 <= i < kids.len() implies depth + 1 + 2 * tree::height(
            #[trigger] kids[i],
        ) <= usize::MAX by {
            tree::lemma_height(node@, i);
        }
    }
    let (count, size, clash) = measure_loose(children, opts.show_hidden);
    if count >= FILE_GROUP_THRESHOLD && opts.filter.is_empty() && opts.category_filter.is_none()
        && !clash {
        let place: usize = find_group_place(children, size);
        collect_entries(
            children,
            0,
            place,
            Entries::Folders,
            depth + 1,
            node.size(),
            at,
            opts,
            result,
        );
        emit_file_group(node, depth, at, count, size, opts, result);
        collect_entries(
            children,
            place,
            children.len(),
            Entries::Folders,
            depth + 1,
            node.size(),
            at,
            opts,
            result,
        );
        assert(row_views(result@) =~= before + rows(
            node@,
            at.place(),
            depth as int,
            parent_size,
            shown,
        ));
    } else {
        collect_entries(
            children,
            0,
            children.len(),
            Entries::All,
            depth + 1,
            node.size(),
            at,
            opts,
            result,
        );
        assert(row_views(result@) =~= before + rows(
            node@,
            at.place(),
            depth as int,
            parent_size,
            shown,
        ));
    }
}

/// Collect all visible rows.
pub fn collect_cached_rows(
    tree: &FileNode,
    filter: &str,
    category_filter: Option<FileCategory>,
    show_hidden: bool,
    text_cache: Option<&PathSet>,
    cat_cache: Option<&PathSet>,
    expanded_file_groups: Option<&PathSet>,
) -> (result: Vec<CachedRow>)
    requires
        tree::sums_fit(tree@),
        2 * tree::height(tree@) <= usize::MAX,
    ensures
        row_views(result@) == view_rows(
            tree@,
            (Shown {
                filter: filter@,
                category: category_filter,
                show_hidden,
                text_cache: members_of(text_cache),
                cat_cache: members_of(cat_cache),
                groups: members_of(expanded_file_groups),
            }),
        ),
{
    let opts = Options {
        filter,
        category_filter,
        show_hidden,
        text_cache,
        cat_cache,
        expanded_file_groups,
    };
    let mut result: Vec<CachedRow> = Vec::new();
    let at = NodePath::new(tree.name());
    assert(row_views(result@) =~= Seq::empty());
    collect_cached_rows_inner(tree, 0, tree.size(), &at, &opts, &mut result);
    assert(row_views(result@) =~= view_rows(tree@, opts.shown()));
    result
}

/// The group of a folder's files stands before the first folder that is smaller: none of
/// the folders before it is, and the one behind it is.
pub proof fn lemma_group_stands(kids: Seq<Tree>, group_size: nat)
    ensures
        ({
            let place = group_place(kids, group_size, 0);
            &&& 0 <= place <= kids.len()
            &&& place < kids.len() ==> kids[place].dir && kids[place].size < group_size
            &&& forall|i: int|
                0 <= i < place && (#[trigger] kids[i]).dir ==> kids[i].size >= group_size
        }),
{
    lemma_group_from(kids, group_size, 0);
}

proof fn lemma_group_from(kids: Seq<Tree>, group_size: nat, from: int)
    requires
        0 <= from <= kids.len(),
    ensures
        ({
            let place = group_place(kids, group_size, from);
            &&& from <= place <= kids.len()
            &&& place < kids.len() ==> kids[place].dir && kids[place].size < group_size
            &&& forall|i: int|
                from <= i < place && (#[trigger] kids[i]).dir ==> kids[i].size >= group_size
        }),
    decreases kids.len() - from,
{
    if from < kids.len() && !(kids[from].dir && kids[from].size < group_size) {
        lemma_group_from(kids, group_size, from + 1);
    }
}

} // verus!
