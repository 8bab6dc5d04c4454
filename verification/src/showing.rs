//! What the rows of the tree view stand for.

use vstd::prelude::*;

use crate::agreement;
use crate::agreement::{below, well_named};
use crate::categories;
use crate::categories::FileCategory;
use crate::matching;
use crate::navigate;
use crate::path;
use crate::path::{PathSet, Place};
use crate::shape;
use crate::text;
use crate::tree;
use crate::tree::{FileNode, Tree};
use crate::ui;
use crate::ui::{collect_cached_rows, CachedRow, Row, Shown};
use crate::whereabouts;

verus! {

/// Whether a row shows the data of a node.
pub open spec fn shows(row: Row, node: Tree) -> bool {
    &&& row.name == node.name
    &&& row.size == node.size
    &&& row.is_dir == node.dir
    &&& row.expanded == node.expanded
    &&& row.is_hidden == node.hidden
    &&& row.children_count == node.kids.len()
    &&& row.category == if node.dir {
        FileCategory::Other
    } else {
        categories::category_of(node.name)
    }
}

/// The files of a directory whose names are shown.
pub open spec fn files_here(dir: Tree, show_hidden: bool) -> Seq<Tree> {
    dir.kids.filter(
        |kid: Tree| !kid.dir && (show_hidden || kid.name.len() == 0 || kid.name[0] != '.'),
    )
}

/// Whether a row shows the files of a directory, taken together.
pub open spec fn shows_files(row: Row, dir: Tree, show_hidden: bool) -> bool {
    let files = files_here(dir, show_hidden);
    &&& files.len() >= 2
    &&& row.size == tree::total_size(files) as u64
    &&& row.children_count == files.len()
    &&& row.name == "["@ + text::decimal(files.len()) + " files]"@
    &&& row.parent_size == dir.size
    &&& !row.is_dir
    &&& !row.is_hidden
    &&& row.category == FileCategory::Other
}

/// Whether a path is that of the row for the files of the directory at `dir`.
pub open spec fn group_path(path: Seq<Seq<char>>, dir: Seq<Seq<char>>) -> bool {
    path == dir.push("__file_group__"@)
}

/// What each row of the tree at `at` is, where `depth` and `parent_size` are those of its
/// own row, and `all` holds the rows.
spec fn described(
    tree: Tree,
    at: Seq<Seq<char>>,
    depth: int,
    parent_size: u64,
    shown: Shown,
    all: Seq<Row>,
    row: Row,
) -> bool {
    &&& below(row.path, at)
    &&& path::parse_parts(row.text) == row.path
    &&& !tree.dir ==> row.path == at
    &&& if row.is_file_group {
        let dir = row.path.drop_last();
        &&& row.path.len() > at.len()
        &&& group_path(row.path, dir)
        &&& navigate::lookup(tree, at, dir) is Some
        &&& navigate::lookup(tree, at, dir)->0.dir
        &&& navigate::lookup(tree, at, dir)->0.expanded || shown.filter.len() > 0
        &&& ui::grouped(navigate::lookup(tree, at, dir)->0.kids, shown)
        &&& shows_files(row, navigate::lookup(tree, at, dir)->0, shown.show_hidden)
        &&& row.depth == depth + (row.path.len() - at.len())
        &&& row.expanded == (shown.groups is Some && shown.groups->0.contains(dir))
        &&& shape::exact(tree) ==> row.size <= row.parent_size
    } else {
        let node = navigate::lookup(tree, at, row.path);
        &&& node is Some
        &&& shows(row, node->0)
        &&& ui::visible(node->0, row.path, shown)
        &&& row.path == at ==> row.depth == depth && row.parent_size == parent_size
        &&& row.path != at ==> in_folder(tree, at, depth, shown, all, row, node->0)
    }
}

/// What holds of the row of an entry.
spec fn in_folder(
    tree: Tree,
    at: Seq<Seq<char>>,
    depth: int,
    shown: Shown,
    all: Seq<Row>,
    row: Row,
    node: Tree,
) -> bool {
    let dir = navigate::lookup(tree, at, row.path.drop_last());
    &&& dir is Some
    &&& dir->0.dir
    &&& dir->0.expanded || shown.filter.len() > 0
    &&& dir->0.kids.contains(node)
    &&& shape::exact(tree) ==> row.size <= row.parent_size
    &&& if !node.dir && ui::grouped(dir->0.kids, shown) {
        &&& row.parent_size == tree::total_size(files_here(dir->0, shown.show_hidden)) as u64
        &&& row.depth == depth + (row.path.len() - at.len()) + 1
        &&& group_open(all, row.path.drop_last())
    } else {
        &&& row.parent_size == dir->0.size
        &&& row.depth == depth + (row.path.len() - at.len())
    }
}

/// Whether there is a row for the files of the directory at `dir`, and it is open.
pub open spec fn group_open(all: Seq<Row>, dir: Seq<Seq<char>>) -> bool {
    exists|k: int|
        0 <= k < all.len() && (#[trigger] all[k]).is_file_group && all[k].expanded && group_path(
            all[k].path,
            dir,
        )
}

/// What is known of the rows of an entry holds of them among the rows of the directory.
proof fn lemma_lifted(
    tree: Tree,
    at: Seq<Seq<char>>,
    depth: int,
    parent_size: u64,
    shown: Shown,
    all: Seq<Row>,
    row: Row,
    k: int,
    kid_depth: int,
    kid_parent: u64,
)
    requires
        well_named(tree),
        tree.dir,
        tree.expanded || shown.filter.len() > 0,
        0 <= k < tree.kids.len(),
        described(
            tree.kids[k],
            at.push(tree.kids[k].name),
            kid_depth,
            kid_parent,
            shown,
            all,
            row,
        ),
        if !tree.kids[k].dir && ui::grouped(tree.kids, shown) {
            &&& kid_depth == depth + 2
            &&& kid_parent == tree::total_size(ui::loose_files(tree.kids, shown.show_hidden)) as u64
            &&& ui::is_loose(tree.kids[k], shown.show_hidden)
            &&& group_open(all, at)
        } else {
            &&& kid_depth == depth + 1
            &&& kid_parent == tree.size
        },
    ensures
        described(tree, at, depth, parent_size, shown, all, row),
{
    let kids = tree.kids;
    let kid = kids[k];
    let here = at.push(kid.name);
    assert(well_named(kid));
    agreement::lemma_well_named(tree);
    whereabouts::lemma_below_next(row.path, at, kid.name);
    whereabouts::lemma_lookup_step(tree, at, row.path, k);
    assert(below(row.path, at));
    whereabouts::lemma_entry_fits(kids, k);
    lemma_same_files(tree, shown.show_hidden);
    let keep = |kid: Tree| ui::is_loose(kid, shown.show_hidden);
    tree::lemma_total_filter(kids, keep);
    if shape::exact(tree) {
        assert(shape::exact(kid));
    }
    if !row.is_file_group && row.path == here {
        assert(row.path.drop_last() =~= at);
        assert(kids.contains(kid));
        if !kid.dir && ui::grouped(kids, shown) {
            let loose = ui::loose_files(kids, shown.show_hidden);
            lemma_filter_has(kids, keep, k);
            let m = loose.index_of(kid);
            whereabouts::lemma_entry_fits(loose, m);
        }
    } else {
        let dir = row.path.drop_last();
        assert(dir.take(here.len() as int) =~= row.path.take(here.len() as int));
        whereabouts::lemma_below_next(dir, at, kid.name);
        whereabouts::lemma_lookup_step(tree, at, dir, k);
    }
}

proof fn lemma_filter_has(kids: Seq<Tree>, keep: spec_fn(Tree) -> bool, k: int)
    requires
        0 <= k < kids.len(),
        keep(kids[k]),
    ensures
        kids.filter(keep).contains(kids[k]),
    decreases kids.len(),
{
    reveal(Seq::filter);
    let front = kids.drop_last();
    if k < front.len() {
        lemma_filter_has(front, keep, k);
        let m = front.filter(keep).index_of(kids[k]);
        assert(kids.filter(keep)[m] == kids[k]);
    } else {
        assert(kids.filter(keep).last() == kids[k]);
    }
}

pub(crate) proof fn lemma_same_files(dir: Tree, show_hidden: bool)
    ensures
        files_here(dir, show_hidden) == ui::loose_files(dir.kids, show_hidden),
{
    assert((|kid: Tree|
        !kid.dir && (show_hidden || kid.name.len() == 0 || kid.name[0] != '.'))
        =~= (|kid: Tree| ui::is_loose(kid, show_hidden)));
}

proof fn lemma_rows_described(
    tree: Tree,
    at: Place,
    depth: int,
    parent_size: u64,
    shown: Shown,
    all: Seq<Row>,
    row: Row,
)
    requires
        well_named(tree),
        path::parse_parts(at.text) == at.parts,
        ui::rows(tree, at, depth, parent_size, shown).contains(row),
        forall|r: Row| #[trigger]
            ui::rows(tree, at, depth, parent_size, shown).contains(r) ==> all.contains(r),
    ensures
        described(tree, at.parts, depth, parent_size, shown, all, row),
    decreases tree, 0nat,
{
    let mine = ui::rows(tree, at, depth, parent_size, shown);
    let kids = tree.kids;
    let hidden = shown.show_hidden;
    let n = kids.len() as int;
    let own = ui::node_row(tree, at, depth, parent_size);
    assert(at.parts.take(at.parts.len() as int) =~= at.parts);
    if row == own {
    } else if ui::grouped(kids, shown) {
        let size = tree::total_size(ui::loose_files(kids, hidden));
        let place = ui::group_place(kids, size, 0);
        agreement::lemma_group_place(kids, size, 0);
        let folders = ui::Entries::Folders;
        let loose = ui::Entries::LooseFiles;
        let before = ui::entry_rows(kids, 0, place, folders, at, depth + 1, tree.size, shown);
        let files = ui::entry_rows(kids, 0, n, loose, at, depth + 2, size as u64, shown);
        let after = ui::entry_rows(kids, place, n, folders, at, depth + 1, tree.size, shown);
        let group = ui::group_row(tree, at, depth, shown);
        let members = if ui::group_open(at.parts, shown) {
            files
        } else {
            Seq::empty()
        };
        let first = seq![own];
        let second = seq![group];
        assert(mine == first + before + second + members + after);
        lemma_in_pieces(first, before, second, members, after);
        agreement::lemma_group_name(at.parts);
        if row == group {
            assert(row.path.drop_last() =~= at.parts);
            assert(row.path.take(at.parts.len() as int) =~= at.parts);
            path::lemma_join_text(at.text, ui::FILE_GROUP_NAME@);
            lemma_same_files(tree, hidden);
            tree::lemma_total_filter(kids, |kid: Tree| ui::is_loose(kid, hidden));
        } else if before.contains(row) {
            assert forall|r: Row| #[trigger] before.contains(r) implies all.contains(r) by {
                assert(mine.contains(r));
            }
            let k = lemma_entries_described(
                tree, 0, place, folders, at, depth + 1, tree.size, shown, all, row,
            );
            lemma_lifted(
                tree, at.parts, depth, parent_size, shown, all, row, k, depth + 1, tree.size,
            );
        } else if after.contains(row) {
            assert forall|r: Row| #[trigger] after.contains(r) implies all.contains(r) by {
                assert(mine.contains(r));
            }
            let k = lemma_entries_described(
                tree, place, n, folders, at, depth + 1, tree.size, shown, all, row,
            );
            lemma_lifted(
                tree, at.parts, depth, parent_size, shown, all, row, k, depth + 1, tree.size,
            );
        } else {
            assert(second[0] == group);
            assert(second.contains(group));
            assert(mine.contains(group));
            let g = all.index_of(group);
            assert(all[g] == group);
            assert(group_open(all, at.parts));
            assert forall|r: Row| #[trigger] files.contains(r) implies all.contains(r) by {
                assert(mine.contains(r));
            }
            let k = lemma_entries_described(
                tree, 0, n, loose, at, depth + 2, size as u64, shown, all, row,
            );
            lemma_lifted(
                tree, at.parts, depth, parent_size, shown, all, row, k, depth + 2, size as u64,
            );
        }
    } else {
        let rest = ui::entry_rows(kids, 0, n, ui::Entries::All, at, depth + 1, tree.size, shown);
        let first = seq![own];
        assert(mine == first + rest);
        lemma_in_either(first, rest);
        assert forall|r: Row| #[trigger] rest.contains(r) implies all.contains(r) by {
            assert(mine.contains(r));
        }
        let k = lemma_entries_described(
            tree, 0, n, ui::Entries::All, at, depth + 1, tree.size, shown, all, row,
        );
        lemma_lifted(
            tree, at.parts, depth, parent_size, shown, all, row, k, depth + 1, tree.size,
        );
    }
}

proof fn lemma_in_either(a: Seq<Row>, b: Seq<Row>)
    ensures
        forall|r: Row| #[trigger] (a + b).contains(r) <==> a.contains(r) || b.contains(r),
{
    assert forall|r: Row| #[trigger] (a + b).contains(r) <==> a.contains(r) || b.contains(r) by {
        if a.contains(r) {
            let i = a.index_of(r);
            assert((a + b)[i] == r);
        }
        if b.contains(r) {
            let i = b.index_of(r);
            assert((a + b)[a.len() + i] == r);
        }
        if (a + b).contains(r) {
            let i = (a + b).index_of(r);
            if i < a.len() {
                assert(a[i] == r);
            } else {
                assert(b[i - a.len()] == r);
            }
        }
    }
}

proof fn lemma_in_pieces(a: Seq<Row>, b: Seq<Row>, c: Seq<Row>, d: Seq<Row>, e: Seq<Row>)
    ensures
        forall|r: Row| #[trigger]
            (a + b + c + d + e).contains(r) <==> a.contains(r) || b.contains(r) || c.contains(r)
                || d.contains(r) || e.contains(r),
{
    lemma_in_either(a, b);
    lemma_in_either(a + b, c);
    lemma_in_either(a + b + c, d);
    lemma_in_either(a + b + c + d, e);
}

proof fn lemma_entries_described(
    tree: Tree,
    from: int,
    to: int,
    entries: ui::Entries,
    at: Place,
    depth: int,
    parent_size: u64,
    shown: Shown,
    all: Seq<Row>,
    row: Row,
) -> (k: int)
    requires
        well_named(tree),
        path::parse_parts(at.text) == at.parts,
        0 <= from <= to <= tree.kids.len(),
        ui::entry_rows(tree.kids, from, to, entries, at, depth, parent_size, shown).contains(row),
        forall|r: Row| #[trigger]
            ui::entry_rows(
                tree.kids,
                from,
                to,
                entries,
                at,
                depth,
                parent_size,
                shown,
            ).contains(r) ==> all.contains(r),
    ensures
        from <= k < to,
        ui::is_among(tree.kids[k], entries, shown.show_hidden),
        described(
            tree.kids[k],
            at.parts.push(tree.kids[k].name),
            depth,
            parent_size,
            shown,
            all,
            row,
        ),
    decreases tree.kids, (to - from) as nat,
{
    let kids = tree.kids;
    let kid = kids[to - 1];
    let mine = ui::entry_rows(kids, from, to, entries, at, depth, parent_size, shown);
    let before = ui::entry_rows(kids, from, to - 1, entries, at, depth, parent_size, shown);
    let here = path::join_place(at, kid.name);
    let more = ui::rows(kid, here, depth, parent_size, shown);
    path::lemma_join_plain(at.parts, kid.name);
    path::lemma_join_text(at.text, kid.name);
    assert(well_named(kid));
    let among = ui::is_among(kid, entries, shown.show_hidden);
    lemma_in_either(before, more);
    assert(mine == if among {
        before + more
    } else {
        before
    });
    if among && more.contains(row) {
        assert forall|r: Row| #[trigger] more.contains(r) implies all.contains(r) by {
            assert(mine.contains(r));
        }
        lemma_rows_described(kid, here, depth, parent_size, shown, all, row);
        to - 1
    } else {
        assert forall|r: Row| #[trigger] before.contains(r) implies all.contains(r) by {
            assert(mine.contains(r));
        }
        lemma_entries_described(
            tree, from, to - 1, entries, at, depth, parent_size, shown, all, row,
        )
    }
}

proof fn lemma_described(tree: Tree, shown: Shown, i: int)
    requires
        well_named(tree),
        0 <= i < ui::view_rows(tree, shown).len(),
    ensures
        ({
            let all = ui::view_rows(tree, shown);
            described(tree, path::parse_parts(tree.name), 0, tree.size, shown, all, all[i])
        }),
{
    let all = ui::view_rows(tree, shown);
    assert(all.contains(all[i]));
    lemma_rows_described(tree, path::place(tree.name), 0, tree.size, shown, all, all[i]);
}

/// A row that is no file group shows the node that its path leads to, and its path is
/// what its text says. It stands as deep as its path is long, and is measured against the
/// directory that holds the node; the files of an open group stand one level deeper, and
/// are measured against the row of the group. The top row is measured against itself.
pub proof fn lemma_row_is_node(tree: Tree, shown: Shown, i: int)
    requires
        well_named(tree),
        0 <= i < ui::view_rows(tree, shown).len(),
        !ui::view_rows(tree, shown)[i].is_file_group,
    ensures
        ({
            let top = path::parse_parts(tree.name);
            let all = ui::view_rows(tree, shown);
            let row = all[i];
            let node = navigate::lookup(tree, top, row.path);
            let dir = navigate::lookup(tree, top, row.path.drop_last());
            let level = row.path.len() - top.len();
            &&& node is Some
            &&& shows(row, node->0)
            &&& path::parse_parts(row.text) == row.path
            &&& row.path == top ==> row.depth == 0 && row.parent_size == tree.size
            &&& row.path != top ==> {
                &&& dir is Some
                &&& dir->0.dir
                &&& dir->0.expanded || shown.filter.len() > 0
                &&& dir->0.kids.contains(node->0)
            }
            &&& row.path != top && (row.is_dir || !group_open(all, row.path.drop_last())) ==> {
                &&& row.depth == level
                &&& row.parent_size == dir->0.size
            }
            &&& row.path != top && !row.is_dir ==> forall|k: int|
                0 <= k < all.len() && (#[trigger] all[k]).is_file_group && group_path(
                    all[k].path,
                    row.path.drop_last(),
                ) ==> row.parent_size == all[k].size && row.depth == all[k].depth + 1
        }),
{
    let top = path::parse_parts(tree.name);
    let all = ui::view_rows(tree, shown);
    let row = all[i];
    lemma_described(tree, shown, i);
    if row.path != top {
        let dir = row.path.drop_last();
        assert forall|k: int|
            0 <= k < all.len() && (#[trigger] all[k]).is_file_group && group_path(
                all[k].path,
                dir,
            ) implies ui::grouped(navigate::lookup(tree, top, dir)->0.kids, shown) && all[k].depth
            == row.path.len() - top.len() && all[k].size == tree::total_size(
            files_here(navigate::lookup(tree, top, dir)->0, shown.show_hidden),
        ) as u64 by {
            lemma_described(tree, shown, k);
            assert(all[k].path.drop_last() =~= dir);
        }
    }
}

/// The row of a file group stands for the files of the directory it is in: there are at
/// least two, it is as large as all of them together, and it is measured against the
/// directory.
pub proof fn lemma_group_row_is_files(tree: Tree, shown: Shown, i: int)
    requires
        well_named(tree),
        0 <= i < ui::view_rows(tree, shown).len(),
        ui::view_rows(tree, shown)[i].is_file_group,
    ensures
        ({
            let top = path::parse_parts(tree.name);
            let row = ui::view_rows(tree, shown)[i];
            let at = row.path.drop_last();
            let dir = navigate::lookup(tree, top, at);
            &&& group_path(row.path, at)
            &&& path::parse_parts(row.text) == row.path
            &&& dir is Some
            &&& dir->0.dir
            &&& dir->0.expanded
            &&& shows_files(row, dir->0, shown.show_hidden)
            &&& row.depth == row.path.len() - top.len()
            &&& row.expanded == (shown.groups is Some && shown.groups->0.contains(at))
            &&& shown.filter.len() == 0
            &&& shown.category is None
        }),
{
    lemma_described(tree, shown, i);
}

/// No row is larger than what it is measured against, where sizes are sums.
pub proof fn lemma_row_fits(tree: Tree, shown: Shown, i: int)
    requires
        well_named(tree),
        shape::exact(tree),
        0 <= i < ui::view_rows(tree, shown).len(),
    ensures
        ui::view_rows(tree, shown)[i].size <= ui::view_rows(tree, shown)[i].parent_size,
{
    lemma_described(tree, shown, i);
}

/// Whether some node in a tree has the text in its name, whatever the case of ASCII letters.
pub open spec fn named_within(tree: Tree, query: Seq<char>) -> bool {
    exists|node: Tree, before: Seq<char>, piece: Seq<char>, after: Seq<char>|
        #![trigger matching::inside(tree, node), before + piece + after]
        matching::inside(tree, node) && node.name == before + piece + after && text::all_alike(
            piece,
            query,
        )
}

/// Whether some file in a tree has the category.
pub open spec fn categorized_within(tree: Tree, cat: FileCategory) -> bool {
    exists|file: Tree| #[trigger]
        matching::inside(tree, file) && !file.dir && categories::category_of(file.name) == cat
}

/// Whether a node passes the filters of the view: it is not hidden where hidden ones are
/// left out, it or something in it has the text in its name, and it is or holds a file of
/// the category.
pub open spec fn passes(node: Tree, shown: Shown) -> bool {
    &&& node.hidden ==> shown.show_hidden
    &&& shown.filter.len() > 0 ==> named_within(node, shown.filter)
    &&& shown.category is Some ==> categorized_within(node, shown.category->0)
}

/// The view shows the nodes that pass its filters.
pub proof fn lemma_visible_passes(node: Tree, at: Seq<Seq<char>>, shown: Shown)
    requires
        shown.text_cache is None,
        shown.cat_cache is None,
    ensures
        ui::visible(node, at, shown) == passes(node, shown),
{
    let wanted = matching::Wanted::Text(shown.filter);
    if matching::holds_wanted(node, wanted) {
        let found = matching::lemma_match_has_name(node, shown.filter);
        let (before, piece, after) = choose|
            before: Seq<char>,
            piece: Seq<char>,
            after: Seq<char>,
        |
            found.name == #[trigger] (before + piece + after) && text::all_alike(
                piece,
                shown.filter,
            );
        assert(matching::inside(node, found) && found.name == before + piece + after);
    }
    if named_within(node, shown.filter) {
        let (found, before, piece, after) = choose|
            found: Tree,
            before: Seq<char>,
            piece: Seq<char>,
            after: Seq<char>,
        |
            #![trigger matching::inside(node, found), before + piece + after]
            matching::inside(node, found) && found.name == before + piece + after
                && text::all_alike(piece, shown.filter);
        matching::lemma_name_is_found(node, found, before, piece, after, shown.filter);
    }
    if shown.category is Some {
        agreement::lemma_category_is_wanted(node, shown.category->0);
        matching::lemma_category_is_held(node, shown.category->0);
    }
}

/// Every row of a node stands for one that passes the filters.
pub proof fn lemma_row_passes(tree: Tree, shown: Shown, i: int)
    requires
        well_named(tree),
        shown.text_cache is None,
        shown.cat_cache is None,
        0 <= i < ui::view_rows(tree, shown).len(),
        !ui::view_rows(tree, shown)[i].is_file_group,
    ensures
        ({
            let row = ui::view_rows(tree, shown)[i];
            let node = navigate::lookup(tree, path::parse_parts(tree.name), row.path);
            node is Some && passes(node->0, shown)
        }),
{
    lemma_described(tree, shown, i);
    let row = ui::view_rows(tree, shown)[i];
    let node = navigate::lookup(tree, path::parse_parts(tree.name), row.path);
    lemma_visible_passes(node->0, row.path, shown);
}

proof fn lemma_among_entries(
    kids: Seq<Tree>,
    from: int,
    to: int,
    entries: ui::Entries,
    at: Place,
    depth: int,
    parent_size: u64,
    shown: Shown,
    k: int,
    row: Row,
)
    requires
        0 <= from <= k < to <= kids.len(),
        ui::is_among(kids[k], entries, shown.show_hidden),
        ui::rows(kids[k], path::join_place(at, kids[k].name), depth, parent_size, shown).contains(
            row,
        ),
    ensures
        ui::entry_rows(kids, from, to, entries, at, depth, parent_size, shown).contains(row),
    decreases to - from,
{
    let kid = kids[to - 1];
    let before = ui::entry_rows(kids, from, to - 1, entries, at, depth, parent_size, shown);
    let more = ui::rows(kid, path::join_place(at, kid.name), depth, parent_size, shown);
    lemma_in_either(before, more);
    if k < to - 1 {
        lemma_among_entries(
            kids, from, to - 1, entries, at, depth, parent_size, shown, k, row,
        );
    }
}

proof fn lemma_from_entry(
    kids: Seq<Tree>,
    from: int,
    to: int,
    entries: ui::Entries,
    at: Place,
    depth: int,
    parent_size: u64,
    shown: Shown,
    row: Row,
) -> (k: int)
    requires
        0 <= from <= to <= kids.len(),
        ui::entry_rows(kids, from, to, entries, at, depth, parent_size, shown).contains(row),
    ensures
        from <= k < to,
        ui::is_among(kids[k], entries, shown.show_hidden),
        ui::rows(kids[k], path::join_place(at, kids[k].name), depth, parent_size, shown).contains(
            row,
        ),
    decreases to - from,
{
    let kid = kids[to - 1];
    let before = ui::entry_rows(kids, from, to - 1, entries, at, depth, parent_size, shown);
    let more = ui::rows(kid, path::join_place(at, kid.name), depth, parent_size, shown);
    lemma_in_either(before, more);
    if ui::is_among(kid, entries, shown.show_hidden) && more.contains(row) {
        to - 1
    } else {
        lemma_from_entry(kids, from, to - 1, entries, at, depth, parent_size, shown, row)
    }
}

/// Whether the directory at `at` lists an entry.
spec fn lists(dir: Tree, at: Seq<Seq<char>>, kid: Tree, shown: Shown) -> bool {
    if ui::grouped(dir.kids, shown) {
        kid.dir || (ui::is_loose(kid, shown.show_hidden) && ui::group_open(at, shown))
    } else {
        ui::name_shown(kid, shown.show_hidden)
    }
}

/// How deep the rows of an entry stand, and what its own row is measured against.
spec fn entry_measure(dir: Tree, depth: int, kid: Tree, shown: Shown) -> (int, u64) {
    if !kid.dir && ui::grouped(dir.kids, shown) {
        (depth + 2, tree::total_size(ui::loose_files(dir.kids, shown.show_hidden)) as u64)
    } else {
        (depth + 1, dir.size)
    }
}

/// The rows of a directory that is open are its own, that of its group, and those of the
/// entries that it lists.
proof fn lemma_open_rows(
    tree: Tree,
    at: Place,
    depth: int,
    parent_size: u64,
    shown: Shown,
    row: Row,
)
    requires
        ui::visible(tree, at.parts, shown),
        tree.dir,
        tree.expanded || shown.filter.len() > 0,
    ensures
        ui::rows(tree, at, depth, parent_size, shown).contains(row) <==> {
            ||| row == ui::node_row(tree, at, depth, parent_size)
            ||| ui::grouped(tree.kids, shown) && row == ui::group_row(tree, at, depth, shown)
            ||| exists|k: int| #[trigger]
                has_kid_row(tree, at, depth, shown, row, k)
        },
{
    let mine = ui::rows(tree, at, depth, parent_size, shown);
    let kids = tree.kids;
    let n = kids.len() as int;
    let own = seq![ui::node_row(tree, at, depth, parent_size)];
    assert(own.contains(own[0]));
    if ui::grouped(kids, shown) {
        let size = tree::total_size(ui::loose_files(kids, shown.show_hidden));
        let place = ui::group_place(kids, size, 0);
        agreement::lemma_group_place(kids, size, 0);
        let folders = ui::Entries::Folders;
        let loose = ui::Entries::LooseFiles;
        let before = ui::entry_rows(kids, 0, place, folders, at, depth + 1, tree.size, shown);
        let files = ui::entry_rows(kids, 0, n, loose, at, depth + 2, size as u64, shown);
        let after = ui::entry_rows(kids, place, n, folders, at, depth + 1, tree.size, shown);
        let group = seq![ui::group_row(tree, at, depth, shown)];
        let members = if ui::group_open(at.parts, shown) {
            files
        } else {
            Seq::empty()
        };
        assert(mine == own + before + group + members + after);
        lemma_in_pieces(own, before, group, members, after);
        assert(group.contains(group[0]));
        if before.contains(row) {
            let k = lemma_from_entry(
                kids, 0, place, folders, at, depth + 1, tree.size, shown, row,
            );
            assert(has_kid_row(tree, at, depth, shown, row, k));
        }
        if members.contains(row) {
            let k = lemma_from_entry(kids, 0, n, loose, at, depth + 2, size as u64, shown, row);
            assert(has_kid_row(tree, at, depth, shown, row, k));
        }
        if after.contains(row) {
            let k = lemma_from_entry(
                kids, place, n, folders, at, depth + 1, tree.size, shown, row,
            );
            assert(has_kid_row(tree, at, depth, shown, row, k));
        }
        if exists|k: int| #[trigger] has_kid_row(tree, at, depth, shown, row, k) {
            let k = choose|k: int| #[trigger] has_kid_row(tree, at, depth, shown, row, k);
            if !kids[k].dir {
                lemma_among_entries(
                    kids, 0, n, loose, at, depth + 2, size as u64, shown, k, row,
                );
            } else if k < place {
                lemma_among_entries(
                    kids, 0, place, folders, at, depth + 1, tree.size, shown, k, row,
                );
            } else {
                lemma_among_entries(
                    kids, place, n, folders, at, depth + 1, tree.size, shown, k, row,
                );
            }
        }
    } else {
        let entries = ui::Entries::All;
        let rest = ui::entry_rows(kids, 0, n, entries, at, depth + 1, tree.size, shown);
        assert(mine == own + rest);
        lemma_in_either(own, rest);
        if rest.contains(row) {
            let k = lemma_from_entry(kids, 0, n, entries, at, depth + 1, tree.size, shown, row);
            assert(has_kid_row(tree, at, depth, shown, row, k));
        }
        if exists|k: int| #[trigger] has_kid_row(tree, at, depth, shown, row, k) {
            let k = choose|k: int| #[trigger] has_kid_row(tree, at, depth, shown, row, k);
            lemma_among_entries(
                kids, 0, n, entries, at, depth + 1, tree.size, shown, k, row,
            );
        }
    }
}

/// Whether a row is one of those of the listed entry `k`.
spec fn has_kid_row(tree: Tree, at: Place, depth: int, shown: Shown, row: Row, k: int) -> bool {
    let kid = tree.kids[k];
    let (kid_depth, kid_parent) = entry_measure(tree, depth, kid, shown);
    &&& 0 <= k < tree.kids.len()
    &&& lists(tree, at.parts, kid, shown)
    &&& ui::rows(kid, path::join_place(at, kid.name), kid_depth, kid_parent, shown).contains(row)
}

/// Whether a path has a row that is no file group.
pub open spec fn has_row(all: Seq<Row>, path: Seq<Seq<char>>) -> bool {
    exists|i: int|
        0 <= i < all.len() && (#[trigger] all[i]).path == path && !all[i].is_file_group
}

/// Whether there is a row for the files of the directory at `dir`.
pub open spec fn has_group(all: Seq<Row>, dir: Seq<Seq<char>>) -> bool {
    exists|i: int|
        0 <= i < all.len() && (#[trigger] all[i]).is_file_group && group_path(all[i].path, dir)
}

proof fn lemma_entry_row(
    tree: Tree,
    at: Place,
    depth: int,
    parent_size: u64,
    shown: Shown,
    row: Row,
    node: Tree,
    j: int,
)
    requires
        well_named(tree),
        path::parse_parts(at.text) == at.parts,
        ui::rows(tree, at, depth, parent_size, shown).contains(row),
        !row.is_file_group,
        navigate::lookup(tree, at.parts, row.path) == Some(node),
        node.dir,
        node.expanded || shown.filter.len() > 0,
    ensures
        0 <= j < node.kids.len() && lists(node, row.path, node.kids[j], shown) && ui::visible(
            node.kids[j],
            row.path.push(node.kids[j].name),
            shown,
        ) ==> has_row(
            ui::rows(tree, at, depth, parent_size, shown),
            row.path.push(node.kids[j].name),
        ),
        ui::grouped(node.kids, shown) ==> has_group(
            ui::rows(tree, at, depth, parent_size, shown),
            row.path,
        ),
    decreases tree,
{
    let mine = ui::rows(tree, at, depth, parent_size, shown);
    lemma_rows_described(tree, at, depth, parent_size, shown, mine, row);
    lemma_open_rows(tree, at, depth, parent_size, shown, row);
    if row.path == at.parts {
        if ui::grouped(node.kids, shown) {
            let group = ui::group_row(tree, at, depth, shown);
            lemma_open_rows(tree, at, depth, parent_size, shown, group);
            agreement::lemma_group_name(at.parts);
            let g = mine.index_of(group);
            assert(mine[g] == group);
        }
        if 0 <= j < node.kids.len() && lists(node, row.path, node.kids[j], shown) && ui::visible(
            node.kids[j],
            row.path.push(node.kids[j].name),
            shown,
        ) {
            let kid = node.kids[j];
            let here = path::join_place(at, kid.name);
            path::lemma_join_plain(at.parts, kid.name);
            let (kid_depth, kid_parent) = entry_measure(tree, depth, kid, shown);
            let own = ui::node_row(kid, here, kid_depth, kid_parent);
            assert(ui::rows(kid, here, kid_depth, kid_parent, shown)[0] == own);
            assert(has_kid_row(tree, at, depth, shown, own, j));
            lemma_open_rows(tree, at, depth, parent_size, shown, own);
            let m = mine.index_of(own);
            assert(mine[m] == own);
        }
    } else {
        let k = choose|k: int| #[trigger] has_kid_row(tree, at, depth, shown, row, k);
        let kid = tree.kids[k];
        let here = path::join_place(at, kid.name);
        let (kid_depth, kid_parent) = entry_measure(tree, depth, kid, shown);
        let theirs = ui::rows(kid, here, kid_depth, kid_parent, shown);
        path::lemma_join_plain(at.parts, kid.name);
        path::lemma_join_text(at.text, kid.name);
        assert(well_named(kid));
        agreement::lemma_well_named(tree);
        lemma_rows_described(kid, here, kid_depth, kid_parent, shown, theirs, row);
        whereabouts::lemma_below_next(row.path, at.parts, kid.name);
        whereabouts::lemma_lookup_step(tree, at.parts, row.path, k);
        lemma_entry_row(kid, here, kid_depth, kid_parent, shown, row, node, j);
        assert forall|i: int| 0 <= i < theirs.len() implies mine.contains(
            #[trigger] theirs[i],
        ) by {
            assert(theirs.contains(theirs[i]));
            assert(has_kid_row(tree, at, depth, shown, theirs[i], k));
            lemma_open_rows(tree, at, depth, parent_size, shown, theirs[i]);
        }
        let path = row.path.push(node.kids[j].name);
        if has_row(theirs, path) {
            let i = choose|i: int|
                0 <= i < theirs.len() && (#[trigger] theirs[i]).path == path
                    && !theirs[i].is_file_group;
            let m = mine.index_of(theirs[i]);
            assert(mine[m] == theirs[i]);
        }
        if has_group(theirs, row.path) {
            let i = choose|i: int|
                0 <= i < theirs.len() && (#[trigger] theirs[i]).is_file_group && group_path(
                    theirs[i].path,
                    row.path,
                );
            let m = mine.index_of(theirs[i]);
            assert(mine[m] == theirs[i]);
        }
    }
}

/// The top of the tree has a row exactly where it passes the filters, and it comes first.
pub proof fn lemma_top_has_row(tree: Tree, shown: Shown)
    requires
        shown.text_cache is None,
        shown.cat_cache is None,
    ensures
        passes(tree, shown) <==> ui::view_rows(tree, shown).len() > 0,
        passes(tree, shown) ==> ui::view_rows(tree, shown)[0].path == path::parse_parts(tree.name),
{
    lemma_visible_passes(tree, path::parse_parts(tree.name), shown);
}

/// Every entry of an open directory that passes the filters has a row, unless it is a
/// file in a group that is closed.
pub proof fn lemma_entry_has_row(tree: Tree, shown: Shown, i: int, dir: Tree, j: int)
    requires
        well_named(tree),
        shown.text_cache is None,
        shown.cat_cache is None,
        0 <= i < ui::view_rows(tree, shown).len(),
        !ui::view_rows(tree, shown)[i].is_file_group,
        navigate::lookup(
            tree,
            path::parse_parts(tree.name),
            ui::view_rows(tree, shown)[i].path,
        ) == Some(dir),
        dir.dir,
        dir.expanded || shown.filter.len() > 0,
        0 <= j < dir.kids.len(),
        passes(dir.kids[j], shown),
        shown.show_hidden || dir.kids[j].name[0] != '.',
    ensures
        ({
            let all = ui::view_rows(tree, shown);
            let at = all[i].path;
            ||| has_row(all, at.push(dir.kids[j].name))
            ||| !dir.kids[j].dir && has_group(all, at) && !group_open(all, at)
        }),
{
    let all = ui::view_rows(tree, shown);
    let row = all[i];
    let top = path::parse_parts(tree.name);
    let kid = dir.kids[j];
    assert(all.contains(row));
    lemma_visible_passes(kid, row.path.push(kid.name), shown);
    lemma_entry_row(tree, path::place(tree.name), 0, tree.size, shown, row, dir, j);
    if !lists(dir, row.path, kid, shown) {
        assert forall|k: int|
            0 <= k < all.len() && (#[trigger] all[k]).is_file_group && group_path(
                all[k].path,
                row.path,
            ) implies !all[k].expanded by {
            lemma_described(tree, shown, k);
            assert(all[k].path.drop_last() =~= row.path);
        }
    }
}

/// The files of an open directory are shown as a group exactly where there are at least
/// two of them, nothing is filtered, and no entry has the name under which the group
/// stands.
pub proof fn lemma_files_are_grouped(tree: Tree, shown: Shown, i: int, dir: Tree)
    requires
        well_named(tree),
        0 <= i < ui::view_rows(tree, shown).len(),
        !ui::view_rows(tree, shown)[i].is_file_group,
        navigate::lookup(
            tree,
            path::parse_parts(tree.name),
            ui::view_rows(tree, shown)[i].path,
        ) == Some(dir),
        dir.dir,
        dir.expanded,
    ensures
        has_group(ui::view_rows(tree, shown), ui::view_rows(tree, shown)[i].path) <==> {
            &&& files_here(dir, shown.show_hidden).len() >= 2
            &&& shown.filter.len() == 0
            &&& shown.category is None
            &&& forall|j: int|
                0 <= j < dir.kids.len() ==> (#[trigger] dir.kids[j]).name != "__file_group__"@
        },
{
    let all = ui::view_rows(tree, shown);
    let row = all[i];
    assert(all.contains(row));
    lemma_same_files(dir, shown.show_hidden);
    lemma_entry_row(tree, path::place(tree.name), 0, tree.size, shown, row, dir, 0);
    if has_group(all, row.path) {
        let k = choose|k: int|
            0 <= k < all.len() && (#[trigger] all[k]).is_file_group && group_path(
                all[k].path,
                row.path,
            );
        lemma_described(tree, shown, k);
        assert(all[k].path.drop_last() =~= row.path);
    }
}

/// The settings of a tree view, as they are asked for.
pub open spec fn asked_for(
    filter: &str,
    category: Option<FileCategory>,
    show_hidden: bool,
    groups: Option<&PathSet>,
) -> Shown {
    Shown {
        filter: filter@,
        category,
        show_hidden,
        text_cache: None,
        cat_cache: None,
        groups: match groups {
            Some(set) => Some(set@),
            None => None,
        },
    }
}

/// The rows that are collected show the nodes that their paths lead to, those that pass the
/// filters, and none is larger than what it is measured against, where sizes are sums.
pub proof fn lemma_collected(
    tree: FileNode,
    filter: &str,
    category: Option<FileCategory>,
    show_hidden: bool,
    groups: Option<&PathSet>,
    collected: Vec<CachedRow>,
    i: int,
)
    requires
        call_ensures(
            collect_cached_rows,
            (&tree, filter, category, show_hidden, None, None, groups),
            collected,
        ),
        well_named(tree@),
        0 <= i < collected@.len(),
        !collected@[i].is_file_group,
    ensures
        ({
            let row = collected@[i];
            let top = path::parse_parts(tree@.name);
            let node = navigate::lookup(tree@, top, row.path@);
            let dir = navigate::lookup(tree@, top, row.path@.drop_last());
            &&& node is Some
            &&& row.name@ == node->0.name
            &&& row.size == node->0.size
            &&& row.is_dir == node->0.dir
            &&& row.expanded == node->0.expanded
            &&& row.is_hidden == node->0.hidden
            &&& row.children_count == node->0.kids.len()
            &&& passes(node->0, asked_for(filter, category, show_hidden, groups))
            &&& row.path@ == top ==> row.depth == 0 && row.parent_size == tree@.size
            &&& row.path@ != top && row.is_dir ==> dir is Some && row.parent_size == dir->0.size
                && row.depth == row.path@.len() - top.len()
            &&& shape::exact(tree@) ==> row.size <= row.parent_size
        }),
{
    let shown = asked_for(filter, category, show_hidden, groups);
    let all = ui::view_rows(tree@, shown);
    assert(ui::row_views(collected@) == all);
    assert(all[i] == collected@[i]@);
    lemma_row_is_node(tree@, shown, i);
    lemma_row_passes(tree@, shown, i);
    if shape::exact(tree@) {
        lemma_row_fits(tree@, shown, i);
    }
}

} // verus!
