//! What deletions touch.

use vstd::prelude::*;

use crate::agreement;
use crate::agreement::well_named;
use crate::names;
use crate::navigate;
use crate::path;
use crate::path::Place;
use crate::showing;
use crate::targets;
use crate::tree::Tree;
use crate::ui;
use crate::ui::{Row, Shown};
use crate::whereabouts;

verus! {

/// Whether a path is that of a file in the directory at `at` whose name is shown.
pub open spec fn file_here(
    dir: Tree,
    at: Seq<Seq<char>>,
    show_hidden: bool,
    path: Seq<Seq<char>>,
) -> bool {
    exists|j: int|
        0 <= j < dir.kids.len() && !(#[trigger] dir.kids[j]).dir && (show_hidden
            || dir.kids[j].name[0] != '.') && path == at.push(dir.kids[j].name)
}

proof fn lemma_loose_names(kids: Seq<Tree>, show_hidden: bool, name: Seq<char>)
    requires
        forall|i: int| 0 <= i < kids.len() ==> path::plain_name(#[trigger] kids[i].name),
    ensures
        targets::names_of(ui::loose_files(kids, show_hidden)).contains(name) <==> exists|j: int|
            0 <= j < kids.len() && !(#[trigger] kids[j]).dir && (show_hidden || kids[j].name[0]
                != '.') && kids[j].name == name,
    decreases kids.len(),
{
    let keep = |kid: Tree| ui::is_loose(kid, show_hidden);
    let found = targets::names_of(ui::loose_files(kids, show_hidden));
    reveal(Seq::filter);
    if kids.len() > 0 {
        let front = kids.drop_last();
        let last = kids.last();
        let before = targets::names_of(ui::loose_files(front, show_hidden));
        assert forall|i: int| 0 <= i < front.len() implies path::plain_name(
            #[trigger] front[i].name,
        ) by {
            assert(path::plain_name(kids[i].name));
        }
        lemma_loose_names(front, show_hidden, name);
        assert(path::plain_name(kids[kids.len() - 1].name));
        if keep(last) {
            assert(found =~= before.push(last.name));
            assert(found[found.len() - 1] == last.name);
        } else {
            assert(found =~= before);
        }
        if before.contains(name) {
            let k = before.index_of(name);
            assert(found[k] == name);
            let j = choose|j: int|
                0 <= j < front.len() && !(#[trigger] front[j]).dir && (show_hidden
                    || front[j].name[0] != '.') && front[j].name == name;
            assert(kids[j].name == name);
        }
        if exists|j: int|
            0 <= j < kids.len() && !(#[trigger] kids[j]).dir && (show_hidden || kids[j].name[0]
                != '.') && kids[j].name == name {
            let j = choose|j: int|
                0 <= j < kids.len() && !(#[trigger] kids[j]).dir && (show_hidden
                    || kids[j].name[0] != '.') && kids[j].name == name;
            if j < front.len() {
                assert(front[j].name == name);
            }
        }
        if found.contains(name) && !before.contains(name) {
            let k = found.index_of(name);
            if k < before.len() {
                assert(before[k] == name);
            }
            assert(kids[kids.len() - 1].name == name);
        }
    }
}

/// The files of a group are the files of its directory whose names are shown, each once,
/// and in alphabetical order.
pub proof fn lemma_group_files(tree: Tree, at: Place, show_hidden: bool, path: Seq<Seq<char>>)
    requires
        well_named(tree),
        navigate::lookup(tree, path::parse_parts(tree.name), at.parts) is Some,
    ensures
        ({
            let dir = navigate::lookup(tree, path::parse_parts(tree.name), at.parts)->0;
            let files = path::parts_of(targets::group_files(tree, at, show_hidden));
            &&& files.contains(path) <==> file_here(dir, at.parts, show_hidden, path)
            &&& files.no_duplicates()
            &&& files.len() == showing::files_here(dir, show_hidden).len()
            &&& forall|i: int, j: int|
                0 <= i < j < files.len() ==> names::name_le(
                    (#[trigger] files[i]).last(),
                    (#[trigger] files[j]).last(),
                )
        }),
{
    let top = path::parse_parts(tree.name);
    let dir = navigate::lookup(tree, top, at.parts)->0;
    let found = targets::names_of(ui::loose_files(dir.kids, show_hidden));
    let sorted = names::alphabetical(found);
    let files = path::parts_of(targets::group_files(tree, at, show_hidden));
    whereabouts::lemma_found_well_named(tree, top, at.parts);
    whereabouts::lemma_group_files_differ(tree, at, show_hidden);
    names::lemma_name_order();
    found.lemma_sort_by_ensures(names::name_order());
    showing::lemma_same_files(dir, show_hidden);
    assert(files.len() == sorted.len());
    assert(found.len() == ui::loose_files(dir.kids, show_hidden).len());
    assert(found.len() == sorted.len()) by {
        broadcast use vstd::seq_lib::group_to_multiset_ensures;

        assert(found.to_multiset().len() == sorted.to_multiset().len());
    }
    assert forall|name: Seq<char>| #[trigger] sorted.contains(name) <==> found.contains(name) by {
        broadcast use vstd::seq_lib::group_to_multiset_ensures;

        assert(found.to_multiset().count(name) == sorted.to_multiset().count(name));
    }
    assert forall|i: int| 0 <= i < files.len() implies #[trigger] files[i] == at.parts.push(
        sorted[i],
    ) && found.contains(sorted[i]) by {
        assert(sorted.contains(sorted[i]));
        lemma_loose_names(dir.kids, show_hidden, sorted[i]);
        path::lemma_join_plain(at.parts, sorted[i]);
    }
    assert forall|i: int, j: int| 0 <= i < j < files.len() implies names::name_le(
        (#[trigger] files[i]).last(),
        (#[trigger] files[j]).last(),
    ) by {
        assert((names::name_order())(sorted[i], sorted[j]));
    }
    if files.contains(path) {
        let i = files.index_of(path);
        lemma_loose_names(dir.kids, show_hidden, sorted[i]);
    }
    if file_here(dir, at.parts, show_hidden, path) {
        let j = choose|j: int|
            0 <= j < dir.kids.len() && !(#[trigger] dir.kids[j]).dir && (show_hidden
                || dir.kids[j].name[0] != '.') && path == at.parts.push(dir.kids[j].name);
        lemma_loose_names(dir.kids, show_hidden, dir.kids[j].name);
        assert(sorted.contains(dir.kids[j].name));
        let i = sorted.index_of(dir.kids[j].name);
        assert(files[i] == path);
    }
}

/// Deleting a row touches what it shows: a group's row the files of its directory whose
/// names are shown, as many as it counts and no directory, and any other row the node it
/// stands for.
pub proof fn lemma_row_targets(tree: Tree, shown: Shown, i: int)
    requires
        well_named(tree),
        0 <= i < ui::view_rows(tree, shown).len(),
    ensures
        ({
            let all = ui::view_rows(tree, shown);
            let row = all[i];
            let at = row.path.drop_last();
            let dir = navigate::lookup(tree, path::parse_parts(tree.name), at);
            let found = targets::deletion_targets(
                all,
                Some(tree),
                ui::row_place(row),
                shown.show_hidden,
            );
            &&& !row.is_file_group ==> found == seq![ui::row_place(row)]
            &&& row.is_file_group ==> {
                &&& found.len() == row.children_count
                &&& dir is Some
                &&& forall|path: Seq<Seq<char>>| #[trigger]
                    path::parts_of(found).contains(path) <==> file_here(
                        dir->0,
                        at,
                        shown.show_hidden,
                        path,
                    )
            }
        }),
{
    let all = ui::view_rows(tree, shown);
    let row = all[i];
    let place = ui::row_place(row);
    agreement::lemma_rows_distinct(tree, shown);
    if row.is_file_group {
        let at = row.path.drop_last();
        let dir = navigate::lookup(tree, path::parse_parts(tree.name), at)->0;
        showing::lemma_group_row_is_files(tree, shown, i);
        assert(targets::is_group(all, row.path));
        reveal_strlit("__file_group__");
        assert(row.path.last() == "__file_group__"@);
        assert("__file_group__"@.len() == 14);
        assert(path::root_part().len() == 1);
        let parent = path::parent_place(place)->0;
        assert(parent.parts == at);
        lemma_group_files(tree, parent, shown.show_hidden, at);
        let found = targets::deletion_targets(all, Some(tree), place, shown.show_hidden);
        assert(path::parts_of(found).len() == found.len());
        assert forall|path: Seq<Seq<char>>| #[trigger]
            path::parts_of(found).contains(path) <==> file_here(
                dir,
                at,
                shown.show_hidden,
                path,
            ) by {
            lemma_group_files(tree, parent, shown.show_hidden, path);
        }
    } else if targets::is_group(all, row.path) {
        let k = choose|k: int|
            0 <= k < all.len() && #[trigger] all[k].is_file_group && all[k].path == row.path;
        if k < i {
            assert(all[k].path != all[i].path);
        } else {
            assert(all[i].path != all[k].path);
        }
    }
}

/// A batch touches exactly what the deletions of its rows touch one by one, and nothing
/// twice.
pub proof fn lemma_batch_targets(
    rows: Seq<Row>,
    tree: Option<Tree>,
    paths: Seq<Place>,
    show_hidden: bool,
    path: Seq<Seq<char>>,
)
    ensures
        ({
            let batch = path::parts_of(
                targets::first_seen(targets::all_targets(rows, tree, paths, show_hidden)),
            );
            &&& batch.no_duplicates()
            &&& batch.contains(path) <==> exists|k: int|
                0 <= k < paths.len() && path::parts_of(
                    targets::deletion_targets(rows, tree, #[trigger] paths[k], show_hidden),
                ).contains(path)
        }),
{
    targets::lemma_first_seen(targets::all_targets(rows, tree, paths, show_hidden), path);
    lemma_all_targets(rows, tree, paths, show_hidden, path);
}

proof fn lemma_all_targets(
    rows: Seq<Row>,
    tree: Option<Tree>,
    paths: Seq<Place>,
    show_hidden: bool,
    path: Seq<Seq<char>>,
)
    ensures
        path::parts_of(targets::all_targets(rows, tree, paths, show_hidden)).contains(path)
            <==> exists|k: int|
            0 <= k < paths.len() && path::parts_of(
                targets::deletion_targets(rows, tree, #[trigger] paths[k], show_hidden),
            ).contains(path),
    decreases paths.len(),
{
    if paths.len() > 0 {
        let front = paths.drop_last();
        let last = paths.last();
        lemma_all_targets(rows, tree, front, show_hidden, path);
        let before = path::parts_of(targets::all_targets(rows, tree, front, show_hidden));
        let more = path::parts_of(targets::deletion_targets(rows, tree, last, show_hidden));
        let all = path::parts_of(targets::all_targets(rows, tree, paths, show_hidden));
        assert(all =~= before + more);
        if before.contains(path) {
            assert(all[before.index_of(path)] == path);
            let k = choose|k: int|
                0 <= k < front.len() && path::parts_of(
                    targets::deletion_targets(rows, tree, #[trigger] front[k], show_hidden),
                ).contains(path);
            assert(paths[k] == front[k]);
        }
        if more.contains(path) {
            assert(all[before.len() + more.index_of(path)] == path);
            assert(paths[paths.len() - 1] == last);
        }
        if all.contains(path) {
            let i = all.index_of(path);
            if i < before.len() {
                assert(before[i] == path);
            } else {
                assert(more[i - before.len()] == path);
            }
        }
        if exists|k: int|
            0 <= k < paths.len() && path::parts_of(
                targets::deletion_targets(rows, tree, #[trigger] paths[k], show_hidden),
            ).contains(path) {
            let k = choose|k: int|
                0 <= k < paths.len() && path::parts_of(
                    targets::deletion_targets(rows, tree, #[trigger] paths[k], show_hidden),
                ).contains(path);
            if k < front.len() {
                assert(front[k] == paths[k]);
            }
        }
    } else {
        assert(path::parts_of(targets::all_targets(rows, tree, paths, show_hidden)) =~= Seq::empty());
    }
}

} // verus!
