//! Which paths a deletion touches.

use vstd::prelude::*;

use crate::names;
use crate::names::sort_names;
use crate::navigate;
use crate::navigate::lookup_node;
use crate::path;
use crate::path::{NodePath, PathSet, Place};
use crate::text::{owned, starts_with_dot};
use crate::tree;
use crate::tree::{FileNode, Tree};
use crate::ui;
use crate::ui::{CachedRow, Row};

verus! {

/// Whether a row stands for the file group at `path`.
pub open spec fn is_group(rows: Seq<Row>, path: Seq<Seq<char>>) -> bool {
    exists|i: int| 0 <= i < rows.len() && #[trigger] rows[i].is_file_group && rows[i].path == path
}

/// The names of nodes.
pub open spec fn names_of(kids: Seq<Tree>) -> Seq<Seq<char>> {
    kids.map_values(|kid: Tree| kid.name)
}

/// Where the entries of the folder at `dir` are.
pub open spec fn places_in(dir: Place, entries: Seq<Seq<char>>) -> Seq<Place> {
    entries.map_values(|name: Seq<char>| path::join_place(dir, name))
}

/// Where the loose files in the folder at `dir` are, in alphabetical order;
/// none where there is no such folder.
pub open spec fn group_files(tree: Tree, dir: Place, show_hidden: bool) -> Seq<Place> {
    match navigate::lookup(tree, path::parse_parts(tree.name), dir.parts) {
        Some(node) => places_in(
            dir,
            names::alphabetical(names_of(ui::loose_files(node.kids, show_hidden))),
        ),
        None => Seq::empty(),
    }
}

/// What deleting the row at `path` touches: the files of a group, and of any
/// other row the path itself, as it is written.
pub open spec fn deletion_targets(
    rows: Seq<Row>,
    tree: Option<Tree>,
    path: Place,
    show_hidden: bool,
) -> Seq<Place> {
    if is_group(rows, path.parts) {
        match (path::parent_place(path), tree) {
            (Some(dir), Some(tree)) => group_files(tree, dir, show_hidden),
            _ => Seq::empty(),
        }
    } else {
        seq![path]
    }
}

/// What deleting each of the rows at `paths` touches, one after the other.
pub open spec fn all_targets(
    rows: Seq<Row>,
    tree: Option<Tree>,
    paths: Seq<Place>,
    show_hidden: bool,
) -> Seq<Place>
    decreases paths.len(),
{
    if paths.len() == 0 {
        Seq::empty()
    } else {
        all_targets(rows, tree, paths.drop_last(), show_hidden) + deletion_targets(
            rows,
            tree,
            paths.last(),
            show_hidden,
        )
    }
}

/// The places without those whose path came before.
pub open spec fn first_seen(items: Seq<Place>) -> Seq<Place>
    decreases items.len(),
{
    if items.len() == 0 {
        Seq::empty()
    } else {
        let before = first_seen(items.drop_last());
        if path::parts_of(before).contains(items.last().parts) {
            before
        } else {
            before.push(items.last())
        }
    }
}

/// A tree that may be missing, as a mathematical value.
pub open spec fn tree_of(tree: Option<&FileNode>) -> Option<Tree> {
    match tree {
        Some(node) => Some(node@),
        None => None,
    }
}

/// True if `path` is a file-group row among the rendered rows.
///
/// Neither the path's text nor the file system decides, so that a real entry
/// with the name of a group is not mistaken for one.
pub fn row_is_file_group(rows: &[CachedRow], path: &NodePath) -> (yes: bool)
    ensures
        yes == is_group(ui::row_views(rows@), path@),
{
    let ghost views = ui::row_views(rows@);
    let mut i: usize = 0;
    while i < rows.len()
        invariant
            i <= rows@.len(),
            views == ui::row_views(rows@),
            forall|k: int| 0 <= k < i ==> !(#[trigger] views[k].is_file_group && views[k].path == path@),
        decreases rows@.len() - i,
    {
        assert(views[i as int] == rows@[i as int]@);
        if rows[i].is_file_group && rows[i].path.same(path) {
            assert(views[i as int].is_file_group);
            return true;
        }
        i += 1;
    }
    false
}

/// The paths of the loose files in the folder at `dir`, in alphabetical order.
pub fn file_group_files(tree: &FileNode, dir: &NodePath, show_hidden: bool) -> (files: Vec<
    NodePath,
>)
    ensures
        path::places(files@) == group_files(tree@, dir.place(), show_hidden),
{
    let mut files: Vec<NodePath> = Vec::new();
    let node = match lookup_node(tree, dir) {
        Some(node) => node,
        None => {
            assert(path::places(files@) =~= Seq::empty());
            return files;
        },
    };
    let ghost kids = node@.kids;
    let ghost keep = |kid: Tree| ui::is_loose(kid, show_hidden);
    let children = node.children();
    let mut names: Vec<String> = Vec::new();
    let mut i: usize = 0;
    proof {
        reveal(Seq::filter);
        assert(kids.take(0).filter(keep) =~= Seq::empty());
        assert(names::name_views(names@) =~= names_of(kids.take(0).filter(keep)));
    }
    while i < children.len()
        invariant
            i <= children@.len(),
            kids == tree::trees(children@),
            keep == (|kid: Tree| ui::is_loose(kid, show_hidden)),
            names::name_views(names@) == names_of(kids.take(i as int).filter(keep)),
        decreases children@.len() - i,
    {
        let child = &children[i];
        let ghost before = names::name_views(names@);
        proof {
            reveal(Seq::filter);
            assert(child@ == kids[i as int]);
            assert(kids.take(i + 1).drop_last() =~= kids.take(i as int));
        }
        if !child.is_dir() && (show_hidden || !starts_with_dot(child.name())) {
            names.push(owned(child.name()));
            assert(names::name_views(names@) =~= before.push(child@.name));
            assert(names_of(kids.take(i + 1).filter(keep)) =~= before.push(child@.name));
        }
        i += 1;
    }
    assert(kids.take(i as int) =~= kids);
    let sorted = sort_names(names);
    let ghost order = names::name_views(sorted@);
    let mut j: usize = 0;
    assert(path::places(files@) =~= places_in(dir.place(), order.take(0)));
    while j < sorted.len()
        invariant
            j <= sorted@.len(),
            order == names::name_views(sorted@),
            path::places(files@) == places_in(dir.place(), order.take(j as int)),
        decreases sorted@.len() - j,
    {
        let file = dir.join(sorted[j].as_str());
        let ghost before = path::places(files@);
        files.push(file);
        proof {
            assert(sorted@[j as int]@ == order[j as int]);
            assert(path::places(files@) =~= before.push(file.place()));
            assert(places_in(dir.place(), order.take(j + 1)) =~= before.push(file.place()));
        }
        j += 1;
    }
    assert(order.take(j as int) =~= order);
    files
}

/// Expand a tree-row path into the real paths a delete should touch.
///
/// Identity comes from the rendered rows, never the file system: `path` is a
/// group only if a rendered row carries it with `is_file_group`. A group
/// expands to the loose files in its folder; anything else maps to itself.
pub fn resolve_deletion_targets(
    rows: &[CachedRow],
    tree: Option<&FileNode>,
    path: &NodePath,
    show_hidden: bool,
) -> (targets: Vec<NodePath>)
    ensures
        path::places(targets@) == deletion_targets(
            ui::row_views(rows@),
            tree_of(tree),
            path.place(),
            show_hidden,
        ),
{
    let mut targets: Vec<NodePath> = Vec::new();
    assert(path::places(targets@) =~= Seq::empty());
    if row_is_file_group(rows, path) {
        match path.parent() {
            Some(dir) => match tree {
                Some(tree) => {
                    return file_group_files(tree, &dir, show_hidden);
                },
                None => {},
            },
            None => {},
        }
    } else {
        targets.push(path.clone());
        assert(path::places(targets@) =~= seq![path.place()]);
    }
    targets
}

/// Expand a batch of selected row paths into a de-duplicated target list.
pub fn resolve_batch_targets(
    rows: &[CachedRow],
    tree: Option<&FileNode>,
    paths: Vec<NodePath>,
    show_hidden: bool,
) -> (targets: Vec<NodePath>)
    ensures
        path::places(targets@) == first_seen(
            all_targets(ui::row_views(rows@), tree_of(tree), path::places(paths@), show_hidden),
        ),
        path::path_views(targets@).no_duplicates(),
{
    let ghost views = ui::row_views(rows@);
    let ghost all = path::places(paths@);
    let ghost t = tree_of(tree);
    let mut seen = PathSet::new();
    let mut i: usize = 0;
    assert(all.take(0) =~= Seq::empty());
    while i < paths.len()
        invariant
            i <= paths@.len(),
            views == ui::row_views(rows@),
            all == path::places(paths@),
            t == tree_of(tree),
            seen.places() == first_seen(all_targets(views, t, all.take(i as int), show_hidden)),
        decreases paths@.len() - i,
    {
        let found = resolve_deletion_targets(rows, tree, &paths[i], show_hidden);
        let ghost before = all_targets(views, t, all.take(i as int), show_hidden);
        let ghost more = path::places(found@);
        let mut j: usize = 0;
        assert(before + more.take(0) =~= before);
        while j < found.len()
            invariant
                j <= found@.len(),
                more == path::places(found@),
                seen.places() == first_seen(before + more.take(j as int)),
            decreases found@.len() - j,
        {
            proof {
                let longer = before + more.take(j + 1);
                assert(longer.drop_last() =~= before + more.take(j as int));
                assert(longer.last() == found@[j as int].place());
                assert(seen@.contains(found@[j as int]@) == seen.order().contains(
                    found@[j as int]@,
                ));
            }
            seen.insert(&found[j]);
            j += 1;
        }
        proof {
            assert(more.take(j as int) =~= more);
            assert(all.take(i + 1).drop_last() =~= all.take(i as int));
            assert(all.take(i + 1).last() == paths@[i as int].place());
        }
        i += 1;
    }
    assert(all.take(i as int) =~= all);
    seen.into_members()
}

/// A batch deletes each path once.
pub proof fn lemma_first_seen(items: Seq<Place>, item: Seq<Seq<char>>)
    ensures
        path::parts_of(first_seen(items)).no_duplicates(),
        path::parts_of(first_seen(items)).contains(item) == path::parts_of(items).contains(item),
    decreases items.len(),
{
    let whole = path::parts_of(items);
    let after = path::parts_of(first_seen(items));
    if items.len() > 0 {
        let front = path::parts_of(items.drop_last());
        let last = items.last().parts;
        lemma_first_seen(items.drop_last(), item);
        lemma_first_seen(items.drop_last(), last);
        let before = path::parts_of(first_seen(items.drop_last()));
        assert(whole =~= front.push(last));
        lemma_push_contains(front, last, item);
        if !before.contains(last) {
            assert(after =~= before.push(last));
            lemma_push_contains(before, last, item);
            assert forall|i: int, j: int|
                0 <= i < after.len() && 0 <= j < after.len() && i != j implies after[i]
                != after[j] by {
                if i < before.len() && j < before.len() {
                    assert(before[i] != before[j]);
                } else if i < before.len() {
                    assert(before.contains(before[i]));
                } else {
                    assert(before.contains(before[j]));
                }
            }
        }
    }
}

proof fn lemma_push_contains<A>(items: Seq<A>, last: A, item: A)
    ensures
        items.push(last).contains(item) == (items.contains(item) || item == last),
{
    let longer = items.push(last);
    if items.contains(item) {
        assert(longer[items.index_of(item)] == item);
    }
    assert(longer[items.len() as int] == last);
    if longer.contains(item) {
        let i = longer.index_of(item);
        if i < items.len() {
            assert(items[i] == item);
        }
    }
}

} // verus!
