//! What opening, closing and deleting leave as it was.

use vstd::prelude::*;

use crate::agreement;
use crate::agreement::below;
use crate::names;
use crate::navigate;
use crate::navigate::Change;
use crate::path;
use crate::path::Place;
use crate::shape;
use crate::targets;
use crate::tree;
use crate::tree::Tree;
use crate::ui;
use crate::ui::Row;

verus! {

proof fn lemma_first_is_first(kids: Seq<Tree>, name: Seq<char>, from: int)
    requires
        0 <= from <= kids.len(),
    ensures
        ({
            let i = navigate::first_named(kids, name, from);
            &&& from <= i <= kids.len()
            &&& i < kids.len() ==> kids[i].name == name
            &&& forall|k: int| from <= k < i ==> (#[trigger] kids[k]).name != name
        }),
    decreases kids.len() - from,
{
    if from < kids.len() && kids[from].name != name {
        lemma_first_is_first(kids, name, from + 1);
    }
}

pub(crate) proof fn lemma_folder_is_first(kids: Seq<Tree>, name: Seq<char>, from: int)
    requires
        0 <= from <= kids.len(),
    ensures
        ({
            let i = navigate::first_folder(kids, name, from);
            &&& from <= i <= kids.len()
            &&& i < kids.len() ==> kids[i].name == name && kids[i].dir
            &&& forall|k: int|
                from <= k < i ==> !((#[trigger] kids[k]).name == name && kids[k].dir)
        }),
    decreases kids.len() - from,
{
    if from < kids.len() && !(kids[from].dir && kids[from].name == name) {
        lemma_folder_is_first(kids, name, from + 1);
    }
}

/// What the path of an entry leads to is what leads on from that entry.
pub(crate) proof fn lemma_lookup_step(tree: Tree, at: Seq<Seq<char>>, path: Seq<Seq<char>>, i: int)
    requires
        agreement::distinct_names(tree),
        0 <= i < tree.kids.len(),
        path::next_part(at, path) == Some(tree.kids[i].name),
    ensures
        navigate::lookup(tree, at, path) == navigate::lookup(
            tree.kids[i],
            at.push(tree.kids[i].name),
            path,
        ),
{
    let name = tree.kids[i].name;
    lemma_first_is_first(tree.kids, name, 0);
    let k = navigate::first_named(tree.kids, name, 0);
    if k < i {
        assert(tree.kids[k].name != tree.kids[i].name);
    }
    assert(at != path);
}

/// What lies below a path leads there first.
pub(crate) proof fn lemma_below_next(path: Seq<Seq<char>>, at: Seq<Seq<char>>, name: Seq<char>)
    ensures
        below(path, at.push(name)) <==> path::next_part(at, path) == Some(name),
{
    let longer = at.push(name);
    if below(path, longer) {
        assert(path.take(at.len() as int) =~= longer.take(at.len() as int));
        assert(longer.take(at.len() as int) =~= at);
        assert(path[at.len() as int] == path.take(longer.len() as int)[at.len() as int]);
    }
    if path::next_part(at, path) == Some(name) {
        assert(path.take(longer.len() as int) =~= longer);
    }
}

pub(crate) proof fn lemma_entry_fits(kids: Seq<Tree>, i: int)
    requires
        0 <= i < kids.len(),
    ensures
        kids[i].size <= tree::total_size(kids),
{
    tree::lemma_total_prefix(kids, i + 1);
    assert(kids.take(i + 1).drop_last() =~= kids.take(i));
    assert(kids.take(i + 1).last() == kids[i]);
}

/// What a directory above a deleted node is afterwards: smaller by the size of
/// the node, and else as it was, but for what lies in it. Where sizes add up it is
/// smaller by exactly that size; elsewhere it may be empty before that.
pub open spec fn lightened(before: Tree, after: Tree, size: u64) -> bool {
    &&& after.size == tree::less(before.size, size)
    &&& shape::exact(before) ==> after.size + size == before.size
    &&& after.name == before.name
    &&& after.dir == before.dir
    &&& after.hidden == before.hidden
    &&& after.expanded == before.expanded
    &&& after.sorted == before.sorted
}

/// A deletion succeeds exactly where the path leads to a node below the root, and
/// tells that node's size. Then nothing is found at that path or below it, each
/// directory above is smaller by that size, and every other path leads to
/// the node that it led to before.
pub proof fn lemma_removed_elsewhere(
    tree: Tree,
    at: Seq<Seq<char>>,
    target: Seq<Seq<char>>,
    path: Seq<Seq<char>>,
)
    requires
        agreement::distinct_names(tree),
        tree::formed(tree),
    ensures
        match navigate::removed(tree, at, target) {
            Some((after, size)) => {
                &&& at != target
                &&& navigate::lookup(tree, at, target) matches Some(node) && node.size == size
                &&& lightened(tree, after, size)
                &&& match (
                    navigate::lookup(tree, at, path),
                    navigate::lookup(after, at, path),
                ) {
                    (Some(old_node), Some(new_node)) => !below(path, target) && if below(
                        target,
                        path,
                    ) {
                        lightened(old_node, new_node, size)
                    } else {
                        new_node == old_node
                    },
                    (Some(old_node), None) => below(path, target),
                    (None, found) => found is None,
                }
            },
            None => at == target || navigate::lookup(tree, at, target) is None,
        },
    decreases tree,
{
    match path::next_part(at, target) {
        None => {
            assert(navigate::removed(tree, at, target) is None);
        },
        Some(next) => {
            assert(at != target);
            lemma_first_is_first(tree.kids, next, 0);
            lemma_folder_is_first(tree.kids, next, 0);
            lemma_below_next(target, at, next);
            lemma_below_next(path, at, next);
            let i = navigate::first_named(tree.kids, next, 0);
            if tree.dir && i < tree.kids.len() {
                lemma_entry_fits(tree.kids, i);
                let kid = tree.kids[i];
                let below_here = at.push(next);
                lemma_lookup_step(tree, at, target, i);
                if below_here == target {
                    lemma_removed_here(tree, at, target, path, i);
                } else {
                    lemma_removed_elsewhere(kid, below_here, target, path);
                    lemma_removed_deeper(tree, at, target, path, i);
                }
            }
        },
    }
}

proof fn lemma_removed_here(
    tree: Tree,
    at: Seq<Seq<char>>,
    target: Seq<Seq<char>>,
    path: Seq<Seq<char>>,
    i: int,
)
    requires
        agreement::distinct_names(tree),
        tree::formed(tree),
        tree.dir,
        0 <= i < tree.kids.len(),
        i == navigate::first_named(tree.kids, tree.kids[i].name, 0),
        target == at.push(tree.kids[i].name),
    ensures
        ({
            let size = tree.kids[i].size;
            let after = Tree {
                size: tree::less(tree.size, size),
                kids: tree.kids.remove(i),
                ..tree
            };
            &&& navigate::removed(tree, at, target) == Some((after, size))
            &&& match (navigate::lookup(tree, at, path), navigate::lookup(after, at, path)) {
                (Some(old_node), Some(new_node)) => !below(path, target) && if below(
                    target,
                    path,
                ) {
                    path == at && new_node == after && old_node == tree
                } else {
                    new_node == old_node
                },
                (Some(old_node), None) => below(path, target),
                (None, found) => found is None,
            }
        }),
{
    let name = tree.kids[i].name;
    let size = tree.kids[i].size;
    let rest = tree.kids.remove(i);
    let after = Tree { size: tree::less(tree.size, size), kids: rest, ..tree };
    lemma_below_next(target, at, name);
    assert(below(target, target)) by {
        assert(target.take(target.len() as int) =~= target);
    }
    assert(path::next_part(at, target) == Some(name));
    lemma_below_next(path, at, name);
    if at == path {
        assert(!below(path, target));
        assert(target.take(at.len() as int) =~= at);
    } else if below(target, path) {
        // A path above the directory leads nowhere from it.
        assert(path.len() <= at.len() || path == target) by {
            if path.len() > at.len() {
                assert(path.len() == target.len());
                assert(target.take(target.len() as int) =~= target);
            }
        }
        if path == target {
            lemma_lookup_none_in_rest(tree, at, path, i);
        } else {
            assert(path::next_part(at, path) is None);
        }
    } else {
        lemma_lookup_none_in_rest(tree, at, path, i);
    }
}

proof fn lemma_lookup_none_in_rest(tree: Tree, at: Seq<Seq<char>>, path: Seq<Seq<char>>, i: int)
    requires
        agreement::distinct_names(tree),
        0 <= i < tree.kids.len(),
        at != path,
    ensures
        forall|after: Tree|
            after.kids == tree.kids.remove(i) ==> #[trigger] navigate::lookup(after, at, path)
                == if path::next_part(at, path) == Some(tree.kids[i].name) {
                None
            } else {
                navigate::lookup(tree, at, path)
            },
{
    let rest = tree.kids.remove(i);
    assert forall|after: Tree| after.kids == rest implies #[trigger] navigate::lookup(
        after,
        at,
        path,
    ) == (if path::next_part(at, path) == Some(tree.kids[i].name) {
        None
    } else {
        navigate::lookup(tree, at, path)
    }) by {
        match path::next_part(at, path) {
            None => {},
            Some(next) => {
                lemma_first_is_first(tree.kids, next, 0);
                lemma_first_is_first(rest, next, 0);
                let k = navigate::first_named(tree.kids, next, 0);
                let j = navigate::first_named(rest, next, 0);
                if j < rest.len() {
                    let origin = if j < i {
                        j
                    } else {
                        j + 1
                    };
                    assert(rest[j] == tree.kids[origin]);
                    assert(tree.kids[origin].name == next);
                    assert(k <= origin);
                    if k < origin {
                        assert(tree.kids[k].name != tree.kids[origin].name);
                    }
                } else if k < tree.kids.len() && k != i {
                    let image = if k < i {
                        k
                    } else {
                        k - 1
                    };
                    assert(rest[image] == tree.kids[k]);
                }
            },
        }
    }
}

proof fn lemma_removed_deeper(
    tree: Tree,
    at: Seq<Seq<char>>,
    target: Seq<Seq<char>>,
    path: Seq<Seq<char>>,
    i: int,
)
    requires
        agreement::distinct_names(tree),
        tree::formed(tree),
        tree.dir,
        0 <= i < tree.kids.len(),
        i == navigate::first_named(tree.kids, tree.kids[i].name, 0),
        path::next_part(at, target) == Some(tree.kids[i].name),
        at.push(tree.kids[i].name) != target,
        navigate::removed(tree.kids[i], at.push(tree.kids[i].name), target) matches Some((kid, size))
            ==> lightened(tree.kids[i], kid, size),
    ensures
        ({
            let kid = tree.kids[i];
            let here = at.push(kid.name);
            match navigate::removed(kid, here, target) {
                Some((lighter, size)) => {
                    let after = Tree {
                        size: tree::less(tree.size, size),
                        kids: tree.kids.update(i, lighter),
                        ..tree
                    };
                    &&& navigate::removed(tree, at, target) == Some((after, size))
                    &&& lightened(tree, after, size)
                    &&& navigate::lookup(after, at, path) == if at == path {
                        Some(after)
                    } else if path::next_part(at, path) == Some(kid.name) {
                        navigate::lookup(lighter, here, path)
                    } else {
                        navigate::lookup(tree, at, path)
                    }
                    &&& path::next_part(at, path) == Some(kid.name) ==> navigate::lookup(
                        tree,
                        at,
                        path,
                    ) == navigate::lookup(kid, here, path)
                    &&& at == path ==> below(target, path) && !below(path, target)
                    &&& at != path && path::next_part(at, path) != Some(kid.name)
                        && navigate::lookup(tree, at, path) is Some ==> !below(target, path)
                        && !below(path, target)
                },
                None => navigate::removed(tree, at, target) is None,
            }
        }),
{
    let kid = tree.kids[i];
    let here = at.push(kid.name);
    lemma_folder_is_first(tree.kids, kid.name, 0);
    let f = navigate::first_folder(tree.kids, kid.name, 0);
    if f < tree.kids.len() && f != i {
        if f < i {
            assert(tree.kids[f].name != tree.kids[i].name);
        } else {
            assert(tree.kids[i].name != tree.kids[f].name);
        }
    }
    lemma_below_next(target, at, kid.name);
    lemma_below_next(path, at, kid.name);
    match navigate::removed(kid, here, target) {
        Some((lighter, size)) => {
            assert(kid.dir);
            assert(f == i) by {
                if f > i {
                    assert(!(tree.kids[i].name == kid.name && tree.kids[i].dir));
                }
            }
            lemma_entry_fits(tree.kids, i);
            let kids = tree.kids.update(i, lighter);
            let after = Tree { size: tree::less(tree.size, size), kids, ..tree };
            assert(target.take(at.len() as int) =~= at);
            match path::next_part(at, path) {
                Some(next) => {
                    lemma_first_is_first(tree.kids, next, 0);
                    lemma_first_is_first(kids, next, 0);
                    let k = navigate::first_named(tree.kids, next, 0);
                    let j = navigate::first_named(kids, next, 0);
                    assert(forall|m: int|
                        0 <= m < kids.len() ==> (#[trigger] kids[m]).name == tree.kids[m].name);
                    assert(j == k) by {
                        if j < k {
                            assert(tree.kids[j].name == kids[j].name);
                        } else if k < j {
                            assert(kids[k].name == tree.kids[k].name);
                        }
                    }
                    if next == kid.name {
                        lemma_lookup_step(tree, at, path, i);
                        assert(k == i);
                    } else {
                        assert(k != i);
                        lemma_parted(target, path, at, kid.name, next);
                    }
                },
                None => {},
            }
            if at != path && path::next_part(at, path) is None {
                assert(navigate::lookup(tree, at, path) is None);
            }
        },
        None => {
            if f < tree.kids.len() {
                assert(f == i);
            }
        },
    }
}

/// Paths that part at a directory are not below each other.
proof fn lemma_parted(
    a: Seq<Seq<char>>,
    b: Seq<Seq<char>>,
    at: Seq<Seq<char>>,
    x: Seq<char>,
    y: Seq<char>,
)
    requires
        path::next_part(at, a) == Some(x),
        path::next_part(at, b) == Some(y),
        x != y,
    ensures
        !below(a, b),
        !below(b, a),
{
    let n = at.len() as int;
    assert(a[n] == x && b[n] == y);
    if below(a, b) {
        assert(a.take(b.len() as int)[n] == a[n]);
    }
    if below(b, a) {
        assert(b.take(a.len() as int)[n] == b[n]);
    }
}

/// What a node above an opened or closed one is afterwards: as it was, but for
/// what lies in it.
pub open spec fn kept(before: Tree, after: Tree) -> bool {
    &&& after.size == before.size
    &&& after.name == before.name
    &&& after.dir == before.dir
    &&& after.hidden == before.hidden
    &&& after.expanded == before.expanded
    &&& after.sorted == before.sorted
    &&& after.kids.len() == before.kids.len()
}

/// Opening and closing succeeds exactly where the path leads to a node. Where it
/// does not, nothing changes. Where it does, that node is opened or closed, the nodes
/// above stay as they are but for what lies in them, and every other path leads to the
/// node that it led to before.
pub proof fn lemma_changed_elsewhere(
    tree: Tree,
    at: Seq<Seq<char>>,
    target: Seq<Seq<char>>,
    change: Change,
    path: Seq<Seq<char>>,
)
    requires
        agreement::distinct_names(tree),
        tree::formed(tree),
    ensures
        ({
            let (after, found) = navigate::changed(tree, at, target, change);
            &&& found == navigate::lookup(tree, at, target) is Some
            &&& !found ==> after == tree
            &&& match (navigate::lookup(tree, at, path), navigate::lookup(after, at, path)) {
                (Some(old_node), Some(new_node)) => if path == target {
                    new_node == tree::opened(old_node, navigate::shown_after(old_node, change))
                } else if below(target, path) {
                    kept(old_node, new_node)
                } else {
                    new_node == old_node
                },
                (None, None) => true,
                _ => false,
            }
        }),
    decreases tree,
{
    let (after, found) = navigate::changed(tree, at, target, change);
    if at == target {
        if path != at {
            if below(target, path) {
                assert(path::next_part(at, path) is None) by {
                    if path.len() > at.len() {
                        assert(false);
                    }
                }
            }
            lemma_opened_leads(tree, navigate::shown_after(tree, change), at, path);
        }
    } else if let Some(next) = path::next_part(at, target) {
        lemma_first_is_first(tree.kids, next, 0);
        let i = navigate::first_named(tree.kids, next, 0);
        if tree.dir && i < tree.kids.len() {
            let kid = tree.kids[i];
            let here = at.push(next);
            lemma_changed_elsewhere(kid, here, target, change, path);
            lemma_changed_elsewhere(kid, here, target, change, here);
            lemma_lookup_step(tree, at, target, i);
            let changed = navigate::changed(kid, here, target, change).0;
            let kids = tree.kids.update(i, changed);
            assert(after == Tree { kids, ..tree });
            navigate::lemma_changed_is_shown(kid, here, target, change);
            if !found {
                assert(kids =~= tree.kids);
            }
            assert(target.take(at.len() as int) =~= at);
            if at != path {
                if let Some(step) = path::next_part(at, path) {
                    lemma_first_is_first(tree.kids, step, 0);
                    lemma_first_is_first(kids, step, 0);
                    let k = navigate::first_named(tree.kids, step, 0);
                    let j = navigate::first_named(kids, step, 0);
                    assert(forall|m: int|
                        0 <= m < kids.len() ==> (#[trigger] kids[m]).name == tree.kids[m].name);
                    assert(j == k) by {
                        if j < k {
                            assert(tree.kids[j].name == kids[j].name);
                        } else if k < j {
                            assert(kids[k].name == tree.kids[k].name);
                        }
                    }
                    if step == next {
                        assert(k == i);
                    } else {
                        assert(k != i);
                        lemma_parted(target, path, at, next, step);
                    }
                }
            }
        } else if !tree.dir {
            assert(tree.kids.len() == 0);
        }
    }
}

/// Below a directory, paths lead to the same nodes however its entries are ordered.
proof fn lemma_opened_leads(tree: Tree, expanded: bool, at: Seq<Seq<char>>, path: Seq<Seq<char>>)
    requires
        agreement::distinct_names(tree),
        tree.kids.len() <= usize::MAX,
        at != path,
    ensures
        navigate::lookup(tree::opened(tree, expanded), at, path) == navigate::lookup(
            tree,
            at,
            path,
        ),
{
    let after = tree::opened(tree, expanded);
    if let Some(next) = path::next_part(at, path) {
        let kids = after.kids;
        tree::lemma_by_size(tree.kids);
        lemma_first_is_first(tree.kids, next, 0);
        lemma_first_is_first(kids, next, 0);
        let k = navigate::first_named(tree.kids, next, 0);
        let j = navigate::first_named(kids, next, 0);
        if kids != tree.kids {
            assert(kids == tree::by_size(tree.kids));
            if j < kids.len() {
                let m = tree::lemma_by_size_in(tree.kids, j);
                assert(tree.kids[m].name == next);
                if k < m {
                    assert(tree.kids[k].name != tree.kids[m].name);
                }
                assert(k == m);
            } else if k < tree.kids.len() {
                let kid = tree.kids[k];
                assert(kids.contains(kid)) by {
                    broadcast use vstd::seq_lib::group_to_multiset_ensures;

                    assert(tree.kids.contains(kid));
                    assert(tree.kids.to_multiset().count(kid) > 0);
                    assert(kids.to_multiset().count(kid) > 0);
                }
                let m = kids.index_of(kid);
                assert(kids[m].name == next);
            }
        }
    }
}

/// Whether `path` leads to a node below the one at `at`.
pub open spec fn leads_below(tree: Tree, at: Seq<Seq<char>>, path: Seq<Seq<char>>) -> bool {
    at != path && navigate::lookup(tree, at, path) is Some
}

/// The directory of a node is found exactly where the node lies below the root. It is
/// where the path leads without its last component, and the node is one of its entries.
pub proof fn lemma_parent_holds(tree: Tree, at: Seq<Seq<char>>, target: Seq<Seq<char>>)
    requires
        agreement::distinct_names(tree),
        tree::formed(tree),
    ensures
        match navigate::parent_of(tree, at, target) {
            Some(parent) => {
                &&& leads_below(tree, at, target)
                &&& parent == target.drop_last()
                &&& navigate::lookup(tree, at, parent) matches Some(dir) && dir.dir
                    && dir.kids.contains(navigate::lookup(tree, at, target)->0)
            },
            None => !leads_below(tree, at, target),
        },
    decreases tree,
{
    if let Some(next) = path::next_part(at, target) {
        assert(at != target);
        lemma_first_is_first(tree.kids, next, 0);
        lemma_folder_is_first(tree.kids, next, 0);
        let i = navigate::first_named(tree.kids, next, 0);
        let f = navigate::first_folder(tree.kids, next, 0);
        let here = at.push(next);
        if f < tree.kids.len() && f != i {
            if f < i {
                assert(tree.kids[f].name != next);
            } else {
                assert(tree.kids[i].name != tree.kids[f].name);
            }
        }
        if i < tree.kids.len() {
            let kid = tree.kids[i];
            lemma_lookup_step(tree, at, target, i);
            if here == target {
                assert(target.drop_last() =~= at);
                assert(tree.kids.contains(kid));
            } else {
                lemma_parent_holds(kid, here, target);
                assert(tree::formed(kid));
                if !kid.dir {
                    assert(kid.kids.len() == 0);
                    assert(navigate::lookup(kid, here, target) is None) by {
                        if let Some(step) = path::next_part(here, target) {
                            lemma_first_is_first(kid.kids, step, 0);
                        }
                    }
                    if f < tree.kids.len() {
                        assert(tree.kids[f].dir);
                    }
                } else {
                    assert(f <= i) by {
                        if f > i {
                            assert(!(tree.kids[i].name == next && tree.kids[i].dir));
                        }
                    }
                    assert(f == i);
                    if navigate::parent_of(kid, here, target) is Some {
                        let parent = target.drop_last();
                        lemma_below_next(target, at, next);
                        assert(here.len() <= parent.len()) by {
                            if here.len() == target.len() {
                                assert(target.take(here.len() as int) =~= target);
                            }
                        }
                        assert(parent.take(here.len() as int) =~= target.take(here.len() as int));
                        lemma_below_next(parent, at, next);
                        lemma_lookup_step(tree, at, parent, i);
                    }
                }
            }
        }
    }
}

/// A trail leads to its target exactly where the target is found; else it is the root
/// alone. Where names are plain it has one step for each component below the root.
pub proof fn lemma_trail_length(root: Tree, target: Seq<Seq<char>>)
    requires
        tree::formed(root),
    ensures
        ({
            let at = path::parse_parts(root.name);
            let trail = navigate::trail(root, target);
            if navigate::node_at(root, at, target) is Some {
                &&& trail.last().1.parts == target
                &&& trail.len() > 1 <==> at != target
                &&& agreement::plain_names(root) ==> trail.len() == target.len() - at.len() + 1
            } else {
                trail.len() == 1
            }
        }),
{
    let at = path::parse_parts(root.name);
    let trail = navigate::trail(root, target);
    if at == target {
        assert(trail =~= seq![(root.name, path::place(root.name))]);
    } else {
        lemma_trail_found(root.kids, 0, path::place(root.name), target, root);
        assert(navigate::node_at(root, at, target) == navigate::node_among(
            root.kids,
            0,
            at,
            target,
        ));
        agreement::lemma_trail(root, target);
    }
}

proof fn lemma_trail_found(
    kids: Seq<Tree>,
    from: int,
    at: Place,
    target: Seq<Seq<char>>,
    tree: Tree,
)
    requires
        tree::formed(tree),
        kids == tree.kids,
        0 <= from,
    ensures
        ({
            let steps = navigate::trail_among(kids, from, at, target);
            &&& steps is Some <==> navigate::node_among(kids, from, at.parts, target) is Some
            &&& steps is Some ==> steps->0.len() > 0
            &&& steps is Some && agreement::plain_names(tree) ==> steps->0.len() == target.len()
                - at.parts.len()
        }),
    decreases kids, (kids.len() - from) as nat,
{
    if from < kids.len() {
        let kid = kids[from];
        let here = path::join_place(at, kid.name);
        assert(tree::formed(kid));
        if agreement::plain_names(tree) {
            assert(agreement::plain_names(kid) && path::plain_name(kid.name));
            path::lemma_join_plain(at.parts, kid.name);
        }
        lemma_trail_found(kid.kids, 0, here, target, kid);
        lemma_trail_found(kids, from + 1, at, target, tree);
        let found = navigate::node_at(kid, here.parts, target);
        assert(found == if here.parts == target {
            Some(kid)
        } else {
            navigate::node_among(kid.kids, 0, here.parts, target)
        });
        assert(navigate::node_among(kids, from, at.parts, target) == if found is Some {
            found
        } else {
            navigate::node_among(kids, from + 1, at.parts, target)
        });
        assert(agreement::plain_names(tree) && here.parts == target ==> target.len()
            == at.parts.len() + 1);
    }
}

pub(crate) proof fn lemma_found_well_named(tree: Tree, at: Seq<Seq<char>>, path: Seq<Seq<char>>)
    requires
        agreement::well_named(tree),
    ensures
        navigate::lookup(tree, at, path) matches Some(node) ==> agreement::well_named(node),
    decreases tree,
{
    if at != path {
        if let Some(next) = path::next_part(at, path) {
            lemma_first_is_first(tree.kids, next, 0);
            let i = navigate::first_named(tree.kids, next, 0);
            if i < tree.kids.len() {
                assert(agreement::well_named(tree.kids[i]));
                lemma_found_well_named(tree.kids[i], at.push(next), path);
            }
        }
    }
}

proof fn lemma_kept_names_differ(kids: Seq<Tree>, keep: spec_fn(Tree) -> bool)
    requires
        forall|i: int, j: int|
            0 <= i < j < kids.len() ==> #[trigger] kids[i].name != #[trigger] kids[j].name,
        forall|i: int| 0 <= i < kids.len() ==> path::plain_name(#[trigger] kids[i].name),
    ensures
        targets::names_of(kids.filter(keep)).no_duplicates(),
        forall|name: Seq<char>| #[trigger]
            targets::names_of(kids.filter(keep)).contains(name) ==> path::plain_name(name)
                && exists|i: int| 0 <= i < kids.len() && (#[trigger] kids[i]).name == name,
    decreases kids.len(),
{
    reveal(Seq::filter);
    if kids.len() > 0 {
        let front = kids.drop_last();
        assert forall|i: int, j: int| 0 <= i < j < front.len() implies #[trigger] front[i].name
            != #[trigger] front[j].name by {
            assert(kids[i].name != kids[j].name);
        }
        assert forall|i: int| 0 <= i < front.len() implies path::plain_name(
            #[trigger] front[i].name,
        ) by {
            assert(path::plain_name(kids[i].name));
        }
        lemma_kept_names_differ(front, keep);
        let before = targets::names_of(front.filter(keep));
        let after = targets::names_of(kids.filter(keep));
        let last = kids.last();
        assert forall|name: Seq<char>| #[trigger] before.contains(name) implies path::plain_name(
            name,
        ) && (exists|i: int| 0 <= i < kids.len() && (#[trigger] kids[i]).name == name) && name
            != last.name by {
            let i = choose|i: int| 0 <= i < front.len() && (#[trigger] front[i]).name == name;
            assert(kids[i].name == name);
            assert(kids[i].name != kids[kids.len() - 1].name);
        }
        if keep(last) {
            assert(after =~= before.push(last.name));
            assert(!before.contains(last.name));
            assert forall|i: int, j: int|
                0 <= i < after.len() && 0 <= j < after.len() && i != j implies after[i]
                != after[j] by {
                if i == before.len() {
                    assert(before.contains(before[j]));
                } else if j == before.len() {
                    assert(before.contains(before[i]));
                }
            }
            assert forall|name: Seq<char>| #[trigger] after.contains(name) implies path::plain_name(
                name,
            ) && (exists|i: int| 0 <= i < kids.len() && (#[trigger] kids[i]).name == name) by {
                let k = after.index_of(name);
                if k < before.len() {
                    assert(before.contains(before[k]));
                } else {
                    assert(kids[kids.len() - 1].name == name);
                }
            }
        } else {
            assert(after =~= before);
        }
    }
}

pub(crate) proof fn lemma_group_files_differ(tree: Tree, dir: Place, show_hidden: bool)
    requires
        agreement::well_named(tree),
    ensures
        path::parts_of(targets::group_files(tree, dir, show_hidden)).no_duplicates(),
{
    let at = path::parse_parts(tree.name);
    lemma_found_well_named(tree, at, dir.parts);
    if let Some(node) = navigate::lookup(tree, at, dir.parts) {
        let keep = |kid: Tree| ui::is_loose(kid, show_hidden);
        let found = targets::names_of(node.kids.filter(keep));
        lemma_kept_names_differ(node.kids, keep);
        let sorted = names::alphabetical(found);
        names::lemma_name_order();
        found.lemma_sort_by_ensures(names::name_order());
        found.lemma_multiset_has_no_duplicates();
        sorted.lemma_multiset_has_no_duplicates_conv();
        let files = path::parts_of(targets::places_in(dir, sorted));
        assert forall|i: int, j: int|
            0 <= i < files.len() && 0 <= j < files.len() && i != j implies files[i]
            != files[j] by {
            assert(sorted.contains(sorted[i]) && sorted.contains(sorted[j]));
            assert(found.contains(sorted[i]) && found.contains(sorted[j]));
            path::lemma_join_plain(dir.parts, sorted[i]);
            path::lemma_join_plain(dir.parts, sorted[j]);
            assert(files[i].last() == sorted[i] && files[j].last() == sorted[j]);
        }
    }
}

proof fn lemma_all_first(items: Seq<Place>)
    requires
        path::parts_of(items).no_duplicates(),
    ensures
        targets::first_seen(items) == items,
    decreases items.len(),
{
    if items.len() > 0 {
        let front = items.drop_last();
        let (parts, shorter) = (path::parts_of(items), path::parts_of(front));
        assert(shorter =~= parts.drop_last());
        lemma_all_first(front);
        assert(!shorter.contains(items.last().parts)) by {
            if shorter.contains(items.last().parts) {
                let i = shorter.index_of(items.last().parts);
                assert(parts[i] == parts[parts.len() - 1]);
            }
        }
        assert(front.push(items.last()) =~= items);
    }
}

/// What one row's deletion touches is what a batch of that row alone touches, exactly
/// where it touches no path twice. It does not where entries are well named, nor where
/// the row is no group.
pub proof fn lemma_batch_of_one(
    rows: Seq<Row>,
    tree: Option<Tree>,
    path: Place,
    show_hidden: bool,
)
    ensures
        ({
            let found = targets::deletion_targets(rows, tree, path, show_hidden);
            let batch = targets::first_seen(
                targets::all_targets(rows, tree, seq![path], show_hidden),
            );
            let group = targets::is_group(rows, path.parts);
            &&& batch == found <==> path::parts_of(found).no_duplicates()
            &&& tree is Some && agreement::well_named(tree->0) ==> path::parts_of(
                found,
            ).no_duplicates()
            &&& !group ==> found == seq![path] && path::parts_of(found).no_duplicates()
            &&& group && tree is None ==> found.len() == 0
        }),
{
    let found = targets::deletion_targets(rows, tree, path, show_hidden);
    let one = seq![path];
    assert(one.drop_last() =~= Seq::empty());
    assert(targets::all_targets(rows, tree, one.drop_last(), show_hidden) =~= Seq::empty());
    assert(targets::all_targets(rows, tree, one, show_hidden) =~= found);
    if targets::is_group(rows, path.parts) {
        if let (Some(dir), Some(tree)) = (path::parent_place(path), tree) {
            if agreement::well_named(tree) {
                lemma_group_files_differ(tree, dir, show_hidden);
            }
        }
    }
    targets::lemma_first_seen(found, path.parts);
    if path::parts_of(found).no_duplicates() {
        lemma_all_first(found);
    }
}

} // verus!
