//! Finding and changing the node at a path.

use vstd::prelude::*;

use crate::path;
use crate::path::{NodePath, Place};
use crate::text::owned;
use crate::tree;
use crate::tree::{FileNode, Tree};

verus! {

/// The first of the entries that has this name; their number where none has.
pub open spec fn first_named(kids: Seq<Tree>, name: Seq<char>, from: int) -> int
    decreases kids.len() - from,
{
    if from >= kids.len() {
        kids.len() as int
    } else if kids[from].name == name {
        from
    } else {
        first_named(kids, name, from + 1)
    }
}

/// The first of the folders among the entries that has this name; the number
/// of entries where none has.
pub open spec fn first_folder(kids: Seq<Tree>, name: Seq<char>, from: int) -> int
    decreases kids.len() - from,
{
    if from >= kids.len() {
        kids.len() as int
    } else if kids[from].dir && kids[from].name == name {
        from
    } else {
        first_folder(kids, name, from + 1)
    }
}

/// The node at `target` in the tree whose own path is `at`, following at each
/// level the first entry with the name that leads there.
pub open spec fn lookup(tree: Tree, at: Seq<Seq<char>>, target: Seq<Seq<char>>) -> Option<Tree>
    decreases tree,
{
    if at == target {
        Some(tree)
    } else {
        match path::next_part(at, target) {
            Some(next) => {
                let i = first_named(tree.kids, next, 0);
                if 0 <= i < tree.kids.len() {
                    lookup(tree.kids[i], at.push(next), target)
                } else {
                    None
                }
            },
            None => None,
        }
    }
}

/// How the display of a folder changes.
#[derive(Clone, Copy)]
pub enum Change {
    Toggle,
    Show(bool),
}

/// Whether a folder is shown after the change.
pub open spec fn shown_after(tree: Tree, change: Change) -> bool {
    match change {
        Change::Toggle => !tree.expanded,
        Change::Show(expanded) => expanded,
    }
}

/// The tree with the node at `target` shown or hidden, and whether there is
/// such a node.
pub open spec fn changed(
    tree: Tree,
    at: Seq<Seq<char>>,
    target: Seq<Seq<char>>,
    change: Change,
) -> (Tree, bool)
    decreases tree,
{
    if at == target {
        (tree::opened(tree, shown_after(tree, change)), true)
    } else {
        match path::next_part(at, target) {
            Some(next) => {
                let i = first_named(tree.kids, next, 0);
                if tree.dir && 0 <= i < tree.kids.len() {
                    let (kid, found) = changed(tree.kids[i], at.push(next), target, change);
                    (Tree { kids: tree.kids.update(i, kid), ..tree }, found)
                } else {
                    (tree, false)
                }
            },
            None => (tree, false),
        }
    }
}

/// The tree without the node at `target`, with the node's size taken off every
/// folder above it, and that size. `None` where there is no such node below
/// `at`.
pub open spec fn removed(tree: Tree, at: Seq<Seq<char>>, target: Seq<Seq<char>>) -> Option<
    (Tree, u64),
>
    decreases tree,
{
    match path::next_part(at, target) {
        Some(next) => if !tree.dir {
            None
        } else if at.push(next) == target {
            let i = first_named(tree.kids, next, 0);
            if 0 <= i < tree.kids.len() {
                let size = tree.kids[i].size;
                Some(
                    (
                        Tree {
                            size: tree::less(tree.size, size),
                            kids: tree.kids.remove(i),
                            ..tree
                        },
                        size,
                    ),
                )
            } else {
                None
            }
        } else {
            let i = first_folder(tree.kids, next, 0);
            if 0 <= i < tree.kids.len() {
                match removed(tree.kids[i], at.push(next), target) {
                    Some((kid, size)) => Some(
                        (
                            Tree {
                                size: tree::less(tree.size, size),
                                kids: tree.kids.update(i, kid),
                                ..tree
                            },
                            size,
                        ),
                    ),
                    None => None,
                }
            } else {
                None
            }
        },
        None => None,
    }
}

/// The path of the folder that holds the node at `target`. `None` where there
/// is no such node below `at`.
pub open spec fn parent_of(tree: Tree, at: Seq<Seq<char>>, target: Seq<Seq<char>>) -> Option<
    Seq<Seq<char>>,
>
    decreases tree,
{
    match path::next_part(at, target) {
        Some(next) => if at.push(next) == target {
            if first_named(tree.kids, next, 0) < tree.kids.len() {
                Some(at)
            } else {
                None
            }
        } else {
            let i = first_folder(tree.kids, next, 0);
            if 0 <= i < tree.kids.len() {
                parent_of(tree.kids[i], at.push(next), target)
            } else {
                None
            }
        },
        None => None,
    }
}

/// The place of the first entry with this name.
fn find_named(children: &[FileNode], name: &str) -> (found: Option<usize>)
    ensures
        match found {
            Some(i) => i < children@.len() && i == first_named(tree::trees(children@), name@, 0),
            None => first_named(tree::trees(children@), name@, 0) == children@.len(),
        },
{
    let ghost kids = tree::trees(children@);
    let mut i: usize = 0;
    while i < children.len()
        invariant
            i <= children@.len(),
            kids == tree::trees(children@),
            first_named(kids, name@, 0) == first_named(kids, name@, i as int),
        decreases children@.len() - i,
    {
        assert(children@[i as int]@ == kids[i as int]);
        if children[i].name().eq(name) {
            return Some(i);
        }
        i += 1;
    }
    None
}

/// The place of the first folder with this name.
fn find_folder(children: &[FileNode], name: &str) -> (found: Option<usize>)
    ensures
        match found {
            Some(i) => i < children@.len() && i == first_folder(tree::trees(children@), name@, 0),
            None => first_folder(tree::trees(children@), name@, 0) == children@.len(),
        },
{
    let ghost kids = tree::trees(children@);
    let mut i: usize = 0;
    while i < children.len()
        invariant
            i <= children@.len(),
            kids == tree::trees(children@),
            first_folder(kids, name@, 0) == first_folder(kids, name@, i as int),
        decreases children@.len() - i,
    {
        assert(children@[i as int]@ == kids[i as int]);
        if children[i].is_dir() && children[i].name().eq(name) {
            return Some(i);
        }
        i += 1;
    }
    None
}

fn change_inner(node: &mut FileNode, at: &NodePath, target: &NodePath, change: Change) -> (found:
    bool)
    ensures
        (final(node)@, found) == changed(old(node)@, at@, target@, change),
    decreases old(node)@,
{
    if at.same(target) {
        let expanded: bool = match change {
            Change::Toggle => !node.expanded(),
            Change::Show(expanded) => expanded,
        };
        node.set_expanded(expanded);
        return true;
    }
    if !node.is_dir() {
        return false;
    }
    match at.next_toward(target) {
        Some(next) => match find_named(node.children(), next) {
            Some(i) => {
                let below = at.join(next);
                match node.as_dir_mut() {
                    Some(d) => change_inner(d.child_mut(i), &below, target, change),
                    None => false,
                }
            },
            None => false,
        },
        None => false,
    }
}

/// Toggle expand/collapse for the node at `target`. Returns true if found.
pub fn toggle_expand(tree: &mut FileNode, target: &NodePath) -> (found: bool)
    ensures
        (final(tree)@, found) == changed(
            old(tree)@,
            path::parse_parts(old(tree)@.name),
            target@,
            Change::Toggle,
        ),
{
    let at = NodePath::new(tree.name());
    change_inner(tree, &at, target, Change::Toggle)
}

/// Set expanded state for a node at target path. Returns true if found.
pub fn set_expanded(tree: &mut FileNode, target: &NodePath, expanded: bool) -> (found: bool)
    ensures
        (final(tree)@, found) == changed(
            old(tree)@,
            path::parse_parts(old(tree)@.name),
            target@,
            Change::Show(expanded),
        ),
{
    let at = NodePath::new(tree.name());
    change_inner(tree, &at, target, Change::Show(expanded))
}

fn remove_inner(node: &mut FileNode, at: &NodePath, target: &NodePath) -> (size: Option<u64>)
    ensures
        match removed(old(node)@, at@, target@) {
            Some((after, n)) => final(node)@ == after && size == Some(n),
            None => final(node)@ == old(node)@ && size is None,
        },
    decreases old(node)@,
{
    if !node.is_dir() {
        return None;
    }
    match at.next_toward(target) {
        Some(next) => {
            let below = at.join(next);
            if below.same(target) {
                match find_named(node.children(), next) {
                    Some(i) => match node.as_dir_mut() {
                        Some(d) => Some(d.remove_child(i)),
                        None => None,
                    },
                    None => None,
                }
            } else {
                match find_folder(node.children(), next) {
                    Some(i) => match node.as_dir_mut() {
                        Some(d) => {
                            let ghost before = d@;
                            match remove_inner(d.child_mut(i), &below, target) {
                                Some(size) => {
                                    d.sub_size(size);
                                    Some(size)
                                },
                                None => {
                                    assert(d@.kids =~= before.kids);
                                    None
                                },
                            }
                        },
                        None => None,
                    },
                    None => None,
                }
            }
        },
        None => None,
    }
}

/// Remove a node from the tree by path, returning the removed size.
pub fn remove_node(tree: &mut FileNode, target: &NodePath) -> (size: Option<u64>)
    ensures
        match removed(old(tree)@, path::parse_parts(old(tree)@.name), target@) {
            Some((after, n)) => final(tree)@ == after && size == Some(n),
            None => final(tree)@ == old(tree)@ && size is None,
        },
{
    let at = NodePath::new(tree.name());
    remove_inner(tree, &at, target)
}

fn find_parent_inner(node: &FileNode, at: &NodePath, target: &NodePath) -> (parent: Option<NodePath>)
    ensures
        parent is Some <==> parent_of(node@, at@, target@) is Some,
        parent is Some ==> parent->0@ == parent_of(node@, at@, target@)->0,
        parent is Some ==> at@.len() <= parent->0@.len() && parent->0.spelling() == path::led(
            at.spelling(),
            target@,
            at@.len() as int,
            parent->0@.len() as int,
        ),
    decreases node@,
{
    match at.next_toward(target) {
        Some(next) => {
            let children = node.children();
            let below = at.join(next);
            if below.same(target) {
                match find_named(children, next) {
                    Some(_) => Some(at.clone()),
                    None => None,
                }
            } else {
                match find_folder(children, next) {
                    Some(i) => {
                        assert(children@[i as int]@ == node@.kids[i as int]);
                        find_parent_inner(&children[i], &below, target)
                    },
                    None => None,
                }
            }
        },
        None => None,
    }
}

/// Find the parent path of a node in the tree.
pub fn find_parent_path(tree: &FileNode, target: &NodePath) -> (parent: Option<NodePath>)
    ensures
        ({
            let found = parent_of(tree@, path::parse_parts(tree@.name), target@);
            &&& parent is Some <==> found is Some
            &&& parent is Some ==> parent->0@ == found->0
            &&& parent is Some ==> parent->0.spelling() == path::led(
                tree@.name,
                target@,
                path::parse_parts(tree@.name).len() as int,
                found->0.len() as int,
            )
        }),
{
    let at = NodePath::new(tree.name());
    find_parent_inner(tree, &at, target)
}

fn lookup_inner<'a>(node: &'a FileNode, at: &NodePath, target: &NodePath) -> (found: Option<
    &'a FileNode,
>)
    ensures
        found is Some <==> lookup(node@, at@, target@) is Some,
        found is Some ==> found->0@ == lookup(node@, at@, target@)->0,
    decreases node@,
{
    if at.same(target) {
        return Some(node);
    }
    match at.next_toward(target) {
        Some(next) => {
            let children = node.children();
            match find_named(children, next) {
                Some(i) => {
                    assert(children@[i as int]@ == node@.kids[i as int]);
                    let below = at.join(next);
                    lookup_inner(&children[i], &below, target)
                },
                None => None,
            }
        },
        None => None,
    }
}

/// The node at `target`, following at each level the first entry with the name
/// that leads there.
pub fn lookup_node<'a>(tree: &'a FileNode, target: &NodePath) -> (found: Option<&'a FileNode>)
    ensures
        ({
            let there = lookup(tree@, path::parse_parts(tree@.name), target@);
            &&& found is Some <==> there is Some
            &&& found is Some ==> found->0@ == there->0
        }),
{
    let at = NodePath::new(tree.name());
    lookup_inner(tree, &at, target)
}

/// Find a node by path and return (is_dir, expanded, has_children).
pub fn find_node_info(tree: &FileNode, target: &NodePath) -> (info: Option<(bool, bool, bool)>)
    ensures
        info == match lookup(tree@, path::parse_parts(tree@.name), target@) {
            Some(node) => Some((node.dir, node.expanded, node.kids.len() > 0)),
            None => None,
        },
{
    match lookup_node(tree, target) {
        Some(node) => {
            let has_children = node.children().len() > 0;
            Some((node.is_dir(), node.expanded(), has_children))
        },
        None => None,
    }
}

/// The node at `path` in the tree whose own path is `at`: the first in the
/// order in which the tree lists its nodes.
pub open spec fn node_at(tree: Tree, at: Seq<Seq<char>>, target: Seq<Seq<char>>) -> Option<Tree>
    decreases tree, 0nat,
{
    if at == target {
        Some(tree)
    } else {
        node_among(tree.kids, 0, at, target)
    }
}

/// The first node at `path` in the entries from `from` on of the folder at
/// `at`.
pub open spec fn node_among(
    kids: Seq<Tree>,
    from: int,
    at: Seq<Seq<char>>,
    target: Seq<Seq<char>>,
) -> Option<Tree>
    decreases kids, (kids.len() - from) as nat,
{
    if from < 0 || from >= kids.len() {
        None
    } else {
        match node_at(kids[from], path::join_parts(at, kids[from].name), target) {
            Some(found) => Some(found),
            None => node_among(kids, from + 1, at, target),
        }
    }
}

fn find_node_inner<'a>(node: &'a FileNode, at: &NodePath, target: &NodePath) -> (found: Option<
    &'a FileNode,
>)
    ensures
        found is Some <==> node_at(node@, at@, target@) is Some,
        found is Some ==> found->0@ == node_at(node@, at@, target@)->0,
    decreases node@,
{
    if at.same(target) {
        return Some(node);
    }
    let children = node.children();
    let mut i: usize = 0;
    while i < children.len()
        invariant
            i <= children@.len(),
            node@.kids == tree::trees(children@),
            at@ != target@,
            node_at(node@, at@, target@) == node_among(node@.kids, i as int, at@, target@),
        decreases children@.len() - i,
    {
        assert(children@[i as int]@ == node@.kids[i as int]);
        let below = at.join(children[i].name());
        let found = find_node_inner(&children[i], &below, target);
        if found.is_some() {
            return found;
        }
        i += 1;
    }
    None
}

/// Find a node by path in the file tree.
pub fn find_node<'a>(node: &'a FileNode, target: &NodePath) -> (found: Option<&'a FileNode>)
    ensures
        ({
            let there = node_at(node@, path::parse_parts(node@.name), target@);
            &&& found is Some <==> there is Some
            &&& found is Some ==> found->0@ == there->0
        }),
{
    let at = NodePath::new(node.name());
    find_node_inner(node, &at, target)
}

/// One step of a breadcrumb trail: a name and the path it leads to.
pub type Crumb = (Seq<char>, Place);

/// The trail from the entries from `from` on of the folder at `at` to
/// `target`, through folders only.
pub open spec fn trail_among(
    kids: Seq<Tree>,
    from: int,
    at: Place,
    target: Seq<Seq<char>>,
) -> Option<Seq<Crumb>>
    decreases kids, (kids.len() - from) as nat,
{
    if from < 0 || from >= kids.len() {
        None
    } else {
        let kid = kids[from];
        let here = path::join_place(at, kid.name);
        let step = seq![(kid.name, here)];
        if here.parts == target {
            Some(step)
        } else if kid.dir && trail_among(kid.kids, 0, here, target) is Some {
            Some(step + trail_among(kid.kids, 0, here, target)->0)
        } else {
            trail_among(kids, from + 1, at, target)
        }
    }
}

/// The trail from the root to `target`; the root alone where `target` is not
/// in the tree.
pub open spec fn trail(tree: Tree, target: Seq<Seq<char>>) -> Seq<Crumb> {
    let at = path::place(tree.name);
    let root = seq![(tree.name, at)];
    if at.parts != target && trail_among(tree.kids, 0, at, target) is Some {
        root + trail_among(tree.kids, 0, at, target)->0
    } else {
        root
    }
}

/// A trail as mathematical values.
pub open spec fn crumb_views(crumbs: Seq<(String, NodePath)>) -> Seq<Crumb> {
    crumbs.map_values(|crumb: (String, NodePath)| (crumb.0@, crumb.1.place()))
}

fn breadcrumbs_walk(
    node: &FileNode,
    at: &NodePath,
    target: &NodePath,
    steps: &mut Vec<(String, NodePath)>,
) -> (found: bool)
    ensures
        match trail_among(node@.kids, 0, at.place(), target@) {
            Some(steps_there) => found && crumb_views(final(steps)@) == crumb_views(old(steps)@)
                + steps_there,
            None => !found && crumb_views(final(steps)@) == crumb_views(old(steps)@),
        },
    decreases node@,
{
    let ghost before = crumb_views(steps@);
    let children = node.children();
    let mut i: usize = 0;
    while i < children.len()
        invariant
            i <= children@.len(),
            node@.kids == tree::trees(children@),
            before == crumb_views(old(steps)@),
            crumb_views(steps@) == before,
            trail_among(node@.kids, 0, at.place(), target@) == trail_among(
                node@.kids,
                i as int,
                at.place(),
                target@,
            ),
        decreases children@.len() - i,
    {
        assert(children@[i as int]@ == node@.kids[i as int]);
        let child = &children[i];
        let here = at.join(child.name());
        let ghost step: Crumb = (child@.name, here.place());
        if here.same(target) {
            steps.push((owned(child.name()), here));
            assert(crumb_views(steps@) =~= before + seq![step]);
            return true;
        }
        if child.is_dir() {
            steps.push((owned(child.name()), here.clone()));
            assert(crumb_views(steps@) =~= before + seq![step]);
            if breadcrumbs_walk(child, &here, target, steps) {
                assert(crumb_views(steps@) =~= before + (seq![step] + trail_among(
                    child@.kids,
                    0,
                    here.place(),
                    target@,
                )->0));
                return true;
            }
            let ghost longer = steps@;
            steps.pop();
            assert(steps@ =~= longer.drop_last());
            assert(crumb_views(longer).len() == longer.len());
            assert(crumb_views(steps@) =~= crumb_views(longer).drop_last());
            assert((before + seq![step]).drop_last() =~= before);
        }
        i += 1;
    }
    false
}

/// Build breadcrumb trail from root to `target`.
pub fn breadcrumbs(root: &FileNode, target: &NodePath) -> (crumbs: Vec<(String, NodePath)>)
    ensures
        crumb_views(crumbs@) == trail(root@, target@),
{
    let at = NodePath::new(root.name());
    let mut crumbs: Vec<(String, NodePath)> = Vec::new();
    crumbs.push((owned(root.name()), at.clone()));
    assert(crumb_views(crumbs@) =~= seq![(root@.name, at.place())]);
    if !at.same(target) {
        breadcrumbs_walk(root, &at, target, &mut crumbs);
    }
    crumbs
}

proof fn lemma_named_updated(kids: Seq<Tree>, name: Seq<char>, from: int, i: int, kid: Tree)
    requires
        0 <= from,
        0 <= i < kids.len(),
        kid.name == kids[i].name,
    ensures
        first_named(kids.update(i, kid), name, from) == first_named(kids, name, from),
    decreases kids.len() - from,
{
    if from < kids.len() {
        lemma_named_updated(kids, name, from + 1, i, kid);
    }
}

/// A node whose display was changed is found where it was, shown as it was
/// asked for.
pub proof fn lemma_changed_is_shown(
    tree: Tree,
    at: Seq<Seq<char>>,
    target: Seq<Seq<char>>,
    change: Change,
)
    ensures
        changed(tree, at, target, change).0.name == tree.name,
        changed(tree, at, target, change).1 ==> match lookup(tree, at, target) {
            Some(node) => lookup(changed(tree, at, target, change).0, at, target) == Some(
                tree::opened(node, shown_after(node, change)),
            ),
            None => false,
        },
    decreases tree,
{
    if at != target {
        match path::next_part(at, target) {
            Some(next) => {
                let i = first_named(tree.kids, next, 0);
                if tree.dir && 0 <= i < tree.kids.len() {
                    lemma_changed_is_shown(tree.kids[i], at.push(next), target, change);
                    let kid = changed(tree.kids[i], at.push(next), target, change).0;
                    lemma_named_updated(tree.kids, next, 0, i, kid);
                }
            },
            None => {},
        }
    }
}

/// Opening and closing a directory leaves it open or closed as it was.
pub proof fn lemma_toggle_twice(tree: Tree, at: Seq<Seq<char>>, target: Seq<Seq<char>>)
    requires
        changed(tree, at, target, Change::Toggle).1,
    ensures
        ({
            let once = changed(tree, at, target, Change::Toggle).0;
            let twice = changed(once, at, target, Change::Toggle).0;
            match (lookup(tree, at, target), lookup(twice, at, target)) {
                (Some(before), Some(after)) => after.expanded == before.expanded && after.size
                    == before.size && after.name == before.name,
                _ => false,
            }
        }),
{
    let once = changed(tree, at, target, Change::Toggle).0;
    lemma_changed_is_shown(tree, at, target, Change::Toggle);
    lemma_found_again(tree, at, target, Change::Toggle);
    lemma_changed_is_shown(once, at, target, Change::Toggle);
}

proof fn lemma_found_again(
    tree: Tree,
    at: Seq<Seq<char>>,
    target: Seq<Seq<char>>,
    change: Change,
)
    requires
        changed(tree, at, target, change).1,
    ensures
        changed(changed(tree, at, target, change).0, at, target, change).1,
    decreases tree,
{
    if at != target {
        match path::next_part(at, target) {
            Some(next) => {
                let i = first_named(tree.kids, next, 0);
                if tree.dir && 0 <= i < tree.kids.len() {
                    let below = at.push(next);
                    let kid = changed(tree.kids[i], below, target, change).0;
                    lemma_found_again(tree.kids[i], below, target, change);
                    lemma_changed_is_shown(tree.kids[i], below, target, change);
                    lemma_named_updated(tree.kids, next, 0, i, kid);
                    let once = changed(tree, at, target, change).0;
                    assert(once.kids[i] == kid);
                }
            },
            None => {},
        }
    }
}

/// What is set to be open or closed is so afterwards, where it was, and toggling it turns
/// it over.
pub proof fn lemma_shown_as_asked(
    at_set: &mut FileNode,
    at_toggle: &mut FileNode,
    target: &NodePath,
    expanded: bool,
    set: bool,
    toggled: bool,
)
    requires
        call_ensures(set_expanded, (at_set, target, expanded), set),
        call_ensures(toggle_expand, (at_toggle, target), toggled),
    ensures
        set ==> ({
            let at = path::parse_parts(old(at_set)@.name);
            let before = lookup(old(at_set)@, at, target@);
            let after = lookup(final(at_set)@, at, target@);
            &&& before is Some && after is Some
            &&& before->0.dir ==> after->0.expanded == expanded
            &&& after->0.name == before->0.name && after->0.size == before->0.size
        }),
        toggled ==> ({
            let at = path::parse_parts(old(at_toggle)@.name);
            let before = lookup(old(at_toggle)@, at, target@);
            let after = lookup(final(at_toggle)@, at, target@);
            &&& before is Some && after is Some
            &&& before->0.dir ==> after->0.expanded == !before->0.expanded
        }),
{
    lemma_changed_is_shown(
        old(at_set)@,
        path::parse_parts(old(at_set)@.name),
        target@,
        Change::Show(expanded),
    );
    lemma_changed_is_shown(
        old(at_toggle)@,
        path::parse_parts(old(at_toggle)@.name),
        target@,
        Change::Toggle,
    );
}

/// What is told of a node is what the node that is found there is: whether it is a
/// directory, whether it is open and whether it holds anything.
pub proof fn lemma_node_info(
    tree: &FileNode,
    target: &NodePath,
    info: Option<(bool, bool, bool)>,
    found: Option<&FileNode>,
)
    requires
        call_ensures(find_node_info, (tree, target), info),
        call_ensures(lookup_node, (tree, target), found),
    ensures
        info is Some <==> found is Some,
        found matches Some(node) ==> info == Some(
            (node@.dir, node@.expanded, node@.kids.len() != 0),
        ),
        target@ == path::parse_parts(tree@.name) ==> found is Some && found->0@ == tree@,
{
}

} // verus!
