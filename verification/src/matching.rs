//! Which nodes of a tree match a search text or a file category.

use vstd::prelude::*;

use crate::categories;
use crate::categories::{categorize, FileCategory};
use crate::path;
use crate::path::{NodePath, PathSet};
use crate::text;
use crate::text::contains_case_insensitive;
use crate::tree;
use crate::tree::{FileNode, Tree};

verus! {

/// What is looked for.
pub enum Wanted {
    Text(Seq<char>),
    Category(FileCategory),
}

/// Whether the node itself is what is looked for: by its name, or as a file
/// of the category.
pub open spec fn is_wanted(tree: Tree, wanted: Wanted) -> bool {
    match wanted {
        Wanted::Text(query) => text::contains_lowered(tree.name, query),
        Wanted::Category(cat) => !tree.dir && categories::category_of(tree.name) == cat,
    }
}

/// Whether the node or anything in it is what is looked for.
pub open spec fn holds_wanted(tree: Tree, wanted: Wanted) -> bool
    decreases tree,
{
    is_wanted(tree, wanted) || exists|i: int|
        0 <= i < tree.kids.len() && holds_wanted(#[trigger] tree.kids[i], wanted)
}

/// Whether `path` is that of a node that holds what is looked for, in the tree
/// whose own path is `at`.
pub open spec fn marks(
    tree: Tree,
    at: Seq<Seq<char>>,
    wanted: Wanted,
    path: Seq<Seq<char>>,
) -> bool
    decreases tree,
{
    (path == at && holds_wanted(tree, wanted)) || exists|i: int|
        0 <= i < tree.kids.len() && marks(
            #[trigger] tree.kids[i],
            path::join_parts(at, tree.kids[i].name),
            wanted,
            path,
        )
}

/// The paths of the nodes that hold what is looked for.
pub open spec fn marked(tree: Tree, wanted: Wanted) -> Set<Seq<Seq<char>>> {
    Set::new(|path: Seq<Seq<char>>| marks(tree, path::parse_parts(tree.name), wanted, path))
}

/// Returns true if this node's name matches the query or any descendant does.
pub fn node_matches(node: &FileNode, query: &str) -> (found: bool)
    ensures
        found == holds_wanted(node@, Wanted::Text(query@)),
    decreases node@,
{
    if contains_case_insensitive(node.name(), query) {
        return true;
    }
    let children = node.children();
    let mut i: usize = 0;
    while i < children.len()
        invariant
            i <= children@.len(),
            node@.kids == tree::trees(children@),
            forall|k: int|
                0 <= k < i ==> !holds_wanted(#[trigger] node@.kids[k], Wanted::Text(query@)),
        decreases children@.len() - i,
    {
        assert(children@[i as int]@ == node@.kids[i as int]);
        if node_matches(&children[i], query) {
            return true;
        }
        i += 1;
    }
    false
}

/// Adds the paths below `at` that hold the text; true where `at` does.
fn mark_text(node: &FileNode, query: &str, at: &NodePath, cache: &mut PathSet) -> (found: bool)
    ensures
        found == holds_wanted(node@, Wanted::Text(query@)),
        forall|p: Seq<Seq<char>>| #[trigger]
            final(cache)@.contains(p) == (old(cache)@.contains(p) || marks(
                node@,
                at@,
                Wanted::Text(query@),
                p,
            )),
    decreases node@,
{
    let ghost wanted = Wanted::Text(query@);
    let mut found: bool = contains_case_insensitive(node.name(), query);
    let children = node.children();
    let mut i: usize = 0;
    while i < children.len()
        invariant
            i <= children@.len(),
            wanted == Wanted::Text(query@),
            node@.kids == tree::trees(children@),
            found == (is_wanted(node@, wanted) || exists|k: int|
                0 <= k < i && holds_wanted(#[trigger] node@.kids[k], wanted)),
            forall|p: Seq<Seq<char>>| #[trigger]
                cache@.contains(p) == (old(cache)@.contains(p) || exists|k: int|
                    0 <= k < i && marks(
                        #[trigger] node@.kids[k],
                        path::join_parts(at@, node@.kids[k].name),
                        wanted,
                        p,
                    )),
        decreases children@.len() - i,
    {
        assert(children@[i as int]@ == node@.kids[i as int]);
        let below = at.join(children[i].name());
        if mark_text(&children[i], query, &below, cache) {
            found = true;
        }
        i += 1;
    }
    if found {
        cache.insert(at);
    }
    found
}

/// Adds the paths below `at` that hold a file of the category; true where
/// `at` does.
fn mark_category(node: &FileNode, cat: FileCategory, at: &NodePath, cache: &mut PathSet) -> (found:
    bool)
    ensures
        found == holds_wanted(node@, Wanted::Category(cat)),
        forall|p: Seq<Seq<char>>| #[trigger]
            final(cache)@.contains(p) == (old(cache)@.contains(p) || marks(
                node@,
                at@,
                Wanted::Category(cat),
                p,
            )),
    decreases node@,
{
    let ghost wanted = Wanted::Category(cat);
    let mut found: bool = !node.is_dir() && categorize(node.name()) == cat;
    let children = node.children();
    let mut i: usize = 0;
    while i < children.len()
        invariant
            i <= children@.len(),
            wanted == Wanted::Category(cat),
            node@.kids == tree::trees(children@),
            found == (is_wanted(node@, wanted) || exists|k: int|
                0 <= k < i && holds_wanted(#[trigger] node@.kids[k], wanted)),
            forall|p: Seq<Seq<char>>| #[trigger]
                cache@.contains(p) == (old(cache)@.contains(p) || exists|k: int|
                    0 <= k < i && marks(
                        #[trigger] node@.kids[k],
                        path::join_parts(at@, node@.kids[k].name),
                        wanted,
                        p,
                    )),
        decreases children@.len() - i,
    {
        assert(children@[i as int]@ == node@.kids[i as int]);
        let below = at.join(children[i].name());
        if mark_category(&children[i], cat, &below, cache) {
            found = true;
        }
        i += 1;
    }
    if found {
        cache.insert(at);
    }
    found
}

/// Pre-compute which subtrees contain nodes matching the text query: the paths
/// that match or have matching descendants.
pub fn build_text_match_cache(tree: &FileNode, query: &str) -> (cache: PathSet)
    ensures
        cache@ == marked(tree@, Wanted::Text(query@)),
{
    let mut cache = PathSet::new();
    let at = NodePath::new(tree.name());
    mark_text(tree, query, &at, &mut cache);
    assert(cache@ =~= marked(tree@, Wanted::Text(query@)));
    cache
}

/// Pre-compute which subtrees contain nodes matching the given category: the
/// paths that match or have matching descendants.
pub fn build_category_match_cache(tree: &FileNode, cat: FileCategory) -> (cache: PathSet)
    ensures
        cache@ == marked(tree@, Wanted::Category(cat)),
{
    let mut cache = PathSet::new();
    let at = NodePath::new(tree.name());
    mark_category(tree, cat, &at, &mut cache);
    assert(cache@ =~= marked(tree@, Wanted::Category(cat)));
    cache
}

/// Whether a node is the tree itself or lies in it.
pub open spec fn inside(tree: Tree, node: Tree) -> bool
    decreases tree,
{
    node == tree || exists|i: int|
        0 <= i < tree.kids.len() && inside(#[trigger] tree.kids[i], node)
}

/// A tree matches the search text wherever it stands in the name of the tree or of a node
/// in it: a node called `before + piece + after` is found by `piece`, whatever the case of
/// the ASCII letters of either.
pub proof fn lemma_name_is_found(
    tree: Tree,
    node: Tree,
    before: Seq<char>,
    piece: Seq<char>,
    after: Seq<char>,
    query: Seq<char>,
)
    requires
        inside(tree, node),
        node.name == before + piece + after,
        text::all_alike(piece, query),
    ensures
        holds_wanted(tree, Wanted::Text(query)),
    decreases tree,
{
    if node == tree {
        text::lemma_piece_is_found(before, piece, after, query);
    } else {
        let i = choose|i: int| 0 <= i < tree.kids.len() && inside(#[trigger] tree.kids[i], node);
        lemma_name_is_found(tree.kids[i], node, before, piece, after, query);
    }
}

/// A tree matches the search text only where the text is a piece of the name of the tree
/// or of a node in it, but for the case of ASCII letters.
pub proof fn lemma_match_has_name(tree: Tree, query: Seq<char>) -> (node: Tree)
    requires
        holds_wanted(tree, Wanted::Text(query)),
    ensures
        inside(tree, node),
        exists|before: Seq<char>, piece: Seq<char>, after: Seq<char>|
            node.name == #[trigger] (before + piece + after) && text::all_alike(piece, query),
    decreases tree,
{
    if is_wanted(tree, Wanted::Text(query)) {
        text::lemma_found_is_piece(tree.name, query);
        tree
    } else {
        let i = choose|i: int|
            0 <= i < tree.kids.len() && holds_wanted(
                #[trigger] tree.kids[i],
                Wanted::Text(query),
            );
        lemma_match_has_name(tree.kids[i], query)
    }
}

/// A tree holds what a category asks for exactly where a file of that category lies in it.
pub proof fn lemma_category_is_held(tree: Tree, cat: FileCategory)
    ensures
        holds_wanted(tree, Wanted::Category(cat)) <==> exists|node: Tree| #[trigger]
            inside(tree, node) && !node.dir && categories::category_of(node.name) == cat,
    decreases tree,
{
    let wanted = Wanted::Category(cat);
    assert forall|i: int| 0 <= i < tree.kids.len() implies holds_wanted(
        #[trigger] tree.kids[i],
        wanted,
    ) == exists|node: Tree| #[trigger]
        inside(tree.kids[i], node) && !node.dir && categories::category_of(node.name) == cat by {
        lemma_category_is_held(tree.kids[i], cat);
    }
    if holds_wanted(tree, wanted) {
        if is_wanted(tree, wanted) {
            assert(inside(tree, tree));
        } else {
            let i = choose|i: int|
                0 <= i < tree.kids.len() && holds_wanted(#[trigger] tree.kids[i], wanted);
            let node = choose|node: Tree| #[trigger]
                inside(tree.kids[i], node) && !node.dir && categories::category_of(node.name)
                    == cat;
            assert(inside(tree, node));
        }
    }
    if exists|node: Tree| #[trigger]
        inside(tree, node) && !node.dir && categories::category_of(node.name) == cat {
        let node = choose|node: Tree| #[trigger]
            inside(tree, node) && !node.dir && categories::category_of(node.name) == cat;
        if node != tree {
            let i = choose|i: int|
                0 <= i < tree.kids.len() && inside(#[trigger] tree.kids[i], node);
            assert(holds_wanted(tree.kids[i], wanted));
        }
    }
}

} // verus!
