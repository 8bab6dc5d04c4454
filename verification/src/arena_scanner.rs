//! Trees of a scan whose nodes live in an arena until the scan has ended.

use vstd::prelude::*;

use crate::text::owned;
use crate::tree;
use crate::tree::{FileNode, Tree, HIDDEN_BIT};

verus! {

/// The arena of `bumpalo`. What it holds is freed with it, all at once.
#[verifier::external_type_specification]
#[verifier::external_body]
pub struct ExBump<const MIN_ALIGN: usize>(bumpalo::Bump<MIN_ALIGN>);

/// The entries of a directory in the arena: a `bumpalo::collections::Vec` of
/// nodes.
#[verifier::external_body]
pub struct ArenaChildren<'bump> {
    nodes: bumpalo::collections::Vec<'bump, ArenaFileNode<'bump>>,
}

/// What the nodes of such a vector stand for, from the first to the last.
pub uninterp spec fn held(children: ArenaChildren) -> Seq<Tree>;

/// A node in the arena.
pub enum ArenaFileNode<'bump> {
    File { name: &'bump str, size: u64, hidden: bool },
    Dir { name: &'bump str, size: u64, children: ArenaChildren<'bump>, hidden: bool },
}

impl<'bump> View for ArenaFileNode<'bump> {
    type V = Tree;

    open spec fn view(&self) -> Tree {
        match *self {
            ArenaFileNode::File { name, size, hidden } => Tree {
                name: name@,
                size,
                dir: false,
                hidden,
                expanded: false,
                sorted: true,
                kids: Seq::empty(),
            },
            ArenaFileNode::Dir { name, size, children, hidden } => Tree {
                name: name@,
                size,
                dir: true,
                hidden,
                expanded: false,
                sorted: false,
                kids: held(children),
            },
        }
    }
}

/// The nodes as mathematical values.
pub open spec fn arena_trees(nodes: Seq<ArenaFileNode>) -> Seq<Tree> {
    nodes.map_values(|node: ArenaFileNode| node@)
}

/// Trusted: `bumpalo::Bump::alloc_str` copies a text into the arena.
#[verifier::external_body]
fn alloc_str<'bump>(bump: &'bump bumpalo::Bump, text: &str) -> (copy: &'bump str)
    ensures
        copy@ == text@,
{
    bump.alloc_str(text)
}

impl<'bump> ArenaChildren<'bump> {
    /// Trusted: `bumpalo::collections::Vec::new_in` makes an empty vector.
    #[verifier::external_body]
    fn new_in(bump: &'bump bumpalo::Bump) -> (children: Self)
        ensures
            held(children) == Seq::<Tree>::empty(),
    {
        ArenaChildren { nodes: bumpalo::collections::Vec::new_in(bump) }
    }

    /// Trusted: `bumpalo::collections::Vec::push` puts a node behind the
    /// others.
    #[verifier::external_body]
    fn push_node(&mut self, node: ArenaFileNode<'bump>)
        ensures
            held(*final(self)) == held(*old(self)).push(node@),
    {
        self.nodes.push(node);
    }

    /// Trusted: `bumpalo::collections::Vec::len` counts the nodes.
    #[verifier::external_body]
    fn count(&self) -> (count: usize)
        ensures
            count == held(*self).len(),
    {
        self.nodes.len()
    }

    /// Trusted: indexing a `bumpalo::collections::Vec` gives the node at that
    /// place, to change it. The others stay.
    #[verifier::external_body]
    fn node_mut(&mut self, index: usize) -> (node: &mut ArenaFileNode<'bump>)
        requires
            index < held(*old(self)).len(),
        ensures
            node@ == held(*old(self))[index as int],
            held(*final(self)) == held(*old(self)).update(index as int, final(node)@),
    {
        &mut self.nodes[index]
    }

    /// Trusted: `sort_by_key` of the slice that a `bumpalo::collections::Vec`
    /// holds puts the nodes with the smallest key first and leaves those with
    /// equal keys as they stood.
    #[verifier::external_body]
    fn sort_nodes(&mut self)
        ensures
            held(*final(self)) == tree::by_size(held(*old(self))),
    {
        self.nodes.sort_by_key(|node| node.sort_key());
    }

    /// Trusted: the iterator of a `bumpalo::collections::Vec` hands out the
    /// nodes from the first to the last.
    #[verifier::external_body]
    fn into_nodes(self) -> (nodes: Vec<ArenaFileNode<'bump>>)
        ensures
            arena_trees(nodes@) == held(self),
    {
        self.nodes.into_iter().collect()
    }
}

/// The node outside the arena. A file of 2^63 bytes or more loses the top bit
/// of its size, which marks it hidden.
pub open spec fn standard(node: Tree) -> Tree
    decreases node,
{
    if node.dir {
        Tree {
            expanded: false,
            sorted: false,
            kids: Seq::new(
                node.kids.len(),
                |i: int|
                    if 0 <= i < node.kids.len() {
                        standard(node.kids[i])
                    } else {
                        arbitrary()
                    },
            ),
            ..node
        }
    } else {
        Tree {
            name: node.name,
            size: (node.size % HIDDEN_BIT) as u64,
            dir: false,
            hidden: node.hidden || node.size >= HIDDEN_BIT,
            expanded: false,
            sorted: true,
            kids: Seq::empty(),
        }
    }
}

/// The nodes, each with the entries of its directories arranged.
pub open spec fn all_arranged(kids: Seq<Tree>) -> Seq<Tree>
    decreases kids, 1nat,
{
    Seq::new(
        kids.len(),
        |i: int|
            if 0 <= i < kids.len() {
                arranged(kids[i])
            } else {
                arbitrary()
            },
    )
}

/// The node with the largest entries of each directory first.
pub open spec fn arranged(node: Tree) -> Tree
    decreases node, 0nat,
{
    if node.dir {
        Tree { kids: tree::by_size(all_arranged(node.kids)), ..node }
    } else {
        node
    }
}

/// A node of a directory in the arena, as large as its entries together.
pub open spec fn arena_dir(name: Seq<char>, hidden: bool, kids: Seq<Tree>) -> Tree {
    Tree {
        name,
        size: tree::total_size(kids) as u64,
        dir: true,
        hidden,
        expanded: false,
        sorted: false,
        kids,
    }
}

impl<'bump> ArenaFileNode<'bump> {
    /// A file in the arena.
    pub fn new_file(bump: &'bump bumpalo::Bump, name: &str, size: u64, hidden: bool) -> (node: Self)
        ensures
            node@ == (Tree {
                name: name@,
                size,
                dir: false,
                hidden,
                expanded: false,
                sorted: true,
                kids: Seq::empty(),
            }),
    {
        ArenaFileNode::File { name: alloc_str(bump, name), size, hidden }
    }

    /// An empty directory in the arena.
    pub fn empty_dir(bump: &'bump bumpalo::Bump, name: &str, hidden: bool) -> (node: Self)
        ensures
            node@ == arena_dir(name@, hidden, Seq::empty()),
    {
        ArenaFileNode::Dir {
            name: alloc_str(bump, name),
            size: 0,
            children: ArenaChildren::new_in(bump),
            hidden,
        }
    }

    pub fn size(&self) -> (size: u64)
        ensures
            size == self@.size,
    {
        match self {
            ArenaFileNode::File { size, .. } => *size,
            ArenaFileNode::Dir { size, .. } => *size,
        }
    }

    /// A number that is the smaller the larger the node is.
    fn sort_key(&self) -> (key: u64)
        ensures
            key == u64::MAX - self@.size,
    {
        u64::MAX - self.size()
    }

    /// Puts a node into a directory and adds its size, where the sum fits.
    /// False where it does not, or where this is a file: then nothing changes.
    pub fn add_child(&mut self, child: ArenaFileNode<'bump>) -> (fits: bool)
        ensures
            fits == (old(self)@.dir && old(self)@.size + child@.size <= u64::MAX),
            final(self)@ == (if fits {
                Tree {
                    size: (old(self)@.size + child@.size) as u64,
                    kids: old(self)@.kids.push(child@),
                    ..old(self)@
                }
            } else {
                old(self)@
            }),
    {
        let added: u64 = child.size();
        match self {
            ArenaFileNode::Dir { size, children, .. } => {
                if added > u64::MAX - *size {
                    return false;
                }
                *size = *size + added;
                children.push_node(child);
                true
            },
            ArenaFileNode::File { .. } => false,
        }
    }

    /// Puts the largest entries of each directory first; equally large ones
    /// stay as they stood.
    pub fn sort_arena_children(&mut self)
        ensures
            final(self)@ == arranged(old(self)@),
        decreases old(self)@,
    {
        let ghost before = self@;
        match self {
            ArenaFileNode::Dir { children, .. } => {
                let count: usize = children.count();
                let ghost kids = before.kids;
                children.sort_nodes();
                proof {
                    lemma_arranged_order(kids);
                }
                let ghost ordered = held(*children);
                let mut i: usize = 0;
                assert(all_arranged(ordered).take(0) + ordered.skip(0) =~= ordered);
                while i < count
                    invariant
                        i <= count == ordered.len(),
                        held(*children) == all_arranged(ordered).take(i as int) + ordered.skip(
                            i as int,
                        ),
                        ordered == tree::by_size(kids),
                        kids.len() == count,
                        before == old(self)@,
                        before.dir,
                        before.kids == kids,
                    decreases count - i,
                {
                    proof {
                        assert(held(*children)[i as int] == ordered[i as int]);
                        let k = tree::lemma_by_size_in(kids, i as int);
                        assert(decreases_to!(before => before.kids[k]));
                    }
                    let node = children.node_mut(i);
                    node.sort_arena_children();
                    i += 1;
                    assert(held(*children) =~= all_arranged(ordered).take(i as int) + ordered.skip(
                        i as int,
                    ));
                }
                assert(held(*children) =~= all_arranged(ordered));
            },
            ArenaFileNode::File { .. } => {},
        }
    }

    /// The tree outside the arena.
    pub fn into_standard(self) -> (node: FileNode)
        ensures
            node@ == standard(self@),
        decreases self@,
    {
        let ghost whole = self@;
        match self {
            ArenaFileNode::File { name, size, hidden } => FileNode::new_file(
                owned(name),
                size,
                hidden,
            ),
            ArenaFileNode::Dir { name, size, children, hidden } => {
                let nodes = children.into_nodes();
                let ghost kids = arena_trees(nodes@);
                let mut out: Vec<FileNode> = Vec::new();
                assert(tree::trees(out@) =~= standard(whole).kids.take(0));
                for node in it: nodes
                    invariant
                        it.seq() == nodes@,
                        whole == self@,
                        whole.dir,
                        kids == arena_trees(nodes@),
                        whole.kids == kids,
                        tree::trees(out@) == standard(whole).kids.take(it.index() as int),
                {
                    let ghost n = it.index() as int;
                    let ghost before = tree::trees(out@);
                    proof {
                        assert(node@ == whole.kids[n]);
                        assert(decreases_to!(whole => whole.kids[n]));
                    }
                    out.push(node.into_standard());
                    assert(tree::trees(out@) =~= before.push(standard(whole.kids[n])));
                    assert(tree::trees(out@) =~= standard(whole).kids.take(n + 1));
                }
                assert(tree::trees(out@) =~= standard(whole).kids);
                FileNode::new_dir(owned(name), size, out, hidden)
            },
        }
    }
}

/// The tree of a scan: the scanned directory, shown, under the path that was
/// scanned.
pub open spec fn arena_scanned(scanned: Tree, root: Seq<char>) -> Tree {
    let whole = tree::opened(standard(arranged(scanned)), true);
    if whole.dir {
        Tree { name: root, ..whole }
    } else {
        whole
    }
}

/// Ends a scan: puts the largest entries first, leaves the arena, and names the
/// tree after the path that was scanned.
pub fn arena_scan_directory(root: &str, scanned: ArenaFileNode) -> (node: FileNode)
    ensures
        node@ == arena_scanned(scanned@, root@),
{
    let mut scanned = scanned;
    scanned.sort_arena_children();
    let mut node = scanned.into_standard();
    node.set_expanded(true);
    if let Some(dir) = node.as_dir_mut() {
        dir.rename(owned(root));
    }
    node
}

/// Arranging the entries of directories does not change the order by size
/// above them.
proof fn lemma_arranged_order(kids: Seq<Tree>)
    requires
        kids.len() <= usize::MAX,
    ensures
        tree::by_size(all_arranged(kids)) == all_arranged(tree::by_size(kids)),
        tree::by_size(kids).len() == kids.len(),
{
    let f = |kid: Tree| arranged(kid);
    assert forall|kid: Tree| #[trigger] f(kid).size == kid.size by {}
    tree::lemma_by_size_maps(kids, f);
    assert(all_arranged(kids) =~= kids.map_values(f));
    assert(all_arranged(tree::by_size(kids)) =~= tree::by_size(kids).map_values(f));
}

/// A scan in the arena gives a directory with the scanned size and as many
/// entries, under the path that was scanned, shown.
pub proof fn lemma_arena_keeps_scan(scanned: Tree, root: Seq<char>)
    requires
        scanned.dir,
        scanned.kids.len() <= usize::MAX,
    ensures
        ({
            let whole = arena_scanned(scanned, root);
            &&& whole.dir && whole.expanded
            &&& whole.name == root
            &&& whole.size == scanned.size
            &&& whole.hidden == scanned.hidden
            &&& whole.kids.len() == scanned.kids.len()
        }),
{
    lemma_arranged_order(scanned.kids);
    tree::lemma_by_size(standard(arranged(scanned)).kids);
}

} // verus!
