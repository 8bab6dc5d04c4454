//! The scanned tree: files and directories with their sizes.
//!
//! A node holds its own name only; full paths come from joining the names of
//! its ancestors. The root's name is the path that was scanned.

use vstd::prelude::*;

use crate::order;
use crate::order::{pick, rank};
use crate::text;
use crate::text::{owned, starts_with_dot};

verus! {

/// A node as a mathematical value: what it is called, how large it is, how it
/// is shown, and the nodes in it.
#[verifier::ext_equal]
pub struct Tree {
    pub name: Seq<char>,
    pub size: u64,
    pub dir: bool,
    pub hidden: bool,
    pub expanded: bool,
    pub sorted: bool,
    pub kids: Seq<Tree>,
}

/// The sizes of nodes, one by one.
pub open spec fn sizes(kids: Seq<Tree>) -> Seq<u64> {
    kids.map_values(|kid: Tree| kid.size)
}

/// The sum of the sizes of nodes.
pub open spec fn total_size(kids: Seq<Tree>) -> nat
    decreases kids.len(),
{
    if kids.len() == 0 {
        0
    } else {
        total_size(kids.drop_last()) + kids.last().size as nat
    }
}

/// The files in a tree, in the order in which it lists them.
pub open spec fn files(tree: Tree) -> Seq<Tree>
    decreases tree, 0nat,
{
    if tree.dir {
        files_of(tree.kids)
    } else {
        seq![tree] + files_of(tree.kids)
    }
}

/// The files in several trees, tree by tree.
pub open spec fn files_of(trees: Seq<Tree>) -> Seq<Tree>
    decreases trees, 0nat,
{
    if trees.len() == 0 {
        Seq::empty()
    } else {
        files_of(trees.drop_last()) + files(trees.last())
    }
}

/// How many levels of entries a tree has.
pub open spec fn height(tree: Tree) -> nat
    decreases tree, 0nat,
{
    if tree.kids.len() == 0 {
        0
    } else {
        1 + tallest(tree.kids)
    }
}

/// The height of the tallest of several trees.
pub open spec fn tallest(trees: Seq<Tree>) -> nat
    decreases trees, 0nat,
{
    if trees.len() == 0 {
        0
    } else {
        let before = tallest(trees.drop_last());
        let last = height(trees.last());
        if before >= last {
            before
        } else {
            last
        }
    }
}

/// Whether the sizes of the entries of each directory can be added up.
pub open spec fn sums_fit(tree: Tree) -> bool
    decreases tree,
{
    total_size(tree.kids) <= u64::MAX && forall|i: int|
        0 <= i < tree.kids.len() ==> sums_fit(#[trigger] tree.kids[i])
}

/// The nodes with the largest first; equally large ones as they stood.
pub open spec fn by_size(kids: Seq<Tree>) -> Seq<Tree> {
    order::picked(kids, order::order_of(sizes(kids)))
}

/// The node with its contents shown or not. Showing a directory for the first
/// time puts its largest entries first.
pub open spec fn opened(tree: Tree, expanded: bool) -> Tree {
    if tree.dir {
        Tree {
            expanded,
            sorted: tree.sorted || expanded,
            kids: if expanded && !tree.sorted {
                by_size(tree.kids)
            } else {
                tree.kids
            },
            ..tree
        }
    } else {
        tree
    }
}

/// The node with those directories shown that hold at least a quarter of
/// their parent, `levels` levels deep.
pub open spec fn auto_opened(tree: Tree, levels: nat) -> Tree
    decreases levels,
{
    if levels == 0 || !tree.dir || tree.size == 0 {
        tree
    } else {
        Tree {
            kids: tree.kids.map_values(
                |kid: Tree|
                    if kid.dir && kid.size * 4 >= tree.size {
                        auto_opened(opened(kid, true), (levels - 1) as nat)
                    } else {
                        kid
                    },
            ),
            ..tree
        }
    }
}

/// `size` reduced by `amount`, but not below zero.
pub open spec fn less(size: u64, amount: u64) -> u64 {
    if size >= amount {
        (size - amount) as u64
    } else {
        0
    }
}

/// The bit of a file's size word that marks it hidden.
pub const HIDDEN_BIT: u64 = 0x8000_0000_0000_0000;

/// The bits of a file's size word that hold its size.
pub const SIZE_BITS: u64 = 0x7fff_ffff_ffff_ffff;

/// A file: its name, its size below 2^63, and whether it is hidden.
pub struct FileLeaf {
    pub name: String,
    size_hidden: u64,
}

impl Clone for FileLeaf {
    fn clone(&self) -> (copy: Self)
        ensures
            copy == *self,
    {
        FileLeaf { name: self.name.clone(), size_hidden: self.size_hidden }
    }
}

impl FileLeaf {
    /// What the file is called: the text in `name`.
    pub closed spec fn label(&self) -> Seq<char> {
        self.name@
    }

    /// The size in bytes.
    pub closed spec fn bytes(&self) -> u64 {
        self.size_hidden & SIZE_BITS
    }

    /// Whether the file is hidden.
    pub closed spec fn concealed(&self) -> bool {
        self.size_hidden & HIDDEN_BIT != 0
    }

    /// A file of `size` bytes. Only 63 bits hold the size: a larger one loses
    /// its top bit, which then marks the file hidden.
    pub fn new(name: String, size: u64, hidden: bool) -> (leaf: Self)
        ensures
            leaf.label() == name@,
            leaf.bytes() == size % HIDDEN_BIT,
            leaf.concealed() == (hidden || size >= HIDDEN_BIT),
    {
        let word: u64 = size | if hidden { HIDDEN_BIT } else { 0 };
        assert(word & 0x7fff_ffff_ffff_ffff == size % 0x8000_0000_0000_0000) by (bit_vector)
            requires
                word == size | 0x8000_0000_0000_0000 || word == size | 0,
        ;
        assert((word & 0x8000_0000_0000_0000 != 0) == (hidden || size >= 0x8000_0000_0000_0000))
            by (bit_vector)
            requires
                word == size | if hidden { 0x8000_0000_0000_0000u64 } else { 0u64 },
        ;
        FileLeaf { name, size_hidden: word }
    }

    /// The size in bytes.
    pub fn size(&self) -> (size: u64)
        ensures
            size == self.bytes(),
            size < HIDDEN_BIT,
    {
        let word: u64 = self.size_hidden;
        assert(word & 0x7fff_ffff_ffff_ffff < 0x8000_0000_0000_0000) by (bit_vector);
        word & SIZE_BITS
    }

    /// Whether the file is hidden.
    pub fn is_hidden(&self) -> (hidden: bool)
        ensures
            hidden == self.concealed(),
    {
        self.size_hidden & HIDDEN_BIT != 0
    }
}

/// A directory and what is in it.
pub struct DirNode {
    pub name: String,
    pub size: u64,
    pub children: Vec<FileNode>,
    pub expanded: bool,
    pub hidden: bool,
    children_sorted: bool,
}

/// A node of the scanned tree.
pub enum FileNode {
    File(FileLeaf),
    Dir(Box<DirNode>),
}

spec fn node_tree(node: FileNode) -> Tree
    decreases node,
{
    match node {
        FileNode::File(leaf) => Tree {
            name: leaf.name@,
            size: leaf.bytes(),
            dir: false,
            hidden: leaf.concealed(),
            expanded: false,
            sorted: true,
            kids: Seq::empty(),
        },
        FileNode::Dir(d) => dir_tree(*d),
    }
}

spec fn dir_tree(dir: DirNode) -> Tree
    decreases dir,
{
    Tree {
        name: dir.name@,
        size: dir.size,
        dir: true,
        hidden: dir.hidden,
        expanded: dir.expanded,
        sorted: dir.children_sorted,
        kids: Seq::new(
            dir.children@.len(),
            |i: int|
                if 0 <= i < dir.children@.len() {
                    node_tree(dir.children@[i])
                } else {
                    arbitrary()
                },
        ),
    }
}

impl View for FileNode {
    type V = Tree;

    closed spec fn view(&self) -> Tree {
        node_tree(*self)
    }
}

impl View for DirNode {
    type V = Tree;

    closed spec fn view(&self) -> Tree {
        dir_tree(*self)
    }
}

/// The nodes as mathematical values.
pub open spec fn trees(nodes: Seq<FileNode>) -> Seq<Tree> {
    nodes.map_values(|node: FileNode| node@)
}

/// The nodes with the largest first; equally large ones as they stood.
pub fn largest_first(nodes: Vec<FileNode>) -> (ordered: Vec<FileNode>)
    ensures
        trees(ordered@) == by_size(trees(nodes@)),
{
    let mut keys: Vec<u64> = Vec::new();
    let mut i: usize = 0;
    while i < nodes.len()
        invariant
            i <= nodes@.len(),
            keys@ == sizes(trees(nodes@)).take(i as int),
        decreases nodes@.len() - i,
    {
        keys.push(nodes[i].size());
        i += 1;
        assert(keys@ =~= sizes(trees(nodes@)).take(i as int));
    }
    assert(keys@ =~= sizes(trees(nodes@)));
    let order = rank(&keys);
    let ordered = pick(nodes, &order);
    assert(trees(ordered@) =~= order::picked(trees(nodes@), order@));
    ordered
}

impl DirNode {
    /// A directory whose children stand as they were found.
    pub fn new(
        name: String,
        size: u64,
        children: Vec<FileNode>,
        expanded: bool,
        hidden: bool,
    ) -> (dir: Self)
        ensures
            dir@ == (Tree {
                name: name@,
                size,
                dir: true,
                hidden,
                expanded,
                sorted: false,
                kids: trees(children@),
            }),
    {
        let dir = DirNode { name, size, children, expanded, hidden, children_sorted: false };
        assert(dir@.kids =~= trees(children@));
        dir
    }

    /// Puts the largest children first, once.
    fn sort_children_by_size(&mut self)
        ensures
            final(self)@ == (Tree {
                sorted: true,
                kids: if old(self)@.sorted {
                    old(self)@.kids
                } else {
                    by_size(old(self)@.kids)
                },
                ..old(self)@
            }),
    {
        if !self.children_sorted {
            let mut children: Vec<FileNode> = Vec::new();
            std::mem::swap(&mut children, &mut self.children);
            let ghost before = children@;
            self.children = largest_first(children);
            self.children_sorted = true;
            proof {
                assert(old(self)@.kids =~= trees(before));
                assert(self@.kids =~= trees(self.children@));
            }
        }
    }

    /// Gives the directory another name.
    pub fn rename(&mut self, name: String)
        ensures
            final(self)@ == (Tree { name: name@, ..old(self)@ }),
    {
        self.name = name;
        assert(self@.kids =~= old(self)@.kids);
    }

    /// The child at `index`, to change it.
    pub fn child_mut(&mut self, index: usize) -> (child: &mut FileNode)
        requires
            index < old(self)@.kids.len(),
        ensures
            child@ == old(self)@.kids[index as int],
            final(self)@ == (Tree {
                kids: old(self)@.kids.update(index as int, final(child)@),
                ..old(self)@
            }),
    {
        let child = &mut self.children[index];
        assert(after_borrow(self)@.kids =~= old(self)@.kids.update(index as int, final(child)@));
        child
    }

    /// Takes out the child at `index`, and its size off the directory's.
    pub fn remove_child(&mut self, index: usize) -> (removed: u64)
        requires
            index < old(self)@.kids.len(),
        ensures
            removed == old(self)@.kids[index as int].size,
            final(self)@ == (Tree {
                size: less(old(self)@.size, removed),
                kids: old(self)@.kids.remove(index as int),
                ..old(self)@
            }),
    {
        let child = self.children.remove(index);
        let removed: u64 = child.size();
        self.size = self.size.saturating_sub(removed);
        assert(self@.kids =~= old(self)@.kids.remove(index as int));
        removed
    }

    /// Takes `amount` off the directory's size.
    pub fn sub_size(&mut self, amount: u64)
        ensures
            final(self)@ == (Tree { size: less(old(self)@.size, amount), ..old(self)@ }),
    {
        self.size = self.size.saturating_sub(amount);
        assert(self@.kids =~= old(self)@.kids);
    }

    fn show_contents(&mut self, val: bool)
        ensures
            final(self)@ == opened(old(self)@, val),
    {
        self.expanded = val;
        assert(self@.kids =~= old(self)@.kids);
        if val {
            self.sort_children_by_size();
        }
    }
}

impl FileNode {
    /// A file of `size` bytes: see `FileLeaf::new`.
    pub fn new_file(name: String, size: u64, hidden: bool) -> (node: Self)
        ensures
            node@ == (Tree {
                name: name@,
                size: (size % HIDDEN_BIT) as u64,
                dir: false,
                hidden: hidden || size >= HIDDEN_BIT,
                expanded: false,
                sorted: true,
                kids: Seq::empty(),
            }),
    {
        FileNode::File(FileLeaf::new(name, size, hidden))
    }

    /// A directory that is not shown, whose children stand as they were found.
    pub fn new_dir(name: String, size: u64, children: Vec<FileNode>, hidden: bool) -> (node: Self)
        ensures
            node@ == (Tree {
                name: name@,
                size,
                dir: true,
                hidden,
                expanded: false,
                sorted: false,
                kids: trees(children@),
            }),
    {
        FileNode::Dir(Box::new(DirNode::new(name, size, children, false, hidden)))
    }

    pub fn name(&self) -> (name: &str)
        ensures
            name@ == self@.name,
    {
        match self {
            FileNode::File(f) => f.name.as_str(),
            FileNode::Dir(d) => d.name.as_str(),
        }
    }

    pub fn size(&self) -> (size: u64)
        ensures
            size == self@.size,
    {
        match self {
            FileNode::File(f) => f.size(),
            FileNode::Dir(d) => d.size,
        }
    }

    pub fn is_dir(&self) -> (dir: bool)
        ensures
            dir == self@.dir,
            !dir ==> self@.kids.len() == 0,
    {
        match self {
            FileNode::File(_) => false,
            FileNode::Dir(_) => true,
        }
    }

    pub fn is_hidden(&self) -> (hidden: bool)
        ensures
            hidden == self@.hidden,
    {
        match self {
            FileNode::File(f) => f.is_hidden(),
            FileNode::Dir(d) => d.hidden,
        }
    }

    /// The nodes in this one; none in a file.
    pub fn children(&self) -> (children: &[FileNode])
        ensures
            trees(children@) == self@.kids,
    {
        match self {
            FileNode::File(_) => {
                let none: &[FileNode] = &[];
                assert(trees(none@) =~= self@.kids);
                none
            },
            FileNode::Dir(d) => {
                assert(trees(d.children@) =~= self@.kids);
                d.children.as_slice()
            },
        }
    }

    pub fn expanded(&self) -> (expanded: bool)
        ensures
            expanded == self@.expanded,
    {
        match self {
            FileNode::File(_) => false,
            FileNode::Dir(d) => d.expanded,
        }
    }

    pub fn children_sorted(&self) -> (sorted: bool)
        ensures
            sorted == self@.sorted,
    {
        match self {
            FileNode::File(_) => true,
            FileNode::Dir(d) => d.children_sorted,
        }
    }

    /// Shows or hides what is in the directory; a file stays as it is.
    pub fn set_expanded(&mut self, val: bool)
        ensures
            final(self)@ == opened(old(self)@, val),
    {
        match self {
            FileNode::Dir(d) => {
                d.show_contents(val);
            },
            FileNode::File(_) => {},
        }
    }

    /// The directory, to change it.
    pub fn as_dir_mut(&mut self) -> (dir: Option<&mut DirNode>)
        ensures
            dir is Some <==> old(self)@.dir,
            dir is Some ==> dir->0@ == old(self)@ && final(self)@ == final(dir->0)@,
            dir is None ==> final(self)@ == old(self)@,
    {
        match self {
            FileNode::Dir(d) => Some(d),
            FileNode::File(_) => None,
        }
    }
}

/// Shows the directories that hold at least a quarter of their parent, from
/// level `depth` down to `max_depth`.
pub fn auto_expand(node: &mut FileNode, depth: usize, max_depth: usize)
    ensures
        final(node)@ == auto_opened(
            old(node)@,
            if depth < max_depth {
                (max_depth - depth) as nat
            } else {
                0
            },
        ),
    decreases max_depth - depth,
{
    if depth >= max_depth || !node.is_dir() || node.size() == 0 {
        return;
    }
    let parent_size: u64 = node.size();
    let count: usize = node.children().len();
    let ghost before = node@;
    let ghost levels: nat = (max_depth - depth) as nat;
    match node.as_dir_mut() {
        Some(d) => {
            let mut i: usize = 0;
            assert(auto_opened(before, levels).kids.take(0) + before.kids.skip(0) =~= before.kids);
            while i < count
                invariant
                    i <= count == before.kids.len(),
                    depth < max_depth,
                    levels == max_depth - depth,
                    parent_size == before.size,
                    before.size != 0,
                    before.dir,
                    d@ == (Tree {
                        kids: auto_opened(before, levels).kids.take(i as int)
                            + before.kids.skip(i as int),
                        ..before
                    }),
                decreases count - i,
            {
                let ghost kid = before.kids[i as int];
                assert(d@.kids[i as int] == kid);
                let ghost kids = d@.kids;
                let child = d.child_mut(i);
                if child.is_dir() && child.size() as u128 * 4 >= parent_size as u128 {
                    child.set_expanded(true);
                    auto_expand(child, depth + 1, max_depth);
                }
                i += 1;
                assert(d@.kids =~= auto_opened(before, levels).kids.take(i as int)
                    + before.kids.skip(i as int));
            }
            assert(d@.kids =~= auto_opened(before, levels).kids);
        },
        None => {},
    }
}

/// A file, hidden where its name begins with a dot.
pub fn leaf(name: &str, size: u64) -> (node: FileNode)
    ensures
        node@ == (Tree {
            name: name@,
            size: (size % HIDDEN_BIT) as u64,
            dir: false,
            hidden: text::dotted(name@) || size >= HIDDEN_BIT,
            expanded: false,
            sorted: true,
            kids: Seq::empty(),
        }),
{
    FileNode::new_file(owned(name), size, starts_with_dot(name))
}

/// A directory that is as large as its children together, hidden where its
/// name begins with a dot.
pub fn dir(name: &str, children: Vec<FileNode>) -> (node: FileNode)
    requires
        total_size(trees(children@)) <= u64::MAX,
    ensures
        node@ == (Tree {
            name: name@,
            size: total_size(trees(children@)) as u64,
            dir: true,
            hidden: text::dotted(name@),
            expanded: false,
            sorted: false,
            kids: trees(children@),
        }),
{
    let size: u64 = sum_sizes(children.as_slice());
    FileNode::new_dir(owned(name), size, children, starts_with_dot(name))
}

/// The sum of the sizes of two lists of nodes.
pub proof fn lemma_total_add(a: Seq<Tree>, b: Seq<Tree>)
    ensures
        total_size(a + b) == total_size(a) + total_size(b),
    decreases b.len(),
{
    if b.len() == 0 {
        assert(a + b =~= a);
    } else {
        assert((a + b).drop_last() =~= a + b.drop_last());
        lemma_total_add(a, b.drop_last());
    }
}

/// Only directories hold entries.
pub proof fn lemma_files_are_leaves(node: FileNode)
    ensures
        node@.dir || node@.kids.len() == 0,
{
}

/// Whether only directories hold entries, and those of each can be counted.
pub open spec fn formed(tree: Tree) -> bool
    decreases tree,
{
    &&& tree.kids.len() <= usize::MAX
    &&& !tree.dir ==> tree.kids.len() == 0
    &&& forall|i: int| 0 <= i < tree.kids.len() ==> formed(#[trigger] tree.kids[i])
}

/// Every node is formed.
pub proof fn lemma_formed(node: FileNode)
    ensures
        formed(node@),
    decreases node,
{
    if let FileNode::Dir(d) = node {
        let kids = node@.kids;
        assert(kids.len() == d.children.len());
        assert forall|i: int| 0 <= i < kids.len() implies formed(#[trigger] kids[i]) by {
            assert(kids[i] == d.children@[i]@);
            lemma_formed(d.children@[i]);
        }
    }
}

/// Entries are less tall than the tree that holds them.
pub proof fn lemma_height(tree: Tree, i: int)
    requires
        0 <= i < tree.kids.len(),
    ensures
        height(tree.kids[i]) < height(tree),
{
    lemma_tallest(tree.kids, i);
}

proof fn lemma_tallest(trees: Seq<Tree>, i: int)
    requires
        0 <= i < trees.len(),
    ensures
        height(trees[i]) <= tallest(trees),
    decreases trees.len(),
{
    if i < trees.len() - 1 {
        lemma_tallest(trees.drop_last(), i);
    }
}

/// Leaving nodes out makes the sum of their sizes no larger.
pub proof fn lemma_total_filter(trees: Seq<Tree>, keep: spec_fn(Tree) -> bool)
    ensures
        total_size(trees.filter(keep)) <= total_size(trees),
        trees.filter(keep).len() <= trees.len(),
    decreases trees.len(),
{
    reveal(Seq::filter);
    if trees.len() > 0 {
        let front = trees.drop_last();
        lemma_total_filter(front, keep);
        if keep(trees.last()) {
            assert(trees.filter(keep).drop_last() =~= front.filter(keep));
        }
    }
}

proof fn lemma_total_remove(trees: Seq<Tree>, i: int)
    requires
        0 <= i < trees.len(),
    ensures
        total_size(trees) == total_size(trees.remove(i)) + trees[i].size as nat,
{
    let (a, b) = (trees.take(i), trees.skip(i + 1));
    let one = seq![trees[i]];
    assert(trees =~= a + one + b);
    assert(trees.remove(i) =~= a + b);
    lemma_total_add(a + one, b);
    lemma_total_add(a, one);
    lemma_total_add(a, b);
    assert(one.drop_last() =~= Seq::<Tree>::empty());
    reveal_with_fuel(total_size, 2);
}

/// The sum of sizes does not depend on the order of the nodes.
pub proof fn lemma_total_reordered(a: Seq<Tree>, b: Seq<Tree>)
    requires
        a.to_multiset() == b.to_multiset(),
    ensures
        total_size(a) == total_size(b),
        a.len() == b.len(),
    decreases a.len(),
{
    broadcast use vstd::seq_lib::group_to_multiset_ensures;
    broadcast use vstd::multiset::group_multiset_axioms;

    assert(a.len() == a.to_multiset().len());
    assert(b.len() == b.to_multiset().len());
    if a.len() > 0 {
        let last = a.last();
        assert(a.contains(last));
        assert(b.to_multiset().count(last) > 0);
        assert(b.contains(last));
        let i = b.index_of(last);
        assert(a.remove(a.len() - 1) =~= a.drop_last());
        assert(a.drop_last().to_multiset() =~= b.remove(i).to_multiset());
        lemma_total_reordered(a.drop_last(), b.remove(i));
        lemma_total_remove(b, i);
    }
}

/// Putting the largest first keeps every node and the sum of their sizes.
pub proof fn lemma_by_size(kids: Seq<Tree>)
    requires
        kids.len() <= usize::MAX,
    ensures
        by_size(kids).to_multiset() == kids.to_multiset(),
        by_size(kids).len() == kids.len(),
        total_size(by_size(kids)) == total_size(kids),
        forall|i: int, j: int|
            0 <= i <= j < kids.len() ==> (#[trigger] by_size(kids)[i]).size >= (
            #[trigger] by_size(kids)[j]).size,
{
    let keys = sizes(kids);
    let order = order::lemma_order_exists(keys);
    order::lemma_ranked_distinct(keys, order);
    order::lemma_picked_multiset(kids, order);
    lemma_total_reordered(by_size(kids), kids);
    assert forall|i: int, j: int| 0 <= i <= j < kids.len() implies (#[trigger] by_size(
        kids,
    )[i]).size >= (#[trigger] by_size(kids)[j]).size by {
        assert(order[i] < keys.len() && order[j] < keys.len());
        if i < j {
            assert(order::comes_first(keys, order[i] as int, order[j] as int));
        }
    }
}

/// What keeps the sizes of nodes keeps their order by size.
pub proof fn lemma_by_size_maps(kids: Seq<Tree>, f: spec_fn(Tree) -> Tree)
    requires
        kids.len() <= usize::MAX,
        forall|kid: Tree| #[trigger] f(kid).size == kid.size,
    ensures
        by_size(kids.map_values(f)) == by_size(kids).map_values(f),
        by_size(kids).len() == kids.len(),
{
    assert(sizes(kids.map_values(f)) =~= sizes(kids));
    let order = order::lemma_order_exists(sizes(kids));
    assert(by_size(kids.map_values(f)) =~= by_size(kids).map_values(f));
}

/// A node in order of size is one of the nodes.
pub proof fn lemma_by_size_in(kids: Seq<Tree>, i: int) -> (k: int)
    requires
        kids.len() <= usize::MAX,
        0 <= i < kids.len(),
    ensures
        0 <= k < kids.len(),
        kids[k] == by_size(kids)[i],
{
    let order = order::lemma_order_exists(sizes(kids));
    order[i] as int
}

/// The files of the first nodes and of the next one.
pub proof fn lemma_files_step(trees: Seq<Tree>, n: int)
    requires
        0 <= n < trees.len(),
    ensures
        files_of(trees.take(n + 1)) == files_of(trees.take(n)) + files(trees[n]),
{
    assert(trees.take(n + 1).drop_last() =~= trees.take(n));
}

/// The files of the first nodes are the first of the files.
pub proof fn lemma_files_prefix(trees: Seq<Tree>, n: int)
    requires
        0 <= n <= trees.len(),
    ensures
        exists|rest: Seq<Tree>| files_of(trees) == #[trigger] (files_of(trees.take(n)) + rest),
    decreases trees.len() - n,
{
    if n == trees.len() {
        assert(trees.take(n) =~= trees);
        assert(files_of(trees) =~= files_of(trees.take(n)) + Seq::<Tree>::empty());
    } else {
        lemma_files_prefix(trees, n + 1);
        lemma_files_step(trees, n);
        let rest = choose|rest: Seq<Tree>|
            files_of(trees) == #[trigger] (files_of(trees.take(n + 1)) + rest);
        assert(files_of(trees) =~= files_of(trees.take(n)) + (files(trees[n]) + rest));
    }
}

/// The first nodes are together no larger than all.
pub proof fn lemma_total_prefix(kids: Seq<Tree>, n: int)
    requires
        0 <= n <= kids.len(),
    ensures
        total_size(kids.take(n)) <= total_size(kids),
    decreases kids.len() - n,
{
    if n < kids.len() {
        assert(kids.take(n + 1).drop_last() =~= kids.take(n));
        lemma_total_prefix(kids, n + 1);
    } else {
        assert(kids.take(n) =~= kids);
    }
}

/// The sum of the sizes of `nodes`.
pub fn sum_sizes(nodes: &[FileNode]) -> (total: u64)
    requires
        total_size(trees(nodes@)) <= u64::MAX,
    ensures
        total == total_size(trees(nodes@)),
{
    let ghost kids = trees(nodes@);
    let mut total: u64 = 0;
    let mut i: usize = 0;
    assert(kids.take(0) =~= Seq::empty());
    while i < nodes.len()
        invariant
            i <= nodes@.len(),
            kids == trees(nodes@),
            total_size(kids) <= u64::MAX,
            total == total_size(kids.take(i as int)),
        decreases nodes@.len() - i,
    {
        proof {
            assert(kids.take(i + 1).drop_last() =~= kids.take(i as int));
            lemma_total_prefix(kids, i + 1);
        }
        total += nodes[i].size();
        i += 1;
    }
    assert(kids.take(i as int) =~= kids);
    total
}

/// Showing or hiding a directory loses no entry and adds none.
pub proof fn lemma_opened_keeps_entries(tree: Tree, expanded: bool)
    requires
        tree.kids.len() <= usize::MAX,
    ensures
        opened(tree, expanded).kids.to_multiset() == tree.kids.to_multiset(),
        opened(tree, expanded).kids.len() == tree.kids.len(),
{
    lemma_by_size(tree.kids);
}

/// A directory that is shown for the first time lists its largest entries
/// first.
pub proof fn lemma_opened_largest_first(tree: Tree, i: int, j: int)
    requires
        tree.kids.len() <= usize::MAX,
        tree.dir,
        !tree.sorted,
        0 <= i <= j < tree.kids.len(),
    ensures
        opened(tree, true).kids[i].size >= opened(tree, true).kids[j].size,
{
    lemma_by_size(tree.kids);
}

/// Entries are put in order once: showing a directory again moves nothing.
pub proof fn lemma_opened_sorts_once(tree: Tree, expanded: bool)
    ensures
        opened(opened(tree, true), expanded).kids == opened(tree, true).kids,
{
}

/// Showing large directories changes no name, size, kind or hidden mark, and
/// moves none of the node's own entries.
pub proof fn lemma_auto_opened_keeps_entries(tree: Tree, levels: nat, i: int)
    requires
        0 <= i < tree.kids.len(),
    ensures
        auto_opened(tree, levels).kids.len() == tree.kids.len(),
        ({
            let (before, after) = (tree.kids[i], auto_opened(tree, levels).kids[i]);
            &&& after.name == before.name
            &&& after.size == before.size
            &&& after.dir == before.dir
            &&& after.hidden == before.hidden
        }),
{
    lemma_auto_opened_keeps_node(
        opened(tree.kids[i], true),
        if levels > 0 {
            (levels - 1) as nat
        } else {
            0
        },
    );
}

/// Of the directories in a node, those are shown of themselves that hold at
/// least a quarter of it.
pub proof fn lemma_quarter_rule(tree: Tree, levels: nat, i: int)
    requires
        tree.dir,
        tree.size > 0,
        levels > 0,
        0 <= i < tree.kids.len(),
        !tree.kids[i].expanded,
    ensures
        auto_opened(tree, levels).kids[i].expanded == (tree.kids[i].dir && tree.kids[i].size * 4
            >= tree.size),
{
    lemma_auto_opened_keeps_node(opened(tree.kids[i], true), (levels - 1) as nat);
}

proof fn lemma_auto_opened_keeps_node(tree: Tree, levels: nat)
    ensures
        ({
            let after = auto_opened(tree, levels);
            &&& after.name == tree.name
            &&& after.size == tree.size
            &&& after.dir == tree.dir
            &&& after.hidden == tree.hidden
            &&& after.expanded == tree.expanded
        }),
{
}

/// A file gives back the name, the size and the mark that it was made with, and holds
/// nothing; a directory those and its children, as they stood.
pub proof fn lemma_made(
    name: String,
    size: u64,
    children: Vec<FileNode>,
    hidden: bool,
    file: FileNode,
    dir: FileNode,
)
    requires
        size < 0x8000_0000_0000_0000,
        call_ensures(FileNode::new_file, (name, size, hidden), file),
        call_ensures(FileNode::new_dir, (name, size, children, hidden), dir),
    ensures
        forall|given: &str|
            call_ensures(FileNode::name, (&file,), given) || call_ensures(
                FileNode::name,
                (&dir,),
                given,
            ) ==> #[trigger] given@ == name@,
        forall|given: u64| #[trigger]
            call_ensures(FileNode::size, (&file,), given) ==> given == size,
        forall|given: u64| #[trigger]
            call_ensures(FileNode::size, (&dir,), given) ==> given == size,
        forall|given: bool| #[trigger]
            call_ensures(FileNode::is_hidden, (&file,), given) ==> given == hidden,
        forall|given: bool| #[trigger]
            call_ensures(FileNode::is_hidden, (&dir,), given) ==> given == hidden,
        forall|given: bool| #[trigger] call_ensures(FileNode::is_dir, (&file,), given) ==> !given,
        forall|given: bool| #[trigger] call_ensures(FileNode::is_dir, (&dir,), given) ==> given,
        file@.kids.len() == 0,
        dir@.kids.len() == children@.len(),
        forall|i: int| 0 <= i < children@.len() ==> #[trigger] dir@.kids[i] == children@[i]@,
{
}

/// Opening stops at the last level: from there on nothing changes, and how far it goes
/// depends only on how many levels are left.
pub proof fn lemma_levels_left(
    a: &mut FileNode,
    b: &mut FileNode,
    depth: usize,
    max_depth: usize,
    other: usize,
    other_max: usize,
)
    requires
        call_ensures(auto_expand, (a, depth, max_depth), ()),
        call_ensures(auto_expand, (b, other, other_max), ()),
        old(a)@ == old(b)@,
    ensures
        depth >= max_depth ==> final(a)@ == old(a)@,
        max_depth - depth == other_max - other ==> final(a)@ == final(b)@,
{
}

/// A name with a dot in front is hidden, and a directory is as large as what it holds.
pub proof fn lemma_named(name: &str, size: u64, children: Vec<FileNode>, file: FileNode, kept: FileNode)
    requires
        size < 0x8000_0000_0000_0000,
        total_size(trees(children@)) <= u64::MAX,
        call_ensures(leaf, (name, size), file),
        call_ensures(dir, (name, children), kept),
    ensures
        file@.hidden <==> name@.len() > 0 && name@[0] == '.',
        kept@.hidden <==> file@.hidden,
        file@.size == size,
        kept@.size == total_size(kept@.kids),
{
}

} // verus!
