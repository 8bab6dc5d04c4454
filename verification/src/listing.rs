//! A scan as a text with one line for each entry, in a fixed order, so that two
//! scans can be compared line by line.

use vstd::prelude::*;

use crate::names;
use crate::names::rank_names;
use crate::order;
use crate::text;
use crate::text::{chars_of, owned, push_decimal};
use crate::tree;
use crate::tree::{FileNode, Tree};

verus! {

/// The names of nodes.
pub open spec fn names_of(kids: Seq<Tree>) -> Seq<Seq<char>> {
    kids.map_values(|kid: Tree| kid.name)
}

/// The texts at the first `n` positions of `order`, one behind the other.
pub open spec fn joined(texts: Seq<Seq<char>>, order: Seq<usize>, n: nat) -> Seq<char>
    decreases n,
{
    if n == 0 {
        Seq::empty()
    } else {
        joined(texts, order, (n - 1) as nat) + texts[order[n - 1] as int]
    }
}

/// The line of a file.
pub open spec fn file_line(size: u64, path: Seq<char>) -> Seq<char> {
    "F\t"@ + text::decimal(size as nat) + "\t"@ + path + "\n"@
}

/// The line of a directory.
pub open spec fn dir_line(size: u64, count: nat, path: Seq<char>) -> Seq<char> {
    "D\t"@ + text::decimal(size as nat) + "\t"@ + text::decimal(count) + "\t"@ + path + "\n"@
}

/// The lines of several nodes, node by node.
pub open spec fn listings(kids: Seq<Tree>, prefix: Seq<char>, files: bool) -> Seq<Seq<char>>
    decreases kids, 1nat,
{
    Seq::new(
        kids.len(),
        |i: int|
            if 0 <= i < kids.len() {
                listing(kids[i], prefix, files)
            } else {
                arbitrary()
            },
    )
}

/// The lines of a tree below `prefix`: a directory before its entries, which
/// follow in alphabetical order. Files are left out unless `files` is set.
pub open spec fn listing(node: Tree, prefix: Seq<char>, files: bool) -> Seq<char>
    decreases node, 0nat,
{
    let path = prefix + "/"@ + node.name;
    if node.dir {
        dir_line(node.size, node.kids.len(), path) + joined(
            listings(node.kids, path, files),
            names::order_of(names_of(node.kids)),
            node.kids.len(),
        )
    } else if files {
        file_line(node.size, path)
    } else {
        Seq::empty()
    }
}

/// Appends the lines of a tree below `prefix`.
pub fn write_node(out: &mut String, node: &FileNode, prefix: &str, files: bool)
    ensures
        final(out)@ == old(out)@ + listing(node@, prefix@, files),
    decreases node@,
{
    let ghost start = out@;
    if !node.is_dir() && !files {
        assert(out@ =~= start + listing(node@, prefix@, files));
        return;
    }
    let mut path = owned(prefix);
    path.append("/");
    path.append(node.name());
    assert(path@ =~= prefix@ + "/"@ + node@.name);
    if !node.is_dir() {
        out.append("F\t");
        push_decimal(out, node.size());
        out.append("\t");
        out.append(path.as_str());
        out.append("\n");
        assert(out@ =~= start + file_line(node@.size, path@));
        return;
    }
    let children = node.children();
    let ghost kids = node@.kids;
    assert(kids.len() == children.len());
    out.append("D\t");
    push_decimal(out, node.size());
    out.append("\t");
    push_decimal(out, children.len() as u64);
    out.append("\t");
    out.append(path.as_str());
    out.append("\n");
    let ghost head = dir_line(node@.size, kids.len(), path@);
    assert(out@ =~= start + head);
    let mut names: Vec<Vec<char>> = Vec::new();
    let mut i: usize = 0;
    assert(names::char_views(names@) =~= names_of(kids).take(0));
    while i < children.len()
        invariant
            i <= children@.len(),
            kids == tree::trees(children@),
            names::char_views(names@) == names_of(kids).take(i as int),
        decreases children@.len() - i,
    {
        let ghost before = names::char_views(names@);
        let name = chars_of(children[i].name());
        names.push(name);
        assert(names::char_views(names@) =~= before.push(name@));
        i += 1;
        assert(names::char_views(names@) =~= names_of(kids).take(i as int));
    }
    assert(names::char_views(names@) =~= names_of(kids));
    assert(names@.len() == names::char_views(names@).len());
    let order = rank_names(&names);
    let ghost texts = listings(kids, path@, files);
    let mut k: usize = 0;
    assert(start + head + joined(texts, order@, 0) =~= start + head);
    while k < order.len()
        invariant
            k <= order@.len(),
            order@.len() == kids.len(),
            forall|i: int| 0 <= i < order@.len() ==> #[trigger] order@[i] < kids.len(),
            kids == tree::trees(children@),
            kids == node@.kids,
            texts == listings(kids, path@, files),
            out@ == start + head + joined(texts, order@, k as nat),
        decreases order@.len() - k,
    {
        let at: usize = order[k];
        assert(at < kids.len());
        proof {
            assert(children@[at as int]@ == node@.kids[at as int]);
            assert(decreases_to!(node@ => node@.kids[at as int]));
        }
        write_node(out, &children[at], path.as_str(), files);
        k += 1;
        assert(out@ =~= start + head + joined(texts, order@, k as nat));
    }
    assert(out@ =~= start + (head + joined(texts, order@, kids.len())));
}

/// The first line: which scanner was used, and on which path.
pub fn heading(scanner: &str, root: &str) -> (line: String)
    ensures
        line@ == "# scanner="@ + scanner@ + " root="@ + root@ + "\n"@,
{
    let mut line = owned("# scanner=");
    line.append(scanner);
    line.append(" root=");
    line.append(root);
    line.append("\n");
    line
}

proof fn lemma_joined_has(texts: Seq<Seq<char>>, order: Seq<usize>, n: nat, k: int) -> (parts: (
    Seq<char>,
    Seq<char>,
))
    requires
        0 <= k < n <= order.len(),
    ensures
        joined(texts, order, n) == parts.0 + texts[order[k] as int] + parts.1,
    decreases n,
{
    let less = (n - 1) as nat;
    let last = texts[order[n - 1] as int];
    if k == n - 1 {
        let none = Seq::<char>::empty();
        assert(joined(texts, order, n) =~= joined(texts, order, less) + last + none);
        (joined(texts, order, less), none)
    } else {
        let (before, after) = lemma_joined_has(texts, order, less, k);
        let part = texts[order[k] as int];
        assert(before + part + after + last =~= before + part + (after + last));
        (before, after + last)
    }
}

/// The listing of a directory begins with its own line, and the listing of each of its
/// entries stands in it, below the path of the directory.
pub proof fn lemma_entry_listed(node: Tree, prefix: Seq<char>, files: bool, i: int)
    requires
        node.dir,
        node.kids.len() <= usize::MAX,
        0 <= i < node.kids.len(),
    ensures
        text::has_prefix(
            listing(node, prefix, files),
            "D\t"@ + text::decimal(node.size as nat) + "\t"@ + text::decimal(node.kids.len())
                + "\t"@ + (prefix + "/"@ + node.name) + "\n"@,
        ),
        exists|before: Seq<char>, after: Seq<char>|
            listing(node, prefix, files) == #[trigger] (before + listing(
                node.kids[i],
                prefix + "/"@ + node.name,
                files,
            ) + after),
{
    let path = prefix + "/"@ + node.name;
    let head = dir_line(node.size, node.kids.len(), path);
    let texts = listings(node.kids, path, files);
    let names = names_of(node.kids);
    let order = names::order_of(names);
    let whole = listing(node, prefix, files);
    names::lemma_order_of(names, order);
    assert(order.len() == names.len() == node.kids.len());
    order::lemma_covers(order, i as usize);
    let k = order.index_of(i as usize);
    let (before, after) = lemma_joined_has(texts, order, node.kids.len(), k);
    assert(texts[i] == listing(node.kids[i], path, files));
    assert(whole == head + joined(texts, order, node.kids.len()));
    assert(whole.take(head.len() as int) =~= head);
    let part = listing(node.kids[i], path, files);
    assert(whole =~= (head + before) + part + after);
}

/// The line of a file says its size and its path; where files are left out it has none.
pub proof fn lemma_file_listed(node: Tree, prefix: Seq<char>)
    requires
        !node.dir,
    ensures
        listing(node, prefix, true) == "F\t"@ + text::decimal(node.size as nat) + "\t"@ + (prefix
            + "/"@ + node.name) + "\n"@,
        listing(node, prefix, false).len() == 0,
{
}

} // verus!
