//! What holds of every scanned tree, and what browsing and deleting keep.

use vstd::prelude::*;

use crate::bulk;
use crate::categories;
use crate::navigate;
use crate::path;
use crate::scanner;
use crate::suggestions;
use crate::tree;
use crate::tree::{FileNode, Tree};

verus! {

/// Whether every directory is exactly as large as its entries together, and
/// only directories have entries.
pub open spec fn exact(tree: Tree) -> bool
    decreases tree,
{
    &&& tree.kids.len() <= usize::MAX
    &&& tree.dir ==> tree.size == tree::total_size(tree.kids)
    &&& !tree.dir ==> tree.kids.len() == 0
    &&& forall|i: int| 0 <= i < tree.kids.len() ==> exact(#[trigger] tree.kids[i])
}

/// Whether a tree is exact, and its files and its levels can be counted.
pub open spec fn sound(tree: Tree) -> bool {
    &&& exact(tree)
    &&& tree::files(tree).len() <= usize::MAX
    &&& 2 * tree::height(tree) <= usize::MAX
}

/// A directory is as large as all the files in it together.
pub proof fn lemma_size_is_files(tree: Tree)
    requires
        exact(tree),
    ensures
        tree::total_size(tree::files(tree)) == tree.size,
    decreases tree, tree.kids.len() + 1,
{
    let kids = tree.kids;
    if tree.dir {
        lemma_sizes_are_files(tree, kids.len() as int);
        assert(kids.take(kids.len() as int) =~= kids);
    } else {
        assert(tree::files(tree) =~= seq![tree]);
        assert(seq![tree].drop_last() =~= Seq::<Tree>::empty());
        reveal_with_fuel(tree::total_size, 2);
    }
}

proof fn lemma_sizes_are_files(tree: Tree, n: int)
    requires
        exact(tree),
        0 <= n <= tree.kids.len(),
    ensures
        tree::total_size(tree::files_of(tree.kids.take(n))) == tree::total_size(tree.kids.take(n)),
    decreases tree, n as nat,
{
    let kids = tree.kids;
    if n > 0 {
        lemma_sizes_are_files(tree, n - 1);
        lemma_size_is_files(kids[n - 1]);
        tree::lemma_files_step(kids, n - 1);
        tree::lemma_total_add(tree::files_of(kids.take(n - 1)), tree::files(kids[n - 1]));
        assert(kids.take(n).drop_last() =~= kids.take(n - 1));
    }
}

/// A scan builds exact trees: files are exact, and so is a directory made of
/// exact entries.
pub proof fn lemma_scanned_exact(name: Seq<char>, hidden: bool, kids: Seq<Tree>)
    requires
        kids.len() <= usize::MAX,
        tree::total_size(kids) <= u64::MAX,
        forall|i: int| 0 <= i < kids.len() ==> exact(#[trigger] kids[i]),
    ensures
        exact(scanner::closed_dir(name, hidden, kids)),
        forall|entry: bulk::Listed| exact(#[trigger] scanner::file_tree(entry)),
{
}

/// The tree of a scan under the name of its path is exact where the scanned
/// directory is.
pub proof fn lemma_scan_exact(scanned: Tree, root: Seq<char>)
    requires
        exact(scanned),
    ensures
        exact(Tree { name: root, ..tree::opened(scanned, true) }),
{
    lemma_opened_stands_in(scanned, true);
    let named = Tree { name: root, ..tree::opened(scanned, true) };
    assert(forall|i: int| 0 <= i < named.kids.len() ==> exact(#[trigger] named.kids[i]));
}

/// What the progress of a scan has counted, files and bytes, once batches of files were
/// recorded one after another.
pub open spec fn recorded(start: (nat, nat), batches: Seq<Seq<Tree>>) -> (nat, nat)
    decreases batches.len(),
{
    if batches.len() == 0 {
        start
    } else {
        let (count, bytes) = recorded(start, batches.drop_last());
        (
            scanner::tallied(count, batches.last().len()),
            scanner::tallied(bytes, tree::total_size(batches.last())),
        )
    }
}

/// The progress of a scan that records every file once, in batches and in any order,
/// grows by the number of files of the tree that the scan gives, and by its size.
pub proof fn lemma_progress_is_tree(
    scanned: Tree,
    root: Seq<char>,
    start: (nat, nat),
    batches: Seq<Seq<Tree>>,
)
    requires
        exact(scanned),
        start.0 <= u64::MAX,
        start.1 <= u64::MAX,
        batches.flatten().to_multiset() == tree::files(scanned).to_multiset(),
    ensures
        ({
            let tree = if scanned.dir {
                Tree { name: root, ..tree::opened(scanned, true) }
            } else {
                scanned
            };
            &&& recorded(start, batches).0 == scanner::tallied(start.0, tree::files(tree).len())
            &&& recorded(start, batches).1 == scanner::tallied(start.1, tree.size as nat)
        }),
{
    lemma_opened_stands_in(scanned, true);
    lemma_recorded(start, batches);
    tree::lemma_total_reordered(batches.flatten(), tree::files(scanned));
    lemma_size_is_files(scanned);
    let opened = tree::opened(scanned, true);
    if scanned.dir {
        let tree = Tree { name: root, ..opened };
        assert(tree::files(tree) == tree::files_of(opened.kids));
        assert(tree::files(opened) == tree::files_of(opened.kids));
    }
}

proof fn lemma_recorded(start: (nat, nat), batches: Seq<Seq<Tree>>)
    requires
        start.0 <= u64::MAX,
        start.1 <= u64::MAX,
    ensures
        recorded(start, batches).0 == scanner::tallied(start.0, batches.flatten().len()),
        recorded(start, batches).1 == scanner::tallied(
            start.1,
            tree::total_size(batches.flatten()),
        ),
    decreases batches.len(),
{
    batches.lemma_flatten_and_flatten_alt_are_equivalent();
    if batches.len() > 0 {
        let front = batches.drop_last();
        lemma_recorded(start, front);
        front.lemma_flatten_and_flatten_alt_are_equivalent();
        assert(batches.flatten() =~= front.flatten() + batches.last());
        tree::lemma_total_add(front.flatten(), batches.last());
    }
}

/// What a directory's listing counts are its files: their bytes, where no file has 2^63 or
/// more. That the listing gives its bytes modulo 2^64 makes no difference to a counter.
pub proof fn lemma_listing_counts(entries: Seq<bulk::Listed>, start: nat)
    requires
        forall|i: int| 0 <= i < entries.len() ==> (#[trigger] entries[i]).size < tree::HIDDEN_BIT,
    ensures
        scanner::listed_bytes(entries) == tree::total_size(scanner::listed_files(entries)),
        tree::files_of(scanner::listed_files(entries)) == scanner::listed_files(entries),
        scanner::tallied(start, scanner::listed_bytes(entries) % 0x1_0000_0000_0000_0000)
            == scanner::tallied(start, tree::total_size(scanner::listed_files(entries))),
{
    lemma_listed(entries);
    let bytes = scanner::listed_bytes(entries);
    vstd::arithmetic::div_mod::lemma_add_mod_noop_right(
        start as int,
        bytes as int,
        0x1_0000_0000_0000_0000,
    );
}

proof fn lemma_listed(entries: Seq<bulk::Listed>)
    requires
        forall|i: int| 0 <= i < entries.len() ==> (#[trigger] entries[i]).size < tree::HIDDEN_BIT,
    ensures
        scanner::listed_bytes(entries) == tree::total_size(scanner::listed_files(entries)),
        tree::files_of(scanner::listed_files(entries)) == scanner::listed_files(entries),
    decreases entries.len(),
{
    if entries.len() > 0 {
        let front = entries.drop_last();
        assert forall|i: int| 0 <= i < front.len() implies (#[trigger] front[i]).size
            < tree::HIDDEN_BIT by {
            assert(front[i] == entries[i]);
        }
        lemma_listed(front);
        assert(entries.last() == entries[entries.len() - 1]);
        if !entries.last().is_dir {
            let file = scanner::file_tree(entries.last());
            let files = scanner::listed_files(entries);
            assert(files.drop_last() =~= scanner::listed_files(front));
            assert(tree::files(file) =~= seq![file]);
            assert(tree::files_of(files) =~= scanner::listed_files(front) + seq![file]);
        }
    }
}

/// The files of a sound tree can be counted by category.
pub proof fn lemma_sound_countable(tree: Tree)
    requires
        sound(tree),
    ensures
        categories::countable(tree::files(tree)),
{
    let files = tree::files(tree);
    lemma_size_is_files(tree);
    assert forall|cat: categories::FileCategory| #[trigger]
        categories::category_bytes(files, cat) <= u64::MAX && categories::category_count(files, cat)
            <= usize::MAX by {
        tree::lemma_total_filter(files, |file: Tree| categories::category_of(file.name) == cat);
    }
}

/// The categories account for every byte and every file of an exact tree.
pub proof fn lemma_categories_account(tree: Tree)
    requires
        exact(tree),
    ensures
        categories::all_bytes(tree::files(tree)) == tree.size,
        categories::all_count(tree::files(tree)) == tree::files(tree).len(),
{
    lemma_size_is_files(tree);
    categories::lemma_categories_partition(tree::files(tree));
}

/// The entries of each directory of an exact tree can be added up.
pub proof fn lemma_exact_sums_fit(tree: Tree)
    requires
        exact(tree),
    ensures
        tree::sums_fit(tree),
    decreases tree,
{
    assert forall|i: int| 0 <= i < tree.kids.len() implies tree::sums_fit(
        #[trigger] tree.kids[i],
    ) by {
        lemma_exact_sums_fit(tree.kids[i]);
    }
    if !tree.dir {
        assert(tree.kids =~= Seq::<Tree>::empty());
    }
}

/// What an exact tree's suggestions claim can be added up.
pub proof fn lemma_exact_reclaimable(tree: Tree, at: path::Place)
    requires
        exact(tree),
    ensures
        suggestions::reclaimable(tree, at) <= tree.size,
{
    lemma_exact_sized(tree);
    suggestions::lemma_nothing_counts_twice(tree, at);
}

proof fn lemma_exact_sized(tree: Tree)
    requires
        exact(tree),
    ensures
        suggestions::sized(tree),
    decreases tree,
{
    assert forall|i: int| 0 <= i < tree.kids.len() implies suggestions::sized(
        #[trigger] tree.kids[i],
    ) by {
        lemma_exact_sized(tree.kids[i]);
    }
}

/// The sum of a number over nodes.
spec fn weight(kids: Seq<Tree>, f: spec_fn(Tree) -> nat) -> nat
    decreases kids.len(),
{
    if kids.len() == 0 {
        0
    } else {
        weight(kids.drop_last(), f) + f(kids.last())
    }
}

proof fn lemma_weight_remove(kids: Seq<Tree>, f: spec_fn(Tree) -> nat, i: int)
    requires
        0 <= i < kids.len(),
    ensures
        weight(kids, f) == weight(kids.remove(i), f) + f(kids[i]),
    decreases kids.len(),
{
    if i == kids.len() - 1 {
        assert(kids.remove(i) =~= kids.drop_last());
    } else {
        lemma_weight_remove(kids.drop_last(), f, i);
        assert(kids.remove(i).drop_last() =~= kids.drop_last().remove(i));
    }
}

proof fn lemma_weight_reordered(a: Seq<Tree>, b: Seq<Tree>, f: spec_fn(Tree) -> nat)
    requires
        a.to_multiset() == b.to_multiset(),
    ensures
        weight(a, f) == weight(b, f),
    decreases a.len(),
{
    broadcast use vstd::seq_lib::group_to_multiset_ensures;
    broadcast use vstd::multiset::group_multiset_axioms;

    assert(a.len() == a.to_multiset().len());
    assert(b.len() == b.to_multiset().len());
    if a.len() > 0 {
        let last = a.last();
        assert(a.contains(last));
        assert(b.to_multiset().count(last) > 0);
        assert(b.contains(last));
        let i = b.index_of(last);
        assert(a.remove(a.len() - 1) =~= a.drop_last());
        assert(a.drop_last().to_multiset() =~= b.remove(i).to_multiset());
        lemma_weight_reordered(a.drop_last(), b.remove(i), f);
        lemma_weight_remove(b, f, i);
    }
}

/// How many files a tree has.
spec fn count() -> spec_fn(Tree) -> nat {
    |tree: Tree| tree::files(tree).len()
}

proof fn lemma_count(kids: Seq<Tree>)
    ensures
        tree::files_of(kids).len() == weight(kids, count()),
    decreases kids.len(),
{
    if kids.len() > 0 {
        lemma_count(kids.drop_last());
    }
}

proof fn lemma_count_tree(tree: Tree)
    ensures
        tree.dir ==> tree::files(tree).len() == weight(tree.kids, count()),
{
    lemma_count(tree.kids);
}

/// Trees that are no taller than `n` one by one are no taller together.
proof fn lemma_tallest_bound(kids: Seq<Tree>, n: nat)
    requires
        forall|i: int| 0 <= i < kids.len() ==> tree::height(#[trigger] kids[i]) <= n,
    ensures
        tree::tallest(kids) <= n,
    decreases kids.len(),
{
    if kids.len() > 0 {
        assert forall|i: int| 0 <= i < kids.drop_last().len() implies tree::height(
            #[trigger] kids.drop_last()[i],
        ) <= n by {
            assert(kids.drop_last()[i] == kids[i]);
        }
        lemma_tallest_bound(kids.drop_last(), n);
        assert(kids.last() == kids[kids.len() - 1]);
    }
}

/// Whether `after` stands where `before` stood, exact, no taller and with no
/// more files.
spec fn stands_in(before: Tree, after: Tree) -> bool {
    &&& exact(after)
    &&& tree::height(after) <= tree::height(before)
    &&& tree::files(after).len() <= tree::files(before).len()
}

proof fn lemma_weights_shrink(before: Seq<Tree>, after: Seq<Tree>)
    requires
        before.len() == after.len(),
        forall|i: int|
            0 <= i < after.len() ==> tree::files(#[trigger] after[i]).len() <= tree::files(
                before[i],
            ).len(),
    ensures
        weight(after, count()) <= weight(before, count()),
    decreases before.len(),
{
    if before.len() > 0 {
        lemma_weights_shrink(before.drop_last(), after.drop_last());
        assert(after.last() == after[after.len() - 1]);
    }
}

proof fn lemma_heights_shrink(before: Tree, after: Tree)
    requires
        before.kids.len() == after.kids.len(),
        forall|i: int|
            0 <= i < after.kids.len() ==> tree::height(#[trigger] after.kids[i]) <= tree::height(
                before.kids[i],
            ),
    ensures
        tree::height(after) <= tree::height(before),
{
    if after.kids.len() > 0 {
        let n = (tree::height(before) - 1) as nat;
        assert forall|i: int| 0 <= i < after.kids.len() implies tree::height(
            #[trigger] after.kids[i],
        ) <= n by {
            tree::lemma_height(before, i);
        }
        lemma_tallest_bound(after.kids, n);
    }
}

/// Showing or hiding a node keeps a tree exact and changes no size.
proof fn lemma_opened_stands_in(before: Tree, expanded: bool)
    requires
        exact(before),
    ensures
        stands_in(before, tree::opened(before, expanded)),
        tree::opened(before, expanded).size == before.size,
        tree::files(tree::opened(before, expanded)).len() == tree::files(before).len(),
{
    let after = tree::opened(before, expanded);
    if before.dir && expanded && !before.sorted {
        broadcast use vstd::seq_lib::group_to_multiset_ensures;

        tree::lemma_by_size(before.kids);
        lemma_count_tree(before);
        lemma_count_tree(after);
        lemma_weight_reordered(after.kids, before.kids, count());
        assert forall|i: int| 0 <= i < after.kids.len() implies exact(#[trigger] after.kids[i])
            && tree::height(after.kids[i]) < tree::height(before) by {
            assert(after.kids.contains(after.kids[i]));
            assert(before.kids.to_multiset().count(after.kids[i]) > 0);
            assert(before.kids.contains(after.kids[i]));
            let j = before.kids.index_of(after.kids[i]);
            tree::lemma_height(before, j);
        }
        if after.kids.len() > 0 {
            assert(tree::height(after.kids[0]) < tree::height(before));
            lemma_tallest_bound(after.kids, (tree::height(before) - 1) as nat);
        }
    } else {
        lemma_count_tree(before);
        lemma_count_tree(after);
        if after.kids.len() > 0 {
            assert(tree::height(after) == 1 + tree::tallest(after.kids));
        }
        assert forall|i: int| 0 <= i < after.kids.len() implies exact(
            #[trigger] after.kids[i],
        ) by {
            assert(after.kids[i] == before.kids[i]);
        }
    }
}

proof fn lemma_total_update(kids: Seq<Tree>, i: int, kid: Tree)
    requires
        0 <= i < kids.len(),
    ensures
        tree::total_size(kids.update(i, kid)) == tree::total_size(kids) - kids[i].size + kid.size,
    decreases kids.len(),
{
    if i == kids.len() - 1 {
        assert(kids.update(i, kid).drop_last() =~= kids.drop_last());
    } else {
        lemma_total_update(kids.drop_last(), i, kid);
        assert(kids.update(i, kid).drop_last() =~= kids.drop_last().update(i, kid));
    }
}

proof fn lemma_update_stands_in(before: Tree, i: int, kid: Tree, size: u64)
    requires
        exact(before),
        before.dir,
        0 <= i < before.kids.len(),
        stands_in(before.kids[i], kid),
        size == before.size - before.kids[i].size + kid.size,
    ensures
        stands_in(before, Tree { size, kids: before.kids.update(i, kid), ..before }),
{
    let after = Tree { size, kids: before.kids.update(i, kid), ..before };
    lemma_total_update(before.kids, i, kid);
    lemma_count_tree(before);
    lemma_count_tree(after);
    assert forall|k: int| 0 <= k < after.kids.len() implies exact(#[trigger] after.kids[k])
        && tree::height(after.kids[k]) <= tree::height(before.kids[k]) && tree::files(
        after.kids[k],
    ).len() <= tree::files(before.kids[k]).len() by {
        if k != i {
            assert(after.kids[k] == before.kids[k]);
        }
    }
    lemma_weights_shrink(before.kids, after.kids);
    lemma_heights_shrink(before, after);
}

proof fn lemma_first_named(kids: Seq<Tree>, name: Seq<char>, from: int)
    requires
        0 <= from <= kids.len(),
    ensures
        from <= navigate::first_named(kids, name, from) <= kids.len(),
        from <= navigate::first_folder(kids, name, from) <= kids.len(),
    decreases kids.len() - from,
{
    if from < kids.len() {
        lemma_first_named(kids, name, from + 1);
    }
}

proof fn lemma_changed_stands_in(
    before: Tree,
    at: Seq<Seq<char>>,
    target: Seq<Seq<char>>,
    change: navigate::Change,
)
    requires
        exact(before),
    ensures
        stands_in(before, navigate::changed(before, at, target, change).0),
        navigate::changed(before, at, target, change).0.size == before.size,
    decreases before,
{
    if at == target {
        lemma_opened_stands_in(before, navigate::shown_after(before, change));
    } else {
        match path::next_part(at, target) {
            Some(next) => {
                let i = navigate::first_named(before.kids, next, 0);
                if before.dir && 0 <= i < before.kids.len() {
                    lemma_changed_stands_in(before.kids[i], at.push(next), target, change);
                    let kid = navigate::changed(before.kids[i], at.push(next), target, change).0;
                    lemma_update_stands_in(before, i, kid, before.size);
                }
            },
            None => {},
        }
    }
}

/// Showing or hiding a node keeps a tree sound.
pub proof fn lemma_changed_sound(
    tree: Tree,
    at: Seq<Seq<char>>,
    target: Seq<Seq<char>>,
    change: navigate::Change,
)
    requires
        sound(tree),
    ensures
        sound(navigate::changed(tree, at, target, change).0),
        navigate::changed(tree, at, target, change).0.size == tree.size,
{
    lemma_changed_stands_in(tree, at, target, change);
}

proof fn lemma_removed_stands_in(before: Tree, at: Seq<Seq<char>>, target: Seq<Seq<char>>)
    requires
        exact(before),
    ensures
        match navigate::removed(before, at, target) {
            Some((after, size)) => stands_in(before, after) && size <= before.size && after.size
                == before.size - size,
            None => true,
        },
    decreases before,
{
    match path::next_part(at, target) {
        Some(next) => if before.dir {
            if at.push(next) == target {
                let i = navigate::first_named(before.kids, next, 0);
                if 0 <= i < before.kids.len() {
                    let size = before.kids[i].size;
                    let after = Tree {
                        size: tree::less(before.size, size),
                        kids: before.kids.remove(i),
                        ..before
                    };
                    lemma_total_update(before.kids, i, Tree { size: 0, ..before.kids[i] });
                    lemma_total_removed(before.kids, i);
                    lemma_count_tree(before);
                    lemma_count_tree(after);
                    lemma_weight_remove(before.kids, count(), i);
                    assert forall|k: int| 0 <= k < after.kids.len() implies exact(
                        #[trigger] after.kids[k],
                    ) && tree::height(after.kids[k]) < tree::height(before) by {
                        let j = if k < i {
                            k
                        } else {
                            k + 1
                        };
                        assert(after.kids[k] == before.kids[j]);
                        tree::lemma_height(before, j);
                    }
                    tree::lemma_height(before, i);
                    lemma_tallest_bound(after.kids, (tree::height(before) - 1) as nat);
                }
            } else {
                let i = navigate::first_folder(before.kids, next, 0);
                if 0 <= i < before.kids.len() {
                    lemma_removed_stands_in(before.kids[i], at.push(next), target);
                    match navigate::removed(before.kids[i], at.push(next), target) {
                        Some((kid, size)) => {
                            lemma_total_removed(before.kids, i);
                            lemma_update_stands_in(
                                before,
                                i,
                                kid,
                                tree::less(before.size, size),
                            );
                        },
                        None => {},
                    }
                }
            }
        },
        None => {},
    }
}

proof fn lemma_total_removed(kids: Seq<Tree>, i: int)
    requires
        0 <= i < kids.len(),
    ensures
        tree::total_size(kids) == tree::total_size(kids.remove(i)) + kids[i].size,
    decreases kids.len(),
{
    if i == kids.len() - 1 {
        assert(kids.remove(i) =~= kids.drop_last());
    } else {
        lemma_total_removed(kids.drop_last(), i);
        assert(kids.remove(i).drop_last() =~= kids.drop_last().remove(i));
    }
}

/// Deleting a node keeps a tree sound: every directory stays exactly as large
/// as its entries together, and the root loses exactly the size that was
/// reported.
pub proof fn lemma_removed_sound(tree: Tree, at: Seq<Seq<char>>, target: Seq<Seq<char>>)
    requires
        sound(tree),
    ensures
        match navigate::removed(tree, at, target) {
            Some((after, size)) => sound(after) && after.size + size == tree.size,
            None => true,
        },
{
    lemma_removed_stands_in(tree, at, target);
}

proof fn lemma_auto_stands_in(before: Tree, levels: nat)
    requires
        exact(before),
    ensures
        stands_in(before, tree::auto_opened(before, levels)),
        tree::auto_opened(before, levels).size == before.size,
    decreases levels,
{
    let after = tree::auto_opened(before, levels);
    if levels > 0 && before.dir && before.size > 0 {
        lemma_count_tree(before);
        lemma_count_tree(after);
        assert forall|k: int| 0 <= k < after.kids.len() implies exact(#[trigger] after.kids[k])
            && tree::height(after.kids[k]) <= tree::height(before.kids[k]) && tree::files(
            after.kids[k],
        ).len() <= tree::files(before.kids[k]).len() && after.kids[k].size
            == before.kids[k].size by {
            let kid = before.kids[k];
            if kid.dir && kid.size * 4 >= before.size {
                lemma_opened_stands_in(kid, true);
                lemma_auto_stands_in(tree::opened(kid, true), (levels - 1) as nat);
            }
        }
        lemma_weights_shrink(before.kids, after.kids);
        lemma_heights_shrink(before, after);
        lemma_same_sizes(before.kids, after.kids);
    }
}

proof fn lemma_same_sizes(before: Seq<Tree>, after: Seq<Tree>)
    requires
        before.len() == after.len(),
        forall|i: int| 0 <= i < after.len() ==> (#[trigger] after[i]).size == before[i].size,
    ensures
        tree::total_size(after) == tree::total_size(before),
    decreases before.len(),
{
    if before.len() > 0 {
        lemma_same_sizes(before.drop_last(), after.drop_last());
        assert(after.last() == after[after.len() - 1]);
    }
}

/// Showing the large directories of a tree keeps it sound.
pub proof fn lemma_auto_opened_sound(tree: Tree, levels: nat)
    requires
        sound(tree),
    ensures
        sound(tree::auto_opened(tree, levels)),
        tree::auto_opened(tree, levels).size == tree.size,
{
    lemma_auto_stands_in(tree, levels);
}

/// How many files a tree has and how tall it is, where it is exact and both
/// can be counted.
spec fn measured(tree: Tree) -> Option<(nat, nat)> {
    if exact(tree) && tree::files(tree).len() <= usize::MAX && tree::height(tree) <= usize::MAX {
        Some((tree::files(tree).len(), tree::height(tree)))
    } else {
        None
    }
}

proof fn lemma_kid_measured(tree: Tree, i: int)
    requires
        tree.dir,
        0 <= i < tree.kids.len(),
        measured(tree) is Some,
    ensures
        measured(tree.kids[i]) is Some,
{
    lemma_count_tree(tree);
    lemma_weight_remove(tree.kids, count(), i);
    tree::lemma_height(tree, i);
}

proof fn lemma_weight_prefix(kids: Seq<Tree>, f: spec_fn(Tree) -> nat, n: int)
    requires
        0 <= n <= kids.len(),
    ensures
        weight(kids.take(n), f) <= weight(kids, f),
    decreases kids.len() - n,
{
    if n < kids.len() {
        assert(kids.take(n + 1).drop_last() =~= kids.take(n));
        lemma_weight_prefix(kids, f, n + 1);
    } else {
        assert(kids.take(n) =~= kids);
    }
}

fn measure(node: &FileNode) -> (found: Option<(usize, usize)>)
    ensures
        match found {
            Some((files, height)) => measured(node@) == Some((files as nat, height as nat)),
            None => measured(node@) is None,
        },
    decreases node@,
{
    let ghost tree = node@;
    let ghost kids = tree.kids;
    let children = node.children();
    if !node.is_dir() {
        proof {
            tree::lemma_files_are_leaves(*node);
            assert(kids =~= Seq::<Tree>::empty());
            assert(tree::files(tree) =~= seq![tree]);
        }
        return Some((1, 0));
    }
    proof {
        lemma_count_tree(tree);
    }
    let mut total: u64 = 0;
    let mut files: usize = 0;
    let mut tallest: usize = 0;
    let mut i: usize = 0;
    assert(kids.take(0) =~= Seq::<Tree>::empty());
    while i < children.len()
        invariant
            i <= children@.len(),
            tree == node@,
            tree.dir,
            kids == tree.kids,
            kids == tree::trees(children@),
            tree::files(tree).len() == weight(kids, count()),
            total == tree::total_size(kids.take(i as int)),
            files == weight(kids.take(i as int), count()),
            tallest == tree::tallest(kids.take(i as int)),
            i > 0 ==> tallest < usize::MAX,
            forall|k: int| 0 <= k < i ==> exact(#[trigger] kids[k]),
        decreases children@.len() - i,
    {
        let child = &children[i];
        assert(child@ == kids[i as int]);
        let ghost upto = kids.take(i + 1);
        proof {
            assert(upto.drop_last() =~= kids.take(i as int));
            assert(upto.last() == kids[i as int]);
            tree::lemma_total_prefix(kids, i + 1);
            lemma_weight_prefix(kids, count(), i + 1);
            if measured(kids[i as int]) is None && measured(tree) is Some {
                lemma_kid_measured(tree, i as int);
            }
            tree::lemma_height(tree, i as int);
        }
        let (count, height): (usize, usize) = match measure(child) {
            Some(found) => found,
            None => {
                return None;
            },
        };
        if child.size() > u64::MAX - total || count > usize::MAX - files || height == usize::MAX {
            return None;
        }
        total += child.size();
        files += count;
        if height > tallest {
            tallest = height;
        }
        i += 1;
    }
    assert(kids.take(i as int) =~= kids);
    if total != node.size() {
        return None;
    }
    if children.len() == 0 {
        Some((files, 0))
    } else {
        Some((files, tallest + 1))
    }
}

/// Whether a tree is sound.
pub fn is_sound(tree: &FileNode) -> (yes: bool)
    ensures
        yes == sound(tree@),
{
    match measure(tree) {
        Some((files, height)) => height <= usize::MAX / 2,
        None => false,
    }
}

} // verus!
