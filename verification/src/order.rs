//! Ordering items by a size, the largest first.

use vstd::prelude::*;

verus! {

/// Whether item `i` comes before item `j`: the larger key first, and among
/// equal keys the one that stood first.
pub open spec fn comes_first(keys: Seq<u64>, i: int, j: int) -> bool {
    keys[i] > keys[j] || (keys[i] == keys[j] && i < j)
}

/// Whether `order` lists positions of `keys`, each before the ones after it.
pub open spec fn ranked(keys: Seq<u64>, order: Seq<usize>) -> bool {
    &&& forall|i: int| 0 <= i < order.len() ==> (#[trigger] order[i]) < keys.len()
    &&& forall|i: int, j: int|
        0 <= i < j < order.len() ==> comes_first(
            keys,
            #[trigger] order[i] as int,
            #[trigger] order[j] as int,
        )
}

/// Whether `order` lists every position of `keys` once, the largest key first
/// and equal keys as they stood.
pub open spec fn largest_first(keys: Seq<u64>, order: Seq<usize>) -> bool {
    order.len() == keys.len() && ranked(keys, order)
}

/// The items at the positions `order`, in that order.
pub open spec fn picked<T>(items: Seq<T>, order: Seq<usize>) -> Seq<T> {
    order.map_values(|i: usize| items[i as int])
}

/// The order in which `keys` are listed with the largest first and equal keys
/// as they stood. There is exactly one: see `lemma_order_unique`.
pub open spec fn order_of(keys: Seq<u64>) -> Seq<usize> {
    choose|order: Seq<usize>| largest_first(keys, order)
}

/// Listing every position once leaves none out.
pub(crate) proof fn lemma_covers(order: Seq<usize>, at: usize)
    requires
        order.no_duplicates(),
        forall|i: int| 0 <= i < order.len() ==> (#[trigger] order[i]) < order.len(),
        at < order.len(),
    ensures
        order.contains(at),
{
    let n = order.len() as int;
    let positions = order.map_values(|i: usize| i as int);
    assert(positions.no_duplicates()) by {
        assert forall|i: int, j: int|
            0 <= i < n && 0 <= j < n && i != j implies positions[i] != positions[j] by {
            assert(order[i] != order[j]);
        }
    }
    positions.unique_seq_to_set();
    let all = vstd::set_lib::set_int_range(0, n);
    vstd::set_lib::lemma_int_range(0, n);
    vstd::seq_lib::seq_to_set_is_finite(positions);
    assert(positions.to_set().subset_of(all)) by {
        assert forall|x: int| positions.to_set().contains(x) implies all.contains(x) by {
            let i = positions.index_of(x);
            assert(order[i] < order.len());
        }
    }
    vstd::set_lib::lemma_subset_equality(positions.to_set(), all);
    assert(positions.to_set().contains(at as int));
    let i = positions.index_of(at as int);
    assert(order[i] == at);
}

/// No position is listed twice.
pub proof fn lemma_ranked_distinct(keys: Seq<u64>, order: Seq<usize>)
    requires
        ranked(keys, order),
    ensures
        order.no_duplicates(),
{
    assert forall|i: int, j: int|
        0 <= i < order.len() && 0 <= j < order.len() && i != j implies order[i] != order[j] by {
        if i < j {
            assert(comes_first(keys, order[i] as int, order[j] as int));
        } else {
            assert(comes_first(keys, order[j] as int, order[i] as int));
        }
    }
}

/// Only one order lists the largest key first and equal keys as they stood.
pub proof fn lemma_order_unique(keys: Seq<u64>, a: Seq<usize>, b: Seq<usize>)
    requires
        largest_first(keys, a),
        largest_first(keys, b),
    ensures
        a == b,
        a == order_of(keys),
{
    lemma_same_order(keys, a, b);
    lemma_same_order(keys, a, order_of(keys));
}

proof fn lemma_same_order(keys: Seq<u64>, a: Seq<usize>, b: Seq<usize>)
    requires
        largest_first(keys, a),
        largest_first(keys, b),
    ensures
        a == b,
{
    let first = |i: int, j: int| comes_first(keys, i, j);
    assert forall|i: int, j: int| 0 <= i < j < a.len() implies first(
        #[trigger] a[i] as int,
        #[trigger] a[j] as int,
    ) by {
        assert(comes_first(keys, a[i] as int, a[j] as int));
    }
    assert forall|i: int, j: int| 0 <= i < j < b.len() implies first(
        #[trigger] b[i] as int,
        #[trigger] b[j] as int,
    ) by {
        assert(comes_first(keys, b[i] as int, b[j] as int));
    }
    lemma_one_ranking(first, a, b);
}

/// Whether `order` lists positions, each before the ones after it.
pub open spec fn ranked_by(first: spec_fn(int, int) -> bool, order: Seq<usize>) -> bool {
    forall|i: int, j: int|
        0 <= i < j < order.len() ==> first(#[trigger] order[i] as int, #[trigger] order[j] as int)
}

/// Only one order lists every position, each before the ones after it.
pub proof fn lemma_one_ranking(first: spec_fn(int, int) -> bool, a: Seq<usize>, b: Seq<usize>)
    requires
        a.len() == b.len(),
        forall|i: int| 0 <= i < a.len() ==> (#[trigger] a[i]) < a.len(),
        forall|i: int| 0 <= i < b.len() ==> (#[trigger] b[i]) < b.len(),
        ranked_by(first, a),
        ranked_by(first, b),
        forall|x: int, y: int| #[trigger] first(x, y) ==> !first(y, x),
    ensures
        a == b,
{
    lemma_ranked_once(first, a);
    lemma_ranked_once(first, b);
    lemma_same_prefix(first, a, b, a.len());
    assert(a.take(a.len() as int) =~= a);
    assert(b.take(b.len() as int) =~= b);
}

/// Where each position comes before the ones after it, none is listed twice.
pub proof fn lemma_ranked_once(first: spec_fn(int, int) -> bool, order: Seq<usize>)
    requires
        ranked_by(first, order),
        forall|x: int, y: int| #[trigger] first(x, y) ==> !first(y, x),
    ensures
        order.no_duplicates(),
{
    assert forall|i: int, j: int|
        0 <= i < order.len() && 0 <= j < order.len() && i != j implies order[i] != order[j] by {
        if i < j {
            assert(first(order[i] as int, order[j] as int));
        } else {
            assert(first(order[j] as int, order[i] as int));
        }
    }
}

proof fn lemma_same_prefix(first: spec_fn(int, int) -> bool, a: Seq<usize>, b: Seq<usize>, n: nat)
    requires
        a.len() == b.len(),
        forall|i: int| 0 <= i < a.len() ==> (#[trigger] a[i]) < a.len(),
        forall|i: int| 0 <= i < b.len() ==> (#[trigger] b[i]) < b.len(),
        ranked_by(first, a),
        ranked_by(first, b),
        forall|x: int, y: int| #[trigger] first(x, y) ==> !first(y, x),
        a.no_duplicates(),
        b.no_duplicates(),
        n <= a.len(),
    ensures
        a.take(n as int) == b.take(n as int),
    decreases n,
{
    if n > 0 {
        lemma_same_prefix(first, a, b, (n - 1) as nat);
        let k = n - 1;
        lemma_covers(b, a[k]);
        lemma_covers(a, b[k]);
        let p = b.index_of(a[k]);
        let q = a.index_of(b[k]);
        if p < k {
            assert(a.take(k)[p] == b.take(k)[p]);
            assert(a[p] == a[k]);
        }
        if q < k {
            assert(a.take(k)[q] == b.take(k)[q]);
            assert(b[q] == b[k]);
        }
        if a[k] != b[k] {
            assert(first(b[k] as int, b[p] as int));
            assert(first(a[k] as int, a[q] as int));
        }
        assert forall|i: int| 0 <= i < n implies a.take(n as int)[i] == b.take(n as int)[i] by {
            if i < k {
                assert(a.take(k)[i] == b.take(k)[i]);
            }
        }
        assert(a.take(n as int) =~= b.take(n as int));
    } else {
        assert(a.take(0) =~= b.take(0));
    }
}

/// How many of the first positions of `order` have a key of at least `key`.
spec fn place(keys: Seq<u64>, order: Seq<usize>, key: u64) -> int
    decreases order.len(),
{
    if order.len() == 0 || keys[order.last() as int] >= key {
        order.len() as int
    } else {
        place(keys, order.drop_last(), key)
    }
}

proof fn lemma_place(keys: Seq<u64>, order: Seq<usize>, key: u64)
    requires
        ranked(keys, order),
    ensures
        0 <= place(keys, order, key) <= order.len(),
        forall|i: int|
            0 <= i < place(keys, order, key) ==> keys[#[trigger] order[i] as int] >= key,
        forall|i: int|
            place(keys, order, key) <= i < order.len() ==> keys[#[trigger] order[i] as int] < key,
    decreases order.len(),
{
    if order.len() > 0 && keys[order.last() as int] < key {
        let front = order.drop_last();
        assert(ranked(keys, front)) by {
            assert forall|i: int, j: int| 0 <= i < j < front.len() implies comes_first(
                keys,
                #[trigger] front[i] as int,
                #[trigger] front[j] as int,
            ) by {
                assert(comes_first(keys, order[i] as int, order[j] as int));
            }
            assert forall|i: int| 0 <= i < front.len() implies (#[trigger] front[i])
                < keys.len() by {
                assert(order[i] < keys.len());
            }
        }
        lemma_place(keys, front, key);
        assert forall|i: int| 0 <= i < place(keys, order, key) implies keys[#[trigger] order[i] as int]
            >= key by {
            assert(front[i] == order[i]);
        }
        assert forall|i: int|
            place(keys, order, key) <= i < order.len() implies keys[#[trigger] order[i] as int]
            < key by {
            if i < front.len() {
                assert(front[i] == order[i]);
            }
        }
    } else if order.len() > 0 {
        let last = order.len() - 1;
        assert forall|i: int| 0 <= i < order.len() implies keys[#[trigger] order[i] as int] >= key by {
            if i < last {
                assert(comes_first(keys, order[i] as int, order[last] as int));
            }
        }
    }
}

/// There is an order that lists the largest key first and equal keys as they
/// stood.
pub proof fn lemma_order_exists(keys: Seq<u64>) -> (order: Seq<usize>)
    requires
        keys.len() <= usize::MAX,
    ensures
        largest_first(keys, order),
        order == order_of(keys),
    decreases keys.len(),
{
    let order: Seq<usize> = if keys.len() == 0 {
        Seq::empty()
    } else {
        let front_keys = keys.drop_last();
        let front = lemma_order_exists(front_keys);
        let last = (keys.len() - 1) as usize;
        let p = place(front_keys, front, keys.last());
        lemma_place(front_keys, front, keys.last());
        front.insert(p, last)
    };
    if keys.len() > 0 {
        let front_keys = keys.drop_last();
        let front = order_of(front_keys);
        let last = (keys.len() - 1) as usize;
        let p = place(front_keys, front, keys.last());
        lemma_place(front_keys, front, keys.last());
        assert(order == front.insert(p, last));
        assert forall|i: int| 0 <= i < order.len() implies (#[trigger] order[i]) < keys.len() by {
            if i < p {
                assert(order[i] == front[i]);
            } else if i > p {
                assert(order[i] == front[i - 1]);
            }
        }
        assert forall|i: int, j: int| 0 <= i < j < order.len() implies comes_first(
            keys,
            #[trigger] order[i] as int,
            #[trigger] order[j] as int,
        ) by {
            let i2 = if i < p { i } else { i - 1 };
            let j2 = if j < p { j } else { j - 1 };
            if i != p {
                assert(order[i] == front[i2]);
                assert(keys[order[i] as int] == front_keys[front[i2] as int]);
            }
            if j != p {
                assert(order[j] == front[j2]);
                assert(keys[order[j] as int] == front_keys[front[j2] as int]);
            }
            if i != p && j != p {
                assert(comes_first(front_keys, front[i2] as int, front[j2] as int));
            }
        }
    }
    lemma_order_unique(keys, order, order);
    order
}

/// Listing every position once keeps each item as often as it was.
pub proof fn lemma_picked_multiset<T>(items: Seq<T>, order: Seq<usize>)
    requires
        order.no_duplicates(),
        order.len() == items.len(),
        forall|i: int| 0 <= i < order.len() ==> (#[trigger] order[i]) < items.len(),
    ensures
        picked(items, order).to_multiset() == items.to_multiset(),
    decreases items.len(),
{
    broadcast use vstd::seq_lib::group_to_multiset_ensures;
    broadcast use vstd::multiset::group_multiset_axioms;

    if items.len() == 0 {
        assert(picked(items, order) =~= items);
    } else {
        let last: usize = (order.len() - 1) as usize;
        lemma_countable(order);
        lemma_covers(order, last);
        let k = order.index_of(last);
        let rest = order.remove(k);
        let front = items.drop_last();
        assert forall|i: int| 0 <= i < rest.len() implies (#[trigger] rest[i]) < front.len() by {
            if i < k {
                assert(rest[i] == order[i]);
            } else {
                assert(rest[i] == order[i + 1]);
            }
        }
        assert(rest.no_duplicates()) by {
            assert forall|i: int, j: int|
                0 <= i < rest.len() && 0 <= j < rest.len() && i != j implies rest[i] != rest[j] by {
                let i2 = if i < k { i } else { i + 1 };
                let j2 = if j < k { j } else { j + 1 };
                assert(rest[i] == order[i2] && rest[j] == order[j2]);
                assert(order[i2] != order[j2]);
            }
        }
        lemma_picked_multiset(front, rest);
        let all = picked(items, order);
        assert(all.remove(k) =~= picked(front, rest));
        assert(all[k] == items.last());
        assert(front.push(items.last()) =~= items);
        assert(all.remove(k).to_multiset() == all.to_multiset().remove(all[k]));
        assert(items.to_multiset() == front.to_multiset().insert(items.last()));
        assert(all.contains(all[k]));
        assert(all.to_multiset() =~= items.to_multiset());
    }
}

/// There are no more distinct positions than the machine can count.
proof fn lemma_countable(order: Seq<usize>)
    requires
        order.no_duplicates(),
    ensures
        order.len() <= usize::MAX + 1,
{
    let n = order.len() as int;
    let positions = order.map_values(|i: usize| i as int);
    assert(positions.no_duplicates()) by {
        assert forall|i: int, j: int|
            0 <= i < n && 0 <= j < n && i != j implies positions[i] != positions[j] by {
            assert(order[i] != order[j]);
        }
    }
    positions.unique_seq_to_set();
    let all = vstd::set_lib::set_int_range(0, usize::MAX + 1);
    vstd::set_lib::lemma_int_range(0, usize::MAX + 1);
    vstd::seq_lib::seq_to_set_is_finite(positions);
    assert(positions.to_set().subset_of(all)) by {
        assert forall|x: int| positions.to_set().contains(x) implies all.contains(x) by {
            let i = positions.index_of(x);
            assert(positions[i] == order[i]);
        }
    }
    vstd::set_lib::lemma_len_subset(positions.to_set(), all);
}

fn merge(keys: &Vec<u64>, left: &Vec<usize>, right: &Vec<usize>, mid: usize) -> (merged: Vec<usize>)
    requires
        ranked(keys@, left@),
        ranked(keys@, right@),
        left@.len() + right@.len() <= keys@.len(),
        forall|i: int| 0 <= i < left@.len() ==> #[trigger] left@[i] < mid,
        forall|i: int| 0 <= i < right@.len() ==> mid <= #[trigger] right@[i],
    ensures
        ranked(keys@, merged@),
        merged@.len() == left@.len() + right@.len(),
        forall|k: int|
            0 <= k < merged@.len() ==> left@.contains(#[trigger] merged@[k]) || right@.contains(
                merged@[k],
            ),
{
    let mut merged: Vec<usize> = Vec::new();
    let mut i: usize = 0;
    let mut j: usize = 0;
    while i < left.len() || j < right.len()
        invariant
            i <= left@.len(),
            j <= right@.len(),
            left@.len() + right@.len() <= keys@.len(),
            merged@.len() == i + j,
            ranked(keys@, left@),
            ranked(keys@, right@),
            ranked(keys@, merged@),
            forall|k: int| 0 <= k < left@.len() ==> #[trigger] left@[k] < mid,
            forall|k: int| 0 <= k < right@.len() ==> mid <= #[trigger] right@[k],
            forall|k: int|
                0 <= k < merged@.len() ==> left@.contains(#[trigger] merged@[k]) || right@.contains(
                    merged@[k],
                ),
            forall|k: int, l: int|
                0 <= k < merged@.len() && i <= l < left@.len() ==> comes_first(
                    keys@,
                    #[trigger] merged@[k] as int,
                    #[trigger] left@[l] as int,
                ),
            forall|k: int, l: int|
                0 <= k < merged@.len() && j <= l < right@.len() ==> comes_first(
                    keys@,
                    #[trigger] merged@[k] as int,
                    #[trigger] right@[l] as int,
                ),
        decreases left@.len() - i + right@.len() - j,
    {
        if j == right.len() || (i < left.len() && keys[left[i]] >= keys[right[j]]) {
            assert(left@.contains(left@[i as int]));
            merged.push(left[i]);
            i += 1;
        } else {
            assert(right@.contains(right@[j as int]));
            merged.push(right[j]);
            j += 1;
        }
    }
    merged
}

fn rank_range(keys: &Vec<u64>, from: usize, to: usize) -> (order: Vec<usize>)
    requires
        from <= to <= keys@.len(),
    ensures
        ranked(keys@, order@),
        order@.len() == to - from,
        forall|i: int| 0 <= i < order@.len() ==> from <= #[trigger] order@[i] < to,
    decreases to - from,
{
    if to - from <= 1 {
        let mut order: Vec<usize> = Vec::new();
        if from < to {
            order.push(from);
        }
        order
    } else {
        let mid: usize = from + (to - from) / 2;
        let left = rank_range(keys, from, mid);
        let right = rank_range(keys, mid, to);
        merge(keys, &left, &right, mid)
    }
}

/// The positions of `keys`, the largest key first and equal keys as they
/// stand.
pub fn rank(keys: &Vec<u64>) -> (order: Vec<usize>)
    ensures
        largest_first(keys@, order@),
        order@ == order_of(keys@),
        order@.no_duplicates(),
{
    let order = rank_range(keys, 0, keys.len());
    proof {
        lemma_ranked_distinct(keys@, order@);
        lemma_order_unique(keys@, order@, order@);
    }
    order
}

/// The items at the positions `order`, in that order.
pub fn pick<T>(items: Vec<T>, order: &Vec<usize>) -> (result: Vec<T>)
    requires
        order@.no_duplicates(),
        forall|i: int| 0 <= i < order@.len() ==> #[trigger] order@[i] < items@.len(),
    ensures
        result@ == picked(items@, order@),
{
    let ghost all = items@;
    let mut slots: Vec<Option<T>> = Vec::new();
    for item in it: items
        invariant
            it.seq() == all,
            slots@.len() == it.index(),
            forall|k: int| 0 <= k < slots@.len() ==> #[trigger] slots@[k] == Some(all[k]),
    {
        slots.push(Some(item));
    }
    let mut result: Vec<T> = Vec::new();
    let mut i: usize = 0;
    while i < order.len()
        invariant
            i <= order@.len(),
            order@.no_duplicates(),
            forall|k: int| 0 <= k < order@.len() ==> #[trigger] order@[k] < all.len(),
            slots@.len() == all.len(),
            forall|k: int|
                i <= k < order@.len() ==> slots@[#[trigger] order@[k] as int] == Some(
                    all[order@[k] as int],
                ),
            result@ == picked(all, order@.take(i as int)),
        decreases order@.len() - i,
    {
        let at: usize = order[i];
        let taken = slots[at].take();
        assert(slots@.len() == all.len());
        result.push(taken.unwrap());
        assert(result@ =~= picked(all, order@.take(i + 1)));
        i += 1;
    }
    assert(order@.take(i as int) =~= order@);
    result
}

/// Larger keys come before smaller ones, and equal ones stay as they stood.
pub proof fn lemma_order(keys: Seq<u64>, i: int, j: int)
    requires
        keys.len() <= usize::MAX,
        0 <= i < j < keys.len(),
    ensures
        ({
            let order = order_of(keys);
            &&& order.len() == keys.len()
            &&& order.no_duplicates()
            &&& keys[order[i] as int] >= keys[order[j] as int]
            &&& keys[order[i] as int] == keys[order[j] as int] ==> order[i] < order[j]
        }),
{
    let order = lemma_order_exists(keys);
    lemma_ranked_distinct(keys, order);
    assert(comes_first(keys, order[i] as int, order[j] as int));
}

} // verus!
