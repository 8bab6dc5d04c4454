//! Names in alphabetical order.

use vstd::prelude::*;

use crate::order;
use crate::order::pick;
use crate::text::chars_of;

verus! {

/// Whether `a` stands before `b` or is the same, character by character.
pub open spec fn name_le(a: Seq<char>, b: Seq<char>) -> bool
    decreases a.len(),
{
    if a.len() == 0 {
        true
    } else if b.len() == 0 {
        false
    } else if a[0] != b[0] {
        a[0] < b[0]
    } else {
        name_le(a.drop_first(), b.drop_first())
    }
}

/// The order of names as a relation.
pub open spec fn name_order() -> spec_fn(Seq<char>, Seq<char>) -> bool {
    |a: Seq<char>, b: Seq<char>| name_le(a, b)
}

/// The names in alphabetical order.
pub open spec fn alphabetical(names: Seq<Seq<char>>) -> Seq<Seq<char>> {
    names.sort_by(name_order())
}

proof fn lemma_reflexive(a: Seq<char>)
    ensures
        name_le(a, a),
    decreases a.len(),
{
    if a.len() > 0 {
        lemma_reflexive(a.drop_first());
    }
}

proof fn lemma_antisymmetric(a: Seq<char>, b: Seq<char>)
    requires
        name_le(a, b),
        name_le(b, a),
    ensures
        a == b,
    decreases a.len(),
{
    if a.len() > 0 && b.len() > 0 {
        assert(a[0] == b[0]);
        let (rest, other) = (a.drop_first(), b.drop_first());
        lemma_antisymmetric(rest, other);
        assert forall|i: int| 0 <= i < a.len() implies a[i] == b[i] by {
            if i > 0 {
                assert(a[i] == rest[i - 1] && b[i] == other[i - 1]);
            }
        }
        assert(a =~= b);
    } else {
        assert(a =~= b);
    }
}

/// The order of names is consistent.
pub proof fn lemma_transitive(a: Seq<char>, b: Seq<char>, c: Seq<char>)
    requires
        name_le(a, b),
        name_le(b, c),
    ensures
        name_le(a, c),
    decreases a.len(),
{
    if a.len() > 0 && b.len() > 0 && c.len() > 0 && a[0] == b[0] && b[0] == c[0] {
        lemma_transitive(a.drop_first(), b.drop_first(), c.drop_first());
    }
}

/// Any two names are in order.
pub proof fn lemma_total(a: Seq<char>, b: Seq<char>)
    ensures
        name_le(a, b) || name_le(b, a),
    decreases a.len(),
{
    if a.len() > 0 && b.len() > 0 {
        lemma_total(a.drop_first(), b.drop_first());
    }
}

/// Any two names are in order, and the order is consistent.
pub proof fn lemma_name_order()
    ensures
        vstd::relations::total_ordering(name_order()),
{
    let le = name_order();
    assert forall|a: Seq<char>| #[trigger] le(a, a) by {
        lemma_reflexive(a);
    }
    assert forall|a: Seq<char>, b: Seq<char>| #[trigger] le(a, b) && #[trigger] le(b, a) implies a
        == b by {
        lemma_antisymmetric(a, b);
    }
    assert forall|a: Seq<char>, b: Seq<char>, c: Seq<char>| #[trigger] le(a, b) && #[trigger] le(
        b,
        c,
    ) implies le(a, c) by {
        lemma_transitive(a, b, c);
    }
    assert forall|a: Seq<char>, b: Seq<char>| #[trigger] le(a, b) || #[trigger] le(b, a) by {
        lemma_total(a, b);
    }
}

/// Whether `a` stands before `b` or is the same.
pub fn is_le(a: &Vec<char>, b: &Vec<char>) -> (le: bool)
    ensures
        le == name_le(a@, b@),
{
    let mut i: usize = 0;
    assert(a@.skip(0) =~= a@ && b@.skip(0) =~= b@);
    loop
        invariant
            i <= a@.len(),
            i <= b@.len(),
            name_le(a@, b@) == name_le(a@.skip(i as int), b@.skip(i as int)),
        decreases a@.len() - i,
    {
        if i == a.len() {
            return true;
        }
        if i == b.len() {
            return false;
        }
        if a[i] != b[i] {
            return a[i] < b[i];
        }
        assert(a@.skip(i as int).drop_first() =~= a@.skip(i + 1));
        assert(b@.skip(i as int).drop_first() =~= b@.skip(i + 1));
        i += 1;
    }
}

/// The characters of each name.
pub open spec fn name_views(names: Seq<String>) -> Seq<Seq<char>> {
    names.map_values(|name: String| name@)
}

/// The characters of each name.
pub open spec fn char_views(names: Seq<Vec<char>>) -> Seq<Seq<char>> {
    names.map_values(|name: Vec<char>| name@)
}

/// Whether name `i` is listed before name `j`: in alphabetical order, and equal names as
/// they stand.
pub open spec fn listed_first(names: Seq<Seq<char>>, i: int, j: int) -> bool {
    if names[i] == names[j] {
        i < j
    } else {
        name_le(names[i], names[j])
    }
}

/// Whether `order` lists positions of names, each before the ones after it.
spec fn in_order(names: Seq<Seq<char>>, order: Seq<usize>) -> bool {
    &&& forall|i: int| 0 <= i < order.len() ==> (#[trigger] order[i]) < names.len()
    &&& order::ranked_by(|i: int, j: int| listed_first(names, i, j), order)
}

/// Whether `order` lists every name once, in alphabetical order, and equal names as they
/// stand.
pub open spec fn listed(names: Seq<Seq<char>>, order: Seq<usize>) -> bool {
    &&& order.len() == names.len()
    &&& forall|i: int| 0 <= i < order.len() ==> (#[trigger] order[i]) < names.len()
    &&& order::ranked_by(|i: int, j: int| listed_first(names, i, j), order)
}

/// The order in which names are listed. There is exactly one: see `lemma_order_of`.
pub open spec fn order_of(names: Seq<Seq<char>>) -> Seq<usize> {
    choose|order: Seq<usize>| listed(names, order)
}

proof fn lemma_listed_first(names: Seq<Seq<char>>)
    ensures
        forall|i: int, j: int| #[trigger] listed_first(names, i, j) ==> !listed_first(names, j, i),
        forall|i: int, j: int, k: int| #[trigger]
            listed_first(names, i, j) && #[trigger] listed_first(names, j, k) ==> listed_first(
                names,
                i,
                k,
            ),
{
    assert forall|i: int, j: int| #[trigger] listed_first(names, i, j) implies !listed_first(
        names,
        j,
        i,
    ) by {
        if listed_first(names, j, i) && names[i] != names[j] {
            lemma_antisymmetric(names[i], names[j]);
        }
    }
    assert forall|i: int, j: int, k: int| #[trigger]
        listed_first(names, i, j) && #[trigger] listed_first(names, j, k) implies listed_first(
        names,
        i,
        k,
    ) by {
        if names[i] != names[j] && names[j] != names[k] {
            lemma_transitive(names[i], names[j], names[k]);
            if names[i] == names[k] {
                lemma_antisymmetric(names[i], names[j]);
            }
        }
    }
}

/// Names are listed in one order only: each once, in alphabetical order, and equal names
/// as they stand.
pub proof fn lemma_order_of(names: Seq<Seq<char>>, order: Seq<usize>)
    requires
        names.len() <= usize::MAX,
    ensures
        listed(names, order_of(names)),
        order_of(names).no_duplicates(),
        listed(names, order) ==> order == order_of(names),
{
    let first = |i: int, j: int| listed_first(names, i, j);
    lemma_inserted(names, names.len());
    assert(listed(names, inserted(names, names.len())));
    lemma_listed_first(names);
    assert forall|x: int, y: int| #[trigger] first(x, y) implies !first(y, x) by {
        assert(listed_first(names, x, y));
    }
    order::lemma_ranked_once(first, order_of(names));
    if listed(names, order) {
        order::lemma_one_ranking(first, order, order_of(names));
    }
}

/// Where a name goes behind the first `n` positions of `order`: after the last
/// one with a name that does not stand after it.
spec fn place(names: Seq<Seq<char>>, order: Seq<usize>, n: nat, name: Seq<char>) -> nat
    decreases n,
{
    if n == 0 || name_le(names[order[n - 1] as int], name) {
        n
    } else {
        place(names, order, (n - 1) as nat, name)
    }
}

/// An order of the first `n` names.
spec fn inserted(names: Seq<Seq<char>>, n: nat) -> Seq<usize>
    decreases n,
{
    if n == 0 {
        Seq::empty()
    } else {
        let front = inserted(names, (n - 1) as nat);
        front.insert(place(names, front, front.len(), names[n - 1]) as int, (n - 1) as usize)
    }
}

proof fn lemma_place(names: Seq<Seq<char>>, order: Seq<usize>, n: nat, name: Seq<char>)
    requires
        n <= order.len(),
    ensures
        place(names, order, n, name) <= n,
        place(names, order, n, name) > 0 ==> name_le(
            names[order[place(names, order, n, name) - 1] as int],
            name,
        ),
        forall|i: int|
            place(names, order, n, name) <= i < n ==> !name_le(
                names[#[trigger] order[i] as int],
                name,
            ),
    decreases n,
{
    if n > 0 && !name_le(names[order[n - 1] as int], name) {
        lemma_place(names, order, (n - 1) as nat, name);
    }
}

proof fn lemma_inserted(names: Seq<Seq<char>>, n: nat)
    requires
        n <= names.len() <= usize::MAX,
    ensures
        inserted(names, n).len() == n,
        forall|i: int| 0 <= i < n ==> (#[trigger] inserted(names, n)[i]) < n,
        order::ranked_by(|i: int, j: int| listed_first(names, i, j), inserted(names, n)),
    decreases n,
{
    if n > 0 {
        let first = |i: int, j: int| listed_first(names, i, j);
        let front = inserted(names, (n - 1) as nat);
        let whole = inserted(names, n);
        let name = names[n - 1];
        let at = place(names, front, front.len(), name) as int;
        lemma_inserted(names, (n - 1) as nat);
        lemma_place(names, front, front.len(), name);
        assert forall|i: int| 0 <= i < n implies (#[trigger] whole[i]) < n by {
            if i < at {
                assert(whole[i] == front[i]);
            } else if i > at {
                assert(whole[i] == front[i - 1]);
            }
        }
        assert forall|i: int, j: int| 0 <= i < j < n implies first(
            #[trigger] whole[i] as int,
            #[trigger] whole[j] as int,
        ) by {
            let i2 = if i < at {
                i
            } else {
                i - 1
            };
            let j2 = if j < at {
                j
            } else {
                j - 1
            };
            if i != at {
                assert(whole[i] == front[i2]);
                assert(front[i2] < n - 1);
            }
            if j != at {
                assert(whole[j] == front[j2]);
            }
            if i != at && j != at {
                assert(first(front[i2] as int, front[j2] as int));
            } else if i == at {
                lemma_total(names[front[j2] as int], name);
            } else {
                if i < at - 1 {
                    assert(first(front[i] as int, front[at - 1] as int));
                    if names[front[i] as int] != names[front[at - 1] as int] {
                        lemma_transitive(
                            names[front[i] as int],
                            names[front[at - 1] as int],
                            name,
                        );
                    }
                }
            }
        }
    }
}

fn merge(keys: &Vec<Vec<char>>, left: &Vec<usize>, right: &Vec<usize>, mid: usize) -> (merged: Vec<
    usize,
>)
    requires
        in_order(char_views(keys@), left@),
        in_order(char_views(keys@), right@),
        left@.len() + right@.len() <= keys@.len(),
        forall|i: int| 0 <= i < left@.len() ==> #[trigger] left@[i] < mid,
        forall|i: int| 0 <= i < right@.len() ==> mid <= #[trigger] right@[i],
    ensures
        in_order(char_views(keys@), merged@),
        merged@.len() == left@.len() + right@.len(),
        forall|k: int|
            0 <= k < merged@.len() ==> left@.contains(#[trigger] merged@[k]) || right@.contains(
                merged@[k],
            ),
{
    let ghost names = char_views(keys@);
    let mut merged: Vec<usize> = Vec::new();
    let mut i: usize = 0;
    let mut j: usize = 0;
    proof {
        lemma_listed_first(names);
    }
    while i < left.len() || j < right.len()
        invariant
            i <= left@.len(),
            j <= right@.len(),
            left@.len() + right@.len() <= keys@.len(),
            merged@.len() == i + j,
            names == char_views(keys@),
            forall|a: int, b: int, c: int| #[trigger]
                listed_first(names, a, b) && #[trigger] listed_first(names, b, c) ==> listed_first(
                    names,
                    a,
                    c,
                ),
            in_order(names, left@),
            in_order(names, right@),
            in_order(names, merged@),
            forall|k: int| 0 <= k < left@.len() ==> #[trigger] left@[k] < mid,
            forall|k: int| 0 <= k < right@.len() ==> mid <= #[trigger] right@[k],
            forall|k: int|
                0 <= k < merged@.len() ==> left@.contains(#[trigger] merged@[k]) || right@.contains(
                    merged@[k],
                ),
            forall|k: int, l: int|
                0 <= k < merged@.len() && i <= l < left@.len() ==> listed_first(
                    names,
                    #[trigger] merged@[k] as int,
                    #[trigger] left@[l] as int,
                ),
            forall|k: int, l: int|
                0 <= k < merged@.len() && j <= l < right@.len() ==> listed_first(
                    names,
                    #[trigger] merged@[k] as int,
                    #[trigger] right@[l] as int,
                ),
        decreases left@.len() - i + right@.len() - j,
    {
        let ghost first = |a: int, b: int| listed_first(names, a, b);
        let ghost before = merged@;
        if j == right.len() || (i < left.len() && is_le(&keys[left[i]], &keys[right[j]])) {
            proof {
                assert(left@.contains(left@[i as int]));
                assert forall|l: int| i < l < left@.len() implies listed_first(
                    names,
                    left@[i as int] as int,
                    #[trigger] left@[l] as int,
                ) by {
                    assert(first(left@[i as int] as int, left@[l] as int));
                }
                if j < right.len() {
                    assert(listed_first(names, left@[i as int] as int, right@[j as int] as int));
                }
                assert forall|l: int| j < l < right@.len() implies listed_first(
                    names,
                    left@[i as int] as int,
                    #[trigger] right@[l] as int,
                ) by {
                    assert(first(right@[j as int] as int, right@[l] as int));
                    assert(listed_first(names, right@[j as int] as int, right@[l] as int));
                }
            }
            merged.push(left[i]);
            i += 1;
        } else {
            proof {
                assert(right@.contains(right@[j as int]));
                assert forall|l: int| j < l < right@.len() implies listed_first(
                    names,
                    right@[j as int] as int,
                    #[trigger] right@[l] as int,
                ) by {
                    assert(first(right@[j as int] as int, right@[l] as int));
                }
                if i < left.len() {
                    lemma_total(names[left@[i as int] as int], names[right@[j as int] as int]);
                    assert(listed_first(names, right@[j as int] as int, left@[i as int] as int)) by {
                        if names[left@[i as int] as int] == names[right@[j as int] as int] {
                            lemma_reflexive(names[left@[i as int] as int]);
                        }
                    }
                }
                assert forall|l: int| i < l < left@.len() implies listed_first(
                    names,
                    right@[j as int] as int,
                    #[trigger] left@[l] as int,
                ) by {
                    assert(first(left@[i as int] as int, left@[l] as int));
                    assert(listed_first(names, left@[i as int] as int, left@[l] as int));
                }
            }
            merged.push(right[j]);
            j += 1;
        }
        assert forall|k: int, l: int| 0 <= k < l < merged@.len() implies first(
            #[trigger] merged@[k] as int,
            #[trigger] merged@[l] as int,
        ) by {
            if l < before.len() {
                assert(first(before[k] as int, before[l] as int));
            } else {
                assert(merged@[k] == before[k]);
            }
        }
    }
    merged
}

fn rank_range(keys: &Vec<Vec<char>>, from: usize, to: usize) -> (order: Vec<usize>)
    requires
        from <= to <= keys@.len(),
    ensures
        in_order(char_views(keys@), order@),
        order@.len() == to - from,
        forall|i: int| 0 <= i < order@.len() ==> from <= #[trigger] order@[i] < to,
    decreases to - from,
{
    if to - from <= 1 {
        let mut order: Vec<usize> = Vec::new();
        if from < to {
            order.push(from);
        }
        order
    } else {
        let mid: usize = from + (to - from) / 2;
        let left = rank_range(keys, from, mid);
        let right = rank_range(keys, mid, to);
        merge(keys, &left, &right, mid)
    }
}

/// The positions of names in alphabetical order; equal names as they stand.
pub fn rank_names(keys: &Vec<Vec<char>>) -> (order: Vec<usize>)
    ensures
        order@ == order_of(char_views(keys@)),
        listed(char_views(keys@), order@),
        order@.no_duplicates(),
{
    let order = rank_range(keys, 0, keys.len());
    proof {
        assert(char_views(keys@).len() == keys.len());
        lemma_order_of(char_views(keys@), order@);
    }
    order
}

/// The names in alphabetical order.
pub fn sort_names(names: Vec<String>) -> (sorted: Vec<String>)
    ensures
        name_views(sorted@) == alphabetical(name_views(names@)),
{
    let ghost all = name_views(names@);
    let mut keys: Vec<Vec<char>> = Vec::new();
    let mut i: usize = 0;
    assert(char_views(keys@) =~= all.take(0));
    while i < names.len()
        invariant
            i <= names@.len(),
            all == name_views(names@),
            char_views(keys@) == all.take(i as int),
        decreases names@.len() - i,
    {
        let ghost before = char_views(keys@);
        let key = chars_of(names[i].as_str());
        keys.push(key);
        assert(char_views(keys@) =~= before.push(key@));
        i += 1;
        assert(char_views(keys@) =~= all.take(i as int));
    }
    assert(char_views(keys@) =~= all);
    let order = rank_names(&keys);
    let ghost unsorted = names@;
    let sorted = pick(names, &order);
    proof {
        let le = name_order();
        let first = |a: int, b: int| listed_first(all, a, b);
        let after = name_views(sorted@);
        lemma_name_order();
        assert(after =~= order::picked(all, order@));
        order::lemma_picked_multiset(all, order@);
        assert forall|j: int, k: int| 0 <= j < k < after.len() implies #[trigger] le(
            after[j],
            after[k],
        ) by {
            assert(first(order@[j] as int, order@[k] as int));
            lemma_reflexive(after[j]);
        }
        all.lemma_sort_by_ensures(le);
        vstd::seq_lib::lemma_sorted_unique(after, all.sort_by(le), le);
    }
    sorted
}

/// A name stands before what is longer, and before what first differs from it by a later
/// character.
pub proof fn lemma_first_difference(
    common: Seq<char>,
    a: char,
    more: Seq<char>,
    b: char,
    rest: Seq<char>,
)
    ensures
        name_le(common, common + more),
        a < b ==> name_le(common.push(a) + more, common.push(b) + rest) && !name_le(
            common.push(b) + rest,
            common.push(a) + more,
        ),
    decreases common.len(),
{
    let (x, y) = (common.push(a) + more, common.push(b) + rest);
    if common.len() == 0 {
        assert(x[0] == a && y[0] == b);
    } else {
        let tail = common.drop_first();
        lemma_first_difference(tail, a, more, b, rest);
        assert((common + more).drop_first() =~= tail + more);
        assert((common + more)[0] == common[0]);
        assert(x[0] == common[0] && y[0] == common[0]);
        assert(x.drop_first() =~= tail.push(a) + more);
        assert(y.drop_first() =~= tail.push(b) + rest);
    }
}

} // verus!
