//! Shortening labels until they fit.

use vstd::prelude::*;

use crate::path;
use crate::text::{chars_of, string_from};

verus! {

/// How many of `n` characters can be kept, found by halving: where `fits` says
/// no to more and yes to fewer, the largest number that fits; 0 where none
/// does.
pub fn longest_fitting<F: Fn(usize) -> bool>(n: usize, fits: &F) -> (k: usize)
    requires
        forall|i: usize| 1 <= i <= n ==> #[trigger] fits.requires((i,)),
    ensures
        k <= n,
        k > 0 ==> fits.ensures((k,), true),
        k < n ==> fits.ensures(((k + 1) as usize,), false),
{
    let mut lo: usize = 0;
    let mut hi: usize = n;
    while lo < hi
        invariant
            lo <= hi <= n,
            forall|i: usize| 1 <= i <= n ==> #[trigger] fits.requires((i,)),
            lo > 0 ==> fits.ensures((lo,), true),
            hi < n ==> fits.ensures(((hi + 1) as usize,), false),
        decreases hi - lo,
    {
        let mid: usize = lo + (hi - lo) / 2 + (hi - lo) % 2;
        if fits(mid) {
            lo = mid;
        } else {
            hi = mid - 1;
        }
    }
    lo
}

/// The first `k` characters and an ellipsis.
pub fn ellipsized(label: &str, k: usize) -> (short: String)
    requires
        k <= label@.len(),
    ensures
        short@ == label@.take(k as int).push('\u{2026}'),
{
    let chars = chars_of(label);
    let mut short = string_from(chars.as_slice(), 0, k);
    assert(chars@.subrange(0, k as int) =~= label@.take(k as int));
    short.push('\u{2026}');
    short
}

/// The segments of a path that are not empty.
pub open spec fn path_steps(path: Seq<char>) -> Seq<Seq<char>> {
    path::segments(path).filter(|segment: Seq<char>| segment.len() > 0)
}

/// Texts with slashes between them.
pub open spec fn slashed(parts: Seq<Seq<char>>) -> Seq<char>
    decreases parts.len(),
{
    if parts.len() == 0 {
        Seq::empty()
    } else if parts.len() == 1 {
        parts[0]
    } else {
        slashed(parts.drop_last()).push('/') + parts.last()
    }
}

/// The last steps of a path, from `skip` on, behind an ellipsis.
pub open spec fn tail_label(path: Seq<char>, skip: int) -> Seq<char> {
    seq!['\u{2026}', '/'] + slashed(path_steps(path).skip(skip))
}

/// Strings as character sequences.
pub open spec fn label_views(labels: Seq<String>) -> Seq<Seq<char>> {
    labels.map_values(|label: String| label@)
}

fn read_steps(label: &str) -> (steps: Vec<String>)
    ensures
        label_views(steps@) == path_steps(label@),
{
    let chars = chars_of(label);
    let ghost all = label@;
    let ghost keep = |segment: Seq<char>| segment.len() > 0;
    let mut steps: Vec<String> = Vec::new();
    let mut start: usize = 0;
    let mut i: usize = 0;
    proof {
        reveal(Seq::filter);
        assert(all.take(0) =~= Seq::empty());
        let first = path::segments(all.take(0));
        assert(first =~= seq![Seq::<char>::empty()]);
        assert(first.drop_last() =~= Seq::empty());
        assert(label_views(steps@) =~= first.drop_last().filter(keep));
        assert(all.subrange(0, 0) =~= Seq::<char>::empty());
    }
    while i < chars.len()
        invariant
            chars@ == all,
            start <= i <= all.len(),
            keep == (|segment: Seq<char>| segment.len() > 0),
            path::segments(all.take(i as int)).len() > 0,
            path::segments(all.take(i as int)).last() == all.subrange(start as int, i as int),
            label_views(steps@) == path::segments(all.take(i as int)).drop_last().filter(keep),
        decreases all.len() - i,
    {
        let ghost before = path::segments(all.take(i as int));
        let ghost after = path::segments(all.take(i + 1));
        let ghost found = label_views(steps@);
        proof {
            reveal(Seq::filter);
            assert(all.take(i + 1).drop_last() =~= all.take(i as int));
            assert(all.take(i + 1).last() == all[i as int]);
        }
        if chars[i] == '/' {
            proof {
                assert(after.drop_last() =~= before);
                assert(before.drop_last().push(before.last()) =~= before);
                assert(all.subrange(i + 1, i + 1) =~= Seq::<char>::empty());
            }
            if start < i {
                steps.push(string_from(chars.as_slice(), start, i));
                assert(label_views(steps@) =~= found.push(before.last()));
            }
            start = i + 1;
        } else {
            proof {
                assert(after.drop_last() =~= before.drop_last());
                assert(all.subrange(start as int, i + 1) =~= all.subrange(
                    start as int,
                    i as int,
                ).push(all[i as int]));
            }
        }
        i += 1;
    }
    let ghost found = label_views(steps@);
    proof {
        reveal(Seq::filter);
        assert(all.take(i as int) =~= all);
    }
    if start < i {
        steps.push(string_from(chars.as_slice(), start, i));
        assert(label_views(steps@) =~= found.push(path::segments(all).last()));
    }
    steps
}

/// Ever shorter labels for a path: its last steps behind an ellipsis, with one
/// step fewer each time. The path itself is not among them.
pub fn path_tails(label: &str) -> (labels: Vec<String>)
    ensures
        label_views(labels@) == Seq::new(
            if path_steps(label@).len() > 0 {
                (path_steps(label@).len() - 1) as nat
            } else {
                0
            },
            |i: int| tail_label(label@, i + 1),
        ),
{
    let steps = read_steps(label);
    let ghost parts = path_steps(label@);
    assert(parts.len() == steps@.len());
    let mut labels: Vec<String> = Vec::new();
    let mut skip: usize = 1;
    while skip < steps.len()
        invariant
            parts == path_steps(label@),
            parts == label_views(steps@),
            1 <= skip,
            skip <= steps@.len() || steps@.len() == 0 && skip == 1,
            label_views(labels@) == Seq::new(
                (skip - 1) as nat,
                |i: int| tail_label(label@, i + 1),
            ),
        decreases steps@.len() - skip,
    {
        let ghost rest = parts.skip(skip as int);
        let mut tail = String::new();
        tail.push('\u{2026}');
        tail.push('/');
        let mut k: usize = skip;
        assert(tail@ =~= seq!['\u{2026}', '/'] + slashed(rest.take(0)));
        while k < steps.len()
            invariant
                skip <= k <= steps@.len(),
                parts == label_views(steps@),
                rest == parts.skip(skip as int),
                tail@ == seq!['\u{2026}', '/'] + slashed(rest.take(k - skip)),
            decreases steps@.len() - k,
        {
            let ghost before = slashed(rest.take(k - skip));
            proof {
                assert(rest.take(k + 1 - skip).drop_last() =~= rest.take(k - skip));
                assert(rest.take(k + 1 - skip).last() == steps@[k as int]@);
            }
            if k > skip {
                tail.push('/');
            }
            tail.append(steps[k].as_str());
            proof {
                if k > skip {
                    assert(tail@ =~= seq!['\u{2026}', '/'] + (before.push('/')
                        + steps@[k as int]@));
                } else {
                    assert(rest.take(1)[0] == steps@[k as int]@);
                    assert(tail@ =~= seq!['\u{2026}', '/'] + steps@[k as int]@);
                }
            }
            k += 1;
        }
        let ghost found = label_views(labels@);
        labels.push(tail);
        proof {
            assert(rest.take(k - skip) =~= rest);
            assert(label_views(labels@) =~= found.push(tail_label(label@, skip as int)));
            assert(label_views(labels@) =~= Seq::new(
                skip as nat,
                |i: int| tail_label(label@, i + 1),
            ));
        }
        skip += 1;
    }
    labels
}

/// The last step of a path; `None` where it has none.
pub fn path_leaf(label: &str) -> (leaf: Option<String>)
    ensures
        leaf is Some <==> path_steps(label@).len() > 0,
        leaf is Some ==> leaf->0@ == path_steps(label@).last(),
{
    let mut steps = read_steps(label);
    let ghost parts = path_steps(label@);
    assert(parts.len() == steps@.len());
    assert(parts.len() > 0 ==> parts.last() == steps@.last()@);
    steps.pop()
}

/// The steps of a path that is written of names with slashes between them are the names.
pub proof fn lemma_steps_read_back(parts: Seq<Seq<char>>)
    requires
        forall|i: int|
            0 <= i < parts.len() ==> (#[trigger] parts[i]).len() > 0 && !parts[i].contains('/'),
    ensures
        path_steps(slashed(parts)) == parts,
    decreases parts.len(),
{
    let keep = |segment: Seq<char>| segment.len() > 0;
    reveal(Seq::filter);
    if parts.len() == 0 {
        let none = seq![Seq::<char>::empty()];
        assert(path::segments(slashed(parts)) =~= none);
        assert(none.drop_last() =~= Seq::empty());
        assert(none.drop_last().filter(keep) =~= Seq::empty());
        assert(none.last().len() == 0);
        assert(path_steps(slashed(parts)) == none.filter(keep));
        assert(path_steps(slashed(parts)) =~= parts);
    } else {
        let front = parts.drop_last();
        let last = parts.last();
        assert(parts[parts.len() - 1] == last);
        assert forall|i: int| 0 <= i < front.len() implies (#[trigger] front[i]).len() > 0
            && !front[i].contains('/') by {
            assert(front[i] == parts[i]);
        }
        lemma_steps_read_back(front);
        path::lemma_segments_plain(last);
        if parts.len() == 1 {
            assert(path::segments(last) =~= seq![last]);
            assert(seq![last].drop_last() =~= Seq::<Seq<char>>::empty());
            assert(path_steps(slashed(parts)) =~= parts);
        } else {
            let head = slashed(front);
            path::lemma_segments_join(head, last);
            let before = path::segments(head);
            assert(path::segments(slashed(parts)) =~= before.push(last));
            assert(before.push(last).drop_last() =~= before);
            assert(path_steps(slashed(parts)) =~= front.push(last));
            assert(front.push(last) =~= parts);
        }
    }
}

/// A shortened label begins with an ellipsis and ends with the last step of the path.
pub proof fn lemma_tail_label(path: Seq<char>, skip: int)
    requires
        0 <= skip < path_steps(path).len(),
    ensures
        ({
            let label = tail_label(path, skip);
            let last = path_steps(path).last();
            &&& label[0] == '\u{2026}'
            &&& label[1] == '/'
            &&& label.len() >= last.len() + 2
            &&& label.skip(label.len() - last.len()) == last
        }),
{
    let steps = path_steps(path).skip(skip);
    let last = path_steps(path).last();
    assert(steps.last() == last);
    let label = tail_label(path, skip);
    let body = slashed(steps);
    if steps.len() == 1 {
        assert(body == steps[0]);
    }
    assert(body.skip(body.len() - last.len()) =~= last);
    assert(label.skip(label.len() - last.len()) =~= last);
}

/// A shortened label keeps the beginning, and an ellipsis stands for the rest.
pub proof fn lemma_ellipsized(label: &str, k: usize, short: String, i: int)
    requires
        k <= label@.len(),
        call_ensures(ellipsized, (label, k), short),
        0 <= i < k,
    ensures
        short@.len() == k + 1,
        short@[i] == label@[i],
        short@[k as int] == '\u{2026}',
{
}

/// The labels for a path of names lose its first name, then its first two, and so on down
/// to its last name alone, which is also its leaf.
pub proof fn lemma_tails(
    label: &str,
    names: Seq<Seq<char>>,
    labels: Vec<String>,
    leaf: Option<String>,
    i: int,
)
    requires
        names.len() > 0,
        forall|i: int|
            0 <= i < names.len() ==> (#[trigger] names[i]).len() > 0 && !names[i].contains('/'),
        label@ == slashed(names),
        call_ensures(path_tails, (label,), labels),
        call_ensures(path_leaf, (label,), leaf),
        0 <= i < names.len() - 1,
    ensures
        labels@.len() == names.len() - 1,
        labels@[i]@ == seq!['\u{2026}', '/'] + slashed(names.skip(i + 1)),
        labels@.last()@ == seq!['\u{2026}', '/'] + names.last(),
        leaf is Some && leaf->0@ == names.last(),
{
    lemma_steps_read_back(names);
    let views = label_views(labels@);
    assert(views.len() == names.len() - 1);
    assert(views[i] == tail_label(label@, i + 1));
    assert(views[names.len() - 2] == tail_label(label@, names.len() - 1));
    let alone = names.skip(names.len() - 1);
    assert(alone.len() == 1 && alone[0] == names.last());
}

/// Where so many characters fit and no more, so many are kept.
pub proof fn lemma_longest<F: Fn(usize) -> bool>(n: usize, fits: &F, k: usize, most: usize)
    requires
        call_ensures(longest_fitting::<F>, (n, fits), k),
        most <= n,
        forall|i: usize, yes: bool|
            1 <= i <= n && #[trigger] fits.ensures((i,), yes) ==> (yes <==> i <= most),
    ensures
        k == most,
{
}

} // verus!
