//! Facts about sequences that several modules use.

use vstd::prelude::*;

verus! {

/// A filtered sequence holds exactly the items that pass.
pub proof fn lemma_filter_contains<A>(s: Seq<A>, keep: spec_fn(A) -> bool, x: A)
    ensures
        s.filter(keep).contains(x) == (s.contains(x) && keep(x)),
    decreases s.len(),
{
    reveal(Seq::filter);
    if s.len() > 0 {
        let front = s.drop_last();
        lemma_filter_contains(front, keep, x);
        let kept = front.filter(keep);
        if s.contains(x) && keep(x) {
            let i = s.index_of(x);
            if i < front.len() {
                assert(front[i] == x);
                let j = kept.index_of(x);
                assert(s.filter(keep)[j] == x);
            } else {
                assert(s.filter(keep).last() == x);
            }
        }
        if s.filter(keep).contains(x) {
            let j = s.filter(keep).index_of(x);
            if j < kept.len() {
                assert(kept[j] == x);
                let i = front.index_of(x);
                assert(s[i] == x);
            } else {
                assert(s.last() == x);
            }
        }
    }
}

} // verus!
