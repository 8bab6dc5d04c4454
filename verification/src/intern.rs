//! Path texts that are kept once.

use std::sync::Arc;

use vstd::hash_map::StringHashMap;
use vstd::prelude::*;

use crate::path::NodePath;
use crate::text::owned;

verus! {

/// Keeps one copy of each text it was given, so that equal paths share it.
pub struct PathInterner {
    pool: StringHashMap<Arc<String>>,
}

impl View for PathInterner {
    type V = Set<Seq<char>>;

    closed spec fn view(&self) -> Set<Seq<char>> {
        self.pool@.dom()
    }
}

impl PathInterner {
    #[verifier::type_invariant]
    spec fn inv(self) -> bool {
        forall|text: Seq<char>| #[trigger]
            self.pool@.dom().contains(text) ==> self.pool@[text]@ == text
    }

    pub fn new() -> (interner: Self)
        ensures
            interner@ == Set::<Seq<char>>::empty(),
    {
        let interner = PathInterner { pool: StringHashMap::new() };
        assert(interner@ =~= Set::<Seq<char>>::empty());
        interner
    }

    /// The copy of the path's text.
    pub fn intern(&mut self, path: &NodePath) -> (shared: Arc<String>)
        ensures
            shared@ == path.spelling(),
            final(self)@ == old(self)@.insert(path.spelling()),
    {
        self.intern_str(path.to_text().as_str())
    }

    /// The copy of a text.
    pub fn intern_str(&mut self, s: &str) -> (shared: Arc<String>)
        ensures
            shared@ == s@,
            final(self)@ == old(self)@.insert(s@),
    {
        proof {
            use_type_invariant(&*self);
        }
        if let Some(existing) = self.pool.get(s) {
            assert(self@ =~= self@.insert(s@));
            return existing.clone();
        }
        let shared = Arc::new(owned(s));
        let mut pool = StringHashMap::new();
        std::mem::swap(&mut pool, &mut self.pool);
        pool.insert(owned(s), shared.clone());
        self.pool = pool;
        assert(self@ =~= old(self)@.insert(s@));
        shared
    }

    /// Forgets all texts. Call it before another scan, so that paths of the
    /// previous tree do not linger.
    pub fn clear(&mut self)
        ensures
            final(self)@ == Set::<Seq<char>>::empty(),
    {
        self.pool = StringHashMap::new();
        assert(self@ =~= Set::<Seq<char>>::empty());
    }
}

/// A text that was taken up is given out as it was; none is lost by taking up another, and
/// all are by clearing.
pub proof fn lemma_taken_up(
    at_intern: &mut PathInterner,
    at_clear: &mut PathInterner,
    s: &str,
    shared: Arc<String>,
    other: Seq<char>,
)
    requires
        call_ensures(PathInterner::intern_str, (at_intern, s), shared),
        call_ensures(PathInterner::clear, (at_clear,), ()),
    ensures
        shared@ == s@,
        final(at_intern)@.contains(s@),
        other != s@ ==> (final(at_intern)@.contains(other) <==> old(at_intern)@.contains(other)),
        !final(at_clear)@.contains(other),
{
}

} // verus!
