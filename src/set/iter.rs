//! Iteration over the multi-word sets: the values of the type are walked in
//! order of their numbers and those in the set are kept.

use crate::bits::{words_contains, words_has};
use crate::ordinal::Ordinal;
use std::marker::PhantomData;
use vstd::prelude::*;

verus! {

/// The members of a multi-word set whose numbers lie in `start..end`.
pub struct Iter<'a, T> {
    start: usize,
    end: usize,
    words: &'a [u64],
    _phantom: PhantomData<T>,
}

impl<'a, T: Ordinal> Iter<'a, T> {
    /// Numbers of the members still to yield.
    pub closed spec fn spec_remaining(&self) -> Set<nat> {
        Set::new(|c: nat| self.start <= c < self.end && words_has(self.words@, c))
    }

    /// The walk stays within the type's values.
    pub closed spec fn wf(&self) -> bool {
        &&& T::spec_size_ok()
        &&& self.start <= self.end <= T::spec_size()
    }

    /// The members of the set held in `words`, numbers `0..size`.
    pub(crate) fn new(words: &'a [u64]) -> (r: Self)
        requires
            T::spec_size_ok(),
        ensures
            r.wf(),
            forall|c: nat| #[trigger] r.spec_remaining().contains(c) <==> c < T::spec_size() && words_has(words@, c),
    {
        Iter { start: 0, end: T::ordinal_size(), words, _phantom: PhantomData }
    }

    /// The member with the lowest number still to yield.
    pub fn next(&mut self) -> (r: Option<T>)
        requires
            old(self).wf(),
        ensures
            final(self).wf(),
            r is None <==> old(self).spec_remaining() == Set::<nat>::empty(),
            r is Some ==> {
                let c = r->0.spec_ordinal();
                &&& old(self).spec_remaining().contains(c)
                &&& forall|d: nat| old(self).spec_remaining().contains(d) ==> c <= d
                &&& final(self).spec_remaining() == old(self).spec_remaining().remove(c)
            },
            r is None ==> final(self).spec_remaining() == old(self).spec_remaining(),
    {
        let ghost old_self = *self;
        while self.start < self.end
            invariant
                old_self == *old(self),
                self.wf(),
                self.end == old_self.end,
                self.words == old_self.words,
                old_self.start <= self.start,
                forall|d: nat| old_self.start <= d < self.start ==> !words_has(self.words@, d),
            decreases self.end - self.start,
        {
            let i = self.start;
            self.start = self.start + 1;
            if words_contains(self.words, i) {
                proof {
                    assert(self.spec_remaining() =~= old_self.spec_remaining().remove(i as nat));
                    assert(old_self.spec_remaining().contains(i as nat));
                    assert forall|d: nat| old_self.spec_remaining().contains(d) implies i <= d by {}
                }
                let r = T::from_ordinal(i);
                assert(r is Some && r->0.spec_ordinal() == i);
                return r;
            }
        }
        proof {
            assert(old_self.spec_remaining() =~= Set::<nat>::empty());
            assert(self.spec_remaining() =~= Set::<nat>::empty());
        }
        None
    }

    /// The member with the highest number still to yield.
    pub fn next_back(&mut self) -> (r: Option<T>)
        requires
            old(self).wf(),
        ensures
            final(self).wf(),
            r is None <==> old(self).spec_remaining() == Set::<nat>::empty(),
            r is Some ==> {
                let c = r->0.spec_ordinal();
                &&& old(self).spec_remaining().contains(c)
                &&& forall|d: nat| old(self).spec_remaining().contains(d) ==> d <= c
                &&& final(self).spec_remaining() == old(self).spec_remaining().remove(c)
            },
            r is None ==> final(self).spec_remaining() == old(self).spec_remaining(),
    {
        let ghost old_self = *self;
        while self.start < self.end
            invariant
                old_self == *old(self),
                self.wf(),
                self.start == old_self.start,
                self.words == old_self.words,
                self.end <= old_self.end,
                forall|d: nat| self.end <= d < old_self.end ==> !words_has(self.words@, d),
            decreases self.end - self.start,
        {
            self.end = self.end - 1;
            let i = self.end;
            if words_contains(self.words, i) {
                proof {
                    assert(self.spec_remaining() =~= old_self.spec_remaining().remove(i as nat));
                    assert(old_self.spec_remaining().contains(i as nat));
                    assert forall|d: nat| old_self.spec_remaining().contains(d) implies d <= i by {}
                }
                let r = T::from_ordinal(i);
                assert(r is Some && r->0.spec_ordinal() == i);
                return r;
            }
        }
        proof {
            assert(old_self.spec_remaining() =~= Set::<nat>::empty());
            assert(self.spec_remaining() =~= Set::<nat>::empty());
        }
        None
    }
}

} // verus!
