//! Enumeration of all values of an ordinal type, in order of their numbers.

use crate::ordinal::{decode, lemma_from_ordinal_is_decode, Ordinal};
use std::marker::PhantomData;
use vstd::prelude::*;

verus! {

/// The values numbered `start..end`, yielded from either end.
///
/// Made by `Ordinal::all_values`, which starts at `0..size`.
pub struct OrdinalValues<T> {
    start: usize,
    end: usize,
    _phantom: PhantomData<T>,
}

impl<T: Ordinal> OrdinalValues<T> {
    /// Numbers still to yield run from `start` to `end`, within the type's size.
    pub closed spec fn wf(&self) -> bool {
        &&& self.start <= self.end
        &&& self.end <= T::spec_size()
        &&& T::spec_size_ok()
    }

    /// First number still to yield.
    pub closed spec fn spec_start(&self) -> nat {
        self.start as nat
    }

    /// One past the last number still to yield.
    pub closed spec fn spec_end(&self) -> nat {
        self.end as nat
    }

    /// All the values of `T`, numbered `0..size`.
    pub fn new() -> (r: Self)
        requires
            T::spec_size_ok(),
        ensures
            r.wf(),
            r.spec_start() == 0,
            r.spec_end() == T::spec_size(),
    {
        OrdinalValues { start: 0, end: T::ordinal_size(), _phantom: PhantomData }
    }

    /// Number of values still to yield.
    pub fn len(&self) -> (r: usize)
        requires
            self.wf(),
        ensures
            r == self.spec_end() - self.spec_start(),
    {
        self.end - self.start
    }

    /// The value with the lowest number still to yield, taken off the front.
    pub fn next(&mut self) -> (r: Option<T>)
        requires
            old(self).wf(),
        ensures
            final(self).wf(),
            final(self).spec_end() == old(self).spec_end(),
            old(self).spec_start() < old(self).spec_end() ==> {
                &&& r == decode::<T>(old(self).spec_start())
                &&& r is Some
                &&& final(self).spec_start() == old(self).spec_start() + 1
            },
            old(self).spec_start() == old(self).spec_end() ==> {
                &&& r is None
                &&& final(self).spec_start() == old(self).spec_start()
            },
    {
        if self.start < self.end {
            let r = T::from_ordinal(self.start);
            proof {
                lemma_from_ordinal_is_decode::<T>(self.start as nat, r);
            }
            self.start = self.start + 1;
            r
        } else {
            None
        }
    }

    /// The value with the highest number still to yield, taken off the back.
    pub fn next_back(&mut self) -> (r: Option<T>)
        requires
            old(self).wf(),
        ensures
            final(self).wf(),
            final(self).spec_start() == old(self).spec_start(),
            old(self).spec_start() < old(self).spec_end() ==> {
                &&& r == decode::<T>((old(self).spec_end() - 1) as nat)
                &&& r is Some
                &&& final(self).spec_end() == old(self).spec_end() - 1
            },
            old(self).spec_start() == old(self).spec_end() ==> {
                &&& r is None
                &&& final(self).spec_end() == old(self).spec_end()
            },
    {
        if self.start < self.end {
            self.end = self.end - 1;
            let r = T::from_ordinal(self.end);
            proof {
                lemma_from_ordinal_is_decode::<T>(self.end as nat, r);
            }
            r
        } else {
            None
        }
    }
}

impl<T: Ordinal> Clone for OrdinalValues<T> {
    /// An enumeration at the same place.
    fn clone(&self) -> (r: Self)
        ensures
            r.spec_start() == self.spec_start(),
            r.spec_end() == self.spec_end(),
            self.wf() ==> r.wf(),
    {
        OrdinalValues { start: self.start, end: self.end, _phantom: PhantomData }
    }
}

/// All values of `T`, in order of their numbers.
pub fn all_values<T: Ordinal>() -> (r: OrdinalValues<T>)
    requires
        T::spec_size_ok(),
    ensures
        r.wf(),
        r.spec_start() == 0,
        r.spec_end() == T::spec_size(),
{
    OrdinalValues::new()
}

} // verus!
