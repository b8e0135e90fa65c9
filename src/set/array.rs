//! Sets held in a fixed number of words, given as a parameter of the type.

use crate::bits::{
    lemma_word_bit, lemma_zero_word, word_insert, words_contains, words_for, words_has,
    WORD_BITS,
};
use crate::ordinal::Ordinal;
use crate::set::iter::Iter;
use std::marker::PhantomData;
use vstd::prelude::*;

verus! {

/// Number of words that an `OrdinalArraySet` of `T` holds: `T`'s size
/// divided by 64, rounded up.
pub fn ordinal_array_set_s<T: Ordinal>() -> (r: usize)
    requires
        T::spec_size_ok(),
    ensures
        r == words_for(T::spec_size()),
{
    proof {
        T::lemma_size_ok();
    }
    let n = T::ordinal_size();
    n / WORD_BITS + if n % WORD_BITS == 0 { 0 } else { 1 }
}

/// Set of ordinal values held in `S` words, one bit per possible value;
/// `S` must be `ordinal_array_set_s::<T>()`.
pub struct OrdinalArraySet<T, const S: usize> {
    words: [u64; S],
    _phantom: PhantomData<T>,
}

impl<T: Ordinal, const S: usize> View for OrdinalArraySet<T, S> {
    /// The values in the set.
    type V = Set<T>;

    closed spec fn view(&self) -> Set<T> {
        Set::new(|t: T| words_has(self.words@, t.spec_ordinal()))
    }
}

impl<T: Ordinal, const S: usize> OrdinalArraySet<T, S> {
    /// The word count is the one `T` needs.
    pub closed spec fn wf(&self) -> bool {
        &&& T::spec_size_ok()
        &&& S == words_for(T::spec_size())
        &&& self.words@.len() == S
    }

    /// The empty set.
    pub fn new() -> (r: Self)
        requires
            T::spec_size_ok(),
            S == words_for(T::spec_size()),
        ensures
            r.wf(),
            r@ == Set::<T>::empty(),
    {
        let r = OrdinalArraySet { words: [0u64; S], _phantom: PhantomData };
        proof {
            assert forall|t: T| !words_has(r.words@, t.spec_ordinal()) by {
                lemma_zero_word(t.spec_ordinal() % 64);
            }
            assert(r@ =~= Set::<T>::empty());
        }
        r
    }

    /// The set of the values in `values`.
    pub fn from_values(values: Vec<T>) -> (r: Self)
        requires
            T::spec_size_ok(),
            S == words_for(T::spec_size()),
        ensures
            r.wf(),
            forall|t: T| r@.contains(t) <==> values@.contains(t),
    {
        let ghost all = values@;
        let mut rest = values;
        let mut set = OrdinalArraySet::new();
        while rest.len() > 0
            invariant
                set.wf(),
                rest@ == all.subrange(0, rest@.len() as int),
                rest@.len() <= all.len(),
                forall|t: T| set@.contains(t) <==> exists|j: int| rest@.len() <= j < all.len() && #[trigger] all[j] == t,
            decreases rest@.len(),
        {
            let ghost k = rest@.len() - 1;
            let v = rest.pop().unwrap();
            assert(v == all[k]);
            set.insert(v);
            proof {
                assert forall|t: T| set@.contains(t) <==> exists|j: int| k <= j < all.len() && #[trigger] all[j] == t by {
                    if t == v {
                        assert(all[k] == t);
                    }
                }
            }
        }
        proof {
            assert forall|t: T| set@.contains(t) <==> all.contains(t) by {
                if all.contains(t) {
                    let j = choose|j: int| 0 <= j < all.len() && all[j] == t;
                    assert(all[j] == t);
                }
            }
        }
        set
    }

    /// Whether `value` is in the set.
    pub fn contains(&self, value: &T) -> (r: bool)
        requires
            self.wf(),
        ensures
            r == self@.contains(*value),
    {
        words_contains(self.words.as_slice(), value.ordinal())
    }

    /// Adds `value`; returns whether it was not in the set before.
    pub fn insert(&mut self, value: T) -> (r: bool)
        requires
            old(self).wf(),
        ensures
            final(self).wf(),
            final(self)@ == old(self)@.insert(value),
            r == !old(self)@.contains(value),
    {
        let r = !self.contains(&value);
        let ghost mid = *self;
        proof {
            T::lemma_ordinal_bound(&value);
            lemma_word_bit(value.spec_ordinal(), 0, T::spec_size());
        }
        let i = value.ordinal();
        let w = i / WORD_BITS;
        let word = word_insert(self.words[w], (i % WORD_BITS) as u32);
        self.words[w] = word;
        proof {
            assert forall|t: T| #[trigger] self@.contains(t) == mid@.insert(value).contains(t) by {
                let j = t.spec_ordinal();
                lemma_word_bit(j, i as nat, T::spec_size());
                T::lemma_ordinal_injective(&t, &value);
                if j / 64 != w && j / 64 < S {
                    assert(self.words@[(j / 64) as int] == mid.words@[(j / 64) as int]);
                }
            }
            assert(self@ =~= mid@.insert(value));
        }
        r
    }

    /// The values in the set, in order of their numbers.
    pub fn iter(&self) -> (r: Iter<'_, T>)
        requires
            self.wf(),
        ensures
            r.wf(),
            forall|t: T| self@.contains(t) <==> #[trigger] r.spec_remaining().contains(t.spec_ordinal()),
            forall|c: nat| r.spec_remaining().contains(c) ==> c < T::spec_size(),
    {
        let r = Iter::new(self.words.as_slice());
        proof {
            assert forall|t: T| self@.contains(t) <==> #[trigger] r.spec_remaining().contains(t.spec_ordinal()) by {
                T::lemma_ordinal_bound(&t);
            }
        }
        r
    }
}

impl<T: Ordinal, const S: usize> Default for OrdinalArraySet<T, S> {
    /// The empty set.
    fn default() -> (r: Self)
        ensures
            T::spec_size_ok() && S == words_for(T::spec_size()) ==> r.wf(),
            r@ == Set::<T>::empty(),
    {
        let r = OrdinalArraySet { words: [0u64; S], _phantom: PhantomData };
        proof {
            assert forall|t: T| !words_has(r.words@, t.spec_ordinal()) by {
                lemma_zero_word(t.spec_ordinal() % 64);
            }
            assert(r@ =~= Set::<T>::empty());
        }
        r
    }
}

impl<T: Ordinal, const S: usize> Clone for OrdinalArraySet<T, S> {
    /// A set with the same values.
    fn clone(&self) -> (r: Self)
        ensures
            r@ == self@,
            self.wf() ==> r.wf(),
    {
        OrdinalArraySet { words: self.words, _phantom: PhantomData }
    }
}

} // verus!
