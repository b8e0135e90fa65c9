//! Sets of any size: the words are allocated on the first insertion.

use crate::bits::{
    lemma_word_bit, lemma_zero_word, word_insert, words_contains,
    words_for, words_has, WORD_BITS,
};
use crate::ordinal::Ordinal;
use crate::set::iter::Iter;
use std::marker::PhantomData;
use vstd::prelude::*;

verus! {

/// Set of ordinal values, one bit per possible value, packed in words that
/// are allocated on the first insertion; an empty set holds no words.
pub struct OrdinalSet<T> {
    words: Vec<u64>,
    _phantom: PhantomData<T>,
}

impl<T: Ordinal> View for OrdinalSet<T> {
    /// The values in the set.
    type V = Set<T>;

    closed spec fn view(&self) -> Set<T> {
        Set::new(|t: T| words_has(self.words@, t.spec_ordinal()))
    }
}

impl<T: Ordinal> OrdinalSet<T> {
    /// No words yet, or exactly enough for every value of `T`.
    pub closed spec fn wf(&self) -> bool {
        &&& T::spec_size_ok()
        &&& (self.words@.len() == 0 || self.words@.len() == words_for(T::spec_size()))
    }

    /// Whether the words are allocated.
    pub closed spec fn spec_allocated(&self) -> bool {
        self.words@.len() != 0
    }

    /// The empty set; nothing is allocated.
    pub fn new() -> (r: Self)
        requires
            T::spec_size_ok(),
        ensures
            r.wf(),
            r@ == Set::<T>::empty(),
            !r.spec_allocated(),
    {
        let r = OrdinalSet { words: Vec::new(), _phantom: PhantomData };
        assert(r@ =~= Set::<T>::empty());
        r
    }

    /// The set of the values in `values`.
    pub fn from_values(values: Vec<T>) -> (r: Self)
        requires
            T::spec_size_ok(),
        ensures
            r.wf(),
            forall|t: T| r@.contains(t) <==> values@.contains(t),
    {
        let ghost all = values@;
        let mut rest = values;
        let mut set = OrdinalSet::new();
        while rest.len() > 0
            invariant
                set.wf(),
                rest@ == all.subrange(0, rest@.len() as int),
                rest@.len() <= all.len(),
                forall|t: T| set@.contains(t) <==> exists|j: int| rest@.len() <= j < all.len() && #[trigger] all[j] == t,
            decreases rest@.len(),
        {
            let ghost k = rest@.len() - 1;
            let v = rest.pop().unwrap();
            assert(v == all[k]);
            set.insert(v);
            proof {
                assert forall|t: T| set@.contains(t) <==> exists|j: int| k <= j < all.len() && #[trigger] all[j] == t by {
                    if t == v {
                        assert(all[k] == t);
                    }
                }
            }
        }
        proof {
            assert forall|t: T| set@.contains(t) <==> all.contains(t) by {
                if all.contains(t) {
                    let j = choose|j: int| 0 <= j < all.len() && all[j] == t;
                    assert(all[j] == t);
                }
            }
        }
        set
    }

    /// Whether `value` is in the set.
    pub fn contains(&self, value: &T) -> (r: bool)
        requires
            self.wf(),
        ensures
            r == self@.contains(*value),
    {
        words_contains(self.words.as_slice(), value.ordinal())
    }

    /// Adds `value`, allocating the words if needed; returns whether it was
    /// not in the set before.
    pub fn insert(&mut self, value: T) -> (r: bool)
        requires
            old(self).wf(),
        ensures
            final(self).wf(),
            final(self).spec_allocated(),
            final(self)@ == old(self)@.insert(value),
            r == !old(self)@.contains(value),
    {
        let r = !self.contains(&value);
        let ghost old_self = *self;
        proof {
            T::lemma_size_ok();
            T::lemma_ordinal_bound(&value);
            lemma_word_bit(value.spec_ordinal(), 0, T::spec_size());
        }
        if self.words.len() == 0 {
            let n = T::ordinal_size();
            let count = n / WORD_BITS + if n % WORD_BITS == 0 { 0 } else { 1 };
            assert(count == words_for(n as nat));
            self.words = vec![0u64; count];
            proof {
                assert forall|t: T| !words_has(self.words@, t.spec_ordinal()) by {
                    lemma_zero_word(t.spec_ordinal() % 64);
                }
                assert(self@ =~= old_self@);
            }
        }
        let ghost mid = *self;
        let i = value.ordinal();
        let w = i / WORD_BITS;
        let word = word_insert(self.words[w], (i % WORD_BITS) as u32);
        self.words.set(w, word);
        proof {
            assert forall|t: T| #[trigger] self@.contains(t) == mid@.insert(value).contains(t) by {
                let j = t.spec_ordinal();
                lemma_word_bit(j, i as nat, T::spec_size());
                T::lemma_ordinal_injective(&t, &value);
                if j / 64 != w && j / 64 < self.words@.len() {
                    assert(self.words@[(j / 64) as int] == mid.words@[(j / 64) as int]);
                }
            }
            assert(self@ =~= mid@.insert(value));
        }
        r
    }

    /// The values in the set, in order of their numbers.
    pub fn iter(&self) -> (r: Iter<'_, T>)
        requires
            self.wf(),
        ensures
            r.wf(),
            forall|t: T| self@.contains(t) <==> #[trigger] r.spec_remaining().contains(t.spec_ordinal()),
            forall|c: nat| r.spec_remaining().contains(c) ==> c < T::spec_size(),
    {
        let r = Iter::new(self.words.as_slice());
        proof {
            assert forall|t: T| self@.contains(t) <==> #[trigger] r.spec_remaining().contains(t.spec_ordinal()) by {
                T::lemma_ordinal_bound(&t);
            }
        }
        r
    }
}

impl<T: Ordinal> Default for OrdinalSet<T> {
    /// The empty set; nothing is allocated.
    fn default() -> (r: Self)
        ensures
            T::spec_size_ok() ==> r.wf(),
            r@ == Set::<T>::empty(),
    {
        let r = OrdinalSet { words: Vec::new(), _phantom: PhantomData };
        assert(r@ =~= Set::<T>::empty());
        r
    }
}

impl<T: Ordinal> Clone for OrdinalSet<T> {
    /// A set with the same values, with words of its own.
    fn clone(&self) -> (r: Self)
        ensures
            r@ == self@,
            self.wf() ==> r.wf(),
    {
        let n = self.words.len();
        let mut words: Vec<u64> = Vec::with_capacity(n);
        let mut i: usize = 0;
        while i < n
            invariant
                n == self.words@.len(),
                i <= n,
                words@ == self.words@.subrange(0, i as int),
            decreases n - i,
        {
            words.push(self.words[i]);
            i = i + 1;
        }
        assert(words@ =~= self.words@);
        OrdinalSet { words, _phantom: PhantomData }
    }
}

} // verus!
