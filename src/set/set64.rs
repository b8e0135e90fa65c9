//! Sets of at most 64 possible elements, held in one word.

use crate::bits::{lemma_zero_word, word_contains, word_has, word_insert, word_low_bits};
use crate::ordinal::Ordinal;
use std::marker::PhantomData;
use vstd::prelude::*;

verus! {

/// Set of ordinal values whose type has at most 64 values: bit `i` of one
/// word tells whether the value numbered `i` is in the set.
pub struct OrdinalSet64<T> {
    set: u64,
    _phantom: PhantomData<T>,
}

impl<T: Ordinal> View for OrdinalSet64<T> {
    /// The values in the set.
    type V = Set<T>;

    closed spec fn view(&self) -> Set<T> {
        Set::new(|t: T| word_has(self.set, t.spec_ordinal()))
    }
}

impl<T: Ordinal> OrdinalSet64<T> {
    /// The type has at most 64 values.
    pub closed spec fn wf(&self) -> bool {
        &&& T::spec_size_ok()
        &&& T::spec_size() <= 64
        &&& forall|c: nat| word_has(self.set, c) ==> c < T::spec_size()
    }

    /// The empty set.
    pub fn new() -> (r: Self)
        requires
            T::spec_size_ok(),
            T::spec_size() <= 64,
        ensures
            r.wf(),
            r@ == Set::<T>::empty(),
    {
        let r = OrdinalSet64 { set: 0, _phantom: PhantomData };
        proof {
            assert forall|t: T| !r@.contains(t) by {
                lemma_zero_word(t.spec_ordinal());
            }
            assert forall|c: nat| !word_has(r.set, c) by {
                lemma_zero_word(c);
            }
            assert(r@ =~= Set::<T>::empty());
        }
        r
    }

    /// The set of all values of `T`.
    pub fn all() -> (r: Self)
        requires
            T::spec_size_ok(),
            T::spec_size() <= 64,
        ensures
            r.wf(),
            r@ == Set::<T>::full(),
    {
        let n = T::ordinal_size();
        let r = OrdinalSet64 { set: word_low_bits(n as u32), _phantom: PhantomData };
        proof {
            assert forall|t: T| r@.contains(t) by {
                T::lemma_ordinal_bound(&t);
            }
            assert(r@ =~= Set::<T>::full());
        }
        r
    }

    /// The set of the values in `values`.
    pub fn from_values(values: Vec<T>) -> (r: Self)
        requires
            T::spec_size_ok(),
            T::spec_size() <= 64,
        ensures
            r.wf(),
            forall|t: T| r@.contains(t) <==> values@.contains(t),
    {
        let ghost all = values@;
        let mut rest = values;
        let mut set = OrdinalSet64::new();
        while rest.len() > 0
            invariant
                set.wf(),
                rest@ == all.subrange(0, rest@.len() as int),
                rest@.len() <= all.len(),
                forall|t: T| set@.contains(t) <==> exists|j: int| rest@.len() <= j < all.len() && #[trigger] all[j] == t,
            decreases rest@.len(),
        {
            let ghost k = rest@.len() - 1;
            let v = rest.pop().unwrap();
            assert(v == all[k]);
            set.insert(v);
            proof {
                assert forall|t: T| set@.contains(t) <==> exists|j: int| k <= j < all.len() && #[trigger] all[j] == t by {
                    if t == v {
                        assert(all[k] == t);
                    }
                }
            }
        }
        proof {
            assert forall|t: T| set@.contains(t) <==> all.contains(t) by {
                if all.contains(t) {
                    let j = choose|j: int| 0 <= j < all.len() && all[j] == t;
                    assert(all[j] == t);
                }
            }
        }
        set
    }

    /// Whether `value` is in the set.
    pub fn contains(&self, value: &T) -> (r: bool)
        requires
            self.wf(),
        ensures
            r == self@.contains(*value),
    {
        proof {
            T::lemma_ordinal_bound(value);
        }
        word_contains(self.set, value.ordinal() as u32)
    }

    /// Adds `value`; returns whether it was not in the set before.
    pub fn insert(&mut self, value: T) -> (r: bool)
        requires
            old(self).wf(),
        ensures
            final(self).wf(),
            final(self)@ == old(self)@.insert(value),
            r == !old(self)@.contains(value),
    {
        proof {
            T::lemma_ordinal_bound(&value);
        }
        let r = !self.contains(&value);
        let ghost old_self = *self;
        self.set = word_insert(self.set, value.ordinal() as u32);
        proof {
            assert forall|t: T| #[trigger] self@.contains(t) == old_self@.insert(value).contains(t) by {
                T::lemma_ordinal_injective(&t, &value);
            }
            assert(self@ =~= old_self@.insert(value));
        }
        r
    }

    /// The values in the set, lowest number first, taken by bit scans.
    pub fn iter(&self) -> (r: Iter64<T>)
        requires
            self.wf(),
        ensures
            r.wf(),
            forall|t: T| self@.contains(t) <==> #[trigger] r.spec_remaining().contains(t.spec_ordinal()),
            forall|c: nat| r.spec_remaining().contains(c) ==> c < T::spec_size(),
    {
        proof {
            assert forall|t: T| self@.contains(t) <==> #[trigger] bits_of(self.set).contains(t.spec_ordinal()) by {}
        }
        Iter64 { set: self.set, _phantom: PhantomData }
    }
}

impl<T: Ordinal> Default for OrdinalSet64<T> {
    /// The empty set.
    fn default() -> (r: Self)
        ensures
            T::spec_size_ok() && T::spec_size() <= 64 ==> r.wf(),
            r@ == Set::<T>::empty(),
    {
        let r = OrdinalSet64 { set: 0, _phantom: PhantomData };
        proof {
            assert forall|t: T| !r@.contains(t) by {
                lemma_zero_word(t.spec_ordinal());
            }
            assert forall|c: nat| !word_has(r.set, c) by {
                lemma_zero_word(c);
            }
            assert(r@ =~= Set::<T>::empty());
        }
        r
    }
}

impl<T: Ordinal> Clone for OrdinalSet64<T> {
    /// A set with the same values.
    fn clone(&self) -> (r: Self)
        ensures
            r@ == self@,
            self.wf() ==> r.wf(),
    {
        OrdinalSet64 { set: self.set, _phantom: PhantomData }
    }
}

impl<T: Ordinal> Clone for Iter64<T> {
    /// An iterator over the same remaining values.
    fn clone(&self) -> (r: Self)
        ensures
            r.spec_remaining() == self.spec_remaining(),
            self.wf() ==> r.wf(),
    {
        Iter64 { set: self.set, _phantom: PhantomData }
    }
}

/// The numbers of the set bits of `w`.
pub open spec fn bits_of(w: u64) -> Set<nat> {
    Set::new(|c: nat| word_has(w, c))
}

/// Number of set bits of `w` among bits `0..n`.
pub open spec fn count_bits(w: u64, n: nat) -> nat
    decreases n,
{
    if n == 0 {
        0
    } else {
        count_bits(w, (n - 1) as nat) + if word_has(w, (n - 1) as nat) {
            1nat
        } else {
            0nat
        }
    }
}

/// The values of an `OrdinalSet64` still to yield, held as a word whose
/// lowest and highest set bits are found by bit scans.
pub struct Iter64<T> {
    set: u64,
    _phantom: PhantomData<T>,
}

impl<T: Ordinal> Iter64<T> {
    /// Numbers of the values still to yield.
    pub closed spec fn spec_remaining(&self) -> Set<nat> {
        bits_of(self.set)
    }

    /// Number of values still to yield.
    pub closed spec fn spec_len(&self) -> nat {
        count_bits(self.set, 64)
    }

    /// Only numbers of values of `T` remain.
    pub closed spec fn wf(&self) -> bool {
        &&& T::spec_size_ok()
        &&& forall|c: nat| word_has(self.set, c) ==> c < T::spec_size()
    }

    /// Number of values still to yield.
    pub fn len(&self) -> (r: usize)
        ensures
            r == self.spec_len(),
    {
        let mut count: usize = 0;
        let mut b: u32 = 0;
        while b < 64
            invariant
                b <= 64,
                count == count_bits(self.set, b as nat),
                count <= b,
            decreases 64 - b,
        {
            if word_contains(self.set, b) {
                count = count + 1;
            }
            b = b + 1;
        }
        count
    }

    /// The value with the lowest number still to yield.
    pub fn next(&mut self) -> (r: Option<T>)
        requires
            old(self).wf(),
        ensures
            final(self).wf(),
            r is None <==> old(self).spec_remaining() == Set::<nat>::empty(),
            r is Some ==> {
                let c = r->0.spec_ordinal();
                &&& old(self).spec_remaining().contains(c)
                &&& forall|d: nat| old(self).spec_remaining().contains(d) ==> c <= d
                &&& final(self).spec_remaining() == old(self).spec_remaining().remove(c)
            },
            r is None ==> final(self).spec_remaining() == old(self).spec_remaining(),
    {
        if self.set == 0 {
            proof {
                assert forall|c: nat| !word_has(0, c) by {
                    lemma_zero_word(c);
                }
                assert(bits_of(0) =~= Set::<nat>::empty());
            }
            return None;
        }
        let ghost old_set = self.set;
        proof {
            vstd::std_specs::bits::axiom_u64_trailing_zeros(self.set);
        }
        let b = self.set.trailing_zeros();
        let w = self.set;
        self.set = w & !(1u64 << b);
        proof {
            let bb = b as u64;
            assert forall|d: nat| #[trigger] word_has(old_set, d) implies b <= d by {
                if d < b {
                    let dd = d as u64;
                    assert((old_set >> dd) & 1u64 == 0u64);
                }
            }
            assert forall|d: nat| #[trigger] word_has(self.set, d) == (word_has(old_set, d) && d != b) by {
                if d < 64 {
                    let dd = d as u64;
                    assert(((w & !(1u64 << bb)) >> dd) & 1 == if dd == bb { 0u64 } else { (w >> dd) & 1 }) by (bit_vector)
                        requires bb < 64, dd < 64;
                }
            }
            assert(bits_of(self.set) =~= bits_of(old_set).remove(b as nat));
            assert(word_has(old_set, b as nat));
            assert(bits_of(old_set).contains(b as nat));
        }
        let r = T::from_ordinal(b as usize);
        r
    }

    /// The value with the highest number still to yield.
    pub fn next_back(&mut self) -> (r: Option<T>)
        requires
            old(self).wf(),
        ensures
            final(self).wf(),
            r is None <==> old(self).spec_remaining() == Set::<nat>::empty(),
            r is Some ==> {
                let c = r->0.spec_ordinal();
                &&& old(self).spec_remaining().contains(c)
                &&& forall|d: nat| old(self).spec_remaining().contains(d) ==> d <= c
                &&& final(self).spec_remaining() == old(self).spec_remaining().remove(c)
            },
            r is None ==> final(self).spec_remaining() == old(self).spec_remaining(),
    {
        if self.set == 0 {
            proof {
                assert forall|c: nat| !word_has(0, c) by {
                    lemma_zero_word(c);
                }
                assert(bits_of(0) =~= Set::<nat>::empty());
            }
            return None;
        }
        let ghost old_set = self.set;
        proof {
            vstd::std_specs::bits::axiom_u64_leading_zeros(self.set);
        }
        let z = self.set.leading_zeros();
        let b = 63 - z;
        let w = self.set;
        self.set = w & !(1u64 << b);
        proof {
            let bb = b as u64;
            let x = (old_set >> bb) & 1u64;
            assert(x != 0u64 ==> x == 1u64) by (bit_vector)
                requires x == (old_set >> bb) & 1u64;
            assert(word_has(old_set, b as nat));
            assert forall|d: nat| #[trigger] word_has(old_set, d) implies d <= b by {
                if d > b && d < 64 {
                    let dd = d as u64;
                    assert((old_set >> dd) & 1u64 == 0u64);
                }
            }
            assert forall|d: nat| #[trigger] word_has(self.set, d) == (word_has(old_set, d) && d != b) by {
                if d < 64 {
                    let dd = d as u64;
                    assert(((w & !(1u64 << bb)) >> dd) & 1 == if dd == bb { 0u64 } else { (w >> dd) & 1 }) by (bit_vector)
                        requires bb < 64, dd < 64;
                }
            }
            assert(bits_of(self.set) =~= bits_of(old_set).remove(b as nat));
            assert(bits_of(old_set).contains(b as nat));
        }
        T::from_ordinal(b as usize)
    }
}

} // verus!
