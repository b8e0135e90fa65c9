//! The ordinal contract: a bijection between a type and `0..size`.

use vstd::prelude::*;

verus! {

/// A type whose values are numbered densely by `0..ordinal_size()`.
///
/// `spec_size` is the number of values. `spec_ordinal` gives each value its
/// number, distinct values get distinct numbers, and `from_ordinal` inverts it.
/// `spec_size_ok` holds when every size met while building the type's size
/// (a product, a sum) is representable as a `usize`.
pub trait Ordinal: Sized {
    /// Number of values of the type.
    spec fn spec_size() -> nat;

    /// Every intermediate size fits in `usize`.
    spec fn spec_size_ok() -> bool;

    /// The number given to `self`.
    spec fn spec_ordinal(&self) -> nat;

    /// A well-formed type has a representable size.
    proof fn lemma_size_ok()
        requires
            Self::spec_size_ok(),
        ensures
            Self::spec_size() <= usize::MAX,
    ;

    /// Each value's number lies in `0..size`.
    proof fn lemma_ordinal_bound(v: &Self)
        requires
            Self::spec_size_ok(),
        ensures
            v.spec_ordinal() < Self::spec_size(),
    ;

    /// Every number below the size is given to some value.
    proof fn lemma_ordinal_surjective(i: nat)
        requires
            Self::spec_size_ok(),
            i < Self::spec_size(),
        ensures
            exists|v: Self| v.spec_ordinal() == i,
    ;

    /// Distinct values have distinct numbers.
    proof fn lemma_ordinal_injective(a: &Self, b: &Self)
        requires
            Self::spec_size_ok(),
        ensures
            a.spec_ordinal() == b.spec_ordinal() ==> a == b,
    ;

    /// Number of values of the type.
    fn ordinal_size() -> (r: usize)
        requires
            Self::spec_size_ok(),
        ensures
            r == Self::spec_size(),
    ;

    /// The number given to `self`.
    fn ordinal(&self) -> (r: usize)
        requires
            Self::spec_size_ok(),
        ensures
            r == self.spec_ordinal(),
    ;

    /// The value numbered `ordinal`, or `None` when `ordinal >= size`.
    fn from_ordinal(ordinal: usize) -> (r: Option<Self>)
        requires
            Self::spec_size_ok(),
        ensures
            r.is_some() <==> ordinal < Self::spec_size(),
            r matches Some(v) ==> v.spec_ordinal() == ordinal,
    ;
}

/// Some value numbered `i`; meaningful only for `i` below the size.
pub open spec fn numbered<T: Ordinal>(i: nat) -> T {
    choose|v: T| v.spec_ordinal() == i
}

/// The value numbered `i`, if there is one.
pub open spec fn decode<T: Ordinal>(i: nat) -> Option<T> {
    if i < T::spec_size() {
        Some(numbered::<T>(i))
    } else {
        None
    }
}

/// `decode` picks the one value numbered `i`.
pub proof fn lemma_decode_unique<T: Ordinal>(i: nat, v: T)
    requires
        T::spec_size_ok(),
        v.spec_ordinal() == i,
    ensures
        decode::<T>(i) == Some(v),
{
    T::lemma_ordinal_bound(&v);
    assert(exists|w: T| w.spec_ordinal() == i);
    let w = numbered::<T>(i);
    T::lemma_ordinal_injective(&w, &v);
}

/// Decoding the number of a value gives the value back.
pub proof fn lemma_decode_encode<T: Ordinal>(v: T)
    requires
        T::spec_size_ok(),
    ensures
        decode::<T>(v.spec_ordinal()) == Some(v),
{
    lemma_decode_unique(v.spec_ordinal(), v);
}

/// Every number below the size decodes to a value whose number it is.
pub proof fn lemma_encode_decode<T: Ordinal>(i: nat)
    requires
        T::spec_size_ok(),
        i < T::spec_size(),
    ensures
        decode::<T>(i) is Some,
        decode::<T>(i).unwrap().spec_ordinal() == i,
{
    T::lemma_ordinal_surjective(i);
    let w = numbered::<T>(i);
}

/// Numbers at or past the size decode to nothing.
pub proof fn lemma_decode_out_of_range<T: Ordinal>(i: nat)
    requires
        i >= T::spec_size(),
    ensures
        decode::<T>(i) is None,
{
}

/// What `from_ordinal` returns is `decode` of its argument.
pub proof fn lemma_from_ordinal_is_decode<T: Ordinal>(i: nat, r: Option<T>)
    requires
        T::spec_size_ok(),
        r.is_some() <==> i < T::spec_size(),
        r matches Some(v) ==> v.spec_ordinal() == i,
    ensures
        r == decode::<T>(i),
{
    if let Some(v) = r {
        lemma_decode_unique(i, v);
    }
}

} // verus!
