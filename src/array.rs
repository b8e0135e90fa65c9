//! Numbering of arrays: an array of `N` elements is a product of `N`
//! fields of the element type, the last element least significant.

use crate::composite::{
    digits_valid, lemma_product_ordinal_bound, lemma_product_ordinal_injective,
    lemma_product_ordinal_onto, product_decode, product_encode, product_fits, product_ordinal,
    product_size,
};
use crate::ordinal::{numbered, Ordinal};
use vstd::prelude::*;

verus! {

/// The field sizes of an array of `n` elements of `T`: `T`'s size, `n` times.
pub open spec fn array_sizes<T: Ordinal>(n: nat) -> Seq<usize> {
    Seq::new(n, |j: int| T::spec_size() as usize)
}

/// The numbers of the elements of `elems`.
pub open spec fn element_ordinals<T: Ordinal>(elems: Seq<T>) -> Seq<usize> {
    elems.map_values(|t: T| t.spec_ordinal() as usize)
}

/// `base` with its first `k` elements replaced by those of `elems`.
pub open spec fn array_with<T, const N: usize>(base: [T; N], elems: Seq<T>, k: nat) -> [T; N]
    decreases k,
{
    if k == 0 {
        base
    } else {
        vstd::array::spec_array_update(array_with(base, elems, (k - 1) as nat), k - 1, elems[k - 1])
    }
}

proof fn lemma_array_with<T, const N: usize>(base: [T; N], elems: Seq<T>, k: nat)
    requires
        k <= N,
        elems.len() == N,
    ensures
        array_with(base, elems, k)@ == elems.subrange(0, k as int) + base@.subrange(k as int, N as int),
    decreases k,
{
    vstd::array::array_len_matches_n(&base);
    if k == 0 {
        assert(base@.subrange(0, N as int) =~= base@);
        assert(elems.subrange(0, 0) + base@ =~= base@);
    } else {
        let prev = array_with(base, elems, (k - 1) as nat);
        lemma_array_with(base, elems, (k - 1) as nat);
        vstd::array::axiom_spec_array_update(prev, k - 1, elems[k - 1]);
        assert(array_with(base, elems, k)@ =~= elems.subrange(0, k as int) + base@.subrange(k as int, N as int));
    }
}

/// Relies on `<[T; N]>::try_from(Vec<T>)`, which gives the vector's elements
/// as an array exactly when the vector holds `N` of them.
#[verifier::external_body]
pub(crate) fn array_from_vec<T, const N: usize>(v: Vec<T>) -> (r: Option<[T; N]>)
    ensures
        r is Some <==> v@.len() == N,
        r matches Some(a) ==> a@ == v@,
{
    <[T; N]>::try_from(v).ok()
}

/// The array holding the elements of `items`, in order; there must be `S` of them.
pub fn array_from_iter<T, const S: usize>(items: Vec<T>) -> (r: [T; S])
    requires
        items@.len() == S,
    ensures
        r@ == items@,
{
    array_from_vec::<T, S>(items).unwrap()
}

/// An array is numbered as the product of its elements.
impl<T: Ordinal, const N: usize> Ordinal for [T; N] {
    open spec fn spec_size() -> nat {
        product_size(array_sizes::<T>(N as nat))
    }

    open spec fn spec_size_ok() -> bool {
        T::spec_size_ok() && product_fits(array_sizes::<T>(N as nat))
    }

    open spec fn spec_ordinal(&self) -> nat {
        product_ordinal(element_ordinals(self@), array_sizes::<T>(N as nat))
    }

    proof fn lemma_size_ok() {
        assert(array_sizes::<T>(N as nat).subrange(0, N as int) =~= array_sizes::<T>(N as nat));
    }

    proof fn lemma_ordinal_bound(v: &Self) {
        lemma_elements_valid(v);
        lemma_product_ordinal_bound(element_ordinals(v@), array_sizes::<T>(N as nat));
    }

    proof fn lemma_ordinal_surjective(i: nat) {
        let sizes = array_sizes::<T>(N as nat);
        lemma_product_ordinal_onto(i, sizes);
        let d = choose|d: Seq<usize>| digits_valid(d, sizes) && product_ordinal(d, sizes) == i;
        assert forall|j: int| 0 <= j < N implies exists|t: T| t.spec_ordinal() == #[trigger] d[j] as nat by {
            T::lemma_ordinal_surjective(d[j] as nat);
        }
        let elems = Seq::new(N as nat, |j: int| numbered::<T>(d[j] as nat));
        let base = vstd::pervasive::arbitrary::<[T; N]>();
        let a = array_with(base, elems, N as nat);
        lemma_array_with(base, elems, N as nat);
        vstd::array::array_len_matches_n(&base);
        assert(a@ =~= elems);
        assert forall|j: int| 0 <= j < N implies #[trigger] element_ordinals(a@)[j] == d[j] by {
            T::lemma_ordinal_surjective(d[j] as nat);
        }
        assert(element_ordinals(a@) =~= d);
        assert(a.spec_ordinal() == i);
    }

    proof fn lemma_ordinal_injective(a: &Self, b: &Self) {
        if a.spec_ordinal() == b.spec_ordinal() {
            lemma_elements_valid(a);
            lemma_elements_valid(b);
            lemma_product_ordinal_injective(element_ordinals(a@), element_ordinals(b@), array_sizes::<T>(N as nat));
            assert forall|j: int| 0 <= j < N implies a@[j] == b@[j] by {
                assert(element_ordinals(a@)[j] == element_ordinals(b@)[j]);
                T::lemma_size_ok();
                T::lemma_ordinal_bound(&a@[j]);
                T::lemma_ordinal_bound(&b@[j]);
                assert(element_ordinals(a@)[j] == a@[j].spec_ordinal() as usize);
                assert(element_ordinals(b@)[j] == b@[j].spec_ordinal() as usize);
                assert(a@[j].spec_ordinal() == b@[j].spec_ordinal());
                T::lemma_ordinal_injective(&a@[j], &b@[j]);
            }
            vstd::array::axiom_array_ext_equal(*a, *b);
        }
    }

    fn ordinal_size() -> (r: usize) {
        let sizes = element_sizes::<T, N>();
        proof {
            assert(sizes@.subrange(0, N as int) =~= sizes@);
        }
        let mut r: usize = 1;
        let mut i: usize = 0;
        assert(sizes@.subrange(0, 0) =~= Seq::<usize>::empty());
        while i < N
            invariant
                i <= N,
                sizes@ == array_sizes::<T>(N as nat),
                product_fits(sizes@),
                r == product_size(sizes@.subrange(0, i as int)),
            decreases N - i,
        {
            assert(sizes@.subrange(0, i + 1).drop_last() =~= sizes@.subrange(0, i as int));
            assert(product_size(sizes@.subrange(0, i + 1)) <= usize::MAX);
            r = r * sizes[i];
            i = i + 1;
        }
        r
    }

    fn ordinal(&self) -> (r: usize) {
        proof {
            lemma_elements_valid(self);
        }
        let sizes = element_sizes::<T, N>();
        let mut digits: Vec<usize> = Vec::with_capacity(N);
        let mut i: usize = 0;
        while i < N
            invariant
                T::spec_size_ok(),
                i <= N,
                self@.len() == N,
                digits@ == element_ordinals(self@).subrange(0, i as int),
            decreases N - i,
        {
            digits.push(self[i].ordinal());
            i = i + 1;
        }
        assert(digits@ =~= element_ordinals(self@));
        product_encode(digits.as_slice(), sizes.as_slice())
    }

    fn from_ordinal(ordinal: usize) -> (r: Option<Self>) {
        let sizes = element_sizes::<T, N>();
        match product_decode(ordinal, sizes.as_slice()) {
            None => None,
            Some(digits) => {
                let mut elems: Vec<T> = Vec::with_capacity(N);
                let mut i: usize = 0;
                while i < N
                    invariant
                        T::spec_size_ok(),
                        i <= N,
                        sizes@ == array_sizes::<T>(N as nat),
                        digits_valid(digits@, sizes@),
                        elems@.len() == i,
                        forall|j: int| 0 <= j < i ==> (#[trigger] elems@[j]).spec_ordinal() == digits@[j],
                    decreases N - i,
                {
                    let e = T::from_ordinal(digits[i]).unwrap();
                    elems.push(e);
                    i = i + 1;
                }
                let r = array_from_vec::<T, N>(elems);
                proof {
                    if r is Some {
                        assert(element_ordinals(r->0@) =~= digits@);
                    }
                }
                r
            },
        }
    }
}

/// Each element's number lies below the element type's size.
proof fn lemma_elements_valid<T: Ordinal, const N: usize>(a: &[T; N])
    requires
        T::spec_size_ok(),
    ensures
        a@.len() == N,
        digits_valid(element_ordinals(a@), array_sizes::<T>(N as nat)),
{
    vstd::array::array_len_matches_n(a);
    T::lemma_size_ok();
    assert forall|j: int| 0 <= j < N implies element_ordinals(a@)[j] < array_sizes::<T>(N as nat)[j] by {
        T::lemma_ordinal_bound(&a@[j]);
    }
}

/// `N` copies of `T`'s size.
fn element_sizes<T: Ordinal, const N: usize>() -> (r: Vec<usize>)
    requires
        T::spec_size_ok(),
    ensures
        r@ == array_sizes::<T>(N as nat),
{
    proof {
        T::lemma_size_ok();
    }
    let s = T::ordinal_size();
    let mut r: Vec<usize> = Vec::with_capacity(N);
    let mut i: usize = 0;
    while i < N
        invariant
            i <= N,
            s == T::spec_size(),
            r@ == array_sizes::<T>(i as nat),
        decreases N - i,
    {
        r.push(s);
        i = i + 1;
        assert(r@ =~= array_sizes::<T>(i as nat));
    }
    r
}

} // verus!
