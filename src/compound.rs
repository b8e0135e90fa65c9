//! Numbering of the composite std types: the unit type, tuples, `Option`,
//! `Result` and `Box`.

use crate::composite::{lemma_pair_bound, lemma_pair_injective, lemma_pair_split};
use crate::ordinal::{numbered, Ordinal};
use vstd::prelude::*;

verus! {

/// The unit type has one value, numbered 0.
impl Ordinal for () {
    open spec fn spec_size() -> nat {
        1
    }

    open spec fn spec_size_ok() -> bool {
        true
    }

    open spec fn spec_ordinal(&self) -> nat {
        0
    }

    proof fn lemma_size_ok() {
    }

    proof fn lemma_ordinal_bound(v: &Self) {
    }

    proof fn lemma_ordinal_surjective(i: nat) {
        assert(().spec_ordinal() == i);
    }

    proof fn lemma_ordinal_injective(a: &Self, b: &Self) {
    }

    fn ordinal_size() -> (r: usize) {
        1
    }

    fn ordinal(&self) -> (r: usize) {
        0
    }

    fn from_ordinal(ordinal: usize) -> (r: Option<Self>) {
        if ordinal == 0 {
            Some(())
        } else {
            None
        }
    }
}

/// A one-field tuple is numbered as its field.
impl<A: Ordinal> Ordinal for (A,) {
    open spec fn spec_size() -> nat {
        A::spec_size()
    }

    open spec fn spec_size_ok() -> bool {
        A::spec_size_ok()
    }

    open spec fn spec_ordinal(&self) -> nat {
        self.0.spec_ordinal()
    }

    proof fn lemma_size_ok() {
        A::lemma_size_ok();
    }

    proof fn lemma_ordinal_bound(v: &Self) {
        A::lemma_ordinal_bound(&v.0);
    }

    proof fn lemma_ordinal_surjective(i: nat) {
        A::lemma_ordinal_surjective(i);
        let a = numbered::<A>(i);
        assert((a,).spec_ordinal() == i);
    }

    proof fn lemma_ordinal_injective(a: &Self, b: &Self) {
        A::lemma_ordinal_injective(&a.0, &b.0);
    }

    fn ordinal_size() -> (r: usize) {
        A::ordinal_size()
    }

    fn ordinal(&self) -> (r: usize) {
        self.0.ordinal()
    }

    fn from_ordinal(ordinal: usize) -> (r: Option<Self>) {
        match A::from_ordinal(ordinal) {
            Some(a) => Some((a,)),
            None => None,
        }
    }
}

/// A pair is numbered in mixed radix: `a * size(B) + b`, the last field varying fastest.
impl<A: Ordinal, B: Ordinal> Ordinal for (A, B) {
    open spec fn spec_size() -> nat {
        A::spec_size() * B::spec_size()
    }

    open spec fn spec_size_ok() -> bool {
        &&& A::spec_size_ok()
        &&& B::spec_size_ok()
        &&& A::spec_size() * B::spec_size() <= usize::MAX
    }

    open spec fn spec_ordinal(&self) -> nat {
        self.0.spec_ordinal() * B::spec_size() + self.1.spec_ordinal()
    }

    proof fn lemma_size_ok() {
    }

    proof fn lemma_ordinal_bound(v: &Self) {
        A::lemma_ordinal_bound(&v.0);
        B::lemma_ordinal_bound(&v.1);
        lemma_pair_bound(v.0.spec_ordinal(), v.1.spec_ordinal(), A::spec_size(), B::spec_size());
    }

    proof fn lemma_ordinal_surjective(i: nat) {
        let n = B::spec_size();
        if n == 0 {
            assert(A::spec_size() * n == 0) by (nonlinear_arith)
                requires n == 0;
        }
        lemma_pair_split(i, A::spec_size(), n);
        A::lemma_ordinal_surjective(i / n);
        B::lemma_ordinal_surjective(i % n);
        let v = (numbered::<A>(i / n), numbered::<B>(i % n));
        assert(v.spec_ordinal() == i);
    }

    proof fn lemma_ordinal_injective(a: &Self, b: &Self) {
        B::lemma_ordinal_bound(&a.1);
        B::lemma_ordinal_bound(&b.1);
        if a.spec_ordinal() == b.spec_ordinal() {
            lemma_pair_injective(
                a.0.spec_ordinal(),
                a.1.spec_ordinal(),
                b.0.spec_ordinal(),
                b.1.spec_ordinal(),
                B::spec_size(),
            );
            A::lemma_ordinal_injective(&a.0, &b.0);
            B::lemma_ordinal_injective(&a.1, &b.1);
        }
    }

    fn ordinal_size() -> (r: usize) {
        A::ordinal_size() * B::ordinal_size()
    }

    fn ordinal(&self) -> (r: usize) {
        proof {
            Self::lemma_ordinal_bound(self);
        }
        self.0.ordinal() * B::ordinal_size() + self.1.ordinal()
    }

    fn from_ordinal(ordinal: usize) -> (r: Option<Self>) {
        let n = B::ordinal_size();
        if n == 0 {
            proof {
                assert(A::spec_size() * n == 0) by (nonlinear_arith)
                    requires n == 0;
            }
            return None;
        }
        proof {
            lemma_pair_split(ordinal as nat, A::spec_size(), n as nat);
        }
        match A::from_ordinal(ordinal / n) {
            None => None,
            Some(a) => match B::from_ordinal(ordinal % n) {
                None => None,
                Some(b) => Some((a, b)),
            },
        }
    }
}

/// A pair has `m * n` values for field sizes `m` and `n`, and is numbered row
/// by row: the last field varies fastest, so raising the second field's number
/// by one raises the pair's number by one, and raising the first field's
/// number by one raises it by `n`.
pub proof fn lemma_pair_row_major<A: Ordinal, B: Ordinal>(a: A, b: B, a2: A, b2: B)
    ensures
        <(A, B)>::spec_size() == A::spec_size() * B::spec_size(),
        (a, b).spec_ordinal() == a.spec_ordinal() * B::spec_size() + b.spec_ordinal(),
        b2.spec_ordinal() == b.spec_ordinal() + 1 ==> (a, b2).spec_ordinal() == (a, b).spec_ordinal() + 1,
        a2.spec_ordinal() == a.spec_ordinal() + 1 ==> (a2, b).spec_ordinal() == (a, b).spec_ordinal() + B::spec_size(),
{
    let n = B::spec_size();
    assert((a.spec_ordinal() + 1) * n == a.spec_ordinal() * n + n) by (nonlinear_arith);
}

/// Pairs are numbered in lexicographic order of their fields' numbers.
pub proof fn lemma_pair_lexicographic<A: Ordinal, B: Ordinal>(x: (A, B), y: (A, B))
    requires
        B::spec_size_ok(),
    ensures
        x.spec_ordinal() < y.spec_ordinal() <==> (x.0.spec_ordinal() < y.0.spec_ordinal() || (
        x.0.spec_ordinal() == y.0.spec_ordinal() && x.1.spec_ordinal() < y.1.spec_ordinal())),
{
    let n = B::spec_size();
    B::lemma_ordinal_bound(&x.1);
    B::lemma_ordinal_bound(&y.1);
    let (xa, xb, ya, yb) = (x.0.spec_ordinal(), x.1.spec_ordinal(), y.0.spec_ordinal(), y.1.spec_ordinal());
    if xa < ya {
        lemma_pair_bound(xa, xb, ya, n);
        assert(ya * n <= ya * n + yb);
    } else if ya < xa {
        lemma_pair_bound(ya, yb, xa, n);
    }
}

/// A triple is numbered as the pair of its first two fields and its last field.
impl<A: Ordinal, B: Ordinal, C: Ordinal> Ordinal for (A, B, C) {
    open spec fn spec_size() -> nat {
        A::spec_size() * B::spec_size() * C::spec_size()
    }

    open spec fn spec_size_ok() -> bool {
        &&& A::spec_size_ok()
        &&& B::spec_size_ok()
        &&& C::spec_size_ok()
        &&& A::spec_size() * B::spec_size() <= usize::MAX
        &&& A::spec_size() * B::spec_size() * C::spec_size() <= usize::MAX
    }

    open spec fn spec_ordinal(&self) -> nat {
        (self.0.spec_ordinal() * B::spec_size() + self.1.spec_ordinal()) * C::spec_size()
            + self.2.spec_ordinal()
    }

    proof fn lemma_size_ok() {
    }

    proof fn lemma_ordinal_bound(v: &Self) {
        <(A, B)>::lemma_ordinal_bound(&(v.0, v.1));
        C::lemma_ordinal_bound(&v.2);
        lemma_pair_bound(
            (v.0, v.1).spec_ordinal(),
            v.2.spec_ordinal(),
            A::spec_size() * B::spec_size(),
            C::spec_size(),
        );
    }

    proof fn lemma_ordinal_surjective(i: nat) {
        let n = C::spec_size();
        let m = A::spec_size() * B::spec_size();
        if n == 0 {
            assert(m * n == 0) by (nonlinear_arith)
                requires n == 0;
        }
        lemma_pair_split(i, m, n);
        <(A, B)>::lemma_ordinal_surjective(i / n);
        C::lemma_ordinal_surjective(i % n);
        let ab = numbered::<(A, B)>(i / n);
        let v = (ab.0, ab.1, numbered::<C>(i % n));
        assert(v.spec_ordinal() == i);
    }

    proof fn lemma_ordinal_injective(a: &Self, b: &Self) {
        C::lemma_ordinal_bound(&a.2);
        C::lemma_ordinal_bound(&b.2);
        if a.spec_ordinal() == b.spec_ordinal() {
            lemma_pair_injective(
                (a.0, a.1).spec_ordinal(),
                a.2.spec_ordinal(),
                (b.0, b.1).spec_ordinal(),
                b.2.spec_ordinal(),
                C::spec_size(),
            );
            <(A, B)>::lemma_ordinal_injective(&(a.0, a.1), &(b.0, b.1));
            C::lemma_ordinal_injective(&a.2, &b.2);
        }
    }

    fn ordinal_size() -> (r: usize) {
        A::ordinal_size() * B::ordinal_size() * C::ordinal_size()
    }

    fn ordinal(&self) -> (r: usize) {
        proof {
            <(A, B)>::lemma_ordinal_bound(&(self.0, self.1));
            Self::lemma_ordinal_bound(self);
        }
        (self.0.ordinal() * B::ordinal_size() + self.1.ordinal()) * C::ordinal_size()
            + self.2.ordinal()
    }

    fn from_ordinal(ordinal: usize) -> (r: Option<Self>) {
        let n = C::ordinal_size();
        if n == 0 {
            proof {
                let m = A::spec_size() * B::spec_size();
                assert(m * n == 0) by (nonlinear_arith)
                    requires n == 0;
            }
            return None;
        }
        proof {
            lemma_pair_split(ordinal as nat, A::spec_size() * B::spec_size(), n as nat);
        }
        match <(A, B)>::from_ordinal(ordinal / n) {
            None => None,
            Some(ab) => match C::from_ordinal(ordinal % n) {
                None => None,
                Some(c) => Some((ab.0, ab.1, c)),
            },
        }
    }
}

/// `None` is numbered 0 and `Some(a)` follows as `a + 1`.
impl<A: Ordinal> Ordinal for Option<A> {
    open spec fn spec_size() -> nat {
        A::spec_size() + 1
    }

    open spec fn spec_size_ok() -> bool {
        A::spec_size_ok() && A::spec_size() + 1 <= usize::MAX
    }

    open spec fn spec_ordinal(&self) -> nat {
        match self {
            None => 0,
            Some(a) => a.spec_ordinal() + 1,
        }
    }

    proof fn lemma_size_ok() {
    }

    proof fn lemma_ordinal_bound(v: &Self) {
        if let Some(a) = v {
            A::lemma_ordinal_bound(a);
        }
    }

    proof fn lemma_ordinal_surjective(i: nat) {
        if i == 0 {
            assert(None::<A>.spec_ordinal() == i);
        } else {
            A::lemma_ordinal_surjective((i - 1) as nat);
            assert(Some(numbered::<A>((i - 1) as nat)).spec_ordinal() == i);
        }
    }

    proof fn lemma_ordinal_injective(a: &Self, b: &Self) {
        if let (Some(x), Some(y)) = (a, b) {
            A::lemma_ordinal_injective(x, y);
        }
    }

    fn ordinal_size() -> (r: usize) {
        A::ordinal_size() + 1
    }

    fn ordinal(&self) -> (r: usize) {
        proof {
            Self::lemma_ordinal_bound(self);
        }
        match self {
            None => 0,
            Some(a) => a.ordinal() + 1,
        }
    }

    fn from_ordinal(ordinal: usize) -> (r: Option<Self>) {
        if ordinal == 0 {
            Some(None)
        } else {
            match A::from_ordinal(ordinal - 1) {
                Some(a) => Some(Some(a)),
                None => None,
            }
        }
    }
}

/// `Ok` values come first, numbered as their payload; `Err(b)` follows as `size(A) + b`.
impl<A: Ordinal, B: Ordinal> Ordinal for Result<A, B> {
    open spec fn spec_size() -> nat {
        A::spec_size() + B::spec_size()
    }

    open spec fn spec_size_ok() -> bool {
        &&& A::spec_size_ok()
        &&& B::spec_size_ok()
        &&& A::spec_size() + B::spec_size() <= usize::MAX
    }

    open spec fn spec_ordinal(&self) -> nat {
        match self {
            Ok(a) => a.spec_ordinal(),
            Err(b) => A::spec_size() + b.spec_ordinal(),
        }
    }

    proof fn lemma_size_ok() {
    }

    proof fn lemma_ordinal_bound(v: &Self) {
        match v {
            Ok(a) => A::lemma_ordinal_bound(a),
            Err(b) => B::lemma_ordinal_bound(b),
        }
    }

    proof fn lemma_ordinal_surjective(i: nat) {
        if i < A::spec_size() {
            A::lemma_ordinal_surjective(i);
            assert(Ok::<A, B>(numbered::<A>(i)).spec_ordinal() == i);
        } else {
            let j = (i - A::spec_size()) as nat;
            B::lemma_ordinal_surjective(j);
            assert(Err::<A, B>(numbered::<B>(j)).spec_ordinal() == i);
        }
    }

    proof fn lemma_ordinal_injective(a: &Self, b: &Self) {
        match (a, b) {
            (Ok(x), Ok(y)) => A::lemma_ordinal_injective(x, y),
            (Err(x), Err(y)) => B::lemma_ordinal_injective(x, y),
            (Ok(x), Err(_)) => A::lemma_ordinal_bound(x),
            (Err(_), Ok(y)) => A::lemma_ordinal_bound(y),
        }
    }

    fn ordinal_size() -> (r: usize) {
        A::ordinal_size() + B::ordinal_size()
    }

    fn ordinal(&self) -> (r: usize) {
        proof {
            Self::lemma_ordinal_bound(self);
        }
        match self {
            Ok(a) => a.ordinal(),
            Err(b) => A::ordinal_size() + b.ordinal(),
        }
    }

    fn from_ordinal(ordinal: usize) -> (r: Option<Self>) {
        let m = A::ordinal_size();
        if ordinal < m {
            match A::from_ordinal(ordinal) {
                Some(a) => Some(Ok(a)),
                None => None,
            }
        } else {
            match B::from_ordinal(ordinal - m) {
                Some(b) => Some(Err(b)),
                None => None,
            }
        }
    }
}

/// A box is numbered as its content.
impl<T: Ordinal> Ordinal for Box<T> {
    open spec fn spec_size() -> nat {
        T::spec_size()
    }

    open spec fn spec_size_ok() -> bool {
        T::spec_size_ok()
    }

    open spec fn spec_ordinal(&self) -> nat {
        (**self).spec_ordinal()
    }

    proof fn lemma_size_ok() {
        T::lemma_size_ok();
    }

    proof fn lemma_ordinal_bound(v: &Self) {
        T::lemma_ordinal_bound(&**v);
    }

    proof fn lemma_ordinal_surjective(i: nat) {
        T::lemma_ordinal_surjective(i);
        let b = Box::new(numbered::<T>(i));
        assert(b.spec_ordinal() == i);
    }

    proof fn lemma_ordinal_injective(a: &Self, b: &Self) {
        T::lemma_ordinal_injective(&**a, &**b);
    }

    fn ordinal_size() -> (r: usize) {
        T::ordinal_size()
    }

    fn ordinal(&self) -> (r: usize) {
        (**self).ordinal()
    }

    fn from_ordinal(ordinal: usize) -> (r: Option<Self>) {
        match T::from_ordinal(ordinal) {
            Some(t) => Some(Box::new(t)),
            None => None,
        }
    }
}

} // verus!
