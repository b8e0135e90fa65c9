//! The composite numbering: products (structs, tuples) number their fields
//! in mixed radix with the last field least significant, and sums (enums)
//! give each variant a contiguous range in declaration order.

use vstd::arithmetic::div_mod::{
    lemma_fundamental_div_mod, lemma_fundamental_div_mod_converse,
};
use vstd::arithmetic::mul::lemma_mul_inequality;
use vstd::prelude::*;

verus! {

/// A two-digit number `hi * n + lo` with `lo < n` lies below `m * n` when `hi < m`.
pub proof fn lemma_pair_bound(hi: nat, lo: nat, m: nat, n: nat)
    requires
        hi < m,
        lo < n,
    ensures
        hi * n + lo < m * n,
{
    lemma_mul_inequality((hi + 1) as int, m as int, n as int);
    assert((hi + 1) * n == hi * n + n) by (nonlinear_arith);
}

/// The digits of `hi * n + lo` are recovered by division and remainder by `n`.
pub proof fn lemma_pair_digits(hi: nat, lo: nat, n: nat)
    requires
        lo < n,
    ensures
        (hi * n + lo) / n == hi,
        (hi * n + lo) % n == lo,
{
    lemma_fundamental_div_mod_converse((hi * n + lo) as int, n as int, hi as int, lo as int);
}

/// Splitting `i` by division and remainder by `n`: the two digits recompose `i`,
/// the low digit lies below `n`, and the high one below `m` exactly when `i < m * n`.
pub proof fn lemma_pair_split(i: nat, m: nat, n: nat)
    requires
        n > 0,
    ensures
        (i / n) * n + i % n == i,
        i % n < n,
        i / n < m <==> i < m * n,
{
    lemma_fundamental_div_mod(i as int, n as int);
    assert(i == n * (i / n) + i % n);
    assert(n * (i / n) == (i / n) * n) by (nonlinear_arith);
    if i / n < m {
        lemma_pair_bound(i / n, i % n, m, n);
    } else {
        lemma_mul_inequality(m as int, (i / n) as int, n as int);
    }
}

/// Two two-digit numbers with low digits below `n` are equal only digit by digit.
pub proof fn lemma_pair_injective(a: nat, b: nat, c: nat, d: nat, n: nat)
    requires
        b < n,
        d < n,
        a * n + b == c * n + d,
    ensures
        a == c,
        b == d,
{
    lemma_pair_digits(a, b, n);
    lemma_pair_digits(c, d, n);
}

/// Number of values of a product whose fields have the given sizes.
pub open spec fn product_size(sizes: Seq<usize>) -> nat
    decreases sizes.len(),
{
    if sizes.len() == 0 {
        1
    } else {
        product_size(sizes.drop_last()) * (sizes.last() as nat)
    }
}

/// Every partial product, taken from the first field on, fits in `usize`.
pub open spec fn product_fits(sizes: Seq<usize>) -> bool {
    forall|k: int| 0 <= k <= sizes.len() ==> #[trigger] product_size(sizes.subrange(0, k)) <= usize::MAX
}

/// Number of values of a sum whose variants have the given sizes.
pub open spec fn sum_size(sizes: Seq<usize>) -> nat
    decreases sizes.len(),
{
    if sizes.len() == 0 {
        0
    } else {
        sum_size(sizes.drop_last()) + (sizes.last() as nat)
    }
}

/// First number of variant `v`: the sizes of the variants before it, added up.
pub open spec fn variant_start(sizes: Seq<usize>, v: int) -> nat {
    sum_size(sizes.subrange(0, v))
}

/// Each field number lies below its field's size.
pub open spec fn digits_valid(digits: Seq<usize>, sizes: Seq<usize>) -> bool {
    &&& digits.len() == sizes.len()
    &&& forall|k: int| 0 <= k < digits.len() ==> digits[k] < sizes[k]
}

/// The mixed-radix number of a product value from its field numbers,
/// the last field least significant:
/// `d0 * (s1 * ... * sn) + d1 * (s2 * ... * sn) + ... + dn`.
pub open spec fn product_ordinal(digits: Seq<usize>, sizes: Seq<usize>) -> nat
    decreases digits.len(),
{
    if digits.len() == 0 || sizes.len() == 0 {
        0
    } else {
        product_ordinal(digits.drop_last(), sizes.drop_last()) * (sizes.last() as nat)
            + (digits.last() as nat)
    }
}

/// Concatenating field lists multiplies their sizes.
pub proof fn lemma_product_size_append(a: Seq<usize>, b: Seq<usize>)
    ensures
        product_size(a + b) == product_size(a) * product_size(b),
    decreases b.len(),
{
    if b.len() == 0 {
        assert(a + b =~= a);
        assert(product_size(b) == 1);
        assert(product_size(a) * 1 == product_size(a));
    } else {
        lemma_product_size_append(a, b.drop_last());
        assert((a + b).drop_last() =~= a + b.drop_last());
        assert((a + b).last() == b.last());
        let pa = product_size(a);
        let pb = product_size(b.drop_last());
        let l = b.last() as nat;
        assert(pa * pb * l == pa * (pb * l)) by (nonlinear_arith);
        assert(product_size(a + b) == product_size(a + b.drop_last()) * l);
        assert(product_size(b) == pb * l);
    }
}

/// Concatenating field lists: the front fields' number is shifted past the back fields.
pub proof fn lemma_product_ordinal_append(da: Seq<usize>, sa: Seq<usize>, db: Seq<usize>, sb: Seq<usize>)
    requires
        da.len() == sa.len(),
        db.len() == sb.len(),
    ensures
        product_ordinal(da + db, sa + sb) == product_ordinal(da, sa) * product_size(sb)
            + product_ordinal(db, sb),
    decreases db.len(),
{
    if db.len() == 0 {
        assert(da + db =~= da);
        assert(sa + sb =~= sa);
        assert(product_size(sb) == 1);
        assert(product_ordinal(db, sb) == 0);
        assert(product_ordinal(da, sa) * 1 == product_ordinal(da, sa));
    } else {
        lemma_product_ordinal_append(da, sa, db.drop_last(), sb.drop_last());
        assert((da + db).drop_last() =~= da + db.drop_last());
        assert((sa + sb).drop_last() =~= sa + sb.drop_last());
        assert((da + db).last() == db.last());
        assert((sa + sb).last() == sb.last());
        let x = product_ordinal(da, sa);
        let p = product_size(sb.drop_last());
        let y = product_ordinal(db.drop_last(), sb.drop_last());
        let l = sb.last() as nat;
        assert((x * p + y) * l == x * (p * l) + y * l) by (nonlinear_arith);
    }
}

/// A product number lies below the product size.
pub proof fn lemma_product_ordinal_bound(digits: Seq<usize>, sizes: Seq<usize>)
    requires
        digits_valid(digits, sizes),
    ensures
        product_ordinal(digits, sizes) < product_size(sizes),
    decreases digits.len(),
{
    if digits.len() > 0 {
        lemma_product_ordinal_bound(digits.drop_last(), sizes.drop_last());
        lemma_pair_bound(
            product_ordinal(digits.drop_last(), sizes.drop_last()),
            digits.last() as nat,
            product_size(sizes.drop_last()),
            sizes.last() as nat,
        );
    }
}

/// Two valid digit lists with the same product number are the same list.
pub proof fn lemma_product_ordinal_injective(d1: Seq<usize>, d2: Seq<usize>, sizes: Seq<usize>)
    requires
        digits_valid(d1, sizes),
        digits_valid(d2, sizes),
        product_ordinal(d1, sizes) == product_ordinal(d2, sizes),
    ensures
        d1 == d2,
    decreases sizes.len(),
{
    if sizes.len() > 0 {
        lemma_pair_injective(
            product_ordinal(d1.drop_last(), sizes.drop_last()),
            d1.last() as nat,
            product_ordinal(d2.drop_last(), sizes.drop_last()),
            d2.last() as nat,
            sizes.last() as nat,
        );
        lemma_product_ordinal_injective(d1.drop_last(), d2.drop_last(), sizes.drop_last());
        assert(d1 =~= d1.drop_last().push(d1.last()));
        assert(d2 =~= d2.drop_last().push(d2.last()));
    } else {
        assert(d1 =~= d2);
    }
}

/// Every number below the product size has valid digits.
pub proof fn lemma_product_ordinal_onto(i: nat, sizes: Seq<usize>)
    requires
        i < product_size(sizes),
    ensures
        exists|d: Seq<usize>| digits_valid(d, sizes) && product_ordinal(d, sizes) == i,
    decreases sizes.len(),
{
    if sizes.len() == 0 {
        let d = Seq::<usize>::empty();
        assert(digits_valid(d, sizes) && product_ordinal(d, sizes) == i);
    } else {
        let s = sizes.last() as nat;
        let p = product_size(sizes.drop_last());
        if s == 0 {
            assert(p * s == 0) by (nonlinear_arith)
                requires s == 0;
        }
        lemma_pair_split(i, p, s);
        lemma_product_ordinal_onto(i / s, sizes.drop_last());
        let d0 = choose|d: Seq<usize>| digits_valid(d, sizes.drop_last()) && product_ordinal(d, sizes.drop_last()) == i / s;
        let d = d0.push((i % s) as usize);
        assert(d.drop_last() =~= d0);
        assert(digits_valid(d, sizes));
        assert(product_ordinal(d, sizes) == i);
    }
}

/// Variant starts grow with the variant index, up to the total size.
pub proof fn lemma_variant_start_monotone(sizes: Seq<usize>, v: int, w: int)
    requires
        0 <= v <= w <= sizes.len(),
    ensures
        variant_start(sizes, v) <= variant_start(sizes, w),
        variant_start(sizes, sizes.len() as int) == sum_size(sizes),
    decreases w - v,
{
    assert(sizes.subrange(0, sizes.len() as int) =~= sizes);
    if v < w {
        lemma_variant_start_monotone(sizes, v, w - 1);
        assert(sizes.subrange(0, w).drop_last() =~= sizes.subrange(0, w - 1));
    }
}

/// Number of values of a product of fields with the given sizes.
///
/// Every partial product must fit in `usize`: a size that overflows is refused
/// when the type is defined, before any value is numbered.
pub fn ordinal_size_product<const N: usize>(items: [usize; N]) -> (r: usize)
    requires
        product_fits(items@),
    ensures
        r == product_size(items@),
{
    let mut r: usize = 1;
    let mut i: usize = 0;
    assert(items@.subrange(0, 0) =~= Seq::<usize>::empty());
    while i < N
        invariant
            i <= N,
            N == items@.len(),
            product_fits(items@),
            r == product_size(items@.subrange(0, i as int)),
        decreases N - i,
    {
        assert(items@.subrange(0, i + 1).drop_last() =~= items@.subrange(0, i as int));
        assert(product_size(items@.subrange(0, i + 1)) <= usize::MAX);
        r = r * items[i];
        i = i + 1;
    }
    assert(items@.subrange(0, N as int) =~= items@);
    r
}

/// Number of values of a sum of variants with the given sizes.
///
/// The total must fit in `usize`, as for `ordinal_size_product`.
pub fn ordinal_size_sum<const N: usize>(items: [usize; N]) -> (r: usize)
    requires
        sum_size(items@) <= usize::MAX,
    ensures
        r == sum_size(items@),
{
    let mut r: usize = 0;
    let mut i: usize = 0;
    assert(items@.subrange(0, 0) =~= Seq::<usize>::empty());
    while i < N
        invariant
            i <= N,
            N == items@.len(),
            sum_size(items@) <= usize::MAX,
            r == variant_start(items@, i as int),
        decreases N - i,
    {
        assert(items@.subrange(0, i + 1).drop_last() =~= items@.subrange(0, i as int));
        proof {
            lemma_variant_start_monotone(items@, i + 1, N as int);
        }
        r = r + items[i];
        i = i + 1;
    }
    proof {
        lemma_variant_start_monotone(items@, N as int, N as int);
    }
    r
}

/// Number of a product value from its field numbers and the fields' sizes:
/// mixed radix with the last field least significant.
pub fn product_encode(digits: &[usize], sizes: &[usize]) -> (r: usize)
    requires
        digits_valid(digits@, sizes@),
        product_fits(sizes@),
    ensures
        r == product_ordinal(digits@, sizes@),
        r < product_size(sizes@),
{
    let n = sizes.len();
    let mut r: usize = 0;
    let mut i: usize = 0;
    while i < n
        invariant
            i <= n,
            n == sizes@.len(),
            digits_valid(digits@, sizes@),
            product_fits(sizes@),
            r == product_ordinal(digits@.subrange(0, i as int), sizes@.subrange(0, i as int)),
            r < product_size(sizes@.subrange(0, i as int)),
        decreases n - i,
    {
        let ghost ds = digits@.subrange(0, i + 1);
        let ghost ss = sizes@.subrange(0, i + 1);
        assert(ds.drop_last() =~= digits@.subrange(0, i as int));
        assert(ss.drop_last() =~= sizes@.subrange(0, i as int));
        assert(product_size(ss) <= usize::MAX);
        proof {
            lemma_pair_bound(
                r as nat,
                digits[i as int] as nat,
                product_size(sizes@.subrange(0, i as int)),
                sizes[i as int] as nat,
            );
        }
        r = r * sizes[i] + digits[i];
        i = i + 1;
    }
    assert(digits@.subrange(0, n as int) =~= digits@);
    assert(sizes@.subrange(0, n as int) =~= sizes@);
    r
}

/// Field numbers of the product value numbered `ordinal`, or `None` when
/// `ordinal` is not below the product size.
///
/// Fields are taken from the last: the remainder by a field's size is that
/// field's number and the quotient goes on to the field before; what is left
/// after the first field must be zero.
pub fn product_decode(ordinal: usize, sizes: &[usize]) -> (r: Option<Vec<usize>>)
    ensures
        r is Some <==> ordinal < product_size(sizes@),
        r matches Some(d) ==> digits_valid(d@, sizes@) && product_ordinal(d@, sizes@) == ordinal,
{
    let n = sizes.len();
    let mut digits: Vec<usize> = vec![0; n];
    let mut o: usize = ordinal;
    let mut i: usize = n;
    assert(sizes@.subrange(n as int, n as int) =~= Seq::<usize>::empty());
    assert(digits@.subrange(n as int, n as int) =~= Seq::<usize>::empty());
    assert(product_size(sizes@.subrange(n as int, n as int)) == 1);
    assert(o * 1 == o);
    while i > 0
        invariant
            i <= n,
            n == sizes@.len(),
            digits@.len() == n,
            digits_valid(digits@.subrange(i as int, n as int), sizes@.subrange(i as int, n as int)),
            ordinal == o * product_size(sizes@.subrange(i as int, n as int)) + product_ordinal(
                digits@.subrange(i as int, n as int),
                sizes@.subrange(i as int, n as int),
            ),
        decreases i,
    {
        let s = sizes[i - 1];
        let ghost tail_s = sizes@.subrange(i as int, n as int);
        let ghost tail_d = digits@.subrange(i as int, n as int);
        if s == 0 {
            proof {
                lemma_product_size_append(sizes@.subrange(0, i - 1), sizes@.subrange(i - 1, n as int));
                lemma_product_size_append(sizes@.subrange(i - 1, i as int), tail_s);
                assert(sizes@.subrange(i - 1, i as int) =~= seq![s]);
                assert(seq![s].drop_last() =~= Seq::<usize>::empty());
                assert(seq![s].last() == s);
                assert(product_size(seq![s]) == product_size(Seq::<usize>::empty()) * 0);
                assert(sizes@.subrange(0, i - 1) + sizes@.subrange(i - 1, n as int) =~= sizes@);
                assert(sizes@.subrange(i - 1, i as int) + tail_s =~= sizes@.subrange(i - 1, n as int));
                let p = product_size(sizes@.subrange(0, i - 1));
                assert(p * (0 * product_size(tail_s)) == 0) by (nonlinear_arith);
            }
            return None;
        }
        let d = o % s;
        let q = o / s;
        proof {
            lemma_pair_split(o as nat, q as nat + 1, s as nat);
            let dseq = seq![d];
            let sseq = seq![s];
            assert(dseq.drop_last() =~= Seq::<usize>::empty());
            assert(sseq.drop_last() =~= Seq::<usize>::empty());
            assert(dseq.last() == d);
            assert(sseq.last() == s);
            assert(product_ordinal(Seq::<usize>::empty(), Seq::<usize>::empty()) == 0);
            assert(product_size(Seq::<usize>::empty()) == 1);
            assert(0 * (s as nat) + (d as nat) == d as nat);
            assert(1 * (s as nat) == s as nat);
            assert(product_ordinal(dseq, sseq) == d as nat);
            assert(product_size(sseq) == s as nat);
            lemma_product_ordinal_append(dseq, sseq, tail_d, tail_s);
            lemma_product_size_append(sseq, tail_s);
            let p = product_size(tail_s);
            let v = product_ordinal(tail_d, tail_s);
            assert(o * p + v == q * (s * p) + (d * p + v)) by (nonlinear_arith)
                requires o == q * s + d;
        }
        digits.set(i - 1, d);
        proof {
            assert(digits@.subrange(i - 1, n as int) =~= seq![d] + tail_d);
            assert(sizes@.subrange(i - 1, n as int) =~= seq![s] + tail_s);
        }
        o = q;
        i = i - 1;
    }
    assert(digits@.subrange(0, n as int) =~= digits@);
    assert(sizes@.subrange(0, n as int) =~= sizes@);
    if o == 0 {
        proof {
            lemma_product_ordinal_bound(digits@, sizes@);
            assert(0 * product_size(sizes@) == 0);
        }
        Some(digits)
    } else {
        proof {
            let p = product_size(sizes@);
            let v = product_ordinal(digits@, sizes@);
            assert(o * p + v >= p) by (nonlinear_arith)
                requires o >= 1;
        }
        None
    }
}

/// Number of the value of variant `variant` whose number within the variant is `inner`:
/// the variant's start plus `inner`.
pub fn sum_encode(variant: usize, inner: usize, sizes: &[usize]) -> (r: usize)
    requires
        variant < sizes@.len(),
        inner < sizes@[variant as int],
        sum_size(sizes@) <= usize::MAX,
    ensures
        r == variant_start(sizes@, variant as int) + inner,
        r < variant_start(sizes@, variant + 1),
{
    let mut start: usize = 0;
    let mut i: usize = 0;
    assert(sizes@.subrange(0, 0) =~= Seq::<usize>::empty());
    while i < variant
        invariant
            i <= variant < sizes@.len(),
            sum_size(sizes@) <= usize::MAX,
            start == variant_start(sizes@, i as int),
        decreases variant - i,
    {
        assert(sizes@.subrange(0, i + 1).drop_last() =~= sizes@.subrange(0, i as int));
        proof {
            lemma_variant_start_monotone(sizes@, i + 1, sizes@.len() as int);
        }
        start = start + sizes[i];
        i = i + 1;
    }
    assert(sizes@.subrange(0, variant + 1).drop_last() =~= sizes@.subrange(0, variant as int));
    proof {
        lemma_variant_start_monotone(sizes@, variant + 1, sizes@.len() as int);
    }
    start + inner
}

/// Variant and number within the variant of the sum value numbered `ordinal`,
/// or `None` when `ordinal` is not below the sum size. The variant is the
/// first whose range `variant_start(v) .. variant_start(v + 1)` holds `ordinal`.
pub fn sum_decode(ordinal: usize, sizes: &[usize]) -> (r: Option<(usize, usize)>)
    requires
        sum_size(sizes@) <= usize::MAX,
    ensures
        r is Some <==> ordinal < sum_size(sizes@),
        r matches Some((v, inner)) ==> {
            &&& v < sizes@.len()
            &&& inner < sizes@[v as int]
            &&& variant_start(sizes@, v as int) <= ordinal < variant_start(sizes@, v + 1)
            &&& ordinal == variant_start(sizes@, v as int) + inner
        },
{
    let n = sizes.len();
    let mut start: usize = 0;
    let mut i: usize = 0;
    assert(sizes@.subrange(0, 0) =~= Seq::<usize>::empty());
    while i < n
        invariant
            i <= n == sizes@.len(),
            sum_size(sizes@) <= usize::MAX,
            start == variant_start(sizes@, i as int),
            start <= ordinal,
        decreases n - i,
    {
        assert(sizes@.subrange(0, i + 1).drop_last() =~= sizes@.subrange(0, i as int));
        proof {
            lemma_variant_start_monotone(sizes@, i + 1, n as int);
        }
        let next = start + sizes[i];
        if ordinal < next {
            return Some((i, ordinal - start));
        }
        start = next;
        i = i + 1;
    }
    proof {
        lemma_variant_start_monotone(sizes@, n as int, n as int);
    }
    None
}

} // verus!
