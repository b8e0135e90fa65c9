//! Membership bits packed in 64-bit words: the element numbered `i` is bit
//! `i % 64` of word `i / 64`.

use vstd::prelude::*;

verus! {

/// Number of bits in a word.
pub const WORD_BITS: usize = 64;

/// Whether bit `b` of `w` is set.
pub open spec fn word_has(w: u64, b: nat) -> bool {
    b < 64 && (w >> (b as u64)) & 1 == 1
}

/// Whether the element numbered `i` is in the words `ws`; numbers past the
/// last word are not.
pub open spec fn words_has(ws: Seq<u64>, i: nat) -> bool {
    i / 64 < ws.len() && word_has(ws[(i / 64) as int], i % 64)
}

/// Number of words needed for `n` bits.
pub open spec fn words_for(n: nat) -> nat {
    (n + 63) / 64
}

/// No bit of the zero word is set.
pub proof fn lemma_zero_word(b: nat)
    ensures
        !word_has(0, b),
{
    if b < 64 {
        let bb = b as u64;
        assert((0u64 >> bb) & 1 == 0) by (bit_vector);
    }
}

/// Numbers with the same word and bit are the same number; numbers below
/// `n` have their word among the first `words_for(n)`.
pub proof fn lemma_word_bit(i: nat, j: nat, n: nat)
    ensures
        i / 64 == j / 64 && i % 64 == j % 64 ==> i == j,
        i < n ==> i / 64 < words_for(n),
{
    vstd::arithmetic::div_mod::lemma_fundamental_div_mod(i as int, 64);
    vstd::arithmetic::div_mod::lemma_fundamental_div_mod(j as int, 64);
    if i < n {
        vstd::arithmetic::div_mod::lemma_div_is_ordered(i as int, (n + 63) as int, 64);
        assert((i + 64) / 64 == i / 64 + 1) by {
            vstd::arithmetic::div_mod::lemma_div_plus_one(i as int, 64);
        }
        vstd::arithmetic::div_mod::lemma_div_is_ordered((i + 64) as int, (n + 63) as int, 64);
    }
}

/// Whether the element numbered `i` is in the words `ws`.
pub fn words_contains(ws: &[u64], i: usize) -> (r: bool)
    ensures
        r == words_has(ws@, i as nat),
{
    let w = i / WORD_BITS;
    if w < ws.len() {
        word_contains(ws[w], (i % WORD_BITS) as u32)
    } else {
        false
    }
}

/// Whether bit `b` of `w` is set.
pub fn word_contains(w: u64, b: u32) -> (r: bool)
    requires
        b < 64,
    ensures
        r == word_has(w, b as nat),
{
    (w >> b) & 1 == 1
}

/// `w` with bit `b` set; the other bits are kept.
pub fn word_insert(w: u64, b: u32) -> (r: u64)
    requires
        b < 64,
    ensures
        word_has(r, b as nat),
        forall|c: nat| c != b ==> word_has(r, c) == word_has(w, c),
{
    let r = w | (1u64 << b);
    proof {
        let bb = b as u64;
        assert((r >> bb) & 1 == 1) by (bit_vector)
            requires
                r == w | (1u64 << bb),
                bb < 64,
        ;
        assert forall|c: nat| c != b implies word_has(r, c) == word_has(w, c) by {
            if c < 64 {
                let cc = c as u64;
                assert((r >> cc) & 1 == (w >> cc) & 1) by (bit_vector)
                    requires
                        r == w | (1u64 << bb),
                        bb < 64,
                        cc < 64,
                        cc != bb,
                ;
            }
        }
    }
    r
}

/// The word whose bits `0..n` are set and the others not.
pub fn word_low_bits(n: u32) -> (r: u64)
    requires
        n <= 64,
    ensures
        forall|c: nat| word_has(r, c) <==> c < n,
{
    if n == 64 {
        proof {
            assert forall|c: nat| word_has(u64::MAX, c) <==> c < n by {
                if c < 64 {
                    let cc = c as u64;
                    assert((u64::MAX >> cc) & 1 == 1) by (bit_vector)
                        requires cc < 64;
                }
            }
        }
        u64::MAX
    } else {
        let p = 1u64 << n;
        proof {
            let nn = n as u64;
            assert(1u64 << nn >= 1) by (bit_vector)
                requires nn < 64;
        }
        let r = p - 1;
        proof {
            let nn = n as u64;
            assert forall|c: nat| word_has(r, c) <==> c < n by {
                if c < 64 {
                    let cc = c as u64;
                    assert(((r >> cc) & 1 == 1) <==> cc < nn) by (bit_vector)
                        requires
                            r == (1u64 << nn) - 1,
                            nn < 64,
                            cc < 64,
                    ;
                }
            }
        }
        r
    }
}

} // verus!
