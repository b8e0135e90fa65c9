//! Numbering of the primitive types: each maps onto a zero-based range.

use crate::ordinal::Ordinal;
use vstd::prelude::*;

verus! {

/// `false` is numbered 0 and `true` 1.
impl Ordinal for bool {
    open spec fn spec_size() -> nat {
        2
    }

    open spec fn spec_size_ok() -> bool {
        true
    }

    open spec fn spec_ordinal(&self) -> nat {
        if *self {
            1
        } else {
            0
        }
    }

    proof fn lemma_size_ok() {
    }

    proof fn lemma_ordinal_bound(v: &Self) {
    }

    proof fn lemma_ordinal_surjective(i: nat) {
        assert((i == 1).spec_ordinal() == i);
    }

    proof fn lemma_ordinal_injective(a: &Self, b: &Self) {
    }

    fn ordinal_size() -> (r: usize) {
        2
    }

    fn ordinal(&self) -> (r: usize) {
        if *self {
            1
        } else {
            0
        }
    }

    fn from_ordinal(ordinal: usize) -> (r: Option<Self>) {
        match ordinal {
            0 => Some(false),
            1 => Some(true),
            _ => None,
        }
    }
}

impl Ordinal for u8 {
    open spec fn spec_size() -> nat {
        256
    }

    open spec fn spec_size_ok() -> bool {
        true
    }

    open spec fn spec_ordinal(&self) -> nat {
        *self as nat
    }

    proof fn lemma_size_ok() {
    }

    proof fn lemma_ordinal_bound(v: &Self) {
    }

    proof fn lemma_ordinal_surjective(i: nat) {
        let v = i as u8;
        assert(v.spec_ordinal() == i);
    }

    proof fn lemma_ordinal_injective(a: &Self, b: &Self) {
    }

    fn ordinal_size() -> (r: usize) {
        256
    }

    fn ordinal(&self) -> (r: usize) {
        *self as usize
    }

    fn from_ordinal(ordinal: usize) -> (r: Option<Self>) {
        if ordinal <= u8::MAX as usize {
            Some(ordinal as u8)
        } else {
            None
        }
    }
}

impl Ordinal for i8 {
    open spec fn spec_size() -> nat {
        256
    }

    open spec fn spec_size_ok() -> bool {
        true
    }

    /// Shifted by the minimum, so that `i8::MIN` is numbered 0.
    open spec fn spec_ordinal(&self) -> nat {
        (*self - i8::MIN) as nat
    }

    proof fn lemma_size_ok() {
    }

    proof fn lemma_ordinal_bound(v: &Self) {
    }

    proof fn lemma_ordinal_surjective(i: nat) {
        let v = (i + i8::MIN) as i8;
        assert(v.spec_ordinal() == i);
    }

    proof fn lemma_ordinal_injective(a: &Self, b: &Self) {
    }

    fn ordinal_size() -> (r: usize) {
        256
    }

    fn ordinal(&self) -> (r: usize) {
        (*self as i16 - i8::MIN as i16) as usize
    }

    fn from_ordinal(ordinal: usize) -> (r: Option<Self>) {
        if ordinal <= u8::MAX as usize {
            Some((ordinal as i16 + i8::MIN as i16) as i8)
        } else {
            None
        }
    }
}

impl Ordinal for u16 {
    open spec fn spec_size() -> nat {
        65536
    }

    open spec fn spec_size_ok() -> bool {
        true
    }

    open spec fn spec_ordinal(&self) -> nat {
        *self as nat
    }

    proof fn lemma_size_ok() {
    }

    proof fn lemma_ordinal_bound(v: &Self) {
    }

    proof fn lemma_ordinal_surjective(i: nat) {
        let v = i as u16;
        assert(v.spec_ordinal() == i);
    }

    proof fn lemma_ordinal_injective(a: &Self, b: &Self) {
    }

    fn ordinal_size() -> (r: usize) {
        65536
    }

    fn ordinal(&self) -> (r: usize) {
        *self as usize
    }

    fn from_ordinal(ordinal: usize) -> (r: Option<Self>) {
        if ordinal <= u16::MAX as usize {
            Some(ordinal as u16)
        } else {
            None
        }
    }
}

impl Ordinal for i16 {
    open spec fn spec_size() -> nat {
        65536
    }

    open spec fn spec_size_ok() -> bool {
        true
    }

    /// Shifted by the minimum, so that `i16::MIN` is numbered 0.
    open spec fn spec_ordinal(&self) -> nat {
        (*self - i16::MIN) as nat
    }

    proof fn lemma_size_ok() {
    }

    proof fn lemma_ordinal_bound(v: &Self) {
    }

    proof fn lemma_ordinal_surjective(i: nat) {
        let v = (i + i16::MIN) as i16;
        assert(v.spec_ordinal() == i);
    }

    proof fn lemma_ordinal_injective(a: &Self, b: &Self) {
    }

    fn ordinal_size() -> (r: usize) {
        65536
    }

    fn ordinal(&self) -> (r: usize) {
        (*self as i32 - i16::MIN as i32) as usize
    }

    fn from_ordinal(ordinal: usize) -> (r: Option<Self>) {
        if ordinal <= u16::MAX as usize {
            Some((ordinal as i32 + i16::MIN as i32) as i16)
        } else {
            None
        }
    }
}

impl Ordinal for u32 {
    open spec fn spec_size() -> nat {
        4294967296
    }

    open spec fn spec_size_ok() -> bool {
        u32::MAX as nat + 1 <= usize::MAX
    }

    open spec fn spec_ordinal(&self) -> nat {
        *self as nat
    }

    proof fn lemma_size_ok() {
    }

    proof fn lemma_ordinal_bound(v: &Self) {
    }

    proof fn lemma_ordinal_surjective(i: nat) {
        let v = i as u32;
        assert(v.spec_ordinal() == i);
    }

    proof fn lemma_ordinal_injective(a: &Self, b: &Self) {
    }

    fn ordinal_size() -> (r: usize) {
        (u32::MAX as usize) + 1
    }

    fn ordinal(&self) -> (r: usize) {
        *self as usize
    }

    fn from_ordinal(ordinal: usize) -> (r: Option<Self>) {
        if ordinal <= u32::MAX as usize {
            Some(ordinal as u32)
        } else {
            None
        }
    }
}

impl Ordinal for i32 {
    open spec fn spec_size() -> nat {
        4294967296
    }

    open spec fn spec_size_ok() -> bool {
        u32::MAX as nat + 1 <= usize::MAX
    }

    /// Shifted by the minimum, so that `i32::MIN` is numbered 0.
    open spec fn spec_ordinal(&self) -> nat {
        (*self - i32::MIN) as nat
    }

    proof fn lemma_size_ok() {
    }

    proof fn lemma_ordinal_bound(v: &Self) {
    }

    proof fn lemma_ordinal_surjective(i: nat) {
        let v = (i + i32::MIN) as i32;
        assert(v.spec_ordinal() == i);
    }

    proof fn lemma_ordinal_injective(a: &Self, b: &Self) {
    }

    fn ordinal_size() -> (r: usize) {
        (u32::MAX as usize) + 1
    }

    fn ordinal(&self) -> (r: usize) {
        (*self as i64 - i32::MIN as i64) as usize
    }

    fn from_ordinal(ordinal: usize) -> (r: Option<Self>) {
        if ordinal <= u32::MAX as usize {
            Some((ordinal as i64 + i32::MIN as i64) as i32)
        } else {
            None
        }
    }
}

/// Numbers follow the natural order of booleans and of the integer types.
pub proof fn lemma_primitive_order(
    a: bool, b: bool, c: u8, d: u8, e: i8, f: i8, g: u16, h: u16, i: i16, j: i16, k: u32, l: u32,
    m: i32, n: i32,
)
    ensures
        (!a && b) <==> a.spec_ordinal() < b.spec_ordinal(),
        c < d <==> c.spec_ordinal() < d.spec_ordinal(),
        e < f <==> e.spec_ordinal() < f.spec_ordinal(),
        g < h <==> g.spec_ordinal() < h.spec_ordinal(),
        i < j <==> i.spec_ordinal() < j.spec_ordinal(),
        k < l <==> k.spec_ordinal() < l.spec_ordinal(),
        m < n <==> m.spec_ordinal() < n.spec_ordinal(),
{
}

/// Numbers follow the order of `char`s.
pub proof fn lemma_char_order(a: char, b: char)
    ensures
        (a as u32) < (b as u32) <==> a.spec_ordinal() < b.spec_ordinal(),
{
    vstd::utf8::char_is_scalar(a);
    vstd::utf8::char_is_scalar(b);
}

/// Start of the surrogate gap, which holds no `char`.
pub const SURROGATE_START: u32 = 0xd800;

/// Width of the surrogate gap.
pub const SURROGATE_LEN: u32 = 0x800;

/// Whether `v` is the code of a `char`: not a surrogate, at most `0x10ffff`.
pub open spec fn is_char_code(v: nat) -> bool {
    v < 0xd800 || (0xe000 <= v && v <= 0x10ffff)
}

/// Relies on `char::from_u32`, which returns the `char` with the given code,
/// or `None` where the code is a surrogate or past `char::MAX`.
#[verifier::external_body]
fn char_from_code(v: u32) -> (r: Option<char>)
    ensures
        r.is_some() <==> is_char_code(v as nat),
        r matches Some(c) ==> c as u32 == v,
{
    char::from_u32(v)
}

/// Codes below the gap keep their value; those above it move down by its width.
impl Ordinal for char {
    open spec fn spec_size() -> nat {
        0x10f800
    }

    open spec fn spec_size_ok() -> bool {
        true
    }

    open spec fn spec_ordinal(&self) -> nat {
        let code = *self as u32 as nat;
        if code < 0xd800 {
            code
        } else {
            (code - 0x800) as nat
        }
    }

    proof fn lemma_size_ok() {
    }

    proof fn lemma_ordinal_bound(v: &Self) {
        vstd::utf8::char_is_scalar(*v);
    }

    proof fn lemma_ordinal_surjective(i: nat) {
        let code: nat = if i < 0xd800 { i } else { i + 0x800 };
        let c = (code as u32) as char;
        assert(c as u32 as nat == code);
        assert(c.spec_ordinal() == i);
    }

    proof fn lemma_ordinal_injective(a: &Self, b: &Self) {
        vstd::utf8::char_is_scalar(*a);
        vstd::utf8::char_is_scalar(*b);
        vstd::utf8::char_u32_cast(*a, *a as u32);
        vstd::utf8::char_u32_cast(*b, *b as u32);
    }

    fn ordinal_size() -> (r: usize) {
        0x10f800
    }

    fn ordinal(&self) -> (r: usize) {
        proof {
            vstd::utf8::char_is_scalar(*self);
        }
        let c = *self as u32;
        if c < SURROGATE_START {
            c as usize
        } else {
            (c - SURROGATE_LEN) as usize
        }
    }

    fn from_ordinal(ordinal: usize) -> (r: Option<Self>) {
        if ordinal < SURROGATE_START as usize {
            char_from_code(ordinal as u32)
        } else if ordinal < 0x10f800 {
            char_from_code(ordinal as u32 + SURROGATE_LEN)
        } else {
            None
        }
    }
}

impl Ordinal for std::cmp::Ordering {
    open spec fn spec_size() -> nat {
        3
    }

    open spec fn spec_size_ok() -> bool {
        true
    }

    open spec fn spec_ordinal(&self) -> nat {
        match *self {
            std::cmp::Ordering::Less => 0,
            std::cmp::Ordering::Equal => 1,
            std::cmp::Ordering::Greater => 2,
        }
    }

    proof fn lemma_size_ok() {
    }

    proof fn lemma_ordinal_bound(v: &Self) {
    }

    proof fn lemma_ordinal_surjective(i: nat) {
        if i == 0 {
            assert(std::cmp::Ordering::Less.spec_ordinal() == i);
        } else if i == 1 {
            assert(std::cmp::Ordering::Equal.spec_ordinal() == i);
        } else {
            assert(std::cmp::Ordering::Greater.spec_ordinal() == i);
        }
    }

    proof fn lemma_ordinal_injective(a: &Self, b: &Self) {
    }

    fn ordinal_size() -> (r: usize) {
        3
    }

    fn ordinal(&self) -> (r: usize) {
        match self {
            std::cmp::Ordering::Less => 0,
            std::cmp::Ordering::Equal => 1,
            std::cmp::Ordering::Greater => 2,
        }
    }

    fn from_ordinal(ordinal: usize) -> (r: Option<Self>) {
        match ordinal {
            0 => Some(std::cmp::Ordering::Less),
            1 => Some(std::cmp::Ordering::Equal),
            2 => Some(std::cmp::Ordering::Greater),
            _ => None,
        }
    }
}

} // verus!
