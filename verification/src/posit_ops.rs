//! The arithmetic of the four bounded-posit formats, done by `fast-posit` on raw bit patterns.
//!
//! Each operation's result is given a name:
//! [`posit_sum`], [`posit_product`] and [`posit_quotient`], each applied to the width `n` and the
//! two `n`-bit operand patterns. Beside them stand the facts that the crate's source shows in a
//! few lines (NaR propagates, adding zero returns the other operand, multiplying by zero gives
//! zero, dividing by zero gives NaR) and the rounding rule its documentation states for every
//! operation: the exact result rounded to nearest, ties to the even pattern, never to zero and
//! never past maxpos.

use vstd::prelude::*;
use vstd::arithmetic::power2::pow2;
use fast_posit::Posit;
use crate::format::Format;
use crate::grid::rounds_to;
use crate::inspect::is_nar;
use crate::order::signed_units;

verus! {

/// The `n`-bit pattern that `fast-posit` returns for `a + b`.
pub uninterp spec fn posit_sum(n: nat, a: nat, b: nat) -> nat;

/// The `n`-bit pattern that `fast-posit` returns for `a × b`.
pub uninterp spec fn posit_product(n: nat, a: nat, b: nat) -> nat;

/// The `n`-bit pattern that `fast-posit` returns for `a ÷ b`.
pub uninterp spec fn posit_quotient(n: nat, a: nat, b: nat) -> nat;

/// The NaR pattern `0b100…0` of width `n`.
pub open spec fn nar_pattern(n: nat) -> nat {
    pow2((n - 1) as nat)
}

/// Two's complement negation within `n` bits.
pub open spec fn neg_pattern(n: nat, a: nat) -> nat {
    if a == 0 {
        0
    } else {
        (pow2(n) - a) as nat
    }
}

/// What `Posit::add` is shown to do before rounding: NaR in gives NaR out; when the wrapped
/// sum of the patterns is 0 or equals an operand (one operand is zero, or they are negations
/// of each other) that sum is returned as is.
pub open spec fn sum_facts(n: nat, a: nat, b: nat, r: nat) -> bool {
    let s = (a + b) % pow2(n);
    &&& (a == nar_pattern(n) || b == nar_pattern(n)) ==> r == nar_pattern(n)
    &&& (a != nar_pattern(n) && b != nar_pattern(n) && (s == 0 || s == a || s == b)) ==> r == s
}

/// What `Posit::mul` is shown to do before rounding: NaR in gives NaR out, and a zero operand
/// gives zero.
pub open spec fn product_facts(n: nat, a: nat, b: nat, r: nat) -> bool {
    &&& (a == nar_pattern(n) || b == nar_pattern(n)) ==> r == nar_pattern(n)
    &&& (a != nar_pattern(n) && b != nar_pattern(n) && (a == 0 || b == 0)) ==> r == 0
}

/// What `Posit::div` is shown to do before rounding: NaR in or a zero divisor gives NaR, and a
/// zero dividend otherwise gives zero.
pub open spec fn quotient_facts(n: nat, a: nat, b: nat, r: nat) -> bool {
    &&& (a == nar_pattern(n) || b == nar_pattern(n) || b == 0) ==> r == nar_pattern(n)
    &&& (a != nar_pattern(n) && b != nar_pattern(n) && b != 0 && a == 0) ==> r == 0
}

/// `r` is what the signed exact value `num / den` (in units of `2^−1084`) correctly rounds to:
/// zero for zero, and otherwise the pattern of the same sign whose magnitude is the nearest
/// positive pattern, ties to the even pattern, never rounding to zero or past maxpos.
pub open spec fn rounds_signed(fmt: Format, num: int, den: nat, r: nat) -> bool {
    if num == 0 {
        r == 0
    } else {
        &&& r < fmt.modulus()
        &&& rounds_to(
            fmt,
            (if num < 0 { -num } else { num }) as nat,
            den,
            if num < 0 { neg_pattern(fmt.nbits(), r) } else { r },
        )
    }
}

/// `r` is the correctly rounded exact sum of the numbers `a` and `b` (neither NaR).
pub open spec fn sum_rounds(fmt: Format, a: nat, b: nat, r: nat) -> bool {
    (!is_nar(fmt, a as u64) && !is_nar(fmt, b as u64)) ==> rounds_signed(
        fmt,
        signed_units(fmt, a as u64) + signed_units(fmt, b as u64),
        1,
        r,
    )
}

/// `r` is the correctly rounded exact product of the numbers `a` and `b` (neither NaR).
pub open spec fn product_rounds(fmt: Format, a: nat, b: nat, r: nat) -> bool {
    (!is_nar(fmt, a as u64) && !is_nar(fmt, b as u64)) ==> rounds_signed(
        fmt,
        signed_units(fmt, a as u64) * signed_units(fmt, b as u64),
        pow2(1084),
        r,
    )
}

/// `r` is the correctly rounded exact quotient of the numbers `a` and `b` (neither NaR, `b`
/// not zero).
pub open spec fn quotient_rounds(fmt: Format, a: nat, b: nat, r: nat) -> bool {
    let x = signed_units(fmt, a as u64);
    let y = signed_units(fmt, b as u64);
    (!is_nar(fmt, a as u64) && !is_nar(fmt, b as u64) && y != 0) ==> rounds_signed(
        fmt,
        if y < 0 { -(x * pow2(1084)) } else { x * pow2(1084) },
        (if y < 0 { -y } else { y }) as nat,
        r,
    )
}

/// `Posit<8, 2, i8, 2>` addition (`<Posit as Add>::add`) on raw patterns.
#[verifier::external_body]
pub(crate) fn p8_add(a: u8, b: u8) -> (r: u8)
    ensures
        r as nat == posit_sum(8, a as nat, b as nat),
        sum_facts(8, a as nat, b as nat, r as nat),
        sum_rounds(Format::B8, a as nat, b as nat, r as nat),
{
    let x = Posit::<8, 2, i8, 2>::from_bits(a as i8);
    let y = Posit::<8, 2, i8, 2>::from_bits(b as i8);
    (x + y).to_bits() as u8
}

/// `Posit<8, 2, i8, 2>` subtraction (`<Posit as Sub>::sub`), which the crate defines as adding
/// the negation.
#[verifier::external_body]
pub(crate) fn p8_sub(a: u8, b: u8) -> (r: u8)
    ensures
        r as nat == posit_sum(8, a as nat, neg_pattern(8, b as nat)),
        sum_facts(8, a as nat, neg_pattern(8, b as nat), r as nat),
        sum_rounds(Format::B8, a as nat, neg_pattern(8, b as nat), r as nat),
{
    let x = Posit::<8, 2, i8, 2>::from_bits(a as i8);
    let y = Posit::<8, 2, i8, 2>::from_bits(b as i8);
    (x - y).to_bits() as u8
}

/// `Posit<8, 2, i8, 2>` multiplication (`<Posit as Mul>::mul`).
#[verifier::external_body]
pub(crate) fn p8_mul(a: u8, b: u8) -> (r: u8)
    ensures
        r as nat == posit_product(8, a as nat, b as nat),
        product_facts(8, a as nat, b as nat, r as nat),
        product_rounds(Format::B8, a as nat, b as nat, r as nat),
{
    let x = Posit::<8, 2, i8, 2>::from_bits(a as i8);
    let y = Posit::<8, 2, i8, 2>::from_bits(b as i8);
    (x * y).to_bits() as u8
}

/// `Posit<8, 2, i8, 2>` division (`<Posit as Div>::div`).
#[verifier::external_body]
pub(crate) fn p8_div(a: u8, b: u8) -> (r: u8)
    ensures
        r as nat == posit_quotient(8, a as nat, b as nat),
        quotient_facts(8, a as nat, b as nat, r as nat),
        quotient_rounds(Format::B8, a as nat, b as nat, r as nat),
{
    let x = Posit::<8, 2, i8, 2>::from_bits(a as i8);
    let y = Posit::<8, 2, i8, 2>::from_bits(b as i8);
    (x / y).to_bits() as u8
}

/// `Posit<16, 4, i16, 8>` addition (`<Posit as Add>::add`).
#[verifier::external_body]
pub(crate) fn p16_add(a: u16, b: u16) -> (r: u16)
    ensures
        r as nat == posit_sum(16, a as nat, b as nat),
        sum_facts(16, a as nat, b as nat, r as nat),
        sum_rounds(Format::B16, a as nat, b as nat, r as nat),
{
    let x = Posit::<16, 4, i16, 8>::from_bits(a as i16);
    let y = Posit::<16, 4, i16, 8>::from_bits(b as i16);
    (x + y).to_bits() as u16
}

/// `Posit<16, 4, i16, 8>` subtraction (`<Posit as Sub>::sub`), which the crate defines as adding
/// the negation.
#[verifier::external_body]
pub(crate) fn p16_sub(a: u16, b: u16) -> (r: u16)
    ensures
        r as nat == posit_sum(16, a as nat, neg_pattern(16, b as nat)),
        sum_facts(16, a as nat, neg_pattern(16, b as nat), r as nat),
        sum_rounds(Format::B16, a as nat, neg_pattern(16, b as nat), r as nat),
{
    let x = Posit::<16, 4, i16, 8>::from_bits(a as i16);
    let y = Posit::<16, 4, i16, 8>::from_bits(b as i16);
    (x - y).to_bits() as u16
}

/// `Posit<16, 4, i16, 8>` multiplication (`<Posit as Mul>::mul`).
#[verifier::external_body]
pub(crate) fn p16_mul(a: u16, b: u16) -> (r: u16)
    ensures
        r as nat == posit_product(16, a as nat, b as nat),
        product_facts(16, a as nat, b as nat, r as nat),
        product_rounds(Format::B16, a as nat, b as nat, r as nat),
{
    let x = Posit::<16, 4, i16, 8>::from_bits(a as i16);
    let y = Posit::<16, 4, i16, 8>::from_bits(b as i16);
    (x * y).to_bits() as u16
}

/// `Posit<16, 4, i16, 8>` division (`<Posit as Div>::div`).
#[verifier::external_body]
pub(crate) fn p16_div(a: u16, b: u16) -> (r: u16)
    ensures
        r as nat == posit_quotient(16, a as nat, b as nat),
        quotient_facts(16, a as nat, b as nat, r as nat),
        quotient_rounds(Format::B16, a as nat, b as nat, r as nat),
{
    let x = Posit::<16, 4, i16, 8>::from_bits(a as i16);
    let y = Posit::<16, 4, i16, 8>::from_bits(b as i16);
    (x / y).to_bits() as u16
}

/// `Posit<32, 4, i32, 14>` addition (`<Posit as Add>::add`).
#[verifier::external_body]
pub(crate) fn p32_add(a: u32, b: u32) -> (r: u32)
    ensures
        r as nat == posit_sum(32, a as nat, b as nat),
        sum_facts(32, a as nat, b as nat, r as nat),
        sum_rounds(Format::B32, a as nat, b as nat, r as nat),
{
    let x = Posit::<32, 4, i32, 14>::from_bits(a as i32);
    let y = Posit::<32, 4, i32, 14>::from_bits(b as i32);
    (x + y).to_bits() as u32
}

/// `Posit<32, 4, i32, 14>` subtraction (`<Posit as Sub>::sub`), which the crate defines as adding
/// the negation.
#[verifier::external_body]
pub(crate) fn p32_sub(a: u32, b: u32) -> (r: u32)
    ensures
        r as nat == posit_sum(32, a as nat, neg_pattern(32, b as nat)),
        sum_facts(32, a as nat, neg_pattern(32, b as nat), r as nat),
        sum_rounds(Format::B32, a as nat, neg_pattern(32, b as nat), r as nat),
{
    let x = Posit::<32, 4, i32, 14>::from_bits(a as i32);
    let y = Posit::<32, 4, i32, 14>::from_bits(b as i32);
    (x - y).to_bits() as u32
}

/// `Posit<32, 4, i32, 14>` multiplication (`<Posit as Mul>::mul`).
#[verifier::external_body]
pub(crate) fn p32_mul(a: u32, b: u32) -> (r: u32)
    ensures
        r as nat == posit_product(32, a as nat, b as nat),
        product_facts(32, a as nat, b as nat, r as nat),
        product_rounds(Format::B32, a as nat, b as nat, r as nat),
{
    let x = Posit::<32, 4, i32, 14>::from_bits(a as i32);
    let y = Posit::<32, 4, i32, 14>::from_bits(b as i32);
    (x * y).to_bits() as u32
}

/// `Posit<32, 4, i32, 14>` division (`<Posit as Div>::div`).
#[verifier::external_body]
pub(crate) fn p32_div(a: u32, b: u32) -> (r: u32)
    ensures
        r as nat == posit_quotient(32, a as nat, b as nat),
        quotient_facts(32, a as nat, b as nat, r as nat),
        quotient_rounds(Format::B32, a as nat, b as nat, r as nat),
{
    let x = Posit::<32, 4, i32, 14>::from_bits(a as i32);
    let y = Posit::<32, 4, i32, 14>::from_bits(b as i32);
    (x / y).to_bits() as u32
}

/// `Posit<64, 4, i64, 20>` addition (`<Posit as Add>::add`).
#[verifier::external_body]
pub(crate) fn p64_add(a: u64, b: u64) -> (r: u64)
    ensures
        r as nat == posit_sum(64, a as nat, b as nat),
        sum_facts(64, a as nat, b as nat, r as nat),
        sum_rounds(Format::B64, a as nat, b as nat, r as nat),
{
    let x = Posit::<64, 4, i64, 20>::from_bits(a as i64);
    let y = Posit::<64, 4, i64, 20>::from_bits(b as i64);
    (x + y).to_bits() as u64
}

/// `Posit<64, 4, i64, 20>` subtraction (`<Posit as Sub>::sub`), which the crate defines as adding
/// the negation.
#[verifier::external_body]
pub(crate) fn p64_sub(a: u64, b: u64) -> (r: u64)
    ensures
        r as nat == posit_sum(64, a as nat, neg_pattern(64, b as nat)),
        sum_facts(64, a as nat, neg_pattern(64, b as nat), r as nat),
        sum_rounds(Format::B64, a as nat, neg_pattern(64, b as nat), r as nat),
{
    let x = Posit::<64, 4, i64, 20>::from_bits(a as i64);
    let y = Posit::<64, 4, i64, 20>::from_bits(b as i64);
    (x - y).to_bits() as u64
}

/// `Posit<64, 4, i64, 20>` multiplication (`<Posit as Mul>::mul`).
#[verifier::external_body]
pub(crate) fn p64_mul(a: u64, b: u64) -> (r: u64)
    ensures
        r as nat == posit_product(64, a as nat, b as nat),
        product_facts(64, a as nat, b as nat, r as nat),
        product_rounds(Format::B64, a as nat, b as nat, r as nat),
{
    let x = Posit::<64, 4, i64, 20>::from_bits(a as i64);
    let y = Posit::<64, 4, i64, 20>::from_bits(b as i64);
    (x * y).to_bits() as u64
}

/// `Posit<64, 4, i64, 20>` division (`<Posit as Div>::div`).
#[verifier::external_body]
pub(crate) fn p64_div(a: u64, b: u64) -> (r: u64)
    ensures
        r as nat == posit_quotient(64, a as nat, b as nat),
        quotient_facts(64, a as nat, b as nat, r as nat),
        quotient_rounds(Format::B64, a as nat, b as nat, r as nat),
{
    let x = Posit::<64, 4, i64, 20>::from_bits(a as i64);
    let y = Posit::<64, 4, i64, 20>::from_bits(b as i64);
    (x / y).to_bits() as u64
}

} // verus!
