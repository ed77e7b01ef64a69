//! The four standard bounded-posit formats, their arithmetic, and exact conversion into them.
//!
//! Parameters follow the reference definition: `es = min(4, n / 4)` and `k_max = 1, 7, 13, 19`
//! for `n = 8, 16, 32, 64`. `fast-posit` parameterises the cap as `RS`, the maximum number of
//! regime bits, which is `k_max + 1`.

use vstd::prelude::*;
use vstd::arithmetic::power2::{lemma2_to64, lemma2_to64_rest, pow2};
use crate::bits::{decode, decode_params_ok, mask_n, spec_decode, Fields, Special, HIDDEN_BIT};
use crate::grid::{
    lemma_fields_magnitude, lemma_pattern_mag, lemma_pattern_order, lemma_pattern_step,
    lemma_units_order, mag_fields_ok, mag_units, max_pattern, pattern_exp, pattern_frac,
    pattern_units, rounds_to, bits_units, rounds_to_bits, lemma_bits_step,
};
use core::cmp::Ordering;
use crate::bignum::Big;
use crate::literal::{decimal_literal, parse_literal};
use crate::text::{str_trim, trimmed};
use vstd::utf8::encode_utf8;
use crate::arith::{lemma_pow10_pos, lemma_pow10_split, lemma_pow5_pos, pow10, pow5};
use crate::posit_ops::{
    neg_pattern, nar_pattern, p16_add, p16_div, p16_mul, p16_sub, p32_add, p32_div, p32_mul,
    p32_sub, p64_add, p64_div, p64_mul, p64_sub, p8_add, p8_div, p8_mul, p8_sub, posit_product,
    posit_quotient, posit_sum, product_facts, quotient_facts, rounds_signed, sum_facts, sum_rounds,
};
use crate::inspect::is_nar;
use crate::order::signed_units;

verus! {

#[derive(Clone, Copy, PartialEq, Eq, Structural, Debug)]
pub enum Format {
    B8,
    B16,
    B32,
    B64,
}

#[derive(Clone, Copy, PartialEq, Eq, Structural, Debug)]
pub enum BinOp {
    Add,
    Sub,
    Mul,
    Div,
}

#[derive(Clone, Copy, PartialEq, Eq, Structural, Debug)]
pub enum UnOp {
    Neg,
    Recip,
    Double,
    Half,
}

impl Format {
    /// Width in bits.
    pub open spec fn nbits(self) -> nat {
        match self {
            Format::B8 => 8,
            Format::B16 => 16,
            Format::B32 => 32,
            Format::B64 => 64,
        }
    }

    /// Exponent field width, `min(4, n / 4)`.
    pub open spec fn es_bits(self) -> nat {
        match self {
            Format::B8 => 2,
            _ => 4,
        }
    }

    /// Largest regime value.
    pub open spec fn kmax_value(self) -> nat {
        match self {
            Format::B8 => 1,
            Format::B16 => 7,
            Format::B32 => 13,
            Format::B64 => 19,
        }
    }

    /// The position of this format in the list B8, B16, B32, B64.
    pub open spec fn position(self) -> nat {
        match self {
            Format::B8 => 0,
            Format::B16 => 1,
            Format::B32 => 2,
            Format::B64 => 3,
        }
    }

    /// All `n`-bit patterns are below this.
    pub open spec fn modulus(self) -> nat {
        pow2(self.nbits())
    }

    /// The fields of a pattern under this format's cap.
    pub open spec fn fields_of(self, bits: u64) -> Fields {
        spec_decode(bits, self.nbits(), self.es_bits(), self.kmax_value())
    }

    pub fn name(self) -> (s: &'static str)
        ensures
            s@ == match self {
                Format::B8 => "BPosit8"@,
                Format::B16 => "BPosit16"@,
                Format::B32 => "BPosit32"@,
                Format::B64 => "BPosit64"@,
            },
    {
        match self {
            Format::B8 => "BPosit8",
            Format::B16 => "BPosit16",
            Format::B32 => "BPosit32",
            Format::B64 => "BPosit64",
        }
    }

    pub fn n(self) -> (r: u32)
        ensures
            r as nat == self.nbits(),
    {
        match self {
            Format::B8 => 8,
            Format::B16 => 16,
            Format::B32 => 32,
            Format::B64 => 64,
        }
    }

    /// `es = min(4, n / 4)`.
    pub fn es(self) -> (r: u32)
        ensures
            r as nat == self.es_bits(),
    {
        match self {
            Format::B8 => 2,
            _ => 4,
        }
    }

    pub fn kmax(self) -> (r: u32)
        ensures
            r as nat == self.kmax_value(),
    {
        match self {
            Format::B8 => 1,
            Format::B16 => 7,
            Format::B32 => 13,
            Format::B64 => 19,
        }
    }

    /// Maximum regime run length, `k_max + 1`, the quantity `fast-posit` calls `RS`.
    pub fn cap(self) -> (r: u32)
        ensures
            r as nat == self.kmax_value() + 1,
    {
        self.kmax() + 1
    }

    /// The guaranteed fraction-bit floor, `n - 1 - cap - es`.
    pub fn p_min(self) -> (r: u32)
        ensures
            r as nat == self.nbits() - 1 - (self.kmax_value() + 1) - self.es_bits(),
    {
        self.n() - 1 - self.cap() - self.es()
    }

    /// The format at position `i` of B8, B16, B32, B64, clamped to the last.
    pub fn from_index(i: u32) -> (f: Format)
        ensures
            f.position() == if i < 3 { i as nat } else { 3 },
    {
        match i {
            0 => Format::B8,
            1 => Format::B16,
            2 => Format::B32,
            _ => Format::B64,
        }
    }

    pub fn index(self) -> (r: u32)
        ensures
            r as nat == self.position(),
    {
        match self {
            Format::B8 => 0,
            Format::B16 => 1,
            Format::B32 => 2,
            Format::B64 => 3,
        }
    }

    pub fn mask(self) -> (r: u64)
        ensures
            r as nat == self.modulus() - 1,
    {
        mask_n(self.n())
    }

    /// The parameters of every standard format are ones `decode` accepts.
    pub proof fn lemma_params_ok(self)
        ensures
            decode_params_ok(self.nbits() as u32, self.es_bits() as u32, self.kmax_value() as u32),
            decode_params_ok(self.nbits() as u32, self.es_bits() as u32, (self.nbits() - 1) as u32),
    {
        lemma2_to64();
        lemma2_to64_rest();
    }

    /// Decode under this format's cap.
    pub fn decode(self, bits: u64) -> (f: Fields)
        ensures
            f == self.fields_of(bits),
    {
        proof {
            self.lemma_params_ok();
        }
        decode(bits, self.n(), self.es(), self.kmax())
    }

    /// Decode the same bit pattern as if the regime were not capped: as an ordinary posit with
    /// the same `n` and `es`. This is the "unbounded shadow" shown alongside.
    pub fn decode_unbounded(self, bits: u64) -> (f: Fields)
        ensures
            f == spec_decode(bits, self.nbits(), self.es_bits(), (self.nbits() - 1) as nat),
    {
        proof {
            self.lemma_params_ok();
        }
        decode(bits, self.n(), self.es(), self.n() - 1)
    }

    pub fn nar_bits(self) -> (r: u64)
        ensures
            r as nat == nar_pattern(self.nbits()),
    {
        proof {
            vstd::bits::lemma_u64_pow2_no_overflow((self.nbits() - 1) as nat);
            vstd::arithmetic::mul::lemma_mul_basics(pow2((self.nbits() - 1) as nat) as int);
            vstd::bits::lemma_u64_shl_is_mul(1, (self.nbits() - 1) as u64);
        }
        1u64 << (self.n() - 1)
    }

    pub fn max_bits(self) -> (r: u64)
        ensures
            r as nat == nar_pattern(self.nbits()) - 1,
    {
        proof {
            vstd::arithmetic::power2::lemma_pow2_pos((self.nbits() - 1) as nat);
        }
        self.nar_bits() - 1
    }

    pub fn min_positive_bits(self) -> (r: u64)
        ensures
            r == 1,
    {
        1
    }
}

/// The pattern that a binary operation yields, on `n`-bit operand patterns.
pub open spec fn bin_op_result(fmt: Format, op: BinOp, a: nat, b: nat) -> nat {
    let n = fmt.nbits();
    match op {
        BinOp::Add => posit_sum(n, a, b),
        BinOp::Sub => posit_sum(n, a, neg_pattern(n, b)),
        BinOp::Mul => posit_product(n, a, b),
        BinOp::Div => posit_quotient(n, a, b),
    }
}

/// The pattern of the posit one, `0b0100…0`.
pub open spec fn one_pattern(n: nat) -> nat {
    pow2((n - 2) as nat)
}

/// The pattern that a unary operation yields on an `n`-bit operand pattern. Doubling and
/// halving go through real posit multiplication and division by `1 + 1`.
pub open spec fn un_op_result(fmt: Format, op: UnOp, a: nat) -> nat {
    let n = fmt.nbits();
    let two = posit_sum(n, one_pattern(n), one_pattern(n));
    match op {
        UnOp::Neg => neg_pattern(n, a),
        UnOp::Recip => posit_quotient(n, one_pattern(n), a),
        UnOp::Double => posit_product(n, a, two),
        UnOp::Half => posit_quotient(n, a, two),
    }
}

/// Low 8, 16 and 32 bits of a pattern.
proof fn lemma_truncations(a: u64)
    ensures
        (a as u8) as nat == (a as nat) % 0x100,
        (a as u16) as nat == (a as nat) % 0x1_0000,
        (a as u32) as nat == (a as nat) % 0x1_0000_0000,
{
    assert((a as u8) == a % 0x100) by (bit_vector);
    assert((a as u16) == a % 0x1_0000) by (bit_vector);
    assert((a as u32) == a % 0x1_0000_0000) by (bit_vector);
}

/// What the crate's source shows of a binary operation on `n`-bit operand patterns.
pub open spec fn bin_op_facts(fmt: Format, op: BinOp, a: nat, b: nat, r: nat) -> bool {
    let n = fmt.nbits();
    match op {
        BinOp::Add => sum_facts(n, a, b, r),
        BinOp::Sub => sum_facts(n, a, neg_pattern(n, b), r),
        BinOp::Mul => product_facts(n, a, b, r),
        BinOp::Div => quotient_facts(n, a, b, r),
    }
}

/// The rounding of a binary operation on two numbers (neither NaR): the exact sum, difference,
/// product or quotient, correctly rounded. Values are in units of `2^−1084`, with their sign.
pub open spec fn bin_op_rounds(fmt: Format, op: BinOp, a: nat, b: nat, r: nat) -> bool {
    let x = signed_units(fmt, a as u64);
    let y = signed_units(fmt, b as u64);
    (!is_nar(fmt, a as u64) && !is_nar(fmt, b as u64)) ==> match op {
        BinOp::Add => rounds_signed(fmt, x + y, 1, r),
        BinOp::Sub => rounds_signed(fmt, x - y, 1, r),
        BinOp::Mul => rounds_signed(fmt, x * y, pow2(1084), r),
        BinOp::Div => y != 0 ==> rounds_signed(
            fmt,
            if y < 0 { -(x * pow2(1084)) } else { x * pow2(1084) },
            (if y < 0 { -y } else { y }) as nat,
            r,
        ),
    }
}

/// The value of the negation of a pattern is the negation of its value, and NaR stays NaR.
proof fn lemma_negated_units(fmt: Format, b: nat)
    requires
        b < fmt.modulus(),
    ensures
        is_nar(fmt, neg_pattern(fmt.nbits(), b) as u64) == is_nar(fmt, b as u64),
        signed_units(fmt, neg_pattern(fmt.nbits(), b) as u64) == -signed_units(fmt, b as u64),
{
    let n = fmt.nbits();
    lemma2_to64();
    lemma2_to64_rest();
    vstd::arithmetic::power2::lemma_pow2_adds(1, (n - 1) as nat);
    assert(n == 1 + (n - 1) as nat);
    let w = neg_pattern(n, b);
    vstd::arithmetic::div_mod::lemma_small_mod(b, pow2(n));
    vstd::arithmetic::div_mod::lemma_small_mod(w, pow2(n));
    assert((b as u64) as nat == b);
    assert((w as u64) as nat == w);
    if b != 0 && b != nar_pattern(n) {
        crate::bits::lemma_decode_negation(b as u64, w as u64, n, fmt.es_bits(), fmt.kmax_value());
    }
}

/// Negation is exact: the negation of a number is the number whose value is its value negated,
/// and NaR stays NaR.
pub proof fn lemma_negation_exact(fmt: Format, a: nat)
    requires
        a < fmt.modulus(),
    ensures
        un_op_result(fmt, UnOp::Neg, a) < fmt.modulus(),
        is_nar(fmt, un_op_result(fmt, UnOp::Neg, a) as u64) == is_nar(fmt, a as u64),
        signed_units(fmt, un_op_result(fmt, UnOp::Neg, a) as u64) == -signed_units(fmt, a as u64),
{
    lemma_negated_units(fmt, a);
    lemma2_to64();
    lemma2_to64_rest();
}

/// The laws of posit arithmetic on special operands: NaR propagates through every operation,
/// dividing by zero gives NaR, multiplying a number by zero gives zero, adding or subtracting
/// zero leaves a number unchanged, and a number minus itself is zero.
pub open spec fn bin_op_laws(fmt: Format, op: BinOp, a: nat, b: nat, r: nat) -> bool {
    let nar = nar_pattern(fmt.nbits());
    &&& (a == nar || b == nar) ==> r == nar
    &&& (op == BinOp::Div && b == 0) ==> r == nar
    &&& (op == BinOp::Mul && a != nar && b != nar && (a == 0 || b == 0)) ==> r == 0
    &&& ((op == BinOp::Add || op == BinOp::Sub) && a != nar && b == 0) ==> r == a
    &&& (op == BinOp::Add && a == 0 && b != nar) ==> r == b
    &&& (op == BinOp::Sub && a != nar && a == b) ==> r == 0
}

/// The laws follow from what the crate's source shows.
proof fn lemma_bin_op_laws(fmt: Format, op: BinOp, a: nat, b: nat, r: nat)
    requires
        a < fmt.modulus(),
        b < fmt.modulus(),
        bin_op_facts(fmt, op, a, b, r),
    ensures
        bin_op_laws(fmt, op, a, b, r),
{
    let n = fmt.nbits();
    lemma2_to64();
    lemma2_to64_rest();
    vstd::arithmetic::power2::lemma_pow2_adds(1, (n - 1) as nat);
    assert(n == 1 + (n - 1) as nat);
    vstd::arithmetic::div_mod::lemma_small_mod(a, pow2(n));
    vstd::arithmetic::div_mod::lemma_small_mod(b, pow2(n));
    vstd::arithmetic::div_mod::lemma_mod_self_0(pow2(n) as int);
    assert(neg_pattern(n, nar_pattern(n)) == nar_pattern(n));
    assert(neg_pattern(n, 0) == 0);
    if op == BinOp::Sub && a != nar_pattern(n) && a == b && a != 0 {
        assert(a + neg_pattern(n, b) == pow2(n));
    }
}

/// Apply a binary operation using `fast-posit`, in and out as raw bit patterns.
pub fn bin_op(fmt: Format, op: BinOp, a: u64, b: u64) -> (r: u64)
    ensures
        r as nat == bin_op_result(fmt, op, (a as nat) % fmt.modulus(), (b as nat) % fmt.modulus()),
        (r as nat) < fmt.modulus(),
        bin_op_laws(fmt, op, (a as nat) % fmt.modulus(), (b as nat) % fmt.modulus(), r as nat),
        bin_op_rounds(fmt, op, (a as nat) % fmt.modulus(), (b as nat) % fmt.modulus(), r as nat),
{
    let r = bin_op_raw(fmt, op, a, b);
    proof {
        if op == BinOp::Sub {
            lemma_negated_units(fmt, (b as nat) % fmt.modulus());
        }
        vstd::arithmetic::power2::lemma_pow2_pos(fmt.nbits());
        vstd::arithmetic::div_mod::lemma_mod_bound(a as int, fmt.modulus() as int);
        vstd::arithmetic::div_mod::lemma_mod_bound(b as int, fmt.modulus() as int);
        lemma_bin_op_laws(fmt, op, (a as nat) % fmt.modulus(), (b as nat) % fmt.modulus(), r as nat);
    }
    r
}

/// [`bin_op`] with what the crate's source shows of it.
fn bin_op_raw(fmt: Format, op: BinOp, a: u64, b: u64) -> (r: u64)
    ensures
        r as nat == bin_op_result(fmt, op, (a as nat) % fmt.modulus(), (b as nat) % fmt.modulus()),
        (r as nat) < fmt.modulus(),
        bin_op_facts(fmt, op, (a as nat) % fmt.modulus(), (b as nat) % fmt.modulus(), r as nat),
        match op {
            BinOp::Sub => sum_rounds(
                fmt,
                (a as nat) % fmt.modulus(),
                neg_pattern(fmt.nbits(), (b as nat) % fmt.modulus()),
                r as nat,
            ),
            _ => bin_op_rounds(fmt, op, (a as nat) % fmt.modulus(), (b as nat) % fmt.modulus(), r as nat),
        },
{
    proof {
        lemma_truncations(a);
        lemma_truncations(b);
        lemma2_to64();
        lemma2_to64_rest();
        vstd::arithmetic::div_mod::lemma_small_mod(a as nat, pow2(64));
        vstd::arithmetic::div_mod::lemma_small_mod(b as nat, pow2(64));
    }
    match fmt {
        Format::B8 => {
            let (x, y) = (#[verifier::truncate] (a as u8), #[verifier::truncate] (b as u8));
            let r = match op {
                BinOp::Add => p8_add(x, y),
                BinOp::Sub => p8_sub(x, y),
                BinOp::Mul => p8_mul(x, y),
                BinOp::Div => p8_div(x, y),
            };
            r as u64
        },
        Format::B16 => {
            let (x, y) = (#[verifier::truncate] (a as u16), #[verifier::truncate] (b as u16));
            let r = match op {
                BinOp::Add => p16_add(x, y),
                BinOp::Sub => p16_sub(x, y),
                BinOp::Mul => p16_mul(x, y),
                BinOp::Div => p16_div(x, y),
            };
            r as u64
        },
        Format::B32 => {
            let (x, y) = (#[verifier::truncate] (a as u32), #[verifier::truncate] (b as u32));
            let r = match op {
                BinOp::Add => p32_add(x, y),
                BinOp::Sub => p32_sub(x, y),
                BinOp::Mul => p32_mul(x, y),
                BinOp::Div => p32_div(x, y),
            };
            r as u64
        },
        Format::B64 => {
            match op {
                BinOp::Add => p64_add(a, b),
                BinOp::Sub => p64_sub(a, b),
                BinOp::Mul => p64_mul(a, b),
                BinOp::Div => p64_div(a, b),
            }
        },
    }
}

/// Two's complement negation of an `n`-bit pattern.
fn negate_pattern(fmt: Format, a: u64) -> (r: u64)
    requires
        (a as nat) < fmt.modulus(),
    ensures
        r as nat == neg_pattern(fmt.nbits(), a as nat),
        (r as nat) < fmt.modulus(),
{
    let mask = fmt.mask();
    if a == 0 {
        0
    } else {
        (mask - a) + 1
    }
}

/// The laws of the unary operations on special operands: NaR propagates, and the reciprocal of
/// zero is NaR.
pub open spec fn un_op_laws(fmt: Format, op: UnOp, a: nat, r: nat) -> bool {
    let nar = nar_pattern(fmt.nbits());
    &&& a == nar ==> r == nar
    &&& (op == UnOp::Recip && a == 0) ==> r == nar
}

/// The rounding of a unary operation, as the binary operation it is done by: the reciprocal is
/// one divided by the number, and doubling and halving multiply and divide by the pattern `two`
/// that one plus one rounds to. Negation is exact: the value of a number, negated.
pub open spec fn un_op_rounds(fmt: Format, op: UnOp, a: nat, r: nat) -> bool {
    let n = fmt.nbits();
    let one = one_pattern(n);
    let two = posit_sum(n, one, one);
    match op {
        UnOp::Neg => !is_nar(fmt, a as u64) ==> signed_units(fmt, r as u64) == -signed_units(fmt, a as u64),
        UnOp::Recip => bin_op_rounds(fmt, BinOp::Div, one, a, r),
        UnOp::Double => bin_op_rounds(fmt, BinOp::Add, one, one, two) && bin_op_rounds(fmt, BinOp::Mul, a, two, r),
        UnOp::Half => bin_op_rounds(fmt, BinOp::Add, one, one, two) && bin_op_rounds(fmt, BinOp::Div, a, two, r),
    }
}

/// Apply a unary operation. Doubling and halving go through real posit multiplication and
/// division, so any rounding they incur is authentic rather than a bit twiddle.
pub fn un_op(fmt: Format, op: UnOp, a: u64) -> (r: u64)
    ensures
        r as nat == un_op_result(fmt, op, (a as nat) % fmt.modulus()),
        (r as nat) < fmt.modulus(),
        un_op_laws(fmt, op, (a as nat) % fmt.modulus(), r as nat),
        un_op_rounds(fmt, op, (a as nat) % fmt.modulus(), r as nat),
{
    let mask = fmt.mask();
    proof {
        let m = fmt.modulus();
        lemma2_to64_rest();
        if fmt.nbits() < 64 {
            vstd::bits::lemma_u64_pow2_no_overflow(fmt.nbits());
            vstd::bits::lemma_u64_low_bits_mask_is_mod(a, fmt.nbits());
        } else {
            assert(a & 0xffff_ffff_ffff_ffffu64 == a) by (bit_vector);
            vstd::arithmetic::div_mod::lemma_small_mod(a as nat, pow2(64));
        }
        vstd::arithmetic::power2::lemma_pow2_pos(fmt.nbits());
        vstd::arithmetic::div_mod::lemma_mod_bound(a as int, m as int);
    }
    let x = a & mask;
    assert(x as nat == (a as nat) % fmt.modulus());
    proof {
        vstd::arithmetic::div_mod::lemma_small_mod(x as nat, fmt.modulus());
    }
    match op {
        UnOp::Neg => {
            proof {
                vstd::arithmetic::power2::lemma_pow2_adds(1, (fmt.nbits() - 1) as nat);
                lemma2_to64();
                assert(fmt.nbits() == 1 + (fmt.nbits() - 1) as nat);
            }
            let r = negate_pattern(fmt, x);
            proof {
                lemma_negated_units(fmt, x as nat);
            }
            r
        },
        UnOp::Recip => {
            let one = one_bits(fmt);
            proof {
                vstd::arithmetic::div_mod::lemma_small_mod(one as nat, fmt.modulus());
            }
            bin_op(fmt, BinOp::Div, one, x)
        },
        UnOp::Double => {
            let one = one_bits(fmt);
            let two = bin_op(fmt, BinOp::Add, one, one);
            proof {
                vstd::arithmetic::div_mod::lemma_small_mod(one as nat, fmt.modulus());
                vstd::arithmetic::div_mod::lemma_small_mod(two as nat, fmt.modulus());
            }
            bin_op(fmt, BinOp::Mul, x, two)
        },
        UnOp::Half => {
            let one = one_bits(fmt);
            let two = bin_op(fmt, BinOp::Add, one, one);
            proof {
                vstd::arithmetic::div_mod::lemma_small_mod(one as nat, fmt.modulus());
                vstd::arithmetic::div_mod::lemma_small_mod(two as nat, fmt.modulus());
            }
            bin_op(fmt, BinOp::Div, x, two)
        },
    }
}

/// The pattern of one in `fmt`.
fn one_bits(fmt: Format) -> (r: u64)
    ensures
        r as nat == one_pattern(fmt.nbits()),
        (r as nat) < fmt.modulus(),
{
    proof {
        vstd::bits::lemma_u64_pow2_no_overflow((fmt.nbits() - 2) as nat);
        vstd::arithmetic::mul::lemma_mul_basics(pow2((fmt.nbits() - 2) as nat) as int);
        vstd::bits::lemma_u64_shl_is_mul(1, (fmt.nbits() - 2) as u64);
        vstd::arithmetic::power2::lemma_pow2_strictly_increases((fmt.nbits() - 2) as nat, fmt.nbits());
    }
    1u64 << (fmt.n() - 2)
}


// ---------------------------------------------------------------------------------------------
// Exact conversion into a format
// ---------------------------------------------------------------------------------------------

/// A finite posit magnitude, `frac × 2^(exp − HIDDEN_BIT)` with `frac` in `[2^60, 2^61)`.
#[derive(Clone, Copy, Debug)]
pub struct Mag {
    pub exp: i64,
    pub frac: u64,
}

/// The outcome of comparing a target with a posit magnitude.
#[derive(Clone, Copy, PartialEq, Eq, Structural, Debug)]
pub enum Comparison {
    Less,
    Equal,
    Greater,
}

/// How `a` compares with `b`.
pub open spec fn compare(a: nat, b: nat) -> Comparison {
    if a < b {
        Comparison::Less
    } else if a == b {
        Comparison::Equal
    } else {
        Comparison::Greater
    }
}

impl Mag {
    /// The significand has its hidden bit at bit 60 and the exponent lies within ±1024.
    pub open spec fn mag_ok(self) -> bool {
        mag_fields_ok(self.exp as int, self.frac as nat)
    }

    /// The magnitude in units of `2^−1084`.
    pub open spec fn units(self) -> nat {
        mag_units(self.exp as int, self.frac as nat)
    }

    fn of(f: &Fields) -> (m: Mag)
        ensures
            m.exp == f.total_exp,
            m.frac == f.frac,
    {
        Mag { exp: f.total_exp, frac: f.frac }
    }
}

/// Exponent first, then significand, is the order of two magnitudes.
proof fn lemma_mag_order(a: Mag, b: Mag)
    requires
        a.mag_ok(),
        b.mag_ok(),
    ensures
        (a.exp < b.exp || (a.exp == b.exp && a.frac < b.frac)) <==> a.units() < b.units(),
        (b.exp < a.exp || (a.exp == b.exp && b.frac < a.frac)) <==> b.units() < a.units(),
        (a.exp == b.exp && a.frac == b.frac) <==> a.units() == b.units(),
{
    lemma_units_order(a.exp as int, a.frac as nat, b.exp as int, b.frac as nat);
    lemma_units_order(b.exp as int, b.frac as nat, a.exp as int, a.frac as nat);
}

/// Compare two magnitudes exactly: exponent first, then significand.
fn cmp_mag(a: Mag, b: Mag) -> (o: Ordering)
    requires
        a.mag_ok(),
        b.mag_ok(),
    ensures
        (o == Ordering::Less) == (a.units() < b.units()),
        (o == Ordering::Equal) == (a.units() == b.units()),
        (o == Ordering::Greater) == (a.units() > b.units()),
{
    proof {
        lemma_mag_order(a, b);
    }
    if a.exp < b.exp {
        Ordering::Less
    } else if a.exp > b.exp {
        Ordering::Greater
    } else if a.frac < b.frac {
        Ordering::Less
    } else if a.frac > b.frac {
        Ordering::Greater
    } else {
        Ordering::Equal
    }
}

/// The same outcome as a [`Comparison`].
fn comparison_of(o: Ordering) -> (c: Comparison)
    ensures
        (c == Comparison::Less) == (o == Ordering::Less),
        (c == Comparison::Equal) == (o == Ordering::Equal),
        (c == Comparison::Greater) == (o == Ordering::Greater),
{
    match o {
        Ordering::Less => Comparison::Less,
        Ordering::Equal => Comparison::Equal,
        Ordering::Greater => Comparison::Greater,
    }
}

/// A target value to be rounded into a format: an exact magnitude, compared against candidates.
///
/// Two sources exist, another posit (exact, cheap) and a decimal literal (exact, via big
/// integers), so the search below is written against this trait rather than a concrete type.
pub trait Target {
    /// The target value in units of `2^−1084` is `units_num / units_den`.
    spec fn units_num(&self) -> nat;

    spec fn units_den(&self) -> nat;

    /// What the comparisons need of the target.
    spec fn target_ok(&self) -> bool;

    /// Compare the target magnitude against a posit magnitude.
    fn cmp_against(&self, m: Mag) -> (c: Comparison)
        requires
            self.target_ok(),
            m.mag_ok(),
        ensures
            c == compare(self.units_num(), m.units() * self.units_den()),
    ;

    /// Compare `2 × target` against `lo + hi`, deciding which neighbour is nearer.
    /// Returns `Less` when the target is nearer `lo`.
    fn cmp_midpoint(&self, lo: Mag, hi: Mag) -> (c: Comparison)
        requires
            self.target_ok(),
            lo.mag_ok(),
            hi.mag_ok(),
            lo.exp <= hi.exp <= lo.exp + 31,
            lo.units() * self.units_den() <= self.units_num() < hi.units() * self.units_den(),
        ensures
            c == compare(2 * self.units_num(), (lo.units() + hi.units()) * self.units_den()),
    ;
}

/// `2^k` as a `u128`.
fn pow2_u128(k: u32) -> (r: u128)
    requires
        k < 128,
    ensures
        r as nat == pow2(k as nat),
{
    let mut r: u128 = 1;
    let mut i: u32 = 0;
    proof {
        vstd::arithmetic::power2::lemma2_to64();
    }
    while i < k
        invariant
            i <= k < 128,
            r as nat == pow2(i as nat),
        decreases k - i,
    {
        proof {
            vstd::arithmetic::power2::lemma_pow2_adds(i as nat, 1);
            vstd::arithmetic::power2::lemma2_to64();
            vstd::arithmetic::power2::lemma_pow2_strictly_increases((i + 1) as nat, 128);
            vstd::arithmetic::power2::lemma2_to64_rest();
        }
        assert(pow2(128) == 0x1_0000_0000_0000_0000_0000_0000_0000_0000) by {
            vstd::arithmetic::power2::lemma_pow2_adds(64, 64);
            vstd::arithmetic::power2::lemma2_to64_rest();
        }
        r = r * 2;
        i = i + 1;
    }
    r
}

/// `m` expressed as an integer at scale `2^(base − HIDDEN_BIT)`.
fn scale_to(m: Mag, base: i64) -> (r: u128)
    requires
        m.mag_ok(),
        base <= m.exp <= base + 64,
    ensures
        r as nat == m.frac as nat * pow2((m.exp - base) as nat),
{
    let shift = m.exp - base;
    let k = #[verifier::truncate] (shift as u32);
    assert(k == shift);
    let p = pow2_u128(k);
    proof {
        vstd::arithmetic::power2::lemma_pow2_adds(61, k as nat);
        vstd::arithmetic::power2::lemma_pow2_strictly_increases(61 + k as nat, 128);
        vstd::arithmetic::power2::lemma_pow2_pos(k as nat);
        vstd::arithmetic::mul::lemma_mul_strict_inequality(m.frac as int, pow2(61) as int, pow2(k as nat) as int);
        vstd::arithmetic::power2::lemma_pow2_adds(64, 64);
        vstd::arithmetic::power2::lemma2_to64_rest();
    }
    (m.frac as u128) * p
}

/// `2^(a + b) = 2^a · 2^b` for a base exponent below three magnitudes.
proof fn lemma_rescale(frac: nat, e: int, base: int)
    requires
        -1024 <= base <= e,
    ensures
        frac * pow2((e + 1024) as nat) == (frac * pow2((e - base) as nat)) * pow2((base + 1024) as nat),
{
    vstd::arithmetic::power2::lemma_pow2_adds((e - base) as nat, (base + 1024) as nat);
    assert((e - base) as nat + (base + 1024) as nat == (e + 1024) as nat);
    vstd::arithmetic::mul::lemma_mul_is_associative(
        frac as int,
        pow2((e - base) as nat) as int,
        pow2((base + 1024) as nat) as int,
    );
}

/// Target given as another posit's magnitude.
impl Target for Mag {
    open spec fn units_num(&self) -> nat {
        self.units()
    }

    open spec fn units_den(&self) -> nat {
        1
    }

    open spec fn target_ok(&self) -> bool {
        self.mag_ok()
    }

    fn cmp_against(&self, m: Mag) -> (c: Comparison) {
        comparison_of(cmp_mag(*self, m))
    }

    fn cmp_midpoint(&self, lo: Mag, hi: Mag) -> (c: Comparison) {
        midpoint_side(*self, lo, hi)
    }
}

/// Compare `2 × x` against `lo + hi` for a posit magnitude `x` between two neighbours.
fn midpoint_side(x: Mag, lo: Mag, hi: Mag) -> (c: Comparison)
    requires
        x.mag_ok(),
        lo.mag_ok(),
        hi.mag_ok(),
        lo.exp <= hi.exp <= lo.exp + 31,
        lo.units() <= x.units() < hi.units(),
    ensures
        c == compare(2 * x.units(), lo.units() + hi.units()),
{
    // The target lies between two neighbours, whose exponents are at most 31 apart, so aligning
    // all three on the smallest exponent stays well inside u128.
    proof {
        lemma_units_order(x.exp as int, x.frac as nat, lo.exp as int, lo.frac as nat);
        lemma_units_order(hi.exp as int, hi.frac as nat, x.exp as int, x.frac as nat);
    }
    let base = if lo.exp < hi.exp { lo.exp } else { hi.exp };
    let base = if x.exp < base { x.exp } else { base };
    assert(base == lo.exp);
    let t = scale_to(x, base);
    let a = scale_to(lo, base);
    let b = scale_to(hi, base);
    proof {
        let dt = (x.exp - base) as nat;
        let dh = (hi.exp - base) as nat;
        vstd::arithmetic::power2::lemma_pow2_adds(61, 31);
        vstd::arithmetic::power2::lemma_pow2_strictly_increases(92, 125);
        vstd::arithmetic::power2::lemma_pow2_adds(64, 64);
        vstd::arithmetic::power2::lemma_pow2_adds(125, 3);
        vstd::arithmetic::power2::lemma2_to64_rest();
        vstd::arithmetic::power2::lemma2_to64();
        if dt < 31 {
            vstd::arithmetic::power2::lemma_pow2_strictly_increases(dt, 31);
        }
        if dh < 31 {
            vstd::arithmetic::power2::lemma_pow2_strictly_increases(dh, 31);
        }
        vstd::arithmetic::mul::lemma_mul_inequality(x.frac as int, pow2(61) as int, pow2(dt) as int);
        vstd::arithmetic::mul::lemma_mul_inequality(hi.frac as int, pow2(61) as int, pow2(dh) as int);
        vstd::arithmetic::mul::lemma_mul_inequality(pow2(dt) as int, pow2(31) as int, pow2(61) as int);
        vstd::arithmetic::mul::lemma_mul_inequality(pow2(dh) as int, pow2(31) as int, pow2(61) as int);
        vstd::arithmetic::mul::lemma_mul_is_commutative(pow2(61) as int, pow2(dt) as int);
        vstd::arithmetic::mul::lemma_mul_is_commutative(pow2(61) as int, pow2(dh) as int);
        vstd::arithmetic::mul::lemma_mul_is_commutative(pow2(61) as int, pow2(31) as int);
        assert(lo.frac as nat * pow2(0) == lo.frac) by {
            vstd::arithmetic::mul::lemma_mul_basics(lo.frac as int);
        }
        lemma_rescale(x.frac as nat, x.exp as int, base as int);
        lemma_rescale(lo.frac as nat, lo.exp as int, base as int);
        lemma_rescale(hi.frac as nat, hi.exp as int, base as int);
        let g = pow2((base + 1024) as nat);
        vstd::arithmetic::power2::lemma_pow2_pos((base + 1024) as nat);
        assert(2 * x.units() == (2 * t) * g) by (nonlinear_arith)
            requires x.units() == t * g;
        assert(lo.units() + hi.units() == (a + b) * g) by (nonlinear_arith)
            requires lo.units() == a * g, hi.units() == b * g;
        if 2 * t < a + b {
            vstd::arithmetic::mul::lemma_mul_strict_inequality((2 * t) as int, (a + b) as int, g as int);
        } else if 2 * t > a + b {
            vstd::arithmetic::mul::lemma_mul_strict_inequality((a + b) as int, (2 * t) as int, g as int);
        }
    }
    let twice = t * 2;
    let sum = a + b;
    if twice < sum {
        Comparison::Less
    } else if twice > sum {
        Comparison::Greater
    } else {
        Comparison::Equal
    }
}

/// The magnitude of the positive pattern `bits`.
fn mag_at(fmt: Format, bits: u64) -> (m: Mag)
    requires
        1 <= bits <= max_pattern(fmt),
    ensures
        m.mag_ok(),
        m.units() == bits_units(fmt, bits),
        m.exp as int == pattern_exp(fmt, bits as nat),
{
    proof {
        lemma_pattern_mag(fmt, bits as nat);
    }
    Mag::of(&fmt.decode(bits))
}

/// Round a positive target magnitude into `fmt`, returning the bit pattern.
///
/// Posits saturate rather than overflow: anything above `maxpos` becomes `maxpos`, and any
/// nonzero value below `minpos` becomes `minpos`, so a nonzero input never rounds to zero, and
/// nothing ever rounds to NaR.
fn round_positive<T: Target>(fmt: Format, t: &T) -> (r: u64)
    requires
        t.target_ok(),
        t.units_den() > 0,
    ensures
        rounds_to_bits(fmt, t.units_num(), t.units_den(), r),
        1 <= r <= max_pattern(fmt),
{
    let max = fmt.max_bits();
    let min = fmt.min_positive_bits();
    let ghost num = t.units_num();
    let ghost den = t.units_den();
    proof {
        lemma_max_pattern_large(fmt);
    }

    if t.cmp_against(mag_at(fmt, max)) != Comparison::Less {
        return max;
    }
    if t.cmp_against(mag_at(fmt, min)) != Comparison::Greater {
        return min;
    }

    // Bit patterns of a fixed format are monotonically ordered by value, so binary search for the
    // largest pattern whose value does not exceed the target.
    let mut lo = min;
    let mut hi = max;
    while hi - lo > 1
        invariant
            1 <= lo < hi <= max_pattern(fmt),
            max == max_pattern(fmt),
            t.target_ok(),
            num == t.units_num(),
            den == t.units_den(),
            bits_units(fmt, lo) * den <= num < bits_units(fmt, hi) * den,
            num < bits_units(fmt, max) * den,
            num > bits_units(fmt, 1) * den,
        decreases hi - lo,
    {
        let mid = lo + (hi - lo) / 2;
        if t.cmp_against(mag_at(fmt, mid)) == Comparison::Less {
            hi = mid;
        } else {
            lo = mid;
        }
    }
    proof {
        lemma_bits_step(fmt, lo);
    }
    let a = mag_at(fmt, lo);
    let b = mag_at(fmt, hi);
    let side = t.cmp_midpoint(a, b);
    let even = lo % 2 == 0;
    let r = match side {
        Comparison::Less => lo,
        Comparison::Greater => hi,
        // Ties go to the even pattern, matching the posit standard.
        Comparison::Equal => {
            if even {
                lo
            } else {
                hi
            }
        },
    };
    proof {
        lemma_search_result(fmt, num, den, lo, hi, r, side == Comparison::Less, side == Comparison::Greater, even);
    }
    r
}

/// Every format has far more than two positive patterns.
proof fn lemma_max_pattern_large(fmt: Format)
    ensures
        max_pattern(fmt) >= 127,
        max_pattern(fmt) < 0x8000_0000_0000_0000,
{
    vstd::arithmetic::power2::lemma2_to64();
    vstd::arithmetic::power2::lemma2_to64_rest();
}

/// The pattern the search settles on is the one the target rounds to.
proof fn lemma_search_result(fmt: Format, num: nat, den: nat, lo: u64, hi: u64, r: u64, less: bool, greater: bool, even: bool)
    requires
        1 <= lo,
        hi == lo + 1,
        hi <= max_pattern(fmt),
        bits_units(fmt, lo) * den <= num < bits_units(fmt, hi) * den,
        num < bits_units(fmt, max_pattern(fmt) as u64) * den,
        num > bits_units(fmt, 1) * den,
        less == (2 * num < (bits_units(fmt, lo) + bits_units(fmt, hi)) * den),
        greater == (2 * num > (bits_units(fmt, lo) + bits_units(fmt, hi)) * den),
        even == (lo % 2 == 0),
        r == (if less { lo } else if greater { hi } else if even { lo } else { hi }),
    ensures
        rounds_to_bits(fmt, num, den, r),
{
    lemma_max_pattern_large(fmt);
    assert((max_pattern(fmt) as u64) as nat == max_pattern(fmt));
    assert((hi as nat) == (lo as nat) + 1);
    if r == lo {
        assert(crate::grid::nearer(fmt, num, den, lo as nat) == lo as nat);
    } else {
        assert(crate::grid::nearer(fmt, num, den, lo as nat) == hi as nat);
        assert((r - 1) as nat == lo as nat);
    }
}


/// What converting the pattern `bits` of `from` into `to` yields: the pattern itself within one
/// format; zero and NaR map to zero and NaR; any other value is rounded by magnitude, with its
/// sign kept.
pub open spec fn converts_to(from: Format, to: Format, bits: u64, r: u64) -> bool {
    if from == to {
        r == bits
    } else {
        let f = from.fields_of(bits);
        match f.special {
            Some(Special::Zero) => r == 0,
            Some(Special::NaR) => r as nat == nar_pattern(to.nbits()),
            None => {
                &&& (r as nat) < to.modulus()
                &&& rounds_to(
                    to,
                    mag_units(f.total_exp as int, f.frac as nat),
                    1,
                    if f.neg { neg_pattern(to.nbits(), r as nat) } else { r as nat },
                )
            },
        }
    }
}

/// Re-encode a posit from one format into another, exactly and with correct rounding.
pub fn convert(from: Format, to: Format, bits: u64) -> (r: u64)
    ensures
        converts_to(from, to, bits, r),
{
    if from == to {
        return bits;
    }
    let f = from.decode(bits);
    assert(f == from.fields_of(bits));
    match f.special {
        Some(Special::Zero) => {
            assert(from.fields_of(bits).special == Some(Special::Zero));
            0
        },
        Some(Special::NaR) => to.nar_bits(),
        None => {
            let m = Mag::of(&f);
            proof {
                lemma_fields_magnitude(from, bits);
                let u = (bits as nat) % pow2(from.nbits());
                lemma_pattern_mag(from, crate::bits::magnitude_of(u, from.nbits()));
            }
            let out = round_positive(to, &m);
            proof {
                lemma_max_pattern_large(to);
                vstd::arithmetic::power2::lemma_pow2_strictly_increases((to.nbits() - 1) as nat, to.nbits());
                vstd::arithmetic::power2::lemma_pow2_pos((to.nbits() - 1) as nat);
                assert(max_pattern(to) < to.modulus());
                assert((out as nat) < to.modulus());
            }
            if f.neg {
                let r = negate_pattern(to, out);
                r
            } else {
                out
            }
        },
    }
}

/// `m × 10^q` in units of `2^−1084` is `decimal_num(m, q) / decimal_den(q)`.
pub open spec fn decimal_num(m: nat, q: int) -> nat {
    if q >= 0 {
        m * pow10(q as nat) * pow2(1084)
    } else {
        m * pow2(1084)
    }
}

pub open spec fn decimal_den(q: int) -> nat {
    if q >= 0 {
        1
    } else {
        pow10((-q) as nat)
    }
}

/// Target given as an exact decimal literal `mantissa × 10^exp10`.
pub struct DecimalTarget {
    mantissa: Big,
    exp10: i32,
}

/// The left side of a scaled comparison: the target times `2^extra2`.
pub open spec fn scaled_target(num: nat, extra2: u32) -> nat {
    num * pow2(extra2 as nat)
}

/// The right side of a scaled comparison: `value × 2^s`, in units of `2^−1084`, over the
/// target's denominator.
pub open spec fn scaled_value(value: nat, s: i64, den: nat) -> nat {
    value * pow2((s + 1084) as nat) * den
}

/// The powers of five and two that clear every negative power from both sides of a scaled
/// comparison: `max(q,0)`, `max(q−s,0) + extra2`, `max(−q,0)` and `max(s−q,0)`.
fn scale_exponents(q: i32, s: i64, extra2: u32) -> (r: (u32, u32, u32, u32))
    requires
        -1084 <= s <= 1100,
        extra2 <= 1,
    ensures
        r.0 as int == (if q >= 0 { q as int } else { 0 }),
        r.1 as int == (if q >= s { q - s } else { 0 }) + extra2,
        r.2 as int == (if q < 0 { -q } else { 0 }),
        r.3 as int == (if s > q { s - q } else { 0 }),
{
    let q = q as i64;
    let a = if q > 0 { q as u32 } else { 0 };
    let b = if q > s { (q - s) as u32 + extra2 } else { extra2 };
    let c = if q < 0 { (-q) as u32 } else { 0 };
    let d = if s > q { (s - q) as u32 } else { 0 };
    (a, b, c, d)
}

/// Both sides of a scaled comparison are the sides of the exact comparison times one power of
/// two.
proof fn lemma_scaled_sides(m: nat, q: int, v: nat, s: int, x: nat, a: nat, b: nat, c: nat, d: nat)
    requires
        -1084 <= s,
        a == (if q >= 0 { q } else { 0 }),
        b == (if q >= s { q - s } else { 0 }) + x,
        c == (if q < 0 { -q } else { 0 }),
        d == (if s > q { s - q } else { 0 }),
    ensures
        ({
            let lhs = m * pow5(a) * pow2(b);
            let rhs = v * pow5(c) * pow2(d);
            let big_a = decimal_num(m, q) * pow2(x);
            let big_b = v * pow2((s + 1084) as nat) * decimal_den(q);
            &&& (lhs < rhs) == (big_a < big_b)
            &&& (lhs == rhs) == (big_a == big_b)
        }),
{
    let lhs = m * pow5(a) * pow2(b);
    let rhs = v * pow5(c) * pow2(d);
    let big_a = decimal_num(m, q) * pow2(x);
    let big_b = v * pow2((s + 1084) as nat) * decimal_den(q);
    let g: nat = (1084 + (if q < s { q } else { s }) - (if q < 0 { q } else { 0 })) as nat;
    lemma_pow10_split(a);
    lemma_pow10_split(c);
    vstd::arithmetic::power2::lemma_pow2_adds(b, g);
    vstd::arithmetic::power2::lemma_pow2_adds(d, g);
    vstd::arithmetic::power2::lemma_pow2_adds(a, 1084);
    vstd::arithmetic::power2::lemma_pow2_adds(a + 1084, x);
    vstd::arithmetic::power2::lemma_pow2_adds(1084, x);
    vstd::arithmetic::power2::lemma_pow2_adds((s + 1084) as nat, c);
    vstd::arithmetic::power2::lemma_pow2_pos(g);
    let p5a = pow5(a);
    let p5c = pow5(c);
    if q >= 0 {
        assert(b + g == a + 1084 + x);
        assert(d + g == (s + 1084) as nat);
        assert(lhs * pow2(g) == big_a) by (nonlinear_arith)
            requires
                lhs == m * p5a * pow2(b),
                pow2(b + g) == pow2(b) * pow2(g),
                b + g == a + 1084 + x,
                pow2(a + 1084 + x) == pow2(a + 1084) * pow2(x),
                pow2(a + 1084) == pow2(a) * pow2(1084),
                big_a == m * pow10(a) * pow2(1084) * pow2(x),
                pow10(a) == p5a * pow2(a),
        ;
        assert(rhs * pow2(g) == big_b) by (nonlinear_arith)
            requires
                rhs == v * p5c * pow2(d),
                c == 0,
                p5c == 1,
                pow2(d + g) == pow2(d) * pow2(g),
                d + g == (s + 1084) as nat,
                big_b == v * pow2((s + 1084) as nat) * 1,
        ;
    } else {
        assert(b + g == 1084 + x);
        assert(d + g == (s + 1084) as nat + c);
        assert(lhs * pow2(g) == big_a) by (nonlinear_arith)
            requires
                lhs == m * p5a * pow2(b),
                a == 0,
                p5a == 1,
                pow2(b + g) == pow2(b) * pow2(g),
                b + g == 1084 + x,
                pow2(1084 + x) == pow2(1084) * pow2(x),
                big_a == m * pow2(1084) * pow2(x),
        ;
        assert(rhs * pow2(g) == big_b) by (nonlinear_arith)
            requires
                rhs == v * p5c * pow2(d),
                pow2(d + g) == pow2(d) * pow2(g),
                d + g == (s + 1084) as nat + c,
                pow2((s + 1084) as nat + c) == pow2((s + 1084) as nat) * pow2(c),
                big_b == v * pow2((s + 1084) as nat) * pow10(c),
                pow10(c) == p5c * pow2(c),
        ;
    }
    if lhs < rhs {
        vstd::arithmetic::mul::lemma_mul_strict_inequality(lhs as int, rhs as int, pow2(g) as int);
    } else if lhs > rhs {
        vstd::arithmetic::mul::lemma_mul_strict_inequality(rhs as int, lhs as int, pow2(g) as int);
    }
}

impl DecimalTarget {
    /// The literal's digits, read as one integer.
    pub closed spec fn mantissa_value(&self) -> nat {
        self.mantissa@
    }

    /// The power of ten the digits are scaled by.
    pub closed spec fn exponent(&self) -> int {
        self.exp10 as int
    }

    /// A positive mantissa.
    pub closed spec fn well_formed(&self) -> bool {
        self.mantissa.wf() && self.mantissa@ > 0
    }

    /// Compare `M × 10^q × 2^extra2` against `value × 2^s`, exactly.
    ///
    /// Both sides are multiplied by `5^max(−q,0) · 2^(−min(q,s))`, which clears every negative
    /// power without changing the ordering, leaving
    /// `M · 5^max(q,0) · 2^(max(q−s,0) + extra2)` versus `value · 5^max(−q,0) · 2^max(s−q,0)`.
    fn cmp_scaled(&self, value: Big, s: i64, extra2: u32) -> (o: Ordering)
        requires
            self.well_formed(),
            value.wf(),
            -1084 <= s <= 1100,
            extra2 <= 1,
        ensures
            (o == Ordering::Less) == (scaled_target(self.units_num(), extra2) < scaled_value(value@, s, self.units_den())),
            (o == Ordering::Equal) == (scaled_target(self.units_num(), extra2) == scaled_value(value@, s, self.units_den())),
            (o == Ordering::Greater) == (scaled_target(self.units_num(), extra2) > scaled_value(value@, s, self.units_den())),
    {
        let (a, b, c, d) = scale_exponents(self.exp10, s, extra2);
        let mut lhs = self.mantissa.dup();
        lhs.mul_pow5(a);
        lhs.shl_bits(b);
        let mut rhs = value;
        rhs.mul_pow5(c);
        rhs.shl_bits(d);
        proof {
            self.lemma_sides(value@, s, extra2, a, b, c, d);
        }
        lhs.cmp(&rhs)
    }

    proof fn lemma_sides(&self, v: nat, s: i64, extra2: u32, a: u32, b: u32, c: u32, d: u32)
        requires
            -1084 <= s,
            a as int == (if self.exp10 >= 0 { self.exp10 as int } else { 0 }),
            b as int == (if self.exp10 >= s { self.exp10 - s } else { 0 }) + extra2,
            c as int == (if self.exp10 < 0 { -self.exp10 } else { 0 }),
            d as int == (if s > self.exp10 { s - self.exp10 } else { 0 }),
        ensures
            ({
                let lhs = self.mantissa@ * pow5(a as nat) * pow2(b as nat);
                let rhs = v * pow5(c as nat) * pow2(d as nat);
                &&& (lhs < rhs) == (scaled_target(self.units_num(), extra2) < scaled_value(v, s, self.units_den()))
                &&& (lhs == rhs) == (scaled_target(self.units_num(), extra2) == scaled_value(v, s, self.units_den()))
            }),
    {
        lemma_scaled_sides(self.mantissa@, self.exp10 as int, v, s as int, extra2 as nat, a as nat, b as nat, c as nat, d as nat);
    }
}


/// `exp − HIDDEN_BIT`: the power of two a significand is scaled by.
fn unit_exponent(exp: i64) -> (s: i64)
    requires
        -1024 <= exp <= 1024,
    ensures
        s == exp - 60,
{
    exp - HIDDEN_BIT as i64
}

fn big_from_u128(v: u128) -> (r: Big)
    ensures
        r.wf(),
        r@ == v,
{
    let mut hi = Big::from_u64((v >> 64u32) as u64);
    hi.shl_bits(64);
    let lo = #[verifier::truncate] (v as u64);
    hi.add(&Big::from_u64(lo));
    proof {
        vstd::bits::lemma_u128_shr_is_div(v, 64);
        assert(lo == v % 0x1_0000_0000_0000_0000) by (bit_vector)
            requires lo == v as u64;
        vstd::arithmetic::power2::lemma2_to64_rest();
        vstd::arithmetic::div_mod::lemma_fundamental_div_mod(v as int, 0x1_0000_0000_0000_0000);
    }
    hi
}

/// The sum of two neighbouring magnitudes as one integer at the scale of the lower.
fn neighbour_sum(lo: Mag, hi: Mag) -> (r: Big)
    requires
        lo.mag_ok(),
        hi.mag_ok(),
        lo.exp <= hi.exp <= lo.exp + 31,
    ensures
        r.wf(),
        r@ * pow2((lo.exp + 1024) as nat) == lo.units() + hi.units(),
{
    let a = scale_to(lo, lo.exp);
    let b = scale_to(hi, lo.exp);
    proof {
        let dh = (hi.exp - lo.exp) as nat;
        vstd::arithmetic::power2::lemma_pow2_adds(61, 31);
        vstd::arithmetic::power2::lemma_pow2_adds(92, 1);
        vstd::arithmetic::power2::lemma_pow2_strictly_increases(93, 127);
        vstd::arithmetic::power2::lemma_pow2_adds(64, 63);
        vstd::arithmetic::power2::lemma2_to64_rest();
        vstd::arithmetic::power2::lemma2_to64();
        if dh < 31 {
            vstd::arithmetic::power2::lemma_pow2_strictly_increases(dh, 31);
        }
        vstd::arithmetic::mul::lemma_mul_inequality(hi.frac as int, pow2(61) as int, pow2(dh) as int);
        vstd::arithmetic::mul::lemma_mul_inequality(pow2(dh) as int, pow2(31) as int, pow2(61) as int);
        vstd::arithmetic::mul::lemma_mul_is_commutative(pow2(61) as int, pow2(dh) as int);
        vstd::arithmetic::mul::lemma_mul_is_commutative(pow2(61) as int, pow2(31) as int);
        vstd::arithmetic::mul::lemma_mul_basics(lo.frac as int);
        lemma_rescale(lo.frac as nat, lo.exp as int, lo.exp as int);
        lemma_rescale(hi.frac as nat, hi.exp as int, lo.exp as int);
        vstd::arithmetic::mul::lemma_mul_is_distributive_add_other_way(
            pow2((lo.exp + 1024) as nat) as int,
            a as int,
            b as int,
        );
    }
    big_from_u128(a + b)
}

/// The two sides of [`DecimalTarget::cmp_scaled`] for a candidate and for a midpoint.
proof fn lemma_decimal_sides(num: nat, den: nat, m: Mag, lo: Mag, sum: nat)
    ensures
        scaled_target(num, 0) == num,
        scaled_target(num, 1) == 2 * num,
        -1024 <= m.exp ==> scaled_value(m.frac as nat, (m.exp - 60) as i64, den) == m.units() * den,
        -1024 <= lo.exp <= 1024 ==> scaled_value(sum, (lo.exp - 60) as i64, den) == sum * pow2((lo.exp + 1024) as nat) * den,
{
    vstd::arithmetic::power2::lemma2_to64();
    vstd::arithmetic::mul::lemma_mul_basics(num as int);
}

impl Target for DecimalTarget {
    open spec fn units_num(&self) -> nat {
        decimal_num(self.mantissa_value(), self.exponent())
    }

    open spec fn units_den(&self) -> nat {
        decimal_den(self.exponent())
    }

    open spec fn target_ok(&self) -> bool {
        self.well_formed()
    }

    fn cmp_against(&self, m: Mag) -> (c: Comparison) {
        let s = unit_exponent(m.exp);
        let o = self.cmp_scaled(Big::from_u64(m.frac), s, 0);
        proof {
            lemma_decimal_sides(self.units_num(), self.units_den(), m, m, 0);
        }
        comparison_of(o)
    }

    fn cmp_midpoint(&self, lo: Mag, hi: Mag) -> (c: Comparison) {
        // Compare 2·target against lo + hi. Putting lo and hi on a common exponent first makes
        // their sum a single exact integer at that scale.
        let sum = neighbour_sum(lo, hi);
        let s = unit_exponent(lo.exp);
        let o = self.cmp_scaled(sum, s, 1);
        proof {
            lemma_decimal_sides(self.units_num(), self.units_den(), lo, lo, sum@);
        }
        comparison_of(o)
    }
}


/// What parsing the bytes `b` of a trimmed literal and rounding it into `fmt` yields: nothing
/// when `b` is not a literal; zero for a zero mantissa; otherwise the pattern the magnitude
/// rounds to, with the literal's sign.
pub open spec fn decimal_rounds_to(fmt: Format, b: Seq<u8>, r: Option<u64>) -> bool {
    match decimal_literal(b) {
        None => r is None,
        Some((neg, m, q)) => match r {
            None => false,
            Some(v) => {
                if m == 0 {
                    v == 0
                } else {
                    &&& (v as nat) < fmt.modulus()
                    &&& rounds_to(fmt, decimal_num(m, q), decimal_den(q), if neg { neg_pattern(fmt.nbits(), v as nat) } else { v as nat })
                }
            },
        },
    }
}

/// Parse a decimal literal and round it into `fmt`, exactly.
///
/// This deliberately does not route through a binary floating-point value: BPosit64 carries up
/// to 58 significand bits, more than such an intermediate could hold, let alone round correctly.
pub fn from_decimal(fmt: Format, s: &str) -> (r: Option<u64>)
    ensures
        decimal_rounds_to(fmt, encode_utf8(trimmed(s@)), r),
{
    let t = str_trim(s);
    let b = t.as_bytes();
    match parse_literal(b) {
        None => None,
        Some((neg, mantissa, exp10)) => {
            if mantissa.is_zero() {
                return Some(0);
            }
            let target = DecimalTarget { mantissa, exp10 };
            proof {
                if exp10 < 0 {
                    lemma_pow10_pos((-exp10) as nat);
                }
            }
            let out = round_positive(fmt, &target);
            proof {
                lemma_max_pattern_large(fmt);
                vstd::arithmetic::power2::lemma_pow2_pos((fmt.nbits() - 1) as nat);
                vstd::arithmetic::power2::lemma_pow2_strictly_increases((fmt.nbits() - 1) as nat, fmt.nbits());
            }
            if neg {
                Some(negate_pattern(fmt, out))
            } else {
                Some(out)
            }
        },
    }
}


/// A signed pattern whose magnitude is a positive pattern is neither zero nor NaR.
proof fn lemma_signed_nonzero(fmt: Format, v: u64, neg: bool, o: nat)
    requires
        (v as nat) < fmt.modulus(),
        o == (if neg { neg_pattern(fmt.nbits(), v as nat) } else { v as nat }),
        1 <= o <= max_pattern(fmt),
    ensures
        v != 0,
        v as nat != nar_pattern(fmt.nbits()),
{
    let n = fmt.nbits();
    lemma2_to64();
    lemma2_to64_rest();
    vstd::arithmetic::power2::lemma_pow2_adds(1, (n - 1) as nat);
    assert(n == 1 + (n - 1) as nat);
}

/// A nonzero literal never rounds to zero or to NaR: posits saturate instead.
pub proof fn lemma_literal_never_zero_or_nar(fmt: Format, b: Seq<u8>, v: u64)
    requires
        decimal_rounds_to(fmt, b, Some(v)),
        match decimal_literal(b) {
            Some((neg, m, q)) => m > 0,
            None => false,
        },
    ensures
        v != 0,
        v as nat != nar_pattern(fmt.nbits()),
{
    let (neg, m, q) = decimal_literal(b)->0;
    let o = if neg { neg_pattern(fmt.nbits(), v as nat) } else { v as nat };
    crate::grid::lemma_rounds_to_range(fmt, decimal_num(m, q), decimal_den(q), o);
    lemma_signed_nonzero(fmt, v, neg, o);
}

/// Arithmetic never rounds a nonzero exact result to zero or to NaR: posits saturate instead.
/// Together with [`bin_op`]'s rounding clause, a sum, difference, product or quotient of two
/// numbers is zero only when it is exactly zero.
pub proof fn lemma_rounding_never_zero_or_nar(fmt: Format, num: int, den: nat, r: nat)
    requires
        num != 0,
        rounds_signed(fmt, num, den, r),
    ensures
        r != 0,
        r != nar_pattern(fmt.nbits()),
{
    lemma2_to64();
    lemma2_to64_rest();
    assert(fmt.modulus() <= pow2(64));
    assert((r as u64) as nat == r);
    let neg = num < 0;
    let o = if neg { neg_pattern(fmt.nbits(), r) } else { r };
    crate::grid::lemma_rounds_to_range(fmt, (if neg { -num } else { num }) as nat, den, o);
    lemma_signed_nonzero(fmt, r as u64, neg, o);
}

/// Converting a number between formats never yields zero or NaR.
pub proof fn lemma_conversion_never_zero_or_nar(from: Format, to: Format, bits: u64, r: u64)
    requires
        from != to,
        converts_to(from, to, bits, r),
        from.fields_of(bits).special is None,
    ensures
        r != 0,
        r as nat != nar_pattern(to.nbits()),
{
    let f = from.fields_of(bits);
    let o = if f.neg { neg_pattern(to.nbits(), r as nat) } else { r as nat };
    crate::grid::lemma_rounds_to_range(to, mag_units(f.total_exp as int, f.frac as nat), 1, o);
    lemma_signed_nonzero(to, r, f.neg, o);
}

} // verus!
