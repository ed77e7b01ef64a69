//! The rounding inspector: the exact value behind a pattern, a literal or an operation, the
//! patterns either side of a value, and what rounding did to an exact result.

use vstd::prelude::*;
use vstd::arithmetic::power2::{lemma2_to64, lemma2_to64_rest, lemma_pow2_pos, pow2};
use vstd::utf8::encode_utf8;
use crate::arith::pow10;
use crate::bits::{Fields, Special};
use crate::format::{BinOp, Comparison, Format, UnOp};
use core::cmp::Ordering;
use vstd::string::StringExecFns;
use crate::grid::{lemma_fields_magnitude, lemma_pattern_mag};
use crate::literal::{decimal_literal, parse_literal};
use crate::posit_ops::nar_pattern;
use crate::rational::{
    fraction_text, fraction_whole, lemma_normalized_value, negated_parts, normalized, printable, same_value,
    signed_of, sum_parts, terminates, Rational,
};
use crate::text::{push_char, str_trim, trimmed};
use crate::arith::pow5;
use crate::decimal::{
    exact_sci, exact_sci_parts, exact_string, lemma_strip_prefix, positional_text, render, rendered_text, sign_text,
    strip_trailing_zeros,
};
use crate::digits::{all_digits, dec_digits};

verus! {

/// The pattern is NaR under the format.
pub open spec fn is_nar(fmt: Format, bits: u64) -> bool {
    fmt.fields_of(bits).special == Some(Special::NaR)
}

/// The pattern is zero under the format.
pub open spec fn is_zero_pattern(fmt: Format, bits: u64) -> bool {
    fmt.fields_of(bits).special == Some(Special::Zero)
}

/// The exact value of a pattern that is not NaR, as sign, numerator and denominator with common
/// factors of two removed: `±frac × 2^(total_exp − 60)`, and `+0/1` for zero.
pub open spec fn value_parts(fmt: Format, bits: u64) -> (bool, nat, nat) {
    let f = fmt.fields_of(bits);
    if f.special is Some {
        (false, 0, 1)
    } else if f.total_exp >= 60 {
        normalized(f.neg, f.frac as nat * pow2((f.total_exp - 60) as nat), 1)
    } else {
        normalized(f.neg, f.frac as nat, pow2((60 - f.total_exp) as nat))
    }
}

/// A numeric pattern of a standard format has its hidden bit at bit 60 and an exponent well
/// inside ±1024.
pub proof fn lemma_numeric_bounds(fmt: Format, bits: u64)
    requires
        fmt.fields_of(bits).special.is_none(),
    ensures
        pow2(60) <= fmt.fields_of(bits).frac < pow2(61),
        -1008 <= fmt.fields_of(bits).total_exp <= 1007,
{
    lemma_fields_magnitude(fmt, bits);
    let n = fmt.nbits();
    let u = (bits as nat) % pow2(n);
    let m = crate::bits::magnitude_of(u, n);
    lemma_pattern_mag(fmt, m);
}

/// Only zero has a zero numerator; every denominator is positive.
pub proof fn lemma_value_parts(fmt: Format, bits: u64)
    ensures
        value_parts(fmt, bits).2 > 0,
        value_parts(fmt, bits).1 == 0 <==> fmt.fields_of(bits).special is Some,
{
    let f = fmt.fields_of(bits);
    if f.special.is_none() {
        lemma_numeric_bounds(fmt, bits);
        lemma2_to64();
        lemma2_to64_rest();
        let (n, d): (nat, nat) = if f.total_exp >= 60 {
            lemma_pow2_pos((f.total_exp - 60) as nat);
            vstd::arithmetic::mul::lemma_mul_strictly_positive(f.frac as int, pow2((f.total_exp - 60) as nat) as int);
            (f.frac as nat * pow2((f.total_exp - 60) as nat), 1nat)
        } else {
            lemma_pow2_pos((60 - f.total_exp) as nat);
            (f.frac as nat, pow2((60 - f.total_exp) as nat))
        };
        lemma_normalized_value(f.neg, n, d);
        let r = normalized(f.neg, n, d);
        assert(r.1 != 0) by (nonlinear_arith)
            requires
                signed_of(r) * d == signed_of((f.neg, n, d)) * r.2,
                signed_of(r) == if r.0 { -(r.1 as int) } else { r.1 as int },
                signed_of((f.neg, n, d)) == if f.neg { -(n as int) } else { n as int },
                n > 0,
                d > 0,
                r.2 > 0,
        ;
    }
}

/// The exact value of a pattern; `None` for NaR, which has none.
pub fn rational_of(fmt: Format, bits: u64) -> (r: Option<Rational>)
    ensures
        r is None <==> is_nar(fmt, bits),
        r matches Some(q) ==> q.wf() && q.parts() == value_parts(fmt, bits),
{
    let d = fmt.decode(bits);
    match d.special {
        Some(Special::Zero) => Some(Rational::zero()),
        Some(Special::NaR) => None,
        None => {
            proof {
                lemma_numeric_bounds(fmt, bits);
            }
            Some(Rational::from_significand(d.neg, d.frac, d.total_exp))
        },
    }
}

/// The pattern next to `bits` in value order, above it when `up`, below it otherwise. Patterns
/// are ordered by value as two's complement integers are, so a step is adding or subtracting one
/// within the format's width; maxpos has nothing above it, −maxpos nothing below it, and NaR is
/// outside the order.
pub open spec fn neighbour_of(fmt: Format, bits: u64, up: bool) -> Option<nat> {
    let m = fmt.modulus();
    let u = (bits as nat) % m;
    let half = nar_pattern(fmt.nbits());
    if u == half {
        None
    } else if up {
        if u + 1 == half {
            None
        } else {
            Some((u + 1) % m)
        }
    } else {
        if u == half + 1 {
            None
        } else {
            Some(((u + m - 1) as nat) % m)
        }
    }
}

/// The representable value next to `bits`, above it when `up` and below it otherwise.
pub fn neighbour(fmt: Format, bits: u64, up: bool) -> (r: Option<u64>)
    ensures
        match neighbour_of(fmt, bits, up) {
            None => r is None,
            Some(b) => r matches Some(v) && v as nat == b,
        },
{
    let mask = fmt.mask();
    let half = fmt.nar_bits();
    proof {
        crate::calc::lemma_mask_is_mod(bits, mask, fmt);
        lemma2_to64();
        lemma2_to64_rest();
        vstd::arithmetic::power2::lemma_pow2_adds(1, (fmt.nbits() - 1) as nat);
        assert(fmt.nbits() == 1 + (fmt.nbits() - 1) as nat);
        lemma_pow2_pos(fmt.nbits());
    }
    let u = bits & mask;
    if u == half {
        return None;
    }
    if up {
        if u == half - 1 {
            None
        } else if u == mask {
            proof {
                vstd::arithmetic::div_mod::lemma_mod_self_0(fmt.modulus() as int);
            }
            Some(0)
        } else {
            proof {
                vstd::arithmetic::div_mod::lemma_small_mod((u + 1) as nat, fmt.modulus());
            }
            Some(u + 1)
        }
    } else {
        if u == half + 1 {
            None
        } else if u == 0 {
            proof {
                vstd::arithmetic::div_mod::lemma_small_mod((fmt.modulus() - 1) as nat, fmt.modulus());
            }
            Some(mask)
        } else {
            proof {
                vstd::arithmetic::div_mod::lemma_mod_add_multiples_vanish((u - 1) as int, fmt.modulus() as int);
                vstd::arithmetic::div_mod::lemma_small_mod((u - 1) as nat, fmt.modulus());
            }
            Some(u - 1)
        }
    }
}

/// The exact value of `a op b` for signed fractions `a` and `b`, as [`Rational`] computes it.
pub open spec fn exact_bin_parts(op: BinOp, a: (bool, nat, nat), b: (bool, nat, nat)) -> (bool, nat, nat) {
    match op {
        BinOp::Add => sum_parts(a, b),
        BinOp::Sub => sum_parts(a, negated_parts(b)),
        BinOp::Mul => normalized(a.0 != b.0, a.1 * b.1, a.2 * b.2),
        BinOp::Div => normalized(a.0 != b.0, a.1 * b.2, a.2 * b.1),
    }
}

/// The exact value of `op a` for a signed fraction `a`, as [`Rational`] computes it.
pub open spec fn exact_un_parts(op: UnOp, a: (bool, nat, nat)) -> (bool, nat, nat) {
    match op {
        UnOp::Neg => negated_parts(a),
        UnOp::Recip => normalized(a.0, a.2, a.1),
        UnOp::Double => normalized(a.0, a.1 * 2, a.2),
        UnOp::Half => normalized(a.0, a.1, a.2 * 2),
    }
}

/// The exact real result of `a op b` on two patterns, before it is rounded back into the format;
/// `None` when there is none: an operand is NaR, or the divisor is zero.
pub fn exact_bin(fmt: Format, op: BinOp, a: u64, b: u64) -> (r: Option<Rational>)
    ensures
        r is None <==> (is_nar(fmt, a) || is_nar(fmt, b) || (op == BinOp::Div && is_zero_pattern(fmt, b))),
        r matches Some(q) ==> q.wf() && q.parts() == exact_bin_parts(op, value_parts(fmt, a), value_parts(fmt, b)),
{
    let ra = match rational_of(fmt, a) {
        Some(q) => q,
        None => {
            return None;
        },
    };
    let rb = match rational_of(fmt, b) {
        Some(q) => q,
        None => {
            return None;
        },
    };
    proof {
        lemma_value_parts(fmt, b);
        ra.lemma_parts();
        rb.lemma_parts();
    }
    match op {
        BinOp::Add => Some(ra.add(&rb)),
        BinOp::Sub => Some(ra.sub(&rb)),
        BinOp::Mul => Some(ra.mul(&rb)),
        BinOp::Div => ra.div(&rb),
    }
}

/// The exact real result of `op a` on a pattern; `None` when there is none: the operand is NaR,
/// or it is zero and the operation is the reciprocal.
pub fn exact_un(fmt: Format, op: UnOp, a: u64) -> (r: Option<Rational>)
    ensures
        r is None <==> (is_nar(fmt, a) || (op == UnOp::Recip && is_zero_pattern(fmt, a))),
        r matches Some(q) ==> q.wf() && q.parts() == exact_un_parts(op, value_parts(fmt, a)),
{
    let ra = match rational_of(fmt, a) {
        Some(q) => q,
        None => {
            return None;
        },
    };
    proof {
        lemma_value_parts(fmt, a);
        ra.lemma_parts();
        lemma_small_int_parts();
    }
    match op {
        UnOp::Neg => Some(ra.negated()),
        UnOp::Recip => {
            let one = Rational::from_int(1);
            proof {
                one.lemma_parts();
                assert(one.parts() == normalized(false, 1, 1));
                assert(one.numer() == 1 && one.denom() == 1);
                vstd::arithmetic::mul::lemma_mul_basics(ra.denom() as int);
                vstd::arithmetic::mul::lemma_mul_basics(ra.numer() as int);
            }
            one.div(&ra)
        },
        UnOp::Double => {
            let two = Rational::from_int(2);
            proof {
                two.lemma_parts();
                assert(two.parts() == normalized(false, 2, 1));
                assert(two.denom() == 1);
                vstd::arithmetic::mul::lemma_mul_basics(ra.denom() as int);
            }
            Some(ra.mul(&two))
        },
        UnOp::Half => {
            let two = Rational::from_int(2);
            proof {
                two.lemma_parts();
                assert(two.parts() == normalized(false, 2, 1));
                assert(two.denom() == 1);
                vstd::arithmetic::mul::lemma_mul_basics(ra.numer() as int);
            }
            ra.div(&two)
        },
    }
}

/// One and two are already in lowest terms.
proof fn lemma_small_int_parts()
    ensures
        normalized(false, 1, 1) == (false, 1nat, 1nat),
        normalized(false, 2, 1) == (false, 2nat, 1nat),
{
    lemma2_to64();
    assert(crate::rational::twos(1) == 0);
    assert(crate::rational::twos(2) == 1 + crate::rational::twos(1));
    assert(pow2(0) == 1);
    assert(1nat / pow2(0) == 1 && 2nat / pow2(0) == 2);
}

/// The exact value `±m × 10^q` of a decimal literal read as sign, digits and power of ten.
pub open spec fn literal_parts(neg: bool, m: nat, q: int) -> (bool, nat, nat) {
    if q >= 0 {
        normalized(neg, m * pow10(q as nat), 1)
    } else {
        normalized(neg, m, pow10((-q) as nat))
    }
}

/// The exact value a decimal literal denotes, before any rounding; `None` when the text (leading
/// and trailing white space aside) is not a literal.
pub fn decimal_rational(s: &str) -> (r: Option<Rational>)
    ensures
        r is None <==> decimal_literal(encode_utf8(trimmed(s@))) is None,
        r matches Some(q) ==> q.wf() && ({
            let (neg, m, e) = decimal_literal(encode_utf8(trimmed(s@)))->0;
            q.parts() == literal_parts(neg, m, e)
        }),
{
    let t = str_trim(s);
    let b = t.as_bytes();
    match parse_literal(b) {
        None => None,
        Some((neg, mantissa, exp10)) => Some(Rational::from_decimal_parts(neg, mantissa, exp10)),
    }
}

/// The exact scientific form of `frac × 2^s`, for a 64-bit `frac` and an exponent within about
/// ±1000, is one rendering accepts: at least one digit, fewer than 1200 of them, and a decimal
/// exponent within ±1200.
pub proof fn lemma_sci_small(frac: nat, s: int)
    requires
        0 < frac < pow2(64),
        -1100 <= s <= 1000,
    ensures
        ({
            let (d, e) = exact_sci_parts(frac, s);
            &&& 1 <= d.len() < 1200
            &&& -1200 < e < 1200
            &&& all_digits(d)
        }),
{
    lemma2_to64();
    lemma2_to64_rest();
    crate::decimal::lemma_exact_sci_value(frac, s);
    let (v, k): (nat, nat) = if s >= 0 {
        let a = s as nat;
        lemma_pow2_pos(a);
        vstd::arithmetic::mul::lemma_mul_strict_inequality(frac as int, pow2(64) as int, pow2(a) as int);
        vstd::arithmetic::power2::lemma_pow2_adds(64, a);
        crate::arith::lemma_pow2_le_pow10(64 + a);
        assert(frac * pow2(a) < pow10(64 + a));
        (frac * pow2(a), 64 + a)
    } else {
        let a = (-s) as nat;
        crate::arith::lemma_pow5_pos(a);
        vstd::arithmetic::mul::lemma_mul_strict_inequality(frac as int, pow2(64) as int, pow5(a) as int);
        crate::arith::lemma_pow2_le_pow10(64);
        crate::arith::lemma_pow5_le_pow10(a);
        vstd::arithmetic::mul::lemma_mul_inequality(pow2(64) as int, pow10(64) as int, pow5(a) as int);
        vstd::arithmetic::mul::lemma_mul_inequality(pow5(a) as int, pow10(a) as int, pow10(64) as int);
        vstd::arithmetic::mul::lemma_mul_is_commutative(pow5(a) as int, pow10(64) as int);
        vstd::arithmetic::mul::lemma_mul_is_commutative(pow10(a) as int, pow10(64) as int);
        crate::arith::lemma_pow10_add(64, a);
        assert(frac * pow5(a) < pow10(64 + a));
        (frac * pow5(a), 64 + a)
    };
    crate::digits::lemma_dec_len_bound(v, k);
    crate::digits::lemma_dec_all_digits(v);
    lemma_strip_prefix(dec_digits(v));
    let t = strip_trailing_zeros(dec_digits(v));
    assert forall|i: int| 0 <= i < t.len() implies '0' <= #[trigger] t[i] <= '9' by {
        assert(t[i] == dec_digits(v)[i]);
    }
}

/// The exact scientific form of a numeric pattern's value is one rendering accepts.
pub proof fn lemma_pattern_sci(fmt: Format, bits: u64)
    requires
        fmt.fields_of(bits).special.is_none(),
    ensures
        ({
            let f = fmt.fields_of(bits);
            let (d, e) = exact_sci_parts(f.frac as nat, f.total_exp - 60);
            &&& 1 <= d.len() < 1200
            &&& -1200 < e < 1200
            &&& all_digits(d)
        }),
{
    let f = fmt.fields_of(bits);
    lemma_numeric_bounds(fmt, bits);
    lemma2_to64_rest();
    lemma_sci_small(f.frac as nat, f.total_exp - 60);
}

/// The decimal text shown for a pattern: `0`, `NaR`, or its exact value rendered to `sig`
/// significant digits.
pub open spec fn pattern_text(fmt: Format, bits: u64, sig: nat) -> Seq<char> {
    let f = fmt.fields_of(bits);
    match f.special {
        Some(Special::Zero) => seq!['0'],
        Some(Special::NaR) => seq!['N', 'a', 'R'],
        None => {
            let (d, e) = exact_sci_parts(f.frac as nat, f.total_exp - 60);
            rendered_text(f.neg, d, e, sig)
        },
    }
}

/// The text shown for a pattern carries the sign of its value: it starts with `-` exactly when
/// the value is negative.
pub proof fn lemma_pattern_text_sign(fmt: Format, bits: u64, sig: nat)
    requires
        !is_nar(fmt, bits),
    ensures
        pattern_text(fmt, bits, sig).len() >= 1,
        (pattern_text(fmt, bits, sig)[0] == '-') == (crate::order::signed_units(fmt, bits) < 0),
{
    let f = fmt.fields_of(bits);
    if f.special.is_none() {
        lemma_numeric_bounds(fmt, bits);
        lemma_pattern_sci(fmt, bits);
        let (d, e) = exact_sci_parts(f.frac as nat, f.total_exp - 60);
        crate::decimal::lemma_rendered_sign(f.neg, d, e, sig);
        lemma2_to64();
        lemma2_to64_rest();
        let t = (f.total_exp + 1024) as nat;
        lemma_pow2_pos(t);
        vstd::arithmetic::mul::lemma_mul_strictly_positive(f.frac as int, pow2(t) as int);
        assert(crate::grid::mag_units(f.total_exp as int, f.frac as nat) > 0);
    }
}

/// The value of a pattern as decimal text, to `sig` significant digits.
pub fn decimal_of(fmt: Format, bits: u64, sig: usize) -> (r: String)
    ensures
        r@ == pattern_text(fmt, bits, sig as nat),
{
    let d = fmt.decode(bits);
    match d.special {
        Some(Special::Zero) => {
            let mut z = String::new();
            push_char(&mut z, '0');
            assert(z@ =~= seq!['0']);
            z
        },
        Some(Special::NaR) => {
            let mut z = String::new();
            push_char(&mut z, 'N');
            push_char(&mut z, 'a');
            push_char(&mut z, 'R');
            assert(z@ =~= seq!['N', 'a', 'R']);
            z
        },
        None => {
            proof {
                lemma_numeric_bounds(fmt, bits);
                lemma_pattern_sci(fmt, bits);
                lemma2_to64_rest();
            }
            let sci = exact_sci(d.frac, d.total_exp - 60);
            render(d.neg, &sci, sig).0
        },
    }
}

/// `a − b` for signed fractions, as [`Rational::sub`] computes it.
pub open spec fn diff_parts(a: (bool, nat, nat), b: (bool, nat, nat)) -> (bool, nat, nat) {
    sum_parts(a, negated_parts(b))
}

/// The value `e` lies below the value `r`.
pub open spec fn lies_below(e: (bool, nat, nat), r: (bool, nat, nat)) -> bool {
    signed_of(e) * r.2 < signed_of(r) * e.2
}

/// `e` is exactly halfway between `lo` and `hi`: twice its offset from `lo` is the gap.
pub open spec fn is_tie(e: (bool, nat, nat), lo: (bool, nat, nat), hi: (bool, nat, nat)) -> bool {
    let off = diff_parts(e, lo);
    let gap = diff_parts(hi, lo);
    let twice = normalized(off.0, off.1 * 2, off.2);
    signed_of(twice) * gap.2 == signed_of(gap) * twice.2
}

/// `(e − lo) / (hi − lo)`: where `e` lies between `lo` (0) and `hi` (1).
pub open spec fn position_parts(e: (bool, nat, nat), lo: (bool, nat, nat), hi: (bool, nat, nat)) -> (bool, nat, nat) {
    let off = diff_parts(e, lo);
    let gap = diff_parts(hi, lo);
    normalized(off.0 != gap.0, off.1 * gap.2, off.2 * gap.1)
}

/// `|e − r| / |e|`, the relative error of `r` as an approximation of `e`.
pub open spec fn rel_error_parts(e: (bool, nat, nat), r: (bool, nat, nat)) -> (bool, nat, nat) {
    let d = diff_parts(e, r);
    normalized(false, d.1 * e.2, d.2 * e.1)
}

/// `q` as decimal text to `sig` significant digits, with whether that is all of it; `None` only
/// when `q` is too large to print.
fn text_of(q: &Rational, sig: usize) -> (r: Option<(String, bool)>)
    requires
        q.wf(),
        sig < 0x1000_0000,
    ensures
        r is None <==> !q.display_ok(),
        printable(q.parts()) ==> r is Some,
        r matches Some(t) ==> t.0@ == fraction_text(q.parts(), sig as nat) && t.1 == fraction_whole(q.parts(), sig as nat),
{
    proof {
        if printable(q.parts()) {
            q.lemma_display_small();
        }
    }
    if q.displayable() {
        Some(q.to_decimal(sig))
    } else {
        None
    }
}

/// How the value of `a` compares with the value of `b`.
fn side_of(a: &Rational, b: &Rational) -> (c: Comparison)
    requires
        a.wf(),
        b.wf(),
    ensures
        (c == Comparison::Less) == lies_below(a.parts(), b.parts()),
        (c == Comparison::Equal) == same_value(a.parts(), b.parts()),
        (c == Comparison::Greater) == lies_below(b.parts(), a.parts()),
{
    proof {
        a.lemma_parts();
        b.lemma_parts();
    }
    match a.cmp(b) {
        Ordering::Less => Comparison::Less,
        Ordering::Equal => Comparison::Equal,
        Ordering::Greater => Comparison::Greater,
    }
}

/// The two patterns an inexact result fell between.
pub struct Bracket {
    /// The pattern below the exact value.
    pub lo: u64,
    /// The pattern above the exact value.
    pub hi: u64,
    /// The exact value is exactly halfway, so rounding went to the even pattern.
    pub tie: bool,
    /// Where the exact value lies from `lo` (0) to `hi` (1), to six significant digits.
    pub position: Option<String>,
}

/// What rounding did to an exact result.
pub struct Rounding {
    /// The exact value, to twenty significant digits.
    pub exact: String,
    /// Whether that text is the whole exact value.
    pub exact_shown: bool,
    /// Whether the exact value has a finite decimal expansion.
    pub terminating: bool,
    /// The value of the pattern it rounded to, to twenty significant digits.
    pub rounded: String,
    /// Whether the pattern differs in value from the exact result.
    pub was_rounded: bool,
    /// The exact value lies beyond maxpos (or below −maxpos): there is no pattern on its far
    /// side, and posits saturate rather than overflow.
    pub saturated: bool,
    /// The patterns either side of an inexact, unsaturated result.
    pub bracket: Option<Bracket>,
    /// The relative error of the rounded value, to four significant digits.
    pub rel_error: Option<String>,
}

/// `i` is what rounding the exact value `e` to the pattern `result` did: the exact and rounded
/// texts, whether the two differ, and, when they do, the neighbour on the far side of `e`, the
/// tie and position between the bracketing patterns, and the relative error.
pub open spec fn describes(fmt: Format, e: (bool, nat, nat), result: u64, i: Rounding) -> bool {
    let v = value_parts(fmt, result);
    &&& i.exact@ == fraction_text(e, 20)
    &&& i.exact_shown == fraction_whole(e, 20)
    &&& i.terminating == terminates(e.1, e.2)
    &&& i.rounded@ == pattern_text(fmt, result, 20)
    &&& i.was_rounded == !same_value(e, v)
    &&& !i.was_rounded ==> !i.saturated && i.bracket is None && i.rel_error is None
    &&& i.was_rounded ==> {
        let below = lies_below(e, v);
        let other = neighbour_of(fmt, result, !below);
        &&& i.saturated == other is None
        &&& i.saturated ==> i.bracket is None
        &&& !i.saturated ==> (i.bracket matches Some(b) && {
            let lo = value_parts(fmt, b.lo);
            let hi = value_parts(fmt, b.hi);
            &&& (if below { b.lo as nat == other->0 && b.hi == result } else { b.lo == result && b.hi as nat == other->0 })
            &&& b.tie == is_tie(e, lo, hi)
            &&& b.position matches Some(t) ==> t@ == fraction_text(position_parts(e, lo, hi), 6)
            &&& (diff_parts(hi, lo).1 != 0 && printable(position_parts(e, lo, hi))) ==> b.position is Some
        })
        &&& i.rel_error matches Some(t) ==> t@ == fraction_text(rel_error_parts(e, v), 4)
        &&& (e.1 != 0 && printable(rel_error_parts(e, v))) ==> i.rel_error is Some
    }
}

/// What rounding the exact value `exact` to the pattern `result` did: `None` when `result` is
/// NaR, which approximates nothing, or when `exact` is beyond the size limit of printing
/// ([`Rational::display_ok`], about 320 million digits), which only a typed literal with an
/// exponent of that order can reach.
pub fn inspect_rounding(fmt: Format, exact: &Rational, result: u64) -> (r: Option<Rounding>)
    requires
        exact.wf(),
    ensures
        r is None <==> (is_nar(fmt, result) || !exact.display_ok()),
        printable(exact.parts()) && !is_nar(fmt, result) ==> r is Some,
        r matches Some(i) ==> describes(fmt, exact.parts(), result, i),
{
    let rounded = match rational_of(fmt, result) {
        Some(q) => q,
        None => {
            return None;
        },
    };
    let (text, whole) = match text_of(exact, 20) {
        Some(t) => t,
        None => {
            return None;
        },
    };
    let terminating = exact.is_terminating();
    let shown = decimal_of(fmt, result, 20);
    proof {
        exact.lemma_parts();
        rounded.lemma_parts();
    }
    let side = side_of(exact, &rounded);
    if side == Comparison::Equal {
        return Some(Rounding {
            exact: text,
            exact_shown: whole,
            terminating,
            rounded: shown,
            was_rounded: false,
            saturated: false,
            bracket: None,
            rel_error: None,
        });
    }
    // The exact value lies between the answer and one of its neighbours; which side depends on
    // whether rounding went up or down.
    let below = side == Comparison::Less;
    let other = neighbour(fmt, result, !below);
    let bracket = match other {
        None => None,
        Some(nb) => {
            let (lo, hi) = if below { (nb, result) } else { (result, nb) };
            proof {
                lemma_neighbour_not_nar(fmt, result, !below);
            }
            let rlo = if below { rational_of(fmt, nb) } else { rational_of(fmt, result) };
            let rhi = if below { rational_of(fmt, result) } else { rational_of(fmt, nb) };
            match (rlo, rhi) {
                (Some(rlo), Some(rhi)) => Some(bracket_of(exact, lo, hi, &rlo, &rhi)),
                _ => None,
            }
        },
    };
    let rel_error = relative_error(exact, &rounded);
    Some(Rounding {
        exact: text,
        exact_shown: whole,
        terminating,
        rounded: shown,
        was_rounded: true,
        saturated: other.is_none(),
        bracket,
        rel_error,
    })
}

/// A pattern next to a numeric or zero pattern is never NaR.
pub proof fn lemma_neighbour_not_nar(fmt: Format, bits: u64, up: bool)
    requires
        !is_nar(fmt, bits),
        neighbour_of(fmt, bits, up) is Some,
    ensures
        ({
            let b = neighbour_of(fmt, bits, up)->0;
            &&& b < fmt.modulus()
            &&& !is_nar(fmt, b as u64)
        }),
{
    let n = fmt.nbits();
    let m = fmt.modulus();
    lemma2_to64();
    lemma2_to64_rest();
    vstd::arithmetic::power2::lemma_pow2_adds(1, (n - 1) as nat);
    assert(n == 1 + (n - 1) as nat);
    lemma_pow2_pos(n);
    let b = neighbour_of(fmt, bits, up)->0;
    vstd::arithmetic::div_mod::lemma_mod_bound(bits as int, m as int);
    vstd::arithmetic::div_mod::lemma_mod_bound((((bits as nat) % m) + 1) as int, m as int);
    vstd::arithmetic::div_mod::lemma_mod_bound((((bits as nat) % m) + m - 1) as int, m as int);
    assert(b < m);
    assert(m <= pow2(64));
    vstd::arithmetic::div_mod::lemma_small_mod(b, m);
    assert((b as u64) as nat == b);
    let u = (bits as nat) % m;
    if up {
        if u + 1 < m {
            vstd::arithmetic::div_mod::lemma_small_mod(u + 1, m);
        } else {
            vstd::arithmetic::div_mod::lemma_mod_self_0(m as int);
        }
    } else {
        if u >= 1 {
            vstd::arithmetic::div_mod::lemma_mod_add_multiples_vanish((u - 1) as int, m as int);
            vstd::arithmetic::div_mod::lemma_small_mod((u - 1) as nat, m);
        } else {
            vstd::arithmetic::div_mod::lemma_small_mod((m - 1) as nat, m);
        }
    }
}

/// The bracket `lo`, `hi` around `exact`: whether it is a tie, and where between them it lies.
fn bracket_of(exact: &Rational, lo: u64, hi: u64, rlo: &Rational, rhi: &Rational) -> (b: Bracket)
    requires
        exact.wf(),
        rlo.wf(),
        rhi.wf(),
    ensures
        b.lo == lo,
        b.hi == hi,
        b.tie == is_tie(exact.parts(), rlo.parts(), rhi.parts()),
        b.position matches Some(t) ==> t@ == fraction_text(position_parts(exact.parts(), rlo.parts(), rhi.parts()), 6),
        (diff_parts(rhi.parts(), rlo.parts()).1 != 0 && printable(position_parts(exact.parts(), rlo.parts(), rhi.parts()))) ==> b.position is Some,
{
    let gap = rhi.sub(rlo);
    let offset = exact.sub(rlo);
    let two = Rational::from_int(2);
    proof {
        lemma_small_int_parts();
        two.lemma_parts();
        offset.lemma_parts();
        gap.lemma_parts();
        vstd::arithmetic::mul::lemma_mul_basics(offset.denom() as int);
    }
    let twice = offset.mul(&two);
    proof {
        twice.lemma_parts();
    }
    // An exact tie is offset·2 == gap, which is what sends the answer to the even encoding
    // rather than to the nearer neighbour.
    let tie = side_of(&twice, &gap) == Comparison::Equal;
    let position = match offset.div(&gap) {
        Some(p) => match text_of(&p, 6) {
            Some(t) => Some(t.0),
            None => None,
        },
        None => None,
    };
    Bracket { lo, hi, tie, position }
}

/// `|exact − rounded| / |exact|` to four significant digits; `None` when `exact` is zero or the
/// quotient is too large to print.
fn relative_error(exact: &Rational, rounded: &Rational) -> (r: Option<String>)
    requires
        exact.wf(),
        rounded.wf(),
    ensures
        r matches Some(t) ==> t@ == fraction_text(rel_error_parts(exact.parts(), rounded.parts()), 4),
        (exact.parts().1 != 0 && printable(rel_error_parts(exact.parts(), rounded.parts()))) ==> r is Some,
{
    let diff = exact.sub(rounded);
    let d = diff.abs();
    let a = exact.abs();
    proof {
        exact.lemma_parts();
        rounded.lemma_parts();
        diff.lemma_parts();
        d.lemma_parts();
        a.lemma_parts();
    }
    match d.div(&a) {
        Some(q) => match text_of(&q, 4) {
            Some(t) => Some(t.0),
            None => None,
        },
        None => None,
    }
}

/// The values either side of a pattern, and the size of the steps to them.
///
/// The gaps are what "precision" means concretely: they widen as the exponent grows, and the
/// regime cap is what stops them widening without bound.
pub struct Neighbours {
    /// The pattern below, if any.
    pub prior: Option<u64>,
    /// The pattern above, if any.
    pub next: Option<u64>,
    /// The value minus the one below, to eight significant digits.
    pub gap_below: Option<String>,
    /// The one above minus the value, to eight significant digits.
    pub gap_above: Option<String>,
}

/// The pattern next to `bits` on one side, and the gap to it: `value(above) − value(below)`.
fn step_to(fmt: Format, bits: u64, here: &Rational, up: bool) -> (r: (Option<u64>, Option<String>))
    requires
        here.wf(),
        !is_nar(fmt, bits),
        here.parts() == value_parts(fmt, bits),
    ensures
        match neighbour_of(fmt, bits, up) {
            None => r.0 is None && r.1 is None,
            Some(b) => r.0 matches Some(v) && v as nat == b && {
                let other = value_parts(fmt, v);
                let gap = if up { diff_parts(other, here.parts()) } else { diff_parts(here.parts(), other) };
                &&& r.1 matches Some(t) ==> t@ == fraction_text(gap, 8)
                &&& printable(gap) ==> r.1 is Some
            },
        },
{
    let nb = match neighbour(fmt, bits, up) {
        Some(v) => v,
        None => {
            return (None, None);
        },
    };
    proof {
        lemma_neighbour_not_nar(fmt, bits, up);
    }
    let other = match rational_of(fmt, nb) {
        Some(q) => q,
        None => {
            return (Some(nb), None);
        },
    };
    let gap = if up { other.sub(here) } else { here.sub(&other) };
    match text_of(&gap, 8) {
        Some(t) => (Some(nb), Some(t.0)),
        None => (Some(nb), None),
    }
}

/// `nb` lists the patterns either side of `bits` and the gaps to them, each gap to eight
/// significant digits.
pub open spec fn lists_neighbours(fmt: Format, bits: u64, nb: Neighbours) -> bool {
    let here = value_parts(fmt, bits);
    &&& match neighbour_of(fmt, bits, false) {
        None => nb.prior is None && nb.gap_below is None,
        Some(b) => nb.prior matches Some(v) && v as nat == b && {
            let gap = diff_parts(here, value_parts(fmt, v));
            &&& nb.gap_below matches Some(t) ==> t@ == fraction_text(gap, 8)
            &&& printable(gap) ==> nb.gap_below is Some
        },
    }
    &&& match neighbour_of(fmt, bits, true) {
        None => nb.next is None && nb.gap_above is None,
        Some(b) => nb.next matches Some(v) && v as nat == b && {
            let gap = diff_parts(value_parts(fmt, v), here);
            &&& nb.gap_above matches Some(t) ==> t@ == fraction_text(gap, 8)
            &&& printable(gap) ==> nb.gap_above is Some
        },
    }
}

/// The patterns either side of `bits` and the gaps to them; `None` for NaR, which is outside the
/// order.
pub fn neighbours(fmt: Format, bits: u64) -> (r: Option<Neighbours>)
    ensures
        r is None <==> is_nar(fmt, bits),
        r matches Some(nb) ==> lists_neighbours(fmt, bits, nb),
{
    let here = match rational_of(fmt, bits) {
        Some(q) => q,
        None => {
            return None;
        },
    };
    let (prior, gap_below) = step_to(fmt, bits, &here, false);
    let (next, gap_above) = step_to(fmt, bits, &here, true);
    Some(Neighbours { prior, next, gap_below, gap_above })
}

/// The sign an operation is written with.
pub open spec fn op_char(op: BinOp) -> char {
    match op {
        BinOp::Add => '+',
        BinOp::Sub => '\u{2212}',
        BinOp::Mul => '\u{00d7}',
        BinOp::Div => '\u{00f7}',
    }
}

/// How `a op b` is written for the inspector, e.g. `60 + 2`: each operand to twelve digits.
pub open spec fn bin_expr(fmt: Format, op: BinOp, a: u64, b: u64) -> Seq<char> {
    pattern_text(fmt, a, 12) + seq![' ', op_char(op), ' '] + pattern_text(fmt, b, 12)
}

/// How `op a` is written for the inspector: `−(a)`, `1 ÷ a`, `a × 2` or `a ÷ 2`.
pub open spec fn un_expr(fmt: Format, op: UnOp, a: u64) -> Seq<char> {
    let t = pattern_text(fmt, a, 12);
    match op {
        UnOp::Neg => seq!['\u{2212}', '('] + t + seq![')'],
        UnOp::Recip => seq!['1', ' ', '\u{00f7}', ' '] + t,
        UnOp::Double => t + seq![' ', '\u{00d7}', ' ', '2'],
        UnOp::Half => t + seq![' ', '\u{00f7}', ' ', '2'],
    }
}

/// [`bin_expr`] as a string.
pub fn bin_expr_text(fmt: Format, op: BinOp, a: u64, b: u64) -> (s: String)
    ensures
        s@ == bin_expr(fmt, op, a, b),
{
    let mut s = decimal_of(fmt, a, 12);
    let c = match op {
        BinOp::Add => '+',
        BinOp::Sub => '\u{2212}',
        BinOp::Mul => '\u{00d7}',
        BinOp::Div => '\u{00f7}',
    };
    push_char(&mut s, ' ');
    push_char(&mut s, c);
    push_char(&mut s, ' ');
    let t = decimal_of(fmt, b, 12);
    s.append(t.as_str());
    assert(s@ =~= bin_expr(fmt, op, a, b));
    s
}

/// [`un_expr`] as a string.
pub fn un_expr_text(fmt: Format, op: UnOp, a: u64) -> (s: String)
    ensures
        s@ == un_expr(fmt, op, a),
{
    let t = decimal_of(fmt, a, 12);
    let mut s = String::new();
    match op {
        UnOp::Neg => {
            push_char(&mut s, '\u{2212}');
            push_char(&mut s, '(');
            s.append(t.as_str());
            push_char(&mut s, ')');
        },
        UnOp::Recip => {
            push_char(&mut s, '1');
            push_char(&mut s, ' ');
            push_char(&mut s, '\u{00f7}');
            push_char(&mut s, ' ');
            s.append(t.as_str());
        },
        UnOp::Double => {
            s.append(t.as_str());
            push_char(&mut s, ' ');
            push_char(&mut s, '\u{00d7}');
            push_char(&mut s, ' ');
            push_char(&mut s, '2');
        },
        UnOp::Half => {
            s.append(t.as_str());
            push_char(&mut s, ' ');
            push_char(&mut s, '\u{00f7}');
            push_char(&mut s, ' ');
            push_char(&mut s, '2');
        },
    }
    assert(s@ =~= un_expr(fmt, op, a));
    s
}

/// Decoded fields whose exact value the readout can show: numeric, with a significand and an
/// exponent in the range every standard format's capped and uncapped decodings stay within.
pub open spec fn showable(d: Fields) -> bool {
    &&& d.special is None
    &&& d.frac != 0
    &&& -1100 <= d.total_exp - 60 <= 1000
}

/// Every number of a standard format, under its cap, has a readout.
pub proof fn lemma_numbers_showable(fmt: Format, bits: u64)
    requires
        fmt.fields_of(bits).special.is_none(),
    ensures
        showable(fmt.fields_of(bits)),
{
    lemma_numeric_bounds(fmt, bits);
    lemma2_to64_rest();
}

/// The decimal readout of one decoding of a pattern.
pub struct Readout {
    /// The value to the requested number of significant digits.
    pub shown: String,
    /// Whether that is the whole value.
    pub whole: bool,
    /// The whole exact value, positionally.
    pub exact: String,
    /// The significand `1.fff…` the fraction bits spell, to the same number of digits.
    pub significand: String,
}

/// The decimal readout of decoded fields, at `sig` significant digits; `None` for zero, NaR and
/// fields outside [`showable`].
pub fn readout(d: &Fields, sig: usize) -> (r: Option<Readout>)
    ensures
        r is Some <==> showable(*d),
        r matches Some(o) ==> {
            let (ds, e) = exact_sci_parts(d.frac as nat, d.total_exp - 60);
            let (gs, ge) = exact_sci_parts(d.frac as nat, -60);
            &&& o.shown@ == rendered_text(d.neg, ds, e, sig as nat)
            &&& o.whole == (ds.len() <= sig)
            &&& o.exact@ == sign_text(d.neg) + positional_text(ds, e)
            &&& o.significand@ == rendered_text(false, gs, ge, sig as nat)
            &&& o.shown@.len() >= 1 && (o.shown@[0] == '-') == d.neg
            &&& o.exact@.len() >= 1 && (o.exact@[0] == '-') == d.neg
            &&& o.significand@.len() >= 1 && o.significand@[0] != '-'
        },
{
    if d.special.is_some() || d.frac == 0 || d.total_exp < -1040 || d.total_exp > 1060 {
        return None;
    }
    proof {
        lemma2_to64();
        lemma2_to64_rest();
        lemma_sci_small(d.frac as nat, d.total_exp - 60);
        lemma_sci_small(d.frac as nat, -60);
        let (ds, e) = exact_sci_parts(d.frac as nat, d.total_exp - 60);
        let (gs, ge) = exact_sci_parts(d.frac as nat, -60);
        crate::decimal::lemma_rendered_sign(d.neg, ds, e, sig as nat);
        crate::decimal::lemma_rendered_sign(false, gs, ge, sig as nat);
        crate::decimal::lemma_positional_chars(ds, e);
        let pos = positional_text(ds, e);
        assert(pos.len() >= 1 && pos[0] != '-') by {
            let len = ds.len() as int;
            if e >= len - 1 {
                assert(pos[0] == ds[0]);
            } else if e >= 0 {
                assert(pos[0] == ds[0]);
            }
        }
        if d.neg {
            assert((sign_text(d.neg) + pos)[0] == '-');
        } else {
            assert((sign_text(d.neg) + pos)[0] == pos[0]);
        }
    }
    let sci = exact_sci(d.frac, d.total_exp - 60);
    let (shown, whole) = render(d.neg, &sci, sig);
    let exact = exact_string(d.neg, &sci);
    let sig_sci = exact_sci(d.frac, -60);
    let significand = render(false, &sig_sci, sig).0;
    Some(Readout { shown, whole, exact, significand })
}

/// The signed fraction `p` has the value `n / d`.
pub open spec fn has_value(p: (bool, nat, nat), n: int, d: int) -> bool {
    &&& p.2 > 0
    &&& d > 0
    &&& signed_of(p) * d == n * p.2
}

/// Two fractions with known values are equal exactly when those values are.
proof fn lemma_same_value_by(p: (bool, nat, nat), q: (bool, nat, nat), n1: int, d1: int, n2: int, d2: int)
    requires
        has_value(p, n1, d1),
        has_value(q, n2, d2),
    ensures
        same_value(p, q) <==> n1 * d2 == n2 * d1,
{
    let sp = signed_of(p);
    let sq = signed_of(q);
    let p2 = p.2 as int;
    let q2 = q.2 as int;
    let m = d1 * d2;
    let k = p2 * q2;
    assert(m > 0 && k > 0) by (nonlinear_arith)
        requires p2 > 0, q2 > 0, d1 > 0, d2 > 0, m == d1 * d2, k == p2 * q2;
    assert(sp * q2 * m == (sp * d1) * (q2 * d2)) by (nonlinear_arith)
        requires m == d1 * d2;
    assert((n1 * p2) * (q2 * d2) == (n1 * d2) * k) by (nonlinear_arith)
        requires k == p2 * q2;
    assert(sq * p2 * m == (sq * d2) * (p2 * d1)) by (nonlinear_arith)
        requires m == d1 * d2;
    assert((n2 * q2) * (p2 * d1) == (n2 * d1) * k) by (nonlinear_arith)
        requires k == p2 * q2;
    let a = sp * q2;
    let b = sq * p2;
    assert(a * m == (n1 * d2) * k);
    assert(b * m == (n2 * d1) * k);
    if a == b {
        vstd::arithmetic::mul::lemma_mul_equality_converse(k, n1 * d2, n2 * d1);
        vstd::arithmetic::mul::lemma_mul_is_commutative(k, n1 * d2);
        vstd::arithmetic::mul::lemma_mul_is_commutative(k, n2 * d1);
    }
    if n1 * d2 == n2 * d1 {
        vstd::arithmetic::mul::lemma_mul_equality_converse(m, a, b);
        vstd::arithmetic::mul::lemma_mul_is_commutative(m, a);
        vstd::arithmetic::mul::lemma_mul_is_commutative(m, b);
    }
}

/// The negation of `b` has the value `−b`.
proof fn lemma_neg_has_value(b: (bool, nat, nat))
    requires
        b.2 > 0,
    ensures
        has_value(negated_parts(b), -signed_of(b), b.2 as int),
{
    if b.1 != 0 {
        lemma_normalized_value(!b.0, b.1, b.2);
    }
}

/// The difference `a − b` has the value `(a·db − b·da) / (da·db)`.
proof fn lemma_diff_has_value(a: (bool, nat, nat), b: (bool, nat, nat))
    requires
        a.2 > 0,
        b.2 > 0,
    ensures
        has_value(diff_parts(a, b), signed_of(a) * b.2 - signed_of(b) * a.2, (a.2 * b.2) as int),
{
    let nb = negated_parts(b);
    lemma_neg_has_value(b);
    crate::rational::lemma_add_exact(a, nb);
    let d = diff_parts(a, b);
    let sa = signed_of(a);
    let sb = signed_of(b);
    let snb = signed_of(nb);
    let sd = signed_of(d);
    let a2 = a.2 as int;
    let b2 = b.2 as int;
    let nb2 = nb.2 as int;
    let d2 = d.2 as int;
    assert(a2 * b2 > 0) by (nonlinear_arith)
        requires a2 > 0, b2 > 0;
    // sd·(a2·nb2)·b2 = (sa·nb2 + snb·a2)·d2·b2 = (sa·b2 − sb·a2)·d2·nb2, and nb2 > 0 cancels.
    let p = sa * nb2;
    let q = snb * a2;
    let r = sa * b2 - sb * a2;
    let lhs = sd * (a2 * nb2) * b2;
    assert(lhs == (p + q) * d2 * b2) by (nonlinear_arith)
        requires lhs == sd * (a2 * nb2) * b2, sd * (a2 * nb2) == (p + q) * d2;
    assert((p + q) * d2 * b2 == p * d2 * b2 + q * d2 * b2) by (nonlinear_arith);
    assert(p * d2 * b2 == (sa * b2) * nb2 * d2) by (nonlinear_arith)
        requires p == sa * nb2;
    assert(q * d2 * b2 == -((sb * a2) * nb2 * d2)) by (nonlinear_arith)
        requires q == snb * a2, snb * b2 == -sb * nb2;
    assert((sa * b2) * nb2 * d2 - (sb * a2) * nb2 * d2 == (r * d2) * nb2) by (nonlinear_arith)
        requires r == sa * b2 - sb * a2;
    assert(lhs == (sd * (a2 * b2)) * nb2) by (nonlinear_arith)
        requires lhs == sd * (a2 * nb2) * b2;
    assert((sd * (a2 * b2)) * nb2 == (r * d2) * nb2);
    vstd::arithmetic::mul::lemma_mul_equality_converse(nb2, sd * (a2 * b2), r * d2);
    vstd::arithmetic::mul::lemma_mul_is_commutative(nb2, sd * (a2 * b2));
    vstd::arithmetic::mul::lemma_mul_is_commutative(nb2, r * d2);
}

/// Doubling `o` gives the value `2·o`.
proof fn lemma_twice_has_value(o: (bool, nat, nat))
    requires
        o.2 > 0,
    ensures
        has_value(normalized(o.0, o.1 * 2, o.2), 2 * signed_of(o), o.2 as int),
{
    lemma_normalized_value(o.0, o.1 * 2, o.2);
    assert(signed_of((o.0, o.1 * 2, o.2)) == 2 * signed_of(o));
}

/// The inspector's tie is the exact midpoint: `e` is reported as a tie between `lo` and `hi`
/// exactly when `2·e = lo + hi`.
pub proof fn lemma_tie_is_midpoint(e: (bool, nat, nat), lo: (bool, nat, nat), hi: (bool, nat, nat))
    requires
        e.2 > 0,
        lo.2 > 0,
        hi.2 > 0,
    ensures
        is_tie(e, lo, hi) <==> 2 * signed_of(e) * lo.2 * hi.2 == (signed_of(lo) * hi.2 + signed_of(hi) * lo.2) * e.2,
{
    let off = diff_parts(e, lo);
    let gap = diff_parts(hi, lo);
    lemma_diff_has_value(e, lo);
    lemma_diff_has_value(hi, lo);
    let twice = normalized(off.0, off.1 * 2, off.2);
    lemma_twice_has_value(off);
    let se = signed_of(e);
    let sl = signed_of(lo);
    let sh = signed_of(hi);
    let de = e.2 as int;
    let dl = lo.2 as int;
    let dh = hi.2 as int;
    let no = se * dl - sl * de;
    let ng = sh * dl - sl * dh;
    lemma_same_value_by(twice, gap, 2 * signed_of(off), off.2 as int, ng, dh * dl);
    // The doubled offset also has the value 2·no / (de·dl).
    assert(has_value(twice, 2 * no, de * dl)) by (nonlinear_arith)
        requires
            signed_of(twice) * off.2 == 2 * signed_of(off) * twice.2,
            signed_of(off) * (de * dl) == no * off.2,
            off.2 > 0,
            twice.2 > 0,
            de > 0,
            dl > 0,
    {
        assert(signed_of(twice) * off.2 * (de * dl) == 2 * signed_of(off) * (de * dl) * twice.2);
        assert(signed_of(twice) * off.2 * (de * dl) == 2 * no * off.2 * twice.2);
        assert(de * dl > 0);
    }
    lemma_same_value_by(twice, gap, 2 * no, de * dl, ng, dh * dl);
    let x = 2 * no * dh;
    let y = ng * de;
    assert(2 * no * (dh * dl) == x * dl) by (nonlinear_arith)
        requires x == 2 * no * dh;
    assert(ng * (de * dl) == y * dl) by (nonlinear_arith)
        requires y == ng * de;
    if x * dl == y * dl {
        vstd::arithmetic::mul::lemma_mul_equality_converse(dl, x, y);
        vstd::arithmetic::mul::lemma_mul_is_commutative(dl, x);
        vstd::arithmetic::mul::lemma_mul_is_commutative(dl, y);
    }
    assert((x == y) <==> (2 * se * dl * dh == (sl * dh + sh * dl) * de)) by (nonlinear_arith)
        requires
            x == 2 * no * dh,
            no == se * dl - sl * de,
            y == ng * de,
            ng == sh * dl - sl * dh,
    ;
    assert(is_tie(e, lo, hi) <==> (x == y));
    assert(2 * signed_of(e) * lo.2 * hi.2 == 2 * se * dl * dh);
    assert((signed_of(lo) * hi.2 + signed_of(hi) * lo.2) * e.2 == (sl * dh + sh * dl) * de);
}

} // verus!
