//! The value of a positive pattern, and the order of a format's patterns by value.
//!
//! A finite posit magnitude is `frac × 2^(exp − 60)` with `frac` in `[2^60, 2^61)`. Every
//! exponent of the four standard formats lies within ±1024, so every such magnitude is a whole
//! number of units of `2^−1084`; comparing magnitudes is comparing those whole numbers.

use vstd::prelude::*;
use vstd::arithmetic::power2::{
    lemma2_to64, lemma2_to64_rest, lemma_pow2_adds, lemma_pow2_pos, lemma_pow2_strictly_increases,
    pow2,
};
use vstd::arithmetic::mul::{lemma_mul_inequality, lemma_mul_strict_inequality};
use vstd::arithmetic::div_mod::lemma_small_mod;
use crate::bits::{numeric_fields, spec_decode, Special};
use crate::format::Format;
use crate::monotone::{
    class_avail, class_k, class_prefix, class_run, lemma_class_of_prefix, lemma_positive_class,
    lemma_positive_order, lemma_positive_step, lemma_regime_raw, lex_less, shape_ok,
};

verus! {

/// The magnitude `frac × 2^(exp − 60)` in units of `2^−1084`.
pub open spec fn mag_units(exp: int, frac: nat) -> nat {
    frac * pow2((exp + 1024) as nat)
}

/// A significand with its hidden bit at bit 60, and an exponent within ±1024.
pub open spec fn mag_fields_ok(exp: int, frac: nat) -> bool {
    &&& pow2(60) <= frac < pow2(61)
    &&& -1024 <= exp <= 1024
}

/// The total exponent of a positive pattern.
pub open spec fn pattern_exp(fmt: Format, p: nat) -> int {
    fmt.fields_of(p as u64).total_exp as int
}

/// The significand of a positive pattern.
pub open spec fn pattern_frac(fmt: Format, p: nat) -> nat {
    fmt.fields_of(p as u64).frac as nat
}

/// The value of a positive pattern, in units of `2^−1084`.
pub open spec fn pattern_units(fmt: Format, p: nat) -> nat {
    mag_units(pattern_exp(fmt, p), pattern_frac(fmt, p))
}

/// The largest pattern, maxpos.
pub open spec fn max_pattern(fmt: Format) -> nat {
    (pow2((fmt.nbits() - 1) as nat) - 1) as nat
}

/// Exponent first, then significand, is the order of the magnitudes.
pub proof fn lemma_units_order(e1: int, f1: nat, e2: int, f2: nat)
    requires
        mag_fields_ok(e1, f1),
        mag_fields_ok(e2, f2),
    ensures
        lex_less(e1, f1, e2, f2) <==> mag_units(e1, f1) < mag_units(e2, f2),
        (e1 == e2 && f1 == f2) <==> mag_units(e1, f1) == mag_units(e2, f2),
{
    lemma_units_order_one_way(e1, f1, e2, f2);
    lemma_units_order_one_way(e2, f2, e1, f1);
}

proof fn lemma_units_order_one_way(e1: int, f1: nat, e2: int, f2: nat)
    requires
        mag_fields_ok(e1, f1),
        mag_fields_ok(e2, f2),
    ensures
        lex_less(e1, f1, e2, f2) ==> mag_units(e1, f1) < mag_units(e2, f2),
        (e1 == e2 && f1 == f2) ==> mag_units(e1, f1) == mag_units(e2, f2),
{
    let a = (e1 + 1024) as nat;
    let b = (e2 + 1024) as nat;
    lemma_pow2_pos(a);
    lemma_pow2_pos(b);
    if e1 < e2 {
        // f1·2^a < 2^61·2^a = 2^(a+61) <= 2^(b+60) = 2^60·2^b <= f2·2^b
        lemma_mul_strict_inequality(f1 as int, pow2(61) as int, pow2(a) as int);
        lemma_pow2_adds(61, a);
        lemma_pow2_adds(60, b);
        if a + 61 < b + 60 {
            lemma_pow2_strictly_increases(a + 61, b + 60);
        }
        lemma_mul_inequality(pow2(60) as int, f2 as int, pow2(b) as int);
        vstd::arithmetic::mul::lemma_mul_is_commutative(f1 as int, pow2(a) as int);
        vstd::arithmetic::mul::lemma_mul_is_commutative(pow2(61) as int, pow2(a) as int);
    } else if e1 == e2 && f1 < f2 {
        lemma_mul_strict_inequality(f1 as int, f2 as int, pow2(a) as int);
    }
}

/// The shapes of the four standard formats are ones the ordering argument covers.
pub proof fn lemma_format_shape(fmt: Format)
    ensures
        shape_ok(fmt.nbits(), fmt.es_bits(), fmt.kmax_value()),
        fmt.es_bits() <= 4,
{
    lemma2_to64();
    lemma2_to64_rest();
}

/// A positive pattern decodes to a finite, non-negative magnitude whose significand has its
/// hidden bit at bit 60 and whose exponent lies within ±1024.
pub proof fn lemma_pattern_mag(fmt: Format, p: nat)
    requires
        1 <= p <= max_pattern(fmt),
    ensures
        fmt.fields_of(p as u64) == numeric_fields(false, p, fmt.nbits(), fmt.es_bits(), fmt.kmax_value()),
        fmt.fields_of(p as u64).special.is_none(),
        !fmt.fields_of(p as u64).neg,
        mag_fields_ok(pattern_exp(fmt, p), pattern_frac(fmt, p)),
        -1008 <= pattern_exp(fmt, p) <= 1007,
{
    let n = fmt.nbits();
    let es = fmt.es_bits();
    let kmax = fmt.kmax_value();
    lemma_format_shape(fmt);
    lemma2_to64();
    lemma2_to64_rest();
    lemma_pow2_strictly_increases((n - 1) as nat, n);
    lemma_small_mod(p, pow2(n));
    assert((p as u64) as nat == p);
    lemma_positive_class(p, n, es, kmax);
    let f = numeric_fields(false, p, n, es, kmax);
    let k = crate::monotone::class_k(p, n, kmax);
    let a = crate::monotone::class_avail(n, kmax, k);
    let fl = (a - es) as nat;
    let low = p % pow2(a);
    let x = low % pow2(fl);
    let pp = pow2((60 - fl) as nat);
    lemma_pow2_pos(fl);
    lemma_pow2_pos((60 - fl) as nat);
    vstd::arithmetic::div_mod::lemma_mod_bound(low as int, pow2(fl) as int);
    lemma_mul_strict_inequality(x as int, pow2(fl) as int, pp as int);
    lemma_pow2_adds(fl, (60 - fl) as nat);
    assert(fl + (60 - fl) as nat == 60);
    let e = low / pow2(fl);
    let q = pow2(es);
    assert(q <= 16) by {
        if es < 4 {
            lemma_pow2_strictly_increases(es, 4);
        }
    }
    assert(k * q >= -1008) by (nonlinear_arith)
        requires k >= -((n - 1) as int), n <= 64, 0 <= q <= 16;
    assert(k * q + e <= 1007) by (nonlinear_arith)
        requires k <= (n - 2) as int, n <= 64, 0 <= q <= 16, e < q;
}

/// Pattern order is value order: the binary search of rounding rests on this.
pub proof fn lemma_pattern_order(fmt: Format, p: nat, q: nat)
    requires
        1 <= p < q <= max_pattern(fmt),
    ensures
        pattern_units(fmt, p) < pattern_units(fmt, q),
{
    lemma_pattern_mag(fmt, p);
    lemma_pattern_mag(fmt, q);
    lemma_format_shape(fmt);
    lemma_pow2_pos((fmt.nbits() - 1) as nat);
    lemma_positive_order(p, q, fmt.nbits(), fmt.es_bits(), fmt.kmax_value());
    lemma_units_order(pattern_exp(fmt, p), pattern_frac(fmt, p), pattern_exp(fmt, q), pattern_frac(fmt, q));
}

/// Neighbouring patterns lie at most two binades of the exponent field apart.
pub proof fn lemma_pattern_step(fmt: Format, p: nat)
    requires
        1 <= p,
        p + 1 <= max_pattern(fmt),
    ensures
        pattern_exp(fmt, p) <= pattern_exp(fmt, p + 1) <= pattern_exp(fmt, p) + 31,
{
    lemma_pattern_mag(fmt, p);
    lemma_pattern_mag(fmt, p + 1);
    lemma_format_shape(fmt);
    lemma2_to64();
    lemma_positive_step(p, fmt.nbits(), fmt.es_bits(), fmt.kmax_value());
    assert(pow2(fmt.es_bits()) <= 16) by {
        if fmt.es_bits() < 4 {
            lemma_pow2_strictly_increases(fmt.es_bits(), 4);
        }
    }
}


/// The fields of a numeric pattern are those of its magnitude, a positive pattern, with the sign
/// of the pattern.
pub proof fn lemma_fields_magnitude(fmt: Format, bits: u64)
    requires
        fmt.fields_of(bits).special.is_none(),
    ensures
        ({
            let n = fmt.nbits();
            let u = (bits as nat) % pow2(n);
            let m = crate::bits::magnitude_of(u, n);
            &&& 1 <= m <= max_pattern(fmt)
            &&& fmt.fields_of(bits).neg == (u >= pow2((n - 1) as nat))
            &&& fmt.fields_of(bits).total_exp as int == pattern_exp(fmt, m)
            &&& fmt.fields_of(bits).frac as nat == pattern_frac(fmt, m)
        }),
{
    let n = fmt.nbits();
    let u = (bits as nat) % pow2(n);
    lemma2_to64();
    lemma2_to64_rest();
    lemma_pow2_pos(n);
    lemma_pow2_adds(1, (n - 1) as nat);
    assert(n == 1 + (n - 1) as nat);
    vstd::arithmetic::div_mod::lemma_mod_bound(bits as int, pow2(n) as int);
    let m = crate::bits::magnitude_of(u, n);
    assert(u != 0 && u != pow2((n - 1) as nat));
    assert(1 <= m <= max_pattern(fmt));
    lemma_pattern_mag(fmt, m);
}

/// Capping the regime puts a floor under the fraction: every number of a standard format has at
/// least `p_min = n − 1 − (k_max + 1) − es` fraction bits, and an exponent field of the full
/// `es` bits.
pub proof fn lemma_fraction_floor(fmt: Format, bits: u64)
    requires
        fmt.fields_of(bits).special.is_none(),
    ensures
        fmt.fields_of(bits).frac_len >= fmt.nbits() - 1 - (fmt.kmax_value() + 1) - fmt.es_bits(),
        fmt.fields_of(bits).exp_len == fmt.es_bits(),
        fmt.fields_of(bits).regime_len + fmt.fields_of(bits).term_len <= fmt.kmax_value() + 1,
{
    lemma_fields_magnitude(fmt, bits);
    let n = fmt.nbits();
    let u = (bits as nat) % pow2(n);
    let m = crate::bits::magnitude_of(u, n);
    lemma_pattern_mag(fmt, m);
    lemma2_to64();
    lemma2_to64_rest();
}

/// In BPosit8 the regime and its terminator always take exactly two bits, so every number has
/// exactly three fraction bits: its precision is uniform.
pub proof fn lemma_bposit8_uniform(bits: u64)
    requires
        Format::B8.fields_of(bits).special.is_none(),
    ensures
        Format::B8.fields_of(bits).regime_len + Format::B8.fields_of(bits).term_len == 2,
        Format::B8.fields_of(bits).exp_len == 2,
        Format::B8.fields_of(bits).frac_len == 3,
{
    lemma_fraction_floor(Format::B8, bits);
    lemma_fields_magnitude(Format::B8, bits);
    let u = (bits as nat) % pow2(8);
    let m = crate::bits::magnitude_of(u, 8);
    lemma2_to64();
    lemma_pattern_mag(Format::B8, m);
    crate::monotone::lemma_regime_raw(m, 8);
}

/// A number and its negation, the two's complement of its pattern, share every field but the
/// sign.
pub proof fn lemma_negation_mirrors_fields(fmt: Format, bits: u64, neg_bits: u64)
    requires
        fmt.fields_of(bits).special.is_none(),
        neg_bits as nat == crate::posit_ops::neg_pattern(fmt.nbits(), (bits as nat) % fmt.modulus()),
    ensures
        fmt.fields_of(neg_bits).special.is_none(),
        fmt.fields_of(neg_bits).neg == !fmt.fields_of(bits).neg,
        fmt.fields_of(neg_bits).total_exp == fmt.fields_of(bits).total_exp,
        fmt.fields_of(neg_bits).frac == fmt.fields_of(bits).frac,
        fmt.fields_of(neg_bits).regime_len == fmt.fields_of(bits).regime_len,
        fmt.fields_of(neg_bits).term_len == fmt.fields_of(bits).term_len,
        fmt.fields_of(neg_bits).exp_len == fmt.fields_of(bits).exp_len,
        fmt.fields_of(neg_bits).frac_len == fmt.fields_of(bits).frac_len,
        fmt.fields_of(neg_bits).k == fmt.fields_of(bits).k,
        fmt.fields_of(neg_bits).e == fmt.fields_of(bits).e,
        fmt.fields_of(neg_bits).magnitude == fmt.fields_of(bits).magnitude,
{
    let n = fmt.nbits();
    lemma_fields_magnitude(fmt, bits);
    lemma2_to64();
    lemma2_to64_rest();
    lemma_pow2_pos(n);
    lemma_pow2_adds(1, (n - 1) as nat);
    assert(n == 1 + (n - 1) as nat);
    let u = (bits as nat) % pow2(n);
    vstd::arithmetic::div_mod::lemma_mod_bound(bits as int, pow2(n) as int);
    let w = neg_bits as nat;
    assert(w < pow2(n));
    lemma_small_mod(w, pow2(n));
    let m = crate::bits::magnitude_of(u, n);
    assert(crate::bits::magnitude_of(w, n) == m);
    lemma_pattern_mag(fmt, m);
}

/// The target `num / den` lies between the pattern `lo` and the next.
pub open spec fn brackets(fmt: Format, num: nat, den: nat, lo: nat) -> bool {
    pattern_units(fmt, lo) * den <= num < pattern_units(fmt, lo + 1) * den
}

/// Of `lo` and `lo + 1`, the one nearer the target `num / den`; a tie goes to the even pattern.
pub open spec fn nearer(fmt: Format, num: nat, den: nat, lo: nat) -> nat {
    let twice = 2 * num;
    let mid = (pattern_units(fmt, lo) + pattern_units(fmt, lo + 1)) * den;
    if twice < mid {
        lo
    } else if twice > mid {
        lo + 1
    } else if lo % 2 == 0 {
        lo
    } else {
        lo + 1
    }
}

/// `r` is the positive pattern that the positive target `num / den` (in units of `2^−1084`)
/// rounds to: maxpos at and above maxpos, minpos at and below minpos, and otherwise the nearer of
/// the two patterns that bracket the target, ties to even.
pub open spec fn rounds_to(fmt: Format, num: nat, den: nat, r: nat) -> bool {
    let max = max_pattern(fmt);
    if num >= pattern_units(fmt, max) * den {
        r == max
    } else if num <= pattern_units(fmt, 1) * den {
        r == 1
    } else {
        ||| (1 <= r < max && brackets(fmt, num, den, r) && nearer(fmt, num, den, r) == r)
        ||| (2 <= r <= max && brackets(fmt, num, den, (r - 1) as nat) && nearer(fmt, num, den, (r - 1) as nat) == r)
    }
}

/// The value of the positive pattern `b`, in units of `2^−1084`.
pub open spec fn bits_units(fmt: Format, b: u64) -> nat {
    pattern_units(fmt, b as nat)
}

/// [`rounds_to`] for a machine pattern.
pub open spec fn rounds_to_bits(fmt: Format, num: nat, den: nat, r: u64) -> bool {
    rounds_to(fmt, num, den, r as nat)
}

/// [`lemma_pattern_step`] for a machine pattern.
pub proof fn lemma_bits_step(fmt: Format, p: u64)
    requires
        1 <= p,
        p + 1 <= max_pattern(fmt),
    ensures
        pattern_exp(fmt, p as nat) <= pattern_exp(fmt, (p + 1) as nat) <= pattern_exp(fmt, p as nat) + 31,
{
    lemma_pattern_step(fmt, p as nat);
}

/// The pattern a target rounds to is a positive pattern: never zero, never NaR.
pub proof fn lemma_rounds_to_range(fmt: Format, num: nat, den: nat, r: nat)
    requires
        rounds_to(fmt, num, den, r),
    ensures
        1 <= r <= max_pattern(fmt),
{
    lemma2_to64();
    lemma2_to64_rest();
}

/// At most one pattern brackets a target from below.
proof fn lemma_bracket_unique(fmt: Format, num: nat, den: nat, a: nat, b: nat)
    requires
        1 <= a < max_pattern(fmt),
        1 <= b < max_pattern(fmt),
        brackets(fmt, num, den, a),
        brackets(fmt, num, den, b),
    ensures
        a == b,
{
    if a < b {
        if a + 1 < b {
            lemma_pattern_order(fmt, a + 1, b);
        }
        vstd::arithmetic::mul::lemma_mul_inequality(
            pattern_units(fmt, a + 1) as int,
            pattern_units(fmt, b) as int,
            den as int,
        );
    } else if b < a {
        if b + 1 < a {
            lemma_pattern_order(fmt, b + 1, a);
        }
        vstd::arithmetic::mul::lemma_mul_inequality(
            pattern_units(fmt, b + 1) as int,
            pattern_units(fmt, a) as int,
            den as int,
        );
    }
}

/// Rounding is a function: a target rounds to one pattern only.
pub proof fn lemma_rounding_unique(fmt: Format, num: nat, den: nat, r1: nat, r2: nat)
    requires
        rounds_to(fmt, num, den, r1),
        rounds_to(fmt, num, den, r2),
    ensures
        r1 == r2,
{
    let max = max_pattern(fmt);
    if num < pattern_units(fmt, max) * den && num > pattern_units(fmt, 1) * den {
        let lo1: nat = if 1 <= r1 < max && brackets(fmt, num, den, r1) && nearer(fmt, num, den, r1) == r1 {
            r1
        } else {
            (r1 - 1) as nat
        };
        let lo2: nat = if 1 <= r2 < max && brackets(fmt, num, den, r2) && nearer(fmt, num, den, r2) == r2 {
            r2
        } else {
            (r2 - 1) as nat
        };
        lemma_bracket_unique(fmt, num, den, lo1, lo2);
    }
}

/// Ties go to the even pattern: a target exactly halfway between two adjacent patterns rounds to
/// whichever of the two is even, which is what stops repeated rounding from drifting.
pub proof fn lemma_ties_to_even(fmt: Format, num: nat, den: nat, lo: nat, r: nat)
    requires
        1 <= lo,
        lo + 1 <= max_pattern(fmt),
        den > 0,
        2 * num == (pattern_units(fmt, lo) + pattern_units(fmt, lo + 1)) * den,
        rounds_to(fmt, num, den, r),
    ensures
        r == lo || r == lo + 1,
        r % 2 == 0,
{
    let max = max_pattern(fmt);
    let ul = pattern_units(fmt, lo);
    let uh = pattern_units(fmt, lo + 1);
    lemma_pattern_order(fmt, lo, lo + 1);
    // The target lies strictly inside the bracket, so strictly inside the range.
    assert(ul * den < num < uh * den) by (nonlinear_arith)
        requires
            2 * num == (ul + uh) * den,
            ul < uh,
            den > 0,
    ;
    if 1 < lo {
        lemma_pattern_order(fmt, 1, lo);
        vstd::arithmetic::mul::lemma_mul_strict_inequality(pattern_units(fmt, 1) as int, ul as int, den as int);
    }
    if lo + 1 < max {
        lemma_pattern_order(fmt, lo + 1, max);
        vstd::arithmetic::mul::lemma_mul_strict_inequality(uh as int, pattern_units(fmt, max) as int, den as int);
    }
    let c = nearer(fmt, num, den, lo);
    assert(brackets(fmt, num, den, lo));
    assert(rounds_to(fmt, num, den, c));
    lemma_rounding_unique(fmt, num, den, r, c);
}

/// A target that is exactly the value of a positive pattern rounds to that pattern.
pub proof fn lemma_exact_rounds_to_itself(fmt: Format, p: nat, den: nat, r: nat)
    requires
        1 <= p <= max_pattern(fmt),
        den > 0,
        rounds_to(fmt, pattern_units(fmt, p) * den, den, r),
    ensures
        r == p,
{
    let max = max_pattern(fmt);
    let num = pattern_units(fmt, p) * den;
    if p < max {
        lemma_pattern_order(fmt, p, p + 1);
        vstd::arithmetic::mul::lemma_mul_strict_inequality(
            pattern_units(fmt, p) as int,
            pattern_units(fmt, p + 1) as int,
            den as int,
        );
        if 1 < p {
            lemma_pattern_order(fmt, 1, p);
            vstd::arithmetic::mul::lemma_mul_strict_inequality(
                pattern_units(fmt, 1) as int,
                pattern_units(fmt, p) as int,
                den as int,
            );
            lemma_pattern_order(fmt, p, max);
            vstd::arithmetic::mul::lemma_mul_strict_inequality(
                pattern_units(fmt, p) as int,
                pattern_units(fmt, max) as int,
                den as int,
            );
            assert(brackets(fmt, num, den, p));
            assert(2 * num < (pattern_units(fmt, p) + pattern_units(fmt, p + 1)) * den) by (nonlinear_arith)
                requires
                    num == pattern_units(fmt, p) * den,
                    pattern_units(fmt, p) * den < pattern_units(fmt, p + 1) * den,
            ;
            assert(rounds_to(fmt, num, den, p));
            lemma_rounding_unique(fmt, num, den, r, p);
        } else {
            lemma_pattern_order(fmt, 1, max);
            vstd::arithmetic::mul::lemma_mul_strict_inequality(
                pattern_units(fmt, 1) as int,
                pattern_units(fmt, max) as int,
                den as int,
            );
        }
    }
}


/// The exponent and significand of a positive pattern, with the significand's fraction bits and
/// the regime value within the cap.
proof fn lemma_pattern_parts(fmt: Format, p: nat) -> (r: (int, nat, nat, nat))
    requires
        1 <= p <= max_pattern(fmt),
    ensures
        ({
            let (k, e, x, fl) = r;
            &&& -((fmt.kmax_value() + 1) as int) <= k <= fmt.kmax_value() as int
            &&& e < pow2(fmt.es_bits())
            &&& x < pow2(fl)
            &&& fl <= fmt.nbits() - 2 - fmt.es_bits()
            &&& pattern_exp(fmt, p) == k * pow2(fmt.es_bits()) + e
            &&& pattern_frac(fmt, p) == pow2(60) + x * pow2((60 - fl) as nat)
        }),
{
    let n = fmt.nbits();
    let es = fmt.es_bits();
    let kmax = fmt.kmax_value();
    lemma_pattern_mag(fmt, p);
    lemma_format_shape(fmt);
    lemma2_to64();
    lemma2_to64_rest();
    lemma_positive_class(p, n, es, kmax);
    lemma_regime_raw(p, n);
    let k = class_k(p, n, kmax);
    let a = class_avail(n, kmax, k);
    let fl = (a - es) as nat;
    let low = p % pow2(a);
    lemma_pow2_pos(fl);
    vstd::arithmetic::div_mod::lemma_mod_bound(low as int, pow2(fl) as int);
    (k, low / pow2(fl), low % pow2(fl), fl)
}

/// A magnitude with an exponent within ±224 and at most 27 fraction bits is the value of a
/// BPosit64 pattern.
proof fn lemma_bposit64_holds(k: int, e: nat, q: nat, x: nat, fl: nat) -> (p: nat)
    requires
        -14 <= k <= 13,
        e < q,
        q <= 16,
        q * k + e >= -224,
        q * k + e <= 223,
        q == 4 || q == 16,
        fl <= 27,
        x < pow2(fl),
    ensures
        1 <= p <= max_pattern(Format::B64),
        pattern_exp(Format::B64, p) == k * q + e,
        pattern_frac(Format::B64, p) == pow2(60) + x * pow2((60 - fl) as nat),
{
    let ee: int = k * q + e;
    let k64 = if ee >= 0 { ee / 16 } else { -((-ee + 15) / 16) };
    let e64 = ee - 16 * k64;
    assert(0 <= e64 < 16);
    assert(-14 <= k64 <= 13);
    lemma2_to64();
    lemma2_to64_rest();
    lemma_format_shape(Format::B64);
    let a = class_avail(64, 19, k64);
    assert(class_run(k64) <= 14);
    assert(a >= 48);
    let fl64 = (a - 4) as nat;
    let sh = (fl64 - fl) as nat;
    lemma_pow2_adds(fl, sh);
    lemma_pow2_pos(sh);
    lemma_pow2_pos(fl64);
    let xs = x * pow2(sh);
    assert(xs < pow2(fl64)) by {
        vstd::arithmetic::mul::lemma_mul_strict_inequality(x as int, pow2(fl) as int, pow2(sh) as int);
    }
    let low = (e64 as nat) * pow2(fl64) + xs;
    lemma_pow2_adds(fl64, 4);
    assert(a == fl64 + 4);
    lemma_mul_inequality(e64, 15, pow2(fl64) as int);
    assert(low < pow2(a));
    assert(class_prefix(64, 19, k64) > 0);
    lemma_class_of_prefix(64, 4, 19, k64, low);
    let m = class_prefix(64, 19, k64) * pow2(a) + low;
    lemma_positive_class(m, 64, 4, 19);
    lemma_pow2_pos(a);
    vstd::arithmetic::div_mod::lemma_fundamental_div_mod_converse(
        m as int, pow2(a) as int, class_prefix(64, 19, k64) as int, low as int);
    vstd::arithmetic::div_mod::lemma_fundamental_div_mod_converse(
        low as int, pow2(fl64) as int, e64, xs as int);
    assert(m % pow2(a) == low);
    assert(low / pow2(fl64) == e64);
    assert(low % pow2(fl64) == xs);
    lemma_pow2_adds(sh, (60 - fl64) as nat);
    assert(sh + (60 - fl64) as nat == (60 - fl) as nat);
    vstd::arithmetic::mul::lemma_mul_is_associative(x as int, pow2(sh) as int, pow2((60 - fl64) as nat) as int);
    assert(1 <= m <= max_pattern(Format::B64));
    lemma_small_mod(m, pow2(64));
    assert((m as u64) as nat == m);
    m
}

/// A finite pattern of BPosit8, 16 or 32 widens exactly: the BPosit64 pattern it becomes
/// decodes to the same sign, exponent and significand.
proof fn lemma_widen_exact(fmt: Format, bits: u64, wide: u64)
    requires
        fmt != Format::B64,
        fmt.fields_of(bits).special.is_none(),
        crate::format::converts_to(fmt, Format::B64, bits, wide),
    ensures
        Format::B64.fields_of(wide).special.is_none(),
        Format::B64.fields_of(wide).neg == fmt.fields_of(bits).neg,
        Format::B64.fields_of(wide).total_exp == fmt.fields_of(bits).total_exp,
        Format::B64.fields_of(wide).frac == fmt.fields_of(bits).frac,
{
    let n = fmt.nbits();
    let f = fmt.fields_of(bits);
    lemma2_to64();
    lemma2_to64_rest();
    lemma_fields_magnitude(fmt, bits);
    let u = (bits as nat) % pow2(n);
    let m = crate::bits::magnitude_of(u, n);
    let (k, e, x, fl) = lemma_pattern_parts(fmt, m);
    let q = pow2(fmt.es_bits());
    lemma_format_shape(fmt);
    assert(q == 4 || q == 16);
    assert(-14 <= k <= 13);
    assert(q * k >= -224 && q * k + e <= 223) by (nonlinear_arith)
        requires
            -((fmt.kmax_value() + 1) as int) <= k <= fmt.kmax_value() as int,
            fmt.kmax_value() <= 13,
            e < q,
            (q == 4 && fmt.kmax_value() == 1) || q == 16,
    ;
    assert(fl <= 27);
    let p = lemma_bposit64_holds(k, e, q, x, fl);
    let units = mag_units(f.total_exp as int, f.frac as nat);
    assert(pattern_units(Format::B64, p) == units);
    assert(units * 1 == units);
    let o = if f.neg { crate::posit_ops::neg_pattern(64, wide as nat) } else { wide as nat };
    lemma_exact_rounds_to_itself(Format::B64, p, 1, o);
    assert(o == p);
    lemma_pattern_mag(Format::B64, p);
    lemma_small_mod(wide as nat, pow2(64));
    lemma_pow2_adds(1, 63);
    if f.neg {
        assert(wide as nat == pow2(64) - p);
    } else {
        assert(wide as nat == p);
    }
}

/// A BPosit64 pattern with the fields of a finite pattern of a narrower format narrows back to
/// that pattern.
proof fn lemma_narrow_back(fmt: Format, bits: u64, wide: u64, back: u64)
    requires
        fmt != Format::B64,
        (bits as nat) < fmt.modulus(),
        fmt.fields_of(bits).special.is_none(),
        Format::B64.fields_of(wide).special.is_none(),
        Format::B64.fields_of(wide).neg == fmt.fields_of(bits).neg,
        Format::B64.fields_of(wide).total_exp == fmt.fields_of(bits).total_exp,
        Format::B64.fields_of(wide).frac == fmt.fields_of(bits).frac,
        crate::format::converts_to(Format::B64, fmt, wide, back),
    ensures
        back == bits,
{
    let n = fmt.nbits();
    let f = fmt.fields_of(bits);
    lemma2_to64();
    lemma2_to64_rest();
    lemma_small_mod(bits as nat, pow2(n));
    lemma_fields_magnitude(fmt, bits);
    let u = (bits as nat) % pow2(n);
    let m = crate::bits::magnitude_of(u, n);
    assert(pattern_units(fmt, m) * 1 == mag_units(f.total_exp as int, f.frac as nat));
    let o2 = if f.neg { crate::posit_ops::neg_pattern(n, back as nat) } else { back as nat };
    lemma_exact_rounds_to_itself(fmt, m, 1, o2);
    assert(o2 == m);
}

/// Every number of BPosit8, 16 and 32 is also a number of BPosit64: widening then narrowing
/// gives back the pattern.
pub proof fn lemma_widening_round_trip(fmt: Format, bits: u64, wide: u64, back: u64)
    requires
        fmt != Format::B64,
        (bits as nat) < fmt.modulus(),
        crate::format::converts_to(fmt, Format::B64, bits, wide),
        crate::format::converts_to(Format::B64, fmt, wide, back),
    ensures
        back == bits,
{
    let n = fmt.nbits();
    let f = fmt.fields_of(bits);
    lemma2_to64();
    lemma2_to64_rest();
    lemma_small_mod(bits as nat, pow2(n));
    lemma_pow2_adds(1, (n - 1) as nat);
    assert(n == 1 + (n - 1) as nat);
    lemma_pow2_adds(1, 63);
    if f.special.is_none() {
        lemma_widen_exact(fmt, bits, wide);
        lemma_narrow_back(fmt, bits, wide, back);
    } else if f.special == Some(Special::Zero) {
        assert(wide == 0);
        lemma_pow2_pos(64);
        lemma_small_mod(0, pow2(64));
        assert(Format::B64.fields_of(wide).special == Some(Special::Zero));
    } else {
        assert(wide as nat == pow2(63));
        lemma_small_mod(wide as nat, pow2(64));
        assert(Format::B64.fields_of(wide).special == Some(Special::NaR));
    }
}

} // verus!
