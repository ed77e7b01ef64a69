//! The value order of all the patterns of a format, NaR aside: it is the order of the patterns
//! read as two's complement integers, so the patterns next to a value in that order are the
//! values next to it.

use vstd::prelude::*;
use vstd::arithmetic::power2::{lemma2_to64, lemma2_to64_rest, lemma_pow2_adds, lemma_pow2_pos, pow2};
use crate::format::Format;
use crate::grid::{lemma_fields_magnitude, lemma_pattern_mag, lemma_pattern_order, mag_units, max_pattern, pattern_units};
use crate::inspect::{is_nar, lies_below, neighbour_of, value_parts};
use crate::posit_ops::nar_pattern;
use crate::rational::{lemma_normalized_value, normalized, same_value, signed_of};

verus! {

/// A pattern read as an `n`-bit two's complement integer.
pub open spec fn signed_pattern(fmt: Format, bits: u64) -> int {
    let u = (bits as nat) % fmt.modulus();
    if u >= nar_pattern(fmt.nbits()) {
        u - fmt.modulus()
    } else {
        u as int
    }
}

/// The value of a pattern that is not NaR, with its sign, in units of `2^−1084`.
pub open spec fn signed_units(fmt: Format, bits: u64) -> int {
    let f = fmt.fields_of(bits);
    if f.special is Some {
        0
    } else if f.neg {
        -(mag_units(f.total_exp as int, f.frac as nat) as int)
    } else {
        mag_units(f.total_exp as int, f.frac as nat) as int
    }
}

/// The signed value of the pattern whose two's complement reading is `s`.
pub open spec fn units_at(fmt: Format, s: int) -> int {
    if s == 0 {
        0
    } else if s < 0 {
        -(pattern_units(fmt, (-s) as nat) as int)
    } else {
        pattern_units(fmt, s as nat) as int
    }
}

/// Facts about the width of a format that the arithmetic below uses.
proof fn lemma_width(fmt: Format)
    ensures
        fmt.modulus() == 2 * nar_pattern(fmt.nbits()),
        nar_pattern(fmt.nbits()) >= 128,
        fmt.modulus() <= pow2(64),
        max_pattern(fmt) == nar_pattern(fmt.nbits()) - 1,
{
    let n = fmt.nbits();
    lemma2_to64();
    lemma2_to64_rest();
    lemma_pow2_adds(1, (n - 1) as nat);
    assert(n == 1 + (n - 1) as nat);
}

/// The signed value of a pattern is that of the positive pattern its two's complement reading
/// has for magnitude.
proof fn lemma_signed_units_of(fmt: Format, bits: u64)
    requires
        !is_nar(fmt, bits),
    ensures
        signed_units(fmt, bits) == units_at(fmt, signed_pattern(fmt, bits)),
        -(max_pattern(fmt) as int) <= signed_pattern(fmt, bits) <= max_pattern(fmt),
{
    let n = fmt.nbits();
    lemma_width(fmt);
    lemma_pow2_pos(n);
    let u = (bits as nat) % pow2(n);
    vstd::arithmetic::div_mod::lemma_mod_bound(bits as int, pow2(n) as int);
    if u != 0 {
        lemma_fields_magnitude(fmt, bits);
    }
}

/// Every positive pattern has a positive value.
proof fn lemma_units_positive(fmt: Format, p: nat)
    requires
        1 <= p <= max_pattern(fmt),
    ensures
        pattern_units(fmt, p) > 0,
{
    lemma_pattern_mag(fmt, p);
    lemma2_to64();
    lemma2_to64_rest();
    let e = fmt.fields_of(p as u64).total_exp as int;
    lemma_pow2_pos((e + 1024) as nat);
    vstd::arithmetic::mul::lemma_mul_strictly_positive(
        fmt.fields_of(p as u64).frac as int,
        pow2((e + 1024) as nat) as int,
    );
}

/// The signed values strictly increase with the two's complement reading.
proof fn lemma_units_at_order(fmt: Format, s: int, t: int)
    requires
        -(max_pattern(fmt) as int) <= s < t <= max_pattern(fmt),
    ensures
        units_at(fmt, s) < units_at(fmt, t),
{
    if s > 0 {
        lemma_pattern_order(fmt, s as nat, t as nat);
    } else if t < 0 {
        lemma_pattern_order(fmt, (-t) as nat, (-s) as nat);
    } else {
        if s < 0 {
            lemma_units_positive(fmt, (-s) as nat);
        }
        if t > 0 {
            lemma_units_positive(fmt, t as nat);
        }
    }
}

/// The exact value of a pattern is its signed units over `2^1084`.
proof fn lemma_value_units(fmt: Format, bits: u64)
    requires
        !is_nar(fmt, bits),
    ensures
        value_parts(fmt, bits).2 > 0,
        signed_of(value_parts(fmt, bits)) * pow2(1084) == signed_units(fmt, bits) * value_parts(fmt, bits).2,
{
    let f = fmt.fields_of(bits);
    crate::inspect::lemma_value_parts(fmt, bits);
    if f.special.is_none() {
        crate::inspect::lemma_numeric_bounds(fmt, bits);
        let te = f.total_exp as int;
        let frac = f.frac as nat;
        let k = pow2(1084);
        let units = mag_units(te, frac);
        assert(units == frac * pow2((te + 1024) as nat));
        let (num, den): (nat, nat) = if te >= 60 {
            lemma_pow2_adds((te - 60) as nat, 1084);
            assert((te - 60) as nat + 1084 == (te + 1024) as nat);
            vstd::arithmetic::mul::lemma_mul_is_associative(frac as int, pow2((te - 60) as nat) as int, k as int);
            (frac * pow2((te - 60) as nat), 1nat)
        } else {
            lemma_pow2_adds((te + 1024) as nat, (60 - te) as nat);
            assert((te + 1024) as nat + (60 - te) as nat == 1084);
            lemma_pow2_pos((60 - te) as nat);
            vstd::arithmetic::mul::lemma_mul_is_associative(frac as int, pow2((te + 1024) as nat) as int, pow2((60 - te) as nat) as int);
            (frac, pow2((60 - te) as nat))
        };
        let raw = (f.neg, num, den);
        let su = signed_units(fmt, bits);
        assert(signed_of(raw) * k == su * den) by (nonlinear_arith)
            requires
                num * k == units * den,
                signed_of(raw) == if f.neg { -(num as int) } else { num as int },
                su == if f.neg { -(units as int) } else { units as int },
        ;
        lemma_normalized_value(f.neg, num, den);
        let v = value_parts(fmt, bits);
        assert(v == normalized(f.neg, num, den));
        assert(signed_of(v) * k == su * v.2) by (nonlinear_arith)
            requires
                signed_of(v) * den == signed_of(raw) * v.2,
                signed_of(raw) * k == su * den,
                den > 0,
        ;
    }
}

/// Two values given as signed units over a common positive scale compare as their units do.
proof fn lemma_compare_scaled(a: (bool, nat, nat), b: (bool, nat, nat), sa: int, sb: int, k: nat)
    requires
        a.2 > 0,
        b.2 > 0,
        k > 0,
        signed_of(a) * k == sa * a.2,
        signed_of(b) * k == sb * b.2,
    ensures
        lies_below(a, b) <==> sa < sb,
        same_value(a, b) <==> sa == sb,
{
    let x = signed_of(a) * b.2;
    let y = signed_of(b) * a.2;
    assert(x * k == sa * (a.2 * b.2)) by (nonlinear_arith)
        requires
            signed_of(a) * k == sa * a.2,
            x == signed_of(a) * b.2,
    ;
    assert(y * k == sb * (a.2 * b.2)) by (nonlinear_arith)
        requires
            signed_of(b) * k == sb * b.2,
            y == signed_of(b) * a.2,
    ;
    let d = a.2 * b.2;
    assert(d > 0) by (nonlinear_arith)
        requires
            a.2 > 0,
            b.2 > 0,
            d == a.2 * b.2,
    ;
    assert((x < y) <==> (sa < sb)) by (nonlinear_arith)
        requires
            x * k == sa * d,
            y * k == sb * d,
            k > 0,
            d > 0,
    ;
    assert((x == y) <==> (sa == sb)) by (nonlinear_arith)
        requires
            x * k == sa * d,
            y * k == sb * d,
            k > 0,
            d > 0,
    ;
}

/// Patterns are ordered by value as `n`-bit two's complement integers are, NaR aside: a pattern
/// below another in that reading has the smaller value, and equal readings are equal values.
/// This is what lets rounding search the patterns by bisection.
pub proof fn lemma_value_order(fmt: Format, a: u64, b: u64)
    requires
        !is_nar(fmt, a),
        !is_nar(fmt, b),
    ensures
        signed_pattern(fmt, a) < signed_pattern(fmt, b) <==> lies_below(value_parts(fmt, a), value_parts(fmt, b)),
        signed_pattern(fmt, a) == signed_pattern(fmt, b) <==> same_value(value_parts(fmt, a), value_parts(fmt, b)),
{
    lemma_signed_units_of(fmt, a);
    lemma_signed_units_of(fmt, b);
    lemma_value_units(fmt, a);
    lemma_value_units(fmt, b);
    lemma_pow2_pos(1084);
    lemma_compare_scaled(
        value_parts(fmt, a),
        value_parts(fmt, b),
        signed_units(fmt, a),
        signed_units(fmt, b),
        pow2(1084),
    );
    let s = signed_pattern(fmt, a);
    let t = signed_pattern(fmt, b);
    if s < t {
        lemma_units_at_order(fmt, s, t);
    } else if t < s {
        lemma_units_at_order(fmt, t, s);
    }
}

/// A neighbour is one step away in the two's complement reading.
proof fn lemma_neighbour_step(fmt: Format, bits: u64, up: bool)
    requires
        !is_nar(fmt, bits),
        neighbour_of(fmt, bits, up) is Some,
    ensures
        ({
            let b = neighbour_of(fmt, bits, up)->0 as u64;
            &&& !is_nar(fmt, b)
            &&& signed_pattern(fmt, b) == signed_pattern(fmt, bits) + if up { 1int } else { -1int }
        }),
{
    crate::inspect::lemma_neighbour_not_nar(fmt, bits, up);
    lemma_width(fmt);
    let m = fmt.modulus();
    lemma_pow2_pos(fmt.nbits());
    let u = (bits as nat) % m;
    vstd::arithmetic::div_mod::lemma_mod_bound(bits as int, m as int);
    let b = neighbour_of(fmt, bits, up)->0;
    lemma2_to64_rest();
    assert((b as u64) as nat == b);
    vstd::arithmetic::div_mod::lemma_small_mod(b, m);
    if up {
        if u + 1 < m {
            vstd::arithmetic::div_mod::lemma_small_mod(u + 1, m);
        } else {
            vstd::arithmetic::div_mod::lemma_mod_self_0(m as int);
        }
    } else {
        if u >= 1 {
            vstd::arithmetic::div_mod::lemma_mod_add_multiples_vanish((u - 1) as int, m as int);
            vstd::arithmetic::div_mod::lemma_small_mod((u - 1) as nat, m);
        } else {
            vstd::arithmetic::div_mod::lemma_small_mod((m - 1) as nat, m);
        }
    }
}

/// The neighbours bound a value on both sides: the pattern below is smaller and the pattern
/// above is larger, and no pattern's value lies strictly between a value and its neighbour.
pub proof fn lemma_neighbours_adjacent(fmt: Format, bits: u64, up: bool, c: u64)
    requires
        !is_nar(fmt, bits),
        neighbour_of(fmt, bits, up) is Some,
        !is_nar(fmt, c),
    ensures
        ({
            let here = value_parts(fmt, bits);
            let there = value_parts(fmt, neighbour_of(fmt, bits, up)->0 as u64);
            let other = value_parts(fmt, c);
            if up {
                lies_below(here, there) && !(lies_below(here, other) && lies_below(other, there))
            } else {
                lies_below(there, here) && !(lies_below(there, other) && lies_below(other, here))
            }
        }),
{
    let b = neighbour_of(fmt, bits, up)->0 as u64;
    lemma_neighbour_step(fmt, bits, up);
    lemma_value_order(fmt, bits, b);
    lemma_value_order(fmt, b, bits);
    lemma_value_order(fmt, bits, c);
    lemma_value_order(fmt, c, bits);
    lemma_value_order(fmt, b, c);
    lemma_value_order(fmt, c, b);
}

} // verus!
