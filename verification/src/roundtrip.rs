//! The exact decimal expansion of a posit reads back as the same posit.
//!
//! A number's expansion is `sign + positional_text(digits, exp)`. Read as a literal, its digits
//! spell the same integer and its fraction digits give the same power of ten, so the literal's
//! value is the posit's value exactly, and an exact value rounds to itself.

use vstd::prelude::*;
use vstd::arithmetic::power2::pow2;
use crate::arith::pow10;
use crate::decimal::{
    equals_dyadic, exact_sci_parts, lemma_exact_sci_value, lemma_positional_chars,
    lemma_strip_prefix, positional_text, sign_text, strip_trailing_zeros, zeros,
};
use crate::bits::Fields;
use crate::format::{decimal_den, decimal_num, decimal_rounds_to, Format};
use crate::grid::{
    lemma_exact_rounds_to_itself, lemma_fields_magnitude, lemma_pattern_mag, mag_units,
    pattern_units,
};
use crate::posit_ops::neg_pattern;
use vstd::utf8::encode_utf8;
use crate::digits::{all_digits, digits_num};
use crate::literal::{
    ascii_bytes, count_digits, count_points, decimal_literal, digits_after_point, digits_value,
    exponent_marker, fraction_digits, is_digit, lemma_digit_bytes, lemma_literal_concat,
    mantissa_ok,
};
use crate::text::{is_white_space, trim_leading, trim_trailing, trimmed};

verus! {

/// A string of zero digits spells zero.
proof fn lemma_zeros(n: nat)
    ensures
        all_digits(zeros(n)),
        digits_num(zeros(n)) == 0,
    decreases n,
{
    if n > 0 {
        lemma_zeros((n - 1) as nat);
        assert(zeros(n).drop_last() =~= zeros((n - 1) as nat));
    }
}

/// Bytes of a concatenation are the concatenated bytes.
proof fn lemma_bytes_concat(a: Seq<char>, b: Seq<char>)
    ensures
        ascii_bytes(a + b) == ascii_bytes(a) + ascii_bytes(b),
{
    assert(ascii_bytes(a + b) =~= ascii_bytes(a) + ascii_bytes(b));
}

/// Digit strings spell numbers that concatenate like digit strings.
proof fn lemma_digits_num_concat(a: Seq<char>, b: Seq<char>)
    requires
        all_digits(a),
        all_digits(b),
    ensures
        digits_num(a + b) == digits_num(a) * pow10(b.len()) + digits_num(b),
{
    lemma_bytes_concat(a, b);
    assert(all_digits(a + b));
    lemma_digit_bytes(a + b);
    lemma_digit_bytes(a);
    lemma_digit_bytes(b);
    lemma_literal_concat(ascii_bytes(a), ascii_bytes(b));
}

/// With no exponent marker at or after `i`, the marker search runs off the end.
proof fn lemma_no_marker(b: Seq<u8>, i: int)
    requires
        0 <= i <= b.len(),
        forall|j: int| i <= j < b.len() ==> (is_digit(#[trigger] b[j]) || b[j] == 46),
    ensures
        exponent_marker(b, i) == b.len(),
    decreases b.len() - i,
{
    if i < b.len() {
        lemma_no_marker(b, i + 1);
    }
}

/// What a literal reads from the positional text of `digits × 10^(e − len + 1)`: no exponent
/// marker, a valid mantissa, and the same value, `value × 10^(−fraction)`.
pub proof fn lemma_positional_literal(d: Seq<char>, e: int)
    requires
        all_digits(d),
        d.len() >= 1,
    ensures
        ({
            let b = ascii_bytes(positional_text(d, e));
            let k = e - d.len() + 1;
            &&& b.len() >= 1
            &&& is_digit(b[0])
            &&& is_digit(b.last())
            &&& exponent_marker(b, 0) == b.len()
            &&& mantissa_ok(b)
            &&& digits_value(b) == if k >= 0 { digits_num(d) * pow10(k as nat) } else { digits_num(d) }
            &&& fraction_digits(b) == if k >= 0 { 0 } else { (-k) as nat }
        }),
{
    let len = d.len() as int;
    let p = positional_text(d, e);
    let b = ascii_bytes(p);
    let k = e - len + 1;
    lemma_digit_bytes(d);
    if e >= len - 1 {
        let z = (e - len + 1) as nat;
        lemma_zeros(z);
        lemma_digit_bytes(zeros(z));
        lemma_bytes_concat(d, zeros(z));
        lemma_literal_concat(ascii_bytes(d), ascii_bytes(zeros(z)));
        vstd::arithmetic::mul::lemma_mul_basics(digits_num(d) as int);
        assert forall|i: int| 0 <= i < b.len() implies is_digit(#[trigger] b[i]) by {
            if i < len {
                assert(b[i] == ascii_bytes(d)[i]);
            } else {
                assert(b[i] == ascii_bytes(zeros(z))[i - len]);
            }
        }
        assert(b[0] == ascii_bytes(d)[0]);
        assert(b.last() == 48 || b.last() == ascii_bytes(d).last());
        assert(digits_value(b) == digits_num(d) * pow10(k as nat));
        assert(fraction_digits(b) == 0);
        assert(count_digits(b) >= 1);
    } else if e >= 0 {
        let head = d.take(e + 1);
        let tail = d.skip(e + 1);
        assert(d =~= head + tail);
        assert(all_digits(head));
        assert(all_digits(tail));
        lemma_digit_bytes(head);
        lemma_digit_bytes(tail);
        lemma_digits_num_concat(head, tail);
        let dot = seq![46u8];
        assert(b =~= (ascii_bytes(head) + dot) + ascii_bytes(tail));
        lemma_literal_concat(ascii_bytes(head), dot);
        lemma_literal_concat(ascii_bytes(head) + dot, ascii_bytes(tail));
        assert(dot.drop_last() =~= Seq::<u8>::empty());
        assert(dot.last() == 46u8);
        assert(count_digits(Seq::<u8>::empty()) == 0);
        assert(count_digits(dot) == 0);
        assert(digits_value(Seq::<u8>::empty()) == 0);
        assert(!is_digit(dot.last()));
        assert(digits_value(dot) == digits_value(dot.drop_last()));
        assert(digits_value(dot) == 0);
        assert(count_points(Seq::<u8>::empty()) == 0);
        assert(count_points(dot) == 1);
        assert(pow10(0) == 1);
        vstd::arithmetic::mul::lemma_mul_basics(digits_value(ascii_bytes(head)) as int);
        assert((ascii_bytes(head) + dot).last() == 46);
        assert(digits_after_point(ascii_bytes(head) + dot) == 0);
        assert forall|i: int| 0 <= i < b.len() implies (is_digit(#[trigger] b[i]) || b[i] == 46) by {
            if i < e + 1 {
                assert(b[i] == ascii_bytes(head)[i]);
            } else if i > e + 1 {
                assert(b[i] == ascii_bytes(tail)[i - e - 2]);
            }
        }
        assert(b[0] == ascii_bytes(head)[0]);
        assert(b.last() == ascii_bytes(tail).last());
        assert(digits_value(b) == digits_num(d));
        assert(fraction_digits(b) == (-k) as nat);
        assert(count_digits(b) >= 1);
    } else {
        let z = (-e - 1) as nat;
        lemma_zeros(z);
        lemma_digit_bytes(zeros(z));
        let lead = seq![48u8, 46u8];
        assert(b =~= (lead + ascii_bytes(zeros(z))) + ascii_bytes(d));
        lemma_literal_concat(lead, ascii_bytes(zeros(z)));
        lemma_literal_concat(lead + ascii_bytes(zeros(z)), ascii_bytes(d));
        assert(lead.drop_last() =~= seq![48u8]);
        assert(seq![48u8].drop_last() =~= Seq::<u8>::empty());
        assert(seq![48u8].last() == 48u8);
        assert(lead.last() == 46u8);
        assert(digits_value(Seq::<u8>::empty()) == 0);
        assert(digits_value(seq![48u8]) == 0);
        assert(digits_value(lead) == 0);
        assert(count_points(Seq::<u8>::empty()) == 0);
        assert(count_points(seq![48u8]) == 0);
        assert(count_points(lead) == count_points(lead.drop_last()) + 1);
        assert(count_points(lead) == 1);
        assert(count_digits(Seq::<u8>::empty()) == 0);
        assert(is_digit(seq![48u8].last()));
        assert(count_digits(seq![48u8]) == count_digits(seq![48u8].drop_last()) + 1);
        assert(count_digits(seq![48u8]) == 1);
        assert(count_digits(lead) == count_digits(lead.drop_last()));
        assert(count_digits(lead) == 1);
        assert(digits_after_point(lead) == 0);
        assert forall|i: int| 0 <= i < b.len() implies (is_digit(#[trigger] b[i]) || b[i] == 46) by {
            if i >= 2 && i < 2 + z {
                assert(b[i] == ascii_bytes(zeros(z))[i - 2]);
            } else if i >= 2 + z {
                assert(b[i] == ascii_bytes(d)[i - 2 - z]);
            }
        }
        assert(b.last() == ascii_bytes(d).last());
        vstd::arithmetic::mul::lemma_mul_basics(pow10(z) as int);
        vstd::arithmetic::mul::lemma_mul_basics(pow10(d.len()) as int);
        assert(digits_value(lead + ascii_bytes(zeros(z))) == 0);
        assert(digits_value(b) == digits_num(d));
        assert(fraction_digits(b) == (-k) as nat);
        assert(count_digits(b) >= 1);
    }
    assert forall|j: int| 0 <= j < b.len() implies (is_digit(#[trigger] b[j]) || b[j] == 46) by {}
    lemma_no_marker(b, 0);
    assert forall|i: int| 0 <= i < b.len() implies (is_digit(#[trigger] b[i]) || b[i] == 46 || b[i] == 95) by {}
}

/// Text that neither starts nor ends with white space is its own trim.
pub proof fn lemma_trimmed_self(s: Seq<char>)
    requires
        s.len() >= 1,
        !is_white_space(s[0]),
        !is_white_space(s.last()),
    ensures
        trimmed(s) == s,
{
}


/// The literal's mantissa and power of ten for `digits × 10^k`: the digits with `k` zeros
/// appended when `k >= 0`, the digits over `10^−k` otherwise.
pub open spec fn literal_parts(dv: nat, k: int) -> (nat, int) {
    if k >= 0 {
        (dv * pow10(k as nat), 0)
    } else {
        (dv, k)
    }
}

/// A literal equal to `frac × 2^s` has the magnitude's value in units of `2^−1084`.
proof fn lemma_literal_value(dv: nat, k: int, frac: nat, s: int)
    requires
        equals_dyadic(dv, k, frac, s),
        -1084 <= s,
    ensures
        decimal_num(literal_parts(dv, k).0, literal_parts(dv, k).1)
            == mag_units(s + 60, frac) * decimal_den(literal_parts(dv, k).1),
{
    let (m, q) = literal_parts(dv, k);
    let units = mag_units(s + 60, frac);
    assert(pow10(0) == 1);
    vstd::arithmetic::power2::lemma2_to64();
    if k >= 0 {
        let kk = k as nat;
        vstd::arithmetic::mul::lemma_mul_basics((dv * pow10(kk)) as int);
        vstd::arithmetic::mul::lemma_mul_basics(units as int);
        if s >= 0 {
            let ss = s as nat;
            vstd::arithmetic::power2::lemma_pow2_adds(ss, 1084);
            vstd::arithmetic::mul::lemma_mul_basics((frac * pow2(ss)) as int);
            vstd::arithmetic::mul::lemma_mul_basics((dv * pow10(kk)) as int);
            assert(dv * pow10(kk) == frac * pow2(ss));
            assert(dv * pow10(kk) * pow2(1084) == frac * pow2(ss + 1084)) by (nonlinear_arith)
                requires
                    dv * pow10(kk) == frac * pow2(ss),
                    pow2(ss + 1084) == pow2(ss) * pow2(1084),
            ;
        } else {
            let a = (-s) as nat;
            let r = (1084 + s) as nat;
            vstd::arithmetic::power2::lemma_pow2_adds(a, r);
            assert(a + r == 1084);
            vstd::arithmetic::mul::lemma_mul_basics(frac as int);
            assert(dv * pow10(kk) * pow2(a) == frac);
            assert(dv * pow10(kk) * pow2(1084) == frac * pow2(r)) by (nonlinear_arith)
                requires
                    dv * pow10(kk) * pow2(a) == frac,
                    pow2(a + r) == pow2(a) * pow2(r),
                    a + r == 1084,
            ;
        }
    } else {
        let kk = (-k) as nat;
        if s >= 0 {
            let ss = s as nat;
            vstd::arithmetic::power2::lemma_pow2_adds(ss, 1084);
            vstd::arithmetic::mul::lemma_mul_basics(dv as int);
            assert(dv == frac * pow2(ss) * pow10(kk));
            assert(dv * pow2(1084) == frac * pow2(ss + 1084) * pow10(kk)) by (nonlinear_arith)
                requires
                    dv == frac * pow2(ss) * pow10(kk),
                    pow2(ss + 1084) == pow2(ss) * pow2(1084),
            ;
        } else {
            let a = (-s) as nat;
            let r = (1084 + s) as nat;
            vstd::arithmetic::power2::lemma_pow2_adds(a, r);
            assert(a + r == 1084);
            vstd::arithmetic::mul::lemma_mul_basics(frac as int);
            vstd::arithmetic::mul::lemma_mul_basics((frac * pow10(kk)) as int);
            vstd::arithmetic::mul::lemma_mul_basics(dv as int);
            assert(dv * pow10(0) == dv);
            assert(frac * pow2(0) == frac);
            assert(dv * pow2(a) == frac * pow10(kk));
            assert(dv * pow2(1084) == frac * pow2(r) * pow10(kk)) by (nonlinear_arith)
                requires
                    dv * pow2(a) == frac * pow10(kk),
                    pow2(a + r) == pow2(a) * pow2(r),
                    a + r == 1084,
            ;
        }
    }
}

/// The exact decimal expansion of a numeric field set: its sign, then its digits in positional
/// notation.
pub open spec fn expansion_text(f: Fields) -> Seq<char> {
    let parts = exact_sci_parts(f.frac as nat, f.total_exp - 60);
    sign_text(f.neg) + positional_text(parts.0, parts.1)
}

/// The digits of an expansion: decimal digits, at least one, spelling a positive number whose
/// power of ten is not far below the binary exponent.
proof fn lemma_expansion_digits(frac: nat, s: int)
    requires
        frac > 0,
        -1084 <= s,
    ensures
        ({
            let (d, e) = exact_sci_parts(frac, s);
            &&& all_digits(d)
            &&& d.len() >= 1
            &&& e - d.len() + 1 >= -1084
            &&& equals_dyadic(digits_num(d), e - d.len() + 1, frac, s)
            &&& digits_num(d) > 0
        }),
{
    let (d, e) = exact_sci_parts(frac, s);
    lemma_exact_sci_value(frac, s);
    let nv = if s >= 0 { frac * pow2(s as nat) } else { frac * crate::arith::pow5((-s) as nat) };
    let full = crate::digits::dec_digits(nv);
    crate::digits::lemma_dec_all_digits(nv);
    lemma_strip_prefix(full);
    assert(d == strip_trailing_zeros(full));
    assert forall|i: int| 0 <= i < d.len() implies '0' <= #[trigger] d[i] <= '9' by {
        assert(d[i] == full[i]);
    }
    let k = e - d.len() + 1;
    let dv = digits_num(d);
    let pk = pow10(if k >= 0 { k as nat } else { 0 });
    let ps = pow2(if s < 0 { (-s) as nat } else { 0 });
    let qs = pow2(if s >= 0 { s as nat } else { 0 });
    let qk = pow10(if k < 0 { (-k) as nat } else { 0 });
    vstd::arithmetic::power2::lemma_pow2_pos(if s >= 0 { s as nat } else { 0 });
    crate::arith::lemma_pow10_pos(if k < 0 { (-k) as nat } else { 0 });
    assert(frac * qs * qk > 0) by (nonlinear_arith)
        requires frac > 0, qs > 0, qk > 0;
    assert(dv > 0) by (nonlinear_arith)
        requires dv * pk * ps == frac * qs * qk, frac * qs * qk > 0;
}

/// An expansion is its own trim, and its bytes are the literal `±m × 10^q` of its digits.
proof fn lemma_expansion_literal(neg: bool, d: Seq<char>, e: int)
    requires
        all_digits(d),
        d.len() >= 1,
        e - d.len() + 1 >= -1084,
    ensures
        decimal_literal(encode_utf8(trimmed(sign_text(neg) + positional_text(d, e)))) == Some((
            neg,
            literal_parts(digits_num(d), e - d.len() + 1).0,
            literal_parts(digits_num(d), e - d.len() + 1).1,
        )),
{
    let pos = positional_text(d, e);
    let text = sign_text(neg) + pos;
    lemma_positional_literal(d, e);
    lemma_positional_chars(d, e);
    let pb = ascii_bytes(pos);
    assert(pos[0] as u8 == pb[0]);
    assert(pos.last() as u8 == pb.last());
    assert('0' <= pos[0] <= '9') by {
        assert(pos[0] == '.' || '0' <= pos[0] <= '9');
    }
    assert('0' <= pos.last() <= '9') by {
        assert(pos[pos.len() - 1] == '.' || '0' <= pos[pos.len() - 1] <= '9');
    }
    assert(text.last() == pos.last());
    assert(text[0] == if neg { '-' } else { pos[0] });
    lemma_trimmed_self(text);
    assert(vstd::utf8::is_ascii_chars(text)) by {
        assert forall|i: int| 0 <= i < text.len() implies '\0' <= #[trigger] text[i] <= '\u{7f}' by {
            if neg && i == 0 {
            } else {
                let j = if neg { i - 1 } else { i };
                assert(text[i] == pos[j]);
                assert(pos[j] == '.' || '0' <= pos[j] <= '9');
            }
        }
    }
    vstd::utf8::is_ascii_chars_encode_utf8(text);
    let b = encode_utf8(text);
    assert(b =~= ascii_bytes(text));
    lemma_bytes_concat(sign_text(neg), pos);
    let rest = if b[0] == 45 || b[0] == 43 { b.skip(1) } else { b };
    if neg {
        assert(b[0] == 45);
        assert(rest =~= pb);
    } else {
        assert(b[0] == pb[0]);
        assert(rest =~= pb);
    }
    assert(rest.take(rest.len() as int) =~= rest);
}

/// The exact decimal expansion of a number reads back as the same number: for every pattern of
/// a format that is neither zero nor NaR, its expansion is a literal, and reading that literal
/// (as `from_decimal` does) gives exactly the pattern itself, never `None` and never another.
pub proof fn lemma_exact_decimal_round_trip(fmt: Format, bits: u64)
    requires
        (bits as nat) < fmt.modulus(),
        fmt.fields_of(bits).special.is_none(),
    ensures
        decimal_literal(encode_utf8(trimmed(expansion_text(fmt.fields_of(bits))))) is Some,
        forall|r: Option<u64>|
            decimal_rounds_to(fmt, encode_utf8(trimmed(expansion_text(fmt.fields_of(bits)))), r)
                ==> r == Some(bits),
{
    let f = fmt.fields_of(bits);
    lemma_fields_magnitude(fmt, bits);
    let n = fmt.nbits();
    let m = crate::bits::magnitude_of((bits as nat) % pow2(n), n);
    lemma_pattern_mag(fmt, m);
    let frac = f.frac as nat;
    let s = f.total_exp - 60;
    vstd::arithmetic::power2::lemma2_to64();
    vstd::arithmetic::power2::lemma2_to64_rest();
    let (d, e) = exact_sci_parts(frac, s);
    lemma_expansion_digits(frac, s);
    lemma_expansion_literal(f.neg, d, e);
    let b = encode_utf8(trimmed(expansion_text(f)));
    assert forall|r: Option<u64>| decimal_rounds_to(fmt, b, r) implies r == Some(bits) by {
        if let Some(v) = r {
            lemma_read_back(fmt, bits, v);
        }
    }
}

/// The pattern a number's expansion rounds to is the number.
proof fn lemma_read_back(fmt: Format, bits: u64, v: u64)
    requires
        (bits as nat) < fmt.modulus(),
        fmt.fields_of(bits).special.is_none(),
        decimal_rounds_to(fmt, encode_utf8(trimmed(expansion_text(fmt.fields_of(bits)))), Some(v)),
    ensures
        v == bits,
{
    let f = fmt.fields_of(bits);
    let n = fmt.nbits();
    let u = (bits as nat) % pow2(n);
    let m = crate::bits::magnitude_of(u, n);
    lemma_fields_magnitude(fmt, bits);
    lemma_pattern_mag(fmt, m);
    let frac = f.frac as nat;
    let s = f.total_exp - 60;
    vstd::arithmetic::power2::lemma2_to64();
    vstd::arithmetic::power2::lemma2_to64_rest();
    let (d, e) = exact_sci_parts(frac, s);
    lemma_expansion_digits(frac, s);
    let k = e - d.len() + 1;
    let dv = digits_num(d);
    lemma_expansion_literal(f.neg, d, e);
    let (mm, q) = literal_parts(dv, k);
    assert(mm > 0) by {
        if k >= 0 {
            crate::arith::lemma_pow10_pos(k as nat);
            vstd::arithmetic::mul::lemma_mul_strictly_positive(dv as int, pow10(k as nat) as int);
        }
    }
    // The literal's value is the number's value, which rounds to the number's magnitude.
    lemma_literal_value(dv, k, frac, s);
    assert(mag_units(s + 60, frac) == pattern_units(fmt, m));
    let den = decimal_den(q);
    assert(den > 0) by {
        if q < 0 {
            crate::arith::lemma_pow10_pos((-q) as nat);
        }
    }
    let o = if f.neg { neg_pattern(n, v as nat) } else { v as nat };
    lemma_exact_rounds_to_itself(fmt, m, den, o);
    // The sign puts the magnitude back where the pattern was.
    vstd::arithmetic::div_mod::lemma_small_mod(bits as nat, pow2(n));
    vstd::arithmetic::power2::lemma_pow2_adds(1, (n - 1) as nat);
    assert(n == 1 + (n - 1) as nat);
}

} // verus!
