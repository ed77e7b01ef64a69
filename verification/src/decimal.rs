//! Exact decimal rendering of a posit.
//!
//! A finite posit is `±frac × 2^s`, a dyadic rational, so its decimal expansion always terminates,
//! but it can be long: a BPosit64 near `minpos` needs a few hundred digits. The expansion is
//! computed with big integers.

use vstd::prelude::*;
use vstd::arithmetic::power2::pow2;
use crate::arith::pow5;
use crate::bignum::Big;
use crate::digits::{all_digits, dec_digits, digit_char, digit_of, digits_num, push_dec};
use crate::text::push_char;

verus! {

/// A value in normalised scientific form: `digits[0] . digits[1..] × 10^exp`.
///
/// `digits` never has a trailing zero, so its length is exactly the number of significant digits.
#[derive(Clone, Debug)]
pub struct Sci {
    pub digits: String,
    pub exp: i32,
}

/// `s` without its trailing zeros.
pub open spec fn strip_trailing_zeros(s: Seq<char>) -> Seq<char>
    decreases s.len(),
{
    if s.len() > 0 && s.last() == '0' {
        strip_trailing_zeros(s.drop_last())
    } else {
        s
    }
}

/// `n` zero digits.
pub open spec fn zeros(n: nat) -> Seq<char> {
    Seq::new(n, |i: int| '0')
}

/// The scientific form of `digits × 10^e10`: the digits without trailing zeros, and the power
/// of ten of the first digit; `0 × 10^0` when every digit is zero.
pub open spec fn sci_parts(digits: Seq<char>, e10: int) -> (Seq<char>, int) {
    let t = strip_trailing_zeros(digits);
    if t.len() == 0 {
        (seq!['0'], 0)
    } else {
        (t, e10 + digits.len() - 1)
    }
}

/// The scientific form of `frac × 2^s`.
pub open spec fn exact_sci_parts(frac: nat, s: int) -> (Seq<char>, int) {
    if s >= 0 {
        sci_parts(dec_digits(frac * pow2(s as nat)), 0)
    } else {
        sci_parts(dec_digits(frac * pow5((-s) as nat)), s)
    }
}

/// The bytes of a string of digits, one per character.
fn digit_bytes(s: &str) -> (b: &[u8])
    requires
        all_digits(s@),
    ensures
        b@.len() == s@.len(),
        forall|i: int| 0 <= i < b@.len() ==> 48 <= #[trigger] b@[i] <= 57 && b@[i] as char == s@[i],
{
    proof {
        assert(vstd::utf8::is_ascii_chars(s@));
        vstd::string::is_ascii_spec_bytes(s);
    }
    s.as_bytes()
}

/// The character of a digit byte.
fn digit_byte_char(c: u8) -> (r: char)
    requires
        48 <= c <= 57,
    ensures
        r == c as char,
{
    let d = digit_of((c - 48u8) as u32);
    d
}

/// Append `b[from..to]` to `out`.
fn push_range(out: &mut String, b: &[u8], from: usize, to: usize, Ghost(s): Ghost<Seq<char>>)
    requires
        from <= to <= b@.len(),
        b@.len() == s.len(),
        forall|i: int| 0 <= i < b@.len() ==> 48 <= #[trigger] b@[i] <= 57 && b@[i] as char == s[i],
    ensures
        final(out)@ == old(out)@ + s.subrange(from as int, to as int),
{
    let ghost start = out@;
    let mut i = from;
    while i < to
        invariant
            from <= i <= to <= b@.len(),
            b@.len() == s.len(),
            forall|i: int| 0 <= i < b@.len() ==> 48 <= #[trigger] b@[i] <= 57 && b@[i] as char == s[i],
            out@ == start + s.subrange(from as int, i as int),
        decreases to - i,
    {
        let c = digit_byte_char(b[i]);
        push_char(out, c);
        assert(s.subrange(from as int, i + 1) =~= s.subrange(from as int, i as int).push(s[i as int]));
        i = i + 1;
    }
}

/// Append `n` zero digits to `out`.
fn push_zeros(out: &mut String, n: u64)
    ensures
        final(out)@ == old(out)@ + zeros(n as nat),
{
    let ghost start = out@;
    let mut i: u64 = 0;
    while i < n
        invariant
            i <= n,
            out@ == start + zeros(i as nat),
        decreases n - i,
    {
        push_char(out, '0');
        assert(zeros((i + 1) as nat) =~= zeros(i as nat).push('0'));
        i = i + 1;
    }
}

proof fn lemma_strip_take(s: Seq<char>, t: nat)
    requires
        t <= s.len(),
        forall|i: int| t <= i < s.len() ==> s[i] == '0',
    ensures
        strip_trailing_zeros(s) == strip_trailing_zeros(s.take(t as int)),
    decreases s.len() - t,
{
    if t < s.len() {
        assert(s.drop_last().take(t as int) =~= s.take(t as int));
        lemma_strip_take(s.drop_last(), t);
    } else {
        assert(s.take(t as int) =~= s);
    }
}

/// The digits of `s` are digits after the trailing zeros are stripped.
pub proof fn lemma_strip_prefix(s: Seq<char>)
    ensures
        strip_trailing_zeros(s).len() <= s.len(),
        strip_trailing_zeros(s) == s.take(strip_trailing_zeros(s).len() as int),
        strip_trailing_zeros(s).len() > 0 ==> strip_trailing_zeros(s).last() != '0',
    decreases s.len(),
{
    if s.len() > 0 && s.last() == '0' {
        lemma_strip_prefix(s.drop_last());
        assert(s.drop_last().take(strip_trailing_zeros(s).len() as int) =~= s.take(strip_trailing_zeros(s).len() as int));
    } else {
        assert(s.take(s.len() as int) =~= s);
    }
}

/// Normalise `digits × 10^e10` into scientific form, dropping trailing zeros.
pub fn sci_from(digits: String, e10: i64) -> (r: Sci)
    requires
        all_digits(digits@),
        i32::MIN <= e10 + digits@.len() - 1 <= i32::MAX,
    ensures
        (r.digits@, r.exp as int) == sci_parts(digits@, e10 as int),
        all_digits(r.digits@),
{
    let b = digit_bytes(digits.as_str());
    let n = b.len();
    let mut t = n;
    while t > 0 && b[t - 1] == 48u8
        invariant
            t <= n == b@.len() == digits@.len(),
            forall|i: int| 0 <= i < b@.len() ==> 48 <= #[trigger] b@[i] <= 57 && b@[i] as char == digits@[i],
            forall|i: int| t <= i < n ==> digits@[i] == '0',
        decreases t,
    {
        t = t - 1;
    }
    proof {
        lemma_strip_take(digits@, t as nat);
        if t > 0 {
            assert(digits@.take(t as int).last() != '0');
        }
        assert(strip_trailing_zeros(digits@.take(t as int)) == digits@.take(t as int));
    }
    if t == 0 {
        // The digits were all zeros, so the value is zero whatever the exponent says.
        let mut z = String::new();
        push_char(&mut z, '0');
        proof {
            assert(z@ =~= seq!['0']);
        }
        return Sci { digits: z, exp: 0 };
    }
    let mut out = String::new();
    push_range(&mut out, b, 0, t, Ghost(digits@));
    assert(out@ =~= digits@.take(t as int));
    let exp = (e10 as i128) + (n as i128) - 1;
    Sci { digits: out, exp: exp as i32 }
}

/// Exact scientific form of `frac × 2^s`, for `frac != 0`.
pub fn exact_sci(frac: u64, s: i64) -> (r: Sci)
    requires
        frac != 0,
        -0x4000_0000 <= s <= 0x4000_0000,
    ensures
        (r.digits@, r.exp as int) == exact_sci_parts(frac as nat, s as int),
        all_digits(r.digits@),
{
    let mut n = Big::from_u64(frac);
    let e10: i64 = if s >= 0 {
        n.shl_bits(s as u32);
        0
    } else {
        // frac / 2^|s| = frac × 5^|s| / 10^|s|
        n.mul_pow5((-s) as u32);
        s
    };
    let d = n.to_decimal();
    proof {
        crate::digits::lemma_dec_all_digits(n@);
        lemma_scaled_len(frac as nat, s as int);
    }
    sci_from(d, e10)
}

/// The number of digits of `frac × 2^s`, or of `frac × 5^−s`, keeps the exponent of the
/// scientific form within 32 bits.
proof fn lemma_scaled_len(frac: nat, s: int)
    requires
        frac < 0x1_0000_0000_0000_0000,
        -0x4000_0000 <= s <= 0x4000_0000,
    ensures
        s >= 0 ==> dec_digits(frac * pow2(s as nat)).len() <= 64 + s,
        s < 0 ==> dec_digits(frac * pow5((-s) as nat)).len() <= 64 - s,
{
    let k: nat = if s >= 0 { s as nat } else { (-s) as nat };
    let p = if s >= 0 { pow2(k) } else { pow5(k) };
    let t = crate::arith::pow10(64);
    let tk = crate::arith::pow10(k);
    crate::arith::lemma_pow2_le_pow10(k);
    crate::arith::lemma_pow5_le_pow10(k);
    crate::arith::lemma_pow2_le_pow10(64);
    crate::arith::lemma_pow5_pos(k);
    vstd::arithmetic::power2::lemma_pow2_pos(k);
    vstd::arithmetic::power2::lemma2_to64_rest();
    crate::arith::lemma_pow10_add(64, k);
    assert(p > 0);
    assert(p <= tk);
    vstd::arithmetic::mul::lemma_mul_strict_inequality(frac as int, pow2(64) as int, p as int);
    vstd::arithmetic::mul::lemma_mul_inequality(pow2(64) as int, t as int, p as int);
    vstd::arithmetic::mul::lemma_mul_inequality(p as int, tk as int, t as int);
    vstd::arithmetic::mul::lemma_mul_is_commutative(p as int, t as int);
    vstd::arithmetic::mul::lemma_mul_is_commutative(tk as int, t as int);
    assert(frac * p < crate::arith::pow10(64 + k));
    crate::digits::lemma_dec_len_bound(frac * p, 64 + k);
}


/// The digit after `c`.
pub open spec fn next_digit(c: char) -> char {
    digit_char((c as nat - 48 + 1) as nat)
}

/// Add one to a digit string as a number of the same width: the new digits, and whether a
/// carry ran off the front.
pub open spec fn increment(s: Seq<char>) -> (Seq<char>, bool)
    decreases s.len(),
{
    if s.len() == 0 {
        (s, true)
    } else if s.last() == '9' {
        let (p, c) = increment(s.drop_last());
        (p.push('0'), c)
    } else {
        (s.drop_last().push(next_digit(s.last())), false)
    }
}

/// The digits without trailing zeros, or `"0"` when nothing is left.
pub open spec fn strip_or_zero(s: Seq<char>) -> Seq<char> {
    if strip_trailing_zeros(s).len() == 0 {
        seq!['0']
    } else {
        strip_trailing_zeros(s)
    }
}

/// A digit string rounded half-up to `m` significant digits, and how much the exponent shifts:
/// one when a carry runs off the front, as in 999 → 1000.
pub open spec fn rounded_digits(d: Seq<char>, m: nat) -> (Seq<char>, int) {
    if d.len() <= m {
        (d, 0)
    } else {
        let kept = d.take(m as int);
        if d[m as int] >= '5' {
            let (inc, carry) = increment(kept);
            if carry {
                // 999… became 1000…, of which the leading one is significant.
                (if m > 0 { seq!['1'] } else { seq!['0'] }, 1)
            } else {
                (strip_or_zero(inc), 0)
            }
        } else {
            (strip_or_zero(kept), 0)
        }
    }
}

/// Increment a string whose digits from `j` on are all nines: the digit before them goes up by
/// one and they become zeros; with no digit before them, the carry runs off the front.
proof fn lemma_increment_form(s: Seq<char>, j: nat)
    requires
        j <= s.len(),
        forall|i: int| j <= i < s.len() ==> s[i] == '9',
        j == 0 || s[j - 1] != '9',
    ensures
        increment(s) == if j == 0 {
            (zeros(s.len()), true)
        } else {
            (s.take(j - 1).push(next_digit(s[j - 1])) + zeros((s.len() - j) as nat), false)
        },
    decreases s.len(),
{
    if s.len() == 0 {
        assert(zeros(0) =~= s);
    } else if s.len() == j {
        assert(s.drop_last() =~= s.take(j - 1));
        assert(s.take(j - 1).push(next_digit(s[j - 1])) + zeros(0) =~= s.drop_last().push(next_digit(s.last())));
    } else {
        lemma_increment_form(s.drop_last(), j);
        if j == 0 {
            assert(zeros((s.len() - 1) as nat).push('0') =~= zeros(s.len()));
        } else {
            assert(s.drop_last().take(j - 1) =~= s.take(j - 1));
            assert((s.take(j - 1).push(next_digit(s[j - 1])) + zeros((s.len() - 1 - j) as nat)).push('0')
                =~= s.take(j - 1).push(next_digit(s[j - 1])) + zeros((s.len() - j) as nat));
        }
    }
}

/// Pop trailing zeros off `v`, then stand in `"0"` for nothing.
fn strip_vec(v: &mut Vec<char>)
    ensures
        final(v)@ == strip_or_zero(old(v)@),
{
    let ghost s = v@;
    while v.len() > 0 && v[v.len() - 1] == '0'
        invariant
            strip_trailing_zeros(v@) == strip_trailing_zeros(s),
        decreases v.len(),
    {
        let ghost before = v@;
        v.pop();
        assert(v@ =~= before.drop_last());
    }
    if v.len() == 0 {
        v.push('0');
        assert(v@ =~= seq!['0']);
    }
}

/// A `String` holding the characters of `v`.
fn string_of(v: &Vec<char>) -> (s: String)
    ensures
        s@ == v@,
{
    let mut s = String::new();
    let mut i: usize = 0;
    while i < v.len()
        invariant
            i <= v@.len(),
            s@ == v@.take(i as int),
        decreases v@.len() - i,
    {
        push_char(&mut s, v[i]);
        assert(v@.take(i + 1) =~= v@.take(i as int).push(v@[i as int]));
        i = i + 1;
    }
    assert(v@.take(i as int) =~= v@);
    s
}

/// Round a digit string to `max_sig` significant digits, half-up.
///
/// Returns the new digits and how much the exponent shifted (1 when a carry propagated off the
/// front, as in 999 → 100).
pub fn round_digits(digits: &str, max_sig: usize) -> (r: (String, i32))
    requires
        all_digits(digits@),
    ensures
        (r.0@, r.1 as int) == rounded_digits(digits@, max_sig as nat),
        all_digits(r.0@),
{
    let b = digit_bytes(digits);
    if b.len() <= max_sig {
        let mut out = String::new();
        push_range(&mut out, b, 0, b.len(), Ghost(digits@));
        assert(out@ =~= digits@);
        return (out, 0);
    }
    let round_up = b[max_sig] >= 53u8;
    let mut kept: Vec<char> = Vec::new();
    let mut i: usize = 0;
    while i < max_sig
        invariant
            i <= max_sig < b@.len(),
            b@.len() == digits@.len(),
            forall|k: int| 0 <= k < b@.len() ==> 48 <= #[trigger] b@[k] <= 57 && b@[k] as char == digits@[k],
            kept@ == digits@.take(i as int),
        decreases max_sig - i,
    {
        kept.push(digit_byte_char(b[i]));
        assert(digits@.take(i + 1) =~= digits@.take(i as int).push(digits@[i as int]));
        i = i + 1;
    }
    let ghost k0 = kept@;
    assert(round_up == (digits@[max_sig as int] >= '5'));
    if round_up {
        let mut j = max_sig;
        while j > 0 && kept[j - 1] == '9'
            invariant
                j <= max_sig == kept@.len(),
                kept@ == k0,
                forall|k: int| j <= k < max_sig ==> kept@[k] == '9',
            decreases j,
        {
            j = j - 1;
        }
        proof {
            lemma_increment_form(k0, j as nat);
        }
        if j == 0 {
            // Carried off the front: 999… became 1000…, of which only the one is significant.
            let mut one = String::new();
            push_char(&mut one, if max_sig > 0 { '1' } else { '0' });
            proof {
                assert(one@ =~= if max_sig > 0 { seq!['1'] } else { seq!['0'] });
            }
            return (one, 1);
        }
        let c = kept[j - 1];
        let d = (c as u32) - 48;
        proof {
            crate::digits::lemma_dec_all_digits(0);
            assert(k0[j - 1] <= '8');
        }
        kept.set(j - 1, digit_of(d + 1));
        let mut t = j;
        while t < max_sig
            invariant
                1 <= j <= t <= max_sig == kept@.len(),
                k0.len() == max_sig,
                kept@ == k0.take(j - 1).push(next_digit(k0[j - 1])) + zeros((t - j) as nat) + k0.subrange(t as int, max_sig as int),
            decreases max_sig - t,
        {
            let ghost before = kept@;
            kept.set(t, '0');
            assert(kept@ =~= k0.take(j - 1).push(next_digit(k0[j - 1])) + zeros((t + 1 - j) as nat) + k0.subrange(t + 1, max_sig as int));
            t = t + 1;
        }
        assert(kept@ =~= k0.take(j - 1).push(next_digit(k0[j - 1])) + zeros((max_sig - j) as nat));
    }
    // `Sci::digits` never carries trailing zeros, so the carry path must strip them too.
    strip_vec(&mut kept);
    let out = string_of(&kept);
    proof {
        lemma_strip_or_zero_digits(if round_up { increment(k0).0 } else { k0 });
    }
    (out, 0)
}

proof fn lemma_strip_or_zero_digits(s: Seq<char>)
    requires
        all_digits(s),
    ensures
        all_digits(strip_or_zero(s)),
{
    lemma_strip_prefix(s);
}


/// `digits × 10^(exp − len + 1)` laid out in positional notation, without an exponent suffix.
pub open spec fn positional_text(d: Seq<char>, e: int) -> Seq<char> {
    let len = d.len() as int;
    if e >= len - 1 {
        d + zeros((e - len + 1) as nat)
    } else if e >= 0 {
        d.take(e + 1) + seq!['.'] + d.skip(e + 1)
    } else {
        seq!['0', '.'] + zeros((-e - 1) as nat) + d
    }
}

/// The sign prefix.
pub open spec fn sign_text(neg: bool) -> Seq<char> {
    if neg {
        seq!['-']
    } else {
        Seq::empty()
    }
}

/// An integer in decimal, with a minus sign when negative.
pub open spec fn int_text(e: int) -> Seq<char> {
    if e < 0 {
        seq!['-'] + dec_digits((-e) as nat)
    } else {
        dec_digits(e as nat)
    }
}

/// The mantissa of scientific notation: the first digit, then a point and the rest if any.
pub open spec fn mantissa_text(d: Seq<char>) -> Seq<char> {
    if d.len() == 1 {
        d
    } else {
        d.take(1) + seq!['.'] + d.skip(1)
    }
}

/// What is displayed for `±digits × 10^exp` at `max_sig` significant digits: positional notation
/// for exponents from −7 up to 20, scientific notation otherwise.
pub open spec fn rendered_text(neg: bool, digits: Seq<char>, exp: int, max_sig: nat) -> Seq<char> {
    let (d, shift) = rounded_digits(digits, max_sig);
    let e = exp + shift;
    let body = if -7 <= e < 21 {
        positional_text(d, e)
    } else {
        mantissa_text(d) + seq!['e'] + int_text(e)
    };
    sign_text(neg) + body
}

/// Lay out `digits × 10^exp` in positional notation, without an exponent suffix.
fn positional(digits: &str, exp: i32) -> (s: String)
    requires
        all_digits(digits@),
        digits@.len() < 0x8000_0000,
    ensures
        s@ == positional_text(digits@, exp as int),
{
    let b = digit_bytes(digits);
    let len = b.len() as i64;
    let exp = exp as i64;
    let mut s = String::new();
    if exp >= len - 1 {
        // Integer with trailing zeros.
        push_range(&mut s, b, 0, b.len(), Ghost(digits@));
        push_zeros(&mut s, (exp - len + 1) as u64);
        assert(digits@.subrange(0, len as int) =~= digits@);
        assert(s@ =~= positional_text(digits@, exp as int));
        s
    } else if exp >= 0 {
        let split = (exp + 1) as usize;
        push_range(&mut s, b, 0, split, Ghost(digits@));
        push_char(&mut s, '.');
        push_range(&mut s, b, split, b.len(), Ghost(digits@));
        assert(s@ =~= positional_text(digits@, exp as int));
        s
    } else {
        push_char(&mut s, '0');
        push_char(&mut s, '.');
        push_zeros(&mut s, (-exp - 1) as u64);
        push_range(&mut s, b, 0, b.len(), Ghost(digits@));
        assert(digits@.subrange(0, len as int) =~= digits@);
        assert(s@ =~= positional_text(digits@, exp as int));
        s
    }
}

/// Append `e` in decimal, with a minus sign when negative.
fn push_int(s: &mut String, e: i32)
    ensures
        final(s)@ == old(s)@ + int_text(e as int),
{
    if e < 0 {
        push_char(s, '-');
        let m = (0i64 - e as i64) as u32;
        push_dec(s, m);
        assert(final(s)@ =~= old(s)@ + int_text(e as int));
    } else {
        push_dec(s, e as u32);
    }
}

/// Render for display, switching to scientific notation outside a comfortable range.
///
/// The returned flag is false when digits had to be dropped, letting the UI mark the value as
/// approximate rather than silently implying the display is the whole number.
pub fn render(neg: bool, sci: &Sci, max_sig: usize) -> (r: (String, bool))
    requires
        all_digits(sci.digits@),
        1 <= sci.digits@.len() < 0x8000_0000,
        sci.exp < i32::MAX,
    ensures
        r.0@ == rendered_text(neg, sci.digits@, sci.exp as int, max_sig as nat),
        r.1 == (sci.digits@.len() <= max_sig),
{
    let ds = sci.digits.as_str();
    proof {
        assert(vstd::utf8::is_ascii_chars(ds@));
        vstd::string::is_ascii_spec_bytes(ds);
    }
    let exact = ds.len() <= max_sig;
    let (digits, shift) = round_digits(ds, max_sig);
    let exp = sci.exp + shift;
    proof {
        lemma_rounded_len(sci.digits@, max_sig as nat);
    }
    let mut out = String::new();
    if neg {
        push_char(&mut out, '-');
    }
    if -7 <= exp && exp < 21 {
        let p = positional(digits.as_str(), exp);
        push_str_all(&mut out, &p);
    } else {
        let b = digit_bytes(digits.as_str());
        if b.len() == 1 {
            push_range(&mut out, b, 0, 1, Ghost(digits@));
            assert(digits@.subrange(0, 1) =~= digits@);
        } else {
            push_range(&mut out, b, 0, 1, Ghost(digits@));
            push_char(&mut out, '.');
            push_range(&mut out, b, 1, b.len(), Ghost(digits@));
            assert(digits@.subrange(0, 1) =~= digits@.take(1));
            assert(digits@.subrange(1, digits@.len() as int) =~= digits@.skip(1));
        }
        push_char(&mut out, 'e');
        push_int(&mut out, exp);
    }
    assert(out@ =~= rendered_text(neg, sci.digits@, sci.exp as int, max_sig as nat));
    (out, exact)
}

/// Rounded digits are never longer than the digits rounded, and never empty.
proof fn lemma_rounded_len(d: Seq<char>, m: nat)
    requires
        all_digits(d),
    ensures
        rounded_digits(d, m).0.len() <= d.len() || rounded_digits(d, m).0.len() == 1,
        rounded_digits(d, m).1 == 0 || rounded_digits(d, m).1 == 1,
        d.len() >= 1 ==> rounded_digits(d, m).0.len() >= 1,
{
    if d.len() > m {
        let kept = d.take(m as int);
        lemma_strip_prefix(kept);
        lemma_increment_len(kept);
        lemma_strip_prefix(increment(kept).0);
    }
}

/// Incrementing a string of digits leaves a string of digits.
proof fn lemma_increment_digits(s: Seq<char>)
    requires
        all_digits(s),
    ensures
        all_digits(increment(s).0),
    decreases s.len(),
{
    if s.len() > 0 {
        let t = s.drop_last();
        assert(all_digits(t)) by {
            assert forall|i: int| 0 <= i < t.len() implies '0' <= #[trigger] t[i] <= '9' by {
                assert(t[i] == s[i]);
            }
        }
        if s.last() == '9' {
            lemma_increment_digits(t);
        } else {
            assert(s[s.len() - 1] == s.last());
        }
    }
}

/// Rounding a nonempty string of digits gives a nonempty string of digits.
proof fn lemma_rounded_digits_are_digits(d: Seq<char>, m: nat)
    requires
        all_digits(d),
        d.len() >= 1,
    ensures
        all_digits(rounded_digits(d, m).0),
        rounded_digits(d, m).0.len() >= 1,
{
    lemma_rounded_len(d, m);
    if d.len() > m {
        let kept = d.take(m as int);
        assert(all_digits(kept)) by {
            assert forall|i: int| 0 <= i < kept.len() implies '0' <= #[trigger] kept[i] <= '9' by {
                assert(kept[i] == d[i]);
            }
        }
        lemma_increment_digits(kept);
        lemma_strip_or_zero_digits(kept);
        lemma_strip_or_zero_digits(increment(kept).0);
    }
}

/// The displayed text carries the sign it is given: it starts with `-` exactly for a negative
/// value, since the digits after the sign never do.
pub proof fn lemma_rendered_sign(neg: bool, digits: Seq<char>, exp: int, max_sig: nat)
    requires
        all_digits(digits),
        digits.len() >= 1,
    ensures
        rendered_text(neg, digits, exp, max_sig).len() >= 1,
        (rendered_text(neg, digits, exp, max_sig)[0] == '-') == neg,
{
    let (d, shift) = rounded_digits(digits, max_sig);
    lemma_rounded_digits_are_digits(digits, max_sig);
    let e = exp + shift;
    let body = if -7 <= e < 21 {
        positional_text(d, e)
    } else {
        mantissa_text(d) + seq!['e'] + int_text(e)
    };
    assert('0' <= d[0] <= '9');
    if -7 <= e < 21 {
        let len = d.len() as int;
        if e >= len - 1 {
            assert(body[0] == d[0]);
        } else if e >= 0 {
            assert(body[0] == d[0]);
        } else {
            assert(body[0] == '0');
        }
    } else {
        assert(body[0] == d[0]);
    }
    let t = rendered_text(neg, digits, exp, max_sig);
    assert(t == sign_text(neg) + body);
    if neg {
        assert(t[0] == '-');
    } else {
        assert(t[0] == body[0]);
    }
}

proof fn lemma_increment_len(s: Seq<char>)
    ensures
        increment(s).0.len() == s.len(),
    decreases s.len(),
{
    if s.len() > 0 && s.last() == '9' {
        lemma_increment_len(s.drop_last());
    }
}

/// Append the whole of `t` to `out`.
fn push_str_all(out: &mut String, t: &String)
    requires
        all_digits(t@) || forall|i: int| 0 <= i < t@.len() ==> ('0' <= #[trigger] t@[i] <= '9' || t@[i] == '.'),
    ensures
        final(out)@ == old(out)@ + t@,
{
    let ghost start = out@;
    let ts = t.as_str();
    proof {
        assert(vstd::utf8::is_ascii_chars(ts@));
        vstd::string::is_ascii_spec_bytes(ts);
    }
    let b = ts.as_bytes();
    let mut i: usize = 0;
    while i < b.len()
        invariant
            i <= b@.len() == t@.len(),
            forall|k: int| 0 <= k < b@.len() ==> b@[k] == t@[k] as u8,
            forall|k: int| 0 <= k < t@.len() ==> ('0' <= #[trigger] t@[k] <= '9' || t@[k] == '.'),
            out@ == start + t@.take(i as int),
        decreases b@.len() - i,
    {
        let c = if b[i] == 46u8 { '.' } else { digit_byte_char(b[i]) };
        push_char(out, c);
        assert(t@.take(i + 1) =~= t@.take(i as int).push(t@[i as int]));
        i = i + 1;
    }
    assert(t@.take(i as int) =~= t@);
}

/// The complete exact expansion, in positional notation. Can be hundreds of digits long.
pub fn exact_string(neg: bool, sci: &Sci) -> (s: String)
    requires
        all_digits(sci.digits@),
        sci.digits@.len() < 0x8000_0000,
    ensures
        s@ == sign_text(neg) + positional_text(sci.digits@, sci.exp as int),
{
    let mut out = String::new();
    if neg {
        push_char(&mut out, '-');
    }
    let p = positional(sci.digits.as_str(), sci.exp);
    proof {
        lemma_positional_chars(sci.digits@, sci.exp as int);
    }
    push_str_all(&mut out, &p);
    assert(out@ =~= sign_text(neg) + positional_text(sci.digits@, sci.exp as int));
    out
}

/// Positional text holds digits and at most a point.
pub proof fn lemma_positional_chars(d: Seq<char>, e: int)
    requires
        all_digits(d),
    ensures
        forall|i: int| 0 <= i < positional_text(d, e).len() ==> ('0' <= #[trigger] positional_text(d, e)[i] <= '9' || positional_text(d, e)[i] == '.'),
{
    let p = positional_text(d, e);
    assert forall|i: int| 0 <= i < p.len() implies ('0' <= #[trigger] p[i] <= '9' || p[i] == '.') by {
        let len = d.len() as int;
        if e >= len - 1 {
            if i < len {
                assert(p[i] == d[i]);
            }
        } else if e >= 0 {
            if i < e + 1 {
                assert(p[i] == d[i]);
            } else if i > e + 1 {
                assert(p[i] == d[i - 1]);
            }
        } else {
            if i >= 2 + (-e - 1) {
                assert(p[i] == d[i - 2 - (-e - 1)]);
            }
        }
    }
}


/// Trailing zeros are powers of ten: the digits spell the stripped digits times `10^z`, `z` the
/// number of zeros stripped.
proof fn lemma_strip_value(s: Seq<char>)
    ensures
        digits_num(s) == digits_num(strip_trailing_zeros(s)) * crate::arith::pow10((s.len() - strip_trailing_zeros(s).len()) as nat),
    decreases s.len(),
{
    lemma_strip_prefix(s);
    if s.len() > 0 && s.last() == '0' {
        lemma_strip_value(s.drop_last());
        let t = strip_trailing_zeros(s);
        let z = (s.len() - t.len()) as nat;
        assert(z >= 1);
        assert(crate::arith::pow10(z) == 10 * crate::arith::pow10((z - 1) as nat));
        let a = digits_num(t);
        let p = crate::arith::pow10((z - 1) as nat);
        assert(digits_num(s) == 10 * digits_num(s.drop_last()));
        assert(10 * (a * p) == a * (10 * p)) by (nonlinear_arith);
    } else {
        vstd::arithmetic::mul::lemma_mul_basics(digits_num(s) as int);
        assert(crate::arith::pow10(0) == 1);
    }
}

/// `x × 10^k` compared with `y × 2^s` over a common denominator: the two are equal.
pub open spec fn equals_dyadic(x: nat, k: int, y: nat, s: int) -> bool {
    let lhs = x * crate::arith::pow10(if k >= 0 { k as nat } else { 0 }) * pow2(if s < 0 { (-s) as nat } else { 0 });
    let rhs = y * pow2(if s >= 0 { s as nat } else { 0 }) * crate::arith::pow10(if k < 0 { (-k) as nat } else { 0 });
    lhs == rhs
}

/// The decimal expansion is exact: for `frac > 0`, the scientific form of `frac × 2^s` has a
/// nonzero leading digit, no trailing zero, and spells exactly that value,
/// `digits × 10^(exp − len + 1) = frac × 2^s`.
pub proof fn lemma_exact_sci_value(frac: nat, s: int)
    requires
        frac > 0,
    ensures
        ({
            let (d, e) = exact_sci_parts(frac, s);
            &&& d.len() >= 1
            &&& d[0] != '0'
            &&& d.last() != '0'
            &&& equals_dyadic(digits_num(d), e - d.len() + 1, frac, s)
        }),
{
    let a: nat = if s >= 0 { s as nat } else { (-s) as nat };
    let n = if s >= 0 { frac * pow2(a) } else { frac * pow5(a) };
    vstd::arithmetic::power2::lemma_pow2_pos(a);
    crate::arith::lemma_pow5_pos(a);
    vstd::arithmetic::mul::lemma_mul_strictly_positive(frac as int, pow2(a) as int);
    vstd::arithmetic::mul::lemma_mul_strictly_positive(frac as int, pow5(a) as int);
    let full = dec_digits(n);
    crate::digits::lemma_dec_digits_nonempty(n);
    crate::digits::lemma_digits_num_dec(n);
    lemma_strip_prefix(full);
    lemma_strip_value(full);
    let t = strip_trailing_zeros(full);
    let z = (full.len() - t.len()) as nat;
    // A nonzero number's digits are not all zeros.
    if t.len() == 0 {
        assert(full[0] != '0');
        lemma_strip_keeps_nonzero(full);
    }
    assert(t[0] == full[0]);
    let dv = digits_num(t);
    let (d, e) = exact_sci_parts(frac, s);
    assert(d == t);
    assert(dv * crate::arith::pow10(z) == n);
    vstd::arithmetic::power2::lemma2_to64();
    if s >= 0 {
        assert(e - d.len() + 1 == z);
        assert(crate::arith::pow10(0) == 1);
        vstd::arithmetic::mul::lemma_mul_basics((dv * crate::arith::pow10(z)) as int);
        vstd::arithmetic::mul::lemma_mul_basics((frac * pow2(a)) as int);
    } else {
        let k = e - d.len() + 1;
        assert(k == z - a);
        crate::arith::lemma_pow10_split(a);
        if k >= 0 {
            let kk = k as nat;
            crate::arith::lemma_pow10_add(kk, a);
            assert(z == kk + a);
            // dv·10^kk·10^a = frac·5^a, and 10^a = 5^a·2^a
            assert(pow5(a) * (dv * crate::arith::pow10(kk) * pow2(a)) == pow5(a) * frac) by (nonlinear_arith)
                requires
                    dv * crate::arith::pow10(z) == frac * pow5(a),
                    crate::arith::pow10(z) == crate::arith::pow10(kk) * crate::arith::pow10(a),
                    crate::arith::pow10(a) == pow5(a) * pow2(a),
            ;
            vstd::arithmetic::mul::lemma_mul_equality_converse(
                pow5(a) as int,
                (dv * crate::arith::pow10(kk) * pow2(a)) as int,
                frac as int,
            );
            assert(crate::arith::pow10(0) == 1);
            vstd::arithmetic::mul::lemma_mul_basics(frac as int);
            vstd::arithmetic::mul::lemma_mul_basics((frac * pow2(0)) as int);
        } else {
            let kk = (-k) as nat;
            crate::arith::lemma_pow10_add(z, kk);
            assert(z + kk == a);
            assert(pow5(a) * (dv * pow2(a)) == pow5(a) * (frac * crate::arith::pow10(kk))) by (nonlinear_arith)
                requires
                    dv * crate::arith::pow10(z) == frac * pow5(a),
                    crate::arith::pow10(a) == crate::arith::pow10(z) * crate::arith::pow10(kk),
                    crate::arith::pow10(a) == pow5(a) * pow2(a),
            ;
            vstd::arithmetic::mul::lemma_mul_equality_converse(
                pow5(a) as int,
                (dv * pow2(a)) as int,
                (frac * crate::arith::pow10(kk)) as int,
            );
            assert(crate::arith::pow10(0) == 1);
            vstd::arithmetic::mul::lemma_mul_basics(dv as int);
            vstd::arithmetic::mul::lemma_mul_basics(frac as int);
        }
    }
}

/// A digit string with a nonzero first digit does not strip away to nothing.
proof fn lemma_strip_keeps_nonzero(s: Seq<char>)
    requires
        s.len() >= 1,
        s[0] != '0',
    ensures
        strip_trailing_zeros(s).len() >= 1,
    decreases s.len(),
{
    if s.len() > 1 && s.last() == '0' {
        lemma_strip_keeps_nonzero(s.drop_last());
    }
}

} // verus!
