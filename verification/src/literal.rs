//! The grammar of a decimal literal, read from its bytes.
//!
//! A literal is an optional sign, a mantissa of digits with at most one point and any number of
//! `_` separators, and an optional exponent after `e` or `E` written as a signed 32-bit integer.
//! An exponent marker with nothing after it stands for exponent zero.

use vstd::prelude::*;
use crate::bignum::Big;
use crate::arith::pow10;
use crate::digits::{all_digits, digits_num};

verus! {

pub open spec fn is_digit(c: u8) -> bool {
    48 <= c <= 57
}

/// The digits of `s`, read in order as one decimal integer; other bytes are skipped.
pub open spec fn digits_value(s: Seq<u8>) -> nat
    decreases s.len(),
{
    if s.len() == 0 {
        0
    } else if is_digit(s.last()) {
        10 * digits_value(s.drop_last()) + (s.last() - 48) as nat
    } else {
        digits_value(s.drop_last())
    }
}

/// How many bytes of `s` are digits.
pub open spec fn count_digits(s: Seq<u8>) -> nat
    decreases s.len(),
{
    if s.len() == 0 {
        0
    } else {
        count_digits(s.drop_last()) + if is_digit(s.last()) { 1nat } else { 0nat }
    }
}

/// How many bytes of `s` are a decimal point.
pub open spec fn count_points(s: Seq<u8>) -> nat
    decreases s.len(),
{
    if s.len() == 0 {
        0
    } else {
        count_points(s.drop_last()) + if s.last() == 46 { 1nat } else { 0nat }
    }
}

/// How many digits follow the last point of `s` (all of them when there is none).
pub open spec fn digits_after_point(s: Seq<u8>) -> nat
    decreases s.len(),
{
    if s.len() == 0 {
        0
    } else if s.last() == 46 {
        0
    } else if is_digit(s.last()) {
        1 + digits_after_point(s.drop_last())
    } else {
        digits_after_point(s.drop_last())
    }
}

/// The number of fraction digits of a mantissa.
pub open spec fn fraction_digits(s: Seq<u8>) -> nat {
    if count_points(s) == 0 {
        0
    } else {
        digits_after_point(s)
    }
}

/// Digits, at most one point and `_` separators, with at least one digit.
pub open spec fn mantissa_ok(s: Seq<u8>) -> bool {
    &&& forall|i: int| 0 <= i < s.len() ==> is_digit(#[trigger] s[i]) || s[i] == 46 || s[i] == 95
    &&& count_points(s) <= 1
    &&& count_digits(s) >= 1
}

/// The first position at or after `i` that holds `e` or `E`, or the length when none does.
pub open spec fn exponent_marker(s: Seq<u8>, i: int) -> int
    decreases s.len() - i,
{
    if i >= s.len() {
        s.len() as int
    } else if s[i] == 101 || s[i] == 69 {
        i
    } else {
        exponent_marker(s, i + 1)
    }
}

/// Every byte of `t` is a digit.
pub open spec fn all_digit_bytes(t: Seq<u8>) -> bool {
    forall|i: int| 0 <= i < t.len() ==> is_digit(#[trigger] t[i])
}

/// `s` without its leading sign, if it has one.
pub open spec fn unsigned_part(s: Seq<u8>) -> Seq<u8> {
    if s.len() > 0 && (s[0] == 45 || s[0] == 43) {
        s.skip(1)
    } else {
        s
    }
}

/// A signed 32-bit integer literal: an optional sign and one or more digits, within range.
pub open spec fn i32_literal(s: Seq<u8>) -> Option<int> {
    let body = unsigned_part(s);
    if body.len() == 0 || !all_digit_bytes(body) {
        None
    } else {
        let v: int = if s[0] == 45 { -digits_value(body) } else { digits_value(body) as int };
        if i32::MIN <= v <= i32::MAX {
            Some(v)
        } else {
            None
        }
    }
}

/// A decimal literal read as its sign, its digits as one integer `m`, and the power of ten `q`
/// they are scaled by, so that its value is `±m × 10^q`; `None` when the bytes are not a literal,
/// or when `q` would fall below the 32-bit range.
pub open spec fn decimal_literal(b: Seq<u8>) -> Option<(bool, nat, int)> {
    if b.len() == 0 {
        None
    } else {
        let rest = if b[0] == 45 || b[0] == 43 { b.skip(1) } else { b };
        let i = exponent_marker(rest, 0);
        let num = rest.take(i);
        let exp = if i + 1 < rest.len() { i32_literal(rest.skip(i + 1)) } else { Some(0int) };
        match exp {
            None => None,
            Some(e) => {
                if !mantissa_ok(num) {
                    None
                } else {
                    let q = e - fraction_digits(num);
                    if q < i32::MIN {
                        None
                    } else {
                        Some((b[0] == 45, digits_value(num), q))
                    }
                }
            },
        }
    }
}

/// An exponent is its signed integer value: a `+` sign changes nothing, and the value is
/// negative only when written with a `-`.
pub proof fn lemma_exponent_sign(s: Seq<u8>, t: Seq<u8>)
    requires
        t.len() > 0,
        all_digit_bytes(t),
    ensures
        i32_literal(seq![43u8] + t) == i32_literal(t),
        i32_literal(t) matches Some(v) ==> v == digits_value(t),
        i32_literal(s) matches Some(v) ==> (v < 0 ==> s[0] == 45),
{
    let p = seq![43u8] + t;
    assert(p.skip(1) =~= t);
    assert(is_digit(t[0]));
}

/// The first exponent marker found from `i` is at `p` when none lies between.
proof fn lemma_marker_at(s: Seq<u8>, i: int, p: int)
    requires
        0 <= i <= p < s.len(),
        s[p] == 101,
        forall|j: int| i <= j < p ==> s[j] != 101 && s[j] != 69,
    ensures
        exponent_marker(s, i) == p,
    decreases p - i,
{
    if i < p {
        lemma_marker_at(s, i + 1, p);
    }
}

/// A literal with an explicit `+` on its exponent denotes the same number as without it:
/// `m e+k` reads as `m e k`.
pub proof fn lemma_exponent_plus(m: Seq<u8>, k: Seq<u8>)
    requires
        m.len() > 0,
        forall|j: int| 0 <= j < m.len() ==> m[j] != 101 && m[j] != 69,
        k.len() > 0,
        all_digit_bytes(k),
    ensures
        decimal_literal(m + seq![101u8, 43u8] + k) == decimal_literal(m + seq![101u8] + k),
{
    let b1 = m + seq![101u8, 43u8] + k;
    let b2 = m + seq![101u8] + k;
    assert(b1[0] == m[0] && b2[0] == m[0]);
    let s0: int = if m[0] == 45 || m[0] == 43 { 1 } else { 0 };
    let mr = m.skip(s0);
    let r1 = if b1[0] == 45 || b1[0] == 43 { b1.skip(1) } else { b1 };
    let r2 = if b2[0] == 45 || b2[0] == 43 { b2.skip(1) } else { b2 };
    assert(r1 =~= mr + seq![101u8, 43u8] + k);
    assert(r2 =~= mr + seq![101u8] + k);
    let p = mr.len() as int;
    lemma_marker_at(r1, 0, p);
    lemma_marker_at(r2, 0, p);
    assert(r1.take(p) =~= mr);
    assert(r2.take(p) =~= mr);
    assert(r1.skip(p + 1) =~= seq![43u8] + k);
    assert(r2.skip(p + 1) =~= k);
    lemma_exponent_sign(seq![43u8] + k, k);
}

/// A literal whose body is not all digits, or whose value is out of range, is rejected.
proof fn lemma_i32_literal_rejects(s: Seq<u8>, body: Seq<u8>)
    requires
        s.len() > 0,
        body == (if s[0] == 45 || s[0] == 43 { s.skip(1) } else { s }),
        !(forall|k: int| 0 <= k < body.len() ==> is_digit(#[trigger] body[k])) || digits_value(body) > 0x8000_0000,
    ensures
        i32_literal(s) is None,
{
}

proof fn lemma_push_last(s: Seq<u8>, c: u8)
    ensures
        s.push(c).drop_last() == s,
        s.push(c).last() == c,
{
    assert(s.push(c).drop_last() =~= s);
}

/// The value of a run of digits grows with each digit.
proof fn lemma_digits_grow(s: Seq<u8>, c: u8)
    requires
        is_digit(c),
    ensures
        digits_value(s.push(c)) == 10 * digits_value(s) + (c - 48) as nat,
        digits_value(s.push(c)) >= digits_value(s),
{
    lemma_push_last(s, c);
}

/// Parse `b[from..to]` as a signed 32-bit integer.
fn parse_i32(b: &[u8], from: usize, to: usize) -> (r: Option<i32>)
    requires
        from < to <= b@.len(),
    ensures
        match i32_literal(b@.subrange(from as int, to as int)) {
            None => r is None,
            Some(v) => r == Some(v as i32),
        },
{
    let ghost s = b@.subrange(from as int, to as int);
    let minus = b[from] == 45u8;
    let start = if b[from] == 45u8 || b[from] == 43u8 { from + 1 } else { from };
    let ghost body = if b[from as int] == 45 || b[from as int] == 43 { s.skip(1) } else { s };
    assert(body =~= b@.subrange(start as int, to as int));
    if start == to {
        return None;
    }
    let mut v: i64 = 0;
    let mut i = start;
    while i < to
        invariant
            start <= i <= to <= b@.len(),
            start < to,
            from < to,
            s == b@.subrange(from as int, to as int),
            minus == (b@[from as int] == 45),
            start == (if b@[from as int] == 45 || b@[from as int] == 43 { from + 1 } else { from as int }),
            body == (if b@[from as int] == 45 || b@[from as int] == 43 { s.skip(1) } else { s }),
            body == b@.subrange(start as int, to as int),
            v == digits_value(b@.subrange(start as int, i as int)),
            v <= 0x8000_0000,
            forall|j: int| start <= j < i ==> is_digit(#[trigger] b@[j]),
        decreases to - i,
    {
        let c = b[i];
        if c < 48u8 || c > 57u8 {
            proof {
                assert(s[0] == b@[from as int]);
                assert(body[i - start] == c);
                assert(!is_digit(body[i - start]));
                assert(s.len() > 0);
                assert((if s.len() > 0 && (s[0] == 45 || s[0] == 43) { s.skip(1) } else { s }) == body);
                assert(!(forall|k: int| 0 <= k < body.len() ==> is_digit(#[trigger] body[k])));
                lemma_i32_literal_rejects(s, body);
            }
            return None;
        }
        proof {
            assert(b@.subrange(start as int, i + 1) =~= b@.subrange(start as int, i as int).push(c));
            lemma_digits_grow(b@.subrange(start as int, i as int), c);
        }
        v = v * 10 + (c - 48u8) as i64;
        i = i + 1;
        if v > 0x8000_0000 {
            proof {
                if forall|j: int| 0 <= j < body.len() ==> is_digit(#[trigger] body[j]) {
                    assert forall|j: int| (i - start) <= j < body.len() implies is_digit(#[trigger] body[j]) by {
                    }
                    lemma_digits_monotone(body, (i - start) as nat);
                    assert(body.take((i - start) as int) =~= b@.subrange(start as int, i as int));
                    assert(digits_value(body) > 0x8000_0000);
                }
                assert(s[0] == b@[from as int]);
                assert(s.len() > 0);
                assert((if s.len() > 0 && (s[0] == 45 || s[0] == 43) { s.skip(1) } else { s }) == body);
                lemma_i32_literal_rejects(s, body);
            }
            return None;
        }
    }
    assert(b@.subrange(start as int, i as int) =~= body);
    assert forall|j: int| 0 <= j < body.len() implies is_digit(#[trigger] body[j]) by {
        assert(body[j] == b@[start + j]);
    }
    if minus {
        Some((0 - v) as i32)
    } else if v > 0x7fff_ffff {
        None
    } else {
        Some(v as i32)
    }
}

/// A prefix of the digits has a value no greater than the whole.
proof fn lemma_digits_monotone(s: Seq<u8>, k: nat)
    requires
        k <= s.len(),
        forall|j: int| k <= j < s.len() ==> is_digit(#[trigger] s[j]),
    ensures
        digits_value(s.take(k as int)) <= digits_value(s),
    decreases s.len() - k,
{
    if k < s.len() {
        lemma_digits_monotone(s, k + 1);
        assert(s.take(k + 1int) =~= s.take(k as int).push(s[k as int]));
        lemma_digits_grow(s.take(k as int), s[k as int]);
    } else {
        assert(s.take(k as int) =~= s);
    }
}

/// Read a decimal literal: its sign, its digits as one integer, and the power of ten they are
/// scaled by.
pub fn parse_literal(b: &[u8]) -> (r: Option<(bool, Big, i32)>)
    ensures
        match decimal_literal(b@) {
            None => r is None,
            Some((neg, m, q)) => match r {
                Some((neg2, m2, q2)) => neg2 == neg && m2.wf() && m2@ == m && q2 as int == q,
                None => false,
            },
        },
{
    let n = b.len();
    if n == 0 {
        return None;
    }
    let neg = b[0] == 45u8;
    let start: usize = if b[0] == 45u8 || b[0] == 43u8 { 1 } else { 0 };
    let ghost rest = if b@[0] == 45 || b@[0] == 43 { b@.skip(1) } else { b@ };
    assert(rest =~= b@.subrange(start as int, n as int));

    // Split off an exponent suffix.
    let mut i = start;
    while i < n && b[i] != 101u8 && b[i] != 69u8
        invariant
            start <= i <= n == b@.len(),
            rest == b@.subrange(start as int, n as int),
            exponent_marker(rest, (i - start) as int) == exponent_marker(rest, 0),
        decreases n - i,
    {
        i = i + 1;
    }
    assert(exponent_marker(rest, 0) == (i - start) as int);
    let ghost num = rest.take((i - start) as int);
    assert(num =~= b@.subrange(start as int, i as int));
    let exp: i32 = if i < n - 1 {
        assert(rest.skip((i - start) + 1) =~= b@.subrange(i + 1, n as int));
        match parse_i32(b, i + 1, n) {
            Some(e) => e,
            None => {
                return None;
            },
        }
    } else {
        0
    };

    // Accumulate the digits, tracking how far the point moved.
    let scanned = scan_mantissa(b, start, i, exp);
    match scanned {
        None => None,
        Some((mantissa, exp10)) => Some((neg, mantissa, exp10)),
    }
}

/// Read the mantissa `b[start..end]`: its digits as one integer, and `exp` lowered by the number
/// of fraction digits.
fn scan_mantissa(b: &[u8], start: usize, end: usize, exp: i32) -> (r: Option<(Big, i32)>)
    requires
        start <= end <= b@.len(),
    ensures
        ({
            let num = b@.subrange(start as int, end as int);
            if mantissa_ok(num) && exp - fraction_digits(num) >= i32::MIN {
                match r {
                    Some((m, q)) => m.wf() && m@ == digits_value(num) && q as int == exp - fraction_digits(num),
                    None => false,
                }
            } else {
                r is None
            }
        }),
{
    let ghost num = b@.subrange(start as int, end as int);
    let mut mantissa = Big::from_u64(0);
    let mut seen_digit = false;
    let mut seen_point = false;
    let mut exp10: i32 = exp;
    let mut j = start;
    while j < end
        invariant
            start <= j <= end <= b@.len(),
            num == b@.subrange(start as int, end as int),
            mantissa.wf(),
            mantissa@ == digits_value(b@.subrange(start as int, j as int)),
            seen_digit == (count_digits(b@.subrange(start as int, j as int)) >= 1),
            seen_point == (count_points(b@.subrange(start as int, j as int)) == 1),
            count_points(b@.subrange(start as int, j as int)) <= 1,
            forall|k: int| start <= k < j ==> is_digit(#[trigger] b@[k]) || b@[k] == 46 || b@[k] == 95,
            exp10 as int == exp as int - fraction_digits(b@.subrange(start as int, j as int)),
        decreases end - j,
    {
        let c = b[j];
        let ghost pre = b@.subrange(start as int, j as int);
        proof {
            assert(b@.subrange(start as int, j + 1) =~= pre.push(c));
            lemma_push_last(pre, c);
        }
        if c == 46u8 {
            if seen_point {
                proof {
                    lemma_points_stay(num, (j + 1 - start) as nat);
                    assert(num.take((j + 1 - start) as int) =~= pre.push(c));
                }
                return None;
            }
            seen_point = true;
        } else if 48u8 <= c && c <= 57u8 {
            seen_digit = true;
            mantissa.mul_u32(10);
            mantissa.add_u32((c - 48u8) as u32);
            if seen_point {
                if exp10 == i32::MIN {
                    proof {
                        assert(num.take((j + 1 - start) as int) =~= pre.push(c));
                        lemma_fraction_grows(num, (j + 1 - start) as nat);
                    }
                    return None;
                }
                exp10 = exp10 - 1;
            }
        } else if c == 95u8 {
        } else {
            proof {
                assert(num[j - start] == c);
            }
            return None;
        }
        j = j + 1;
    }
    assert(b@.subrange(start as int, j as int) =~= num);
    if !seen_digit {
        return None;
    }
    Some((mantissa, exp10))
}

/// Once a second point is among the first `k` bytes, there are two points in all.
proof fn lemma_points_stay(s: Seq<u8>, k: nat)
    requires
        k <= s.len(),
    ensures
        count_points(s.take(k as int)) <= count_points(s),
    decreases s.len() - k,
{
    if k < s.len() {
        lemma_points_stay(s, k + 1);
        assert(s.take(k + 1int) =~= s.take(k as int).push(s[k as int]));
        lemma_push_last(s.take(k as int), s[k as int]);
    } else {
        assert(s.take(k as int) =~= s);
    }
}

/// Once a point has been read, the fraction digits only grow.
proof fn lemma_fraction_grows(s: Seq<u8>, k: nat)
    requires
        k <= s.len(),
        count_points(s.take(k as int)) >= 1,
    ensures
        fraction_digits(s.take(k as int)) <= fraction_digits(s) || count_points(s) > 1,
    decreases s.len() - k,
{
    if k < s.len() {
        let t = s.take(k as int);
        assert(s.take(k + 1int) =~= t.push(s[k as int]));
        lemma_push_last(t, s[k as int]);
        lemma_points_stay(s, k + 1);
        if s[k as int] != 46 {
            lemma_fraction_grows(s, k + 1);
        } else {
            lemma_points_stay(s, k + 1);
        }
    } else {
        assert(s.take(k as int) =~= s);
    }
}


/// Reading and counting digits distribute over concatenation.
pub proof fn lemma_literal_concat(a: Seq<u8>, b: Seq<u8>)
    ensures
        digits_value(a + b) == digits_value(a) * pow10(count_digits(b)) + digits_value(b),
        count_digits(a + b) == count_digits(a) + count_digits(b),
        count_points(a + b) == count_points(a) + count_points(b),
        count_points(b) == 0 ==> digits_after_point(a + b) == digits_after_point(a) + count_digits(b),
    decreases b.len(),
{
    if b.len() == 0 {
        assert(a + b =~= a);
        assert(pow10(0) == 1);
        vstd::arithmetic::mul::lemma_mul_basics(digits_value(a) as int);
    } else {
        let b1 = b.drop_last();
        let c = b.last();
        assert((a + b).drop_last() =~= a + b1);
        assert((a + b).last() == c);
        lemma_literal_concat(a, b1);
        if is_digit(c) {
            let k = count_digits(b1);
            assert(pow10(k + 1) == 10 * pow10(k));
            let va = digits_value(a);
            let vb = digits_value(b1);
            assert(10 * (va * pow10(k) + vb) + (c - 48) as nat == va * pow10(k + 1) + (10 * vb + (c - 48) as nat))
                by (nonlinear_arith)
                requires pow10(k + 1) == 10 * pow10(k);
        }
    }
}

/// The bytes of a string of ASCII characters.
pub open spec fn ascii_bytes(s: Seq<char>) -> Seq<u8> {
    Seq::new(s.len(), |i: int| s[i] as u8)
}

/// The bytes of decimal digits read as a literal's digits.
pub proof fn lemma_digit_bytes(d: Seq<char>)
    requires
        all_digits(d),
    ensures
        digits_value(ascii_bytes(d)) == digits_num(d),
        count_digits(ascii_bytes(d)) == d.len(),
        count_points(ascii_bytes(d)) == 0,
        forall|i: int| 0 <= i < d.len() ==> is_digit(#[trigger] ascii_bytes(d)[i]),
    decreases d.len(),
{
    if d.len() > 0 {
        let d1 = d.drop_last();
        assert(ascii_bytes(d).drop_last() =~= ascii_bytes(d1));
        lemma_digit_bytes(d1);
        let c = d.last();
        assert('0' <= d[d.len() - 1] <= '9');
        assert((c as u8) as nat == c as nat);
    }
}

} // verus!
