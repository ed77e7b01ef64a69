//! Raw bit-pattern literals: `0x` for hexadecimal, otherwise binary with an optional `0b`.
//!
//! Surrounding white space is ignored and `_` separators may stand anywhere. The digits are read
//! as an unsigned 64-bit integer, with an optional leading `+`.

use vstd::prelude::*;
use crate::text::{str_trim, trimmed};
use vstd::utf8::encode_utf8;

verus! {

/// `b` without its `_` bytes.
pub open spec fn without_underscores(b: Seq<u8>) -> Seq<u8>
    decreases b.len(),
{
    if b.len() == 0 {
        b
    } else if b.last() == 95 {
        without_underscores(b.drop_last())
    } else {
        without_underscores(b.drop_last()).push(b.last())
    }
}

/// The value of a digit byte in base `radix` (2 or 16), if it is one.
pub open spec fn digit_in(c: u8, radix: nat) -> Option<nat> {
    if 48 <= c <= 57 && (c - 48) < radix {
        Some((c - 48) as nat)
    } else if radix == 16 && 97 <= c <= 102 {
        Some((c - 87) as nat)
    } else if radix == 16 && 65 <= c <= 70 {
        Some((c - 55) as nat)
    } else {
        None
    }
}

/// The digits of `s` read in base `radix`, if every byte is one.
pub open spec fn radix_value(s: Seq<u8>, radix: nat) -> Option<nat>
    decreases s.len(),
{
    if s.len() == 0 {
        Some(0)
    } else {
        match (radix_value(s.drop_last(), radix), digit_in(s.last(), radix)) {
            (Some(v), Some(d)) => Some(v * radix + d),
            _ => None,
        }
    }
}

/// The byte of a hexadecimal digit below sixteen, lower case.
pub open spec fn hex_byte(d: nat) -> u8 {
    if d < 10 {
        (48 + d) as u8
    } else {
        (87 + d) as u8
    }
}

/// The hexadecimal numeral of `v`, lower case, without leading zeros.
pub open spec fn hex_numeral(v: nat) -> Seq<u8>
    decreases v,
{
    if v < 16 {
        seq![hex_byte(v)]
    } else {
        hex_numeral(v / 16).push(hex_byte(v % 16))
    }
}

/// The binary numeral of `v`, without leading zeros.
pub open spec fn bin_numeral(v: nat) -> Seq<u8>
    decreases v,
{
    if v < 2 {
        seq![(48 + v) as u8]
    } else {
        bin_numeral(v / 2).push((48 + v % 2) as u8)
    }
}

/// Reading a numeral digit by digit after the digits before it.
proof fn lemma_radix_push(s: Seq<u8>, c: u8, radix: nat)
    ensures
        radix_value(s.push(c), radix) == match (radix_value(s, radix), digit_in(c, radix)) {
            (Some(v), Some(d)) => Some(v * radix + d),
            _ => None,
        },
{
    assert(s.push(c).drop_last() =~= s);
}

/// A hexadecimal numeral is read as its value: the digits `0`–`9` count zero to nine and `a`–`f`
/// ten to fifteen, in either case.
pub proof fn lemma_hex_numeral_value(v: nat)
    ensures
        radix_value(hex_numeral(v), 16) == Some(v),
        forall|c: u8| 97 <= c <= 102 ==> digit_in(c, 16) == Some((c - 97 + 10) as nat),
        forall|c: u8| 97 <= c <= 102 ==> #[trigger] digit_in((c - 32) as u8, 16) == digit_in(c, 16),
    decreases v,
{
    if v < 16 {
        lemma_radix_push(Seq::empty(), hex_byte(v), 16);
        assert(seq![hex_byte(v)] =~= Seq::<u8>::empty().push(hex_byte(v)));
    } else {
        lemma_hex_numeral_value(v / 16);
        lemma_radix_push(hex_numeral(v / 16), hex_byte(v % 16), 16);
        assert(v == (v / 16) * 16 + v % 16);
    }
}

/// A binary numeral is read as its value.
pub proof fn lemma_bin_numeral_value(v: nat)
    ensures
        radix_value(bin_numeral(v), 2) == Some(v),
    decreases v,
{
    if v < 2 {
        lemma_radix_push(Seq::empty(), (48 + v) as u8, 2);
        assert(seq![(48 + v) as u8] =~= Seq::<u8>::empty().push((48 + v) as u8));
    } else {
        lemma_bin_numeral_value(v / 2);
        lemma_radix_push(bin_numeral(v / 2), (48 + v % 2) as u8, 2);
        assert(v == (v / 2) * 2 + v % 2);
    }
}

/// Every byte of a numeral is a digit: `0`–`9` or `a`–`f`.
proof fn lemma_numeral_bytes(v: nat)
    ensures
        hex_numeral(v).len() > 0,
        forall|i: int| 0 <= i < hex_numeral(v).len() ==> {
            let c = #[trigger] hex_numeral(v)[i];
            (48 <= c <= 57) || (97 <= c <= 102)
        },
        bin_numeral(v).len() > 0,
        forall|i: int| 0 <= i < bin_numeral(v).len() ==> 48 <= #[trigger] bin_numeral(v)[i] <= 49,
    decreases v,
{
    if v >= 16 {
        lemma_numeral_bytes(v / 16);
    }
    if v >= 2 {
        lemma_numeral_bytes(v / 2);
    }
}

/// Bytes without an `_` are their own underscore-free form.
proof fn lemma_no_underscores(b: Seq<u8>)
    requires
        forall|i: int| 0 <= i < b.len() ==> b[i] != 95,
    ensures
        without_underscores(b) == b,
    decreases b.len(),
{
    if b.len() > 0 {
        lemma_no_underscores(b.drop_last());
        assert(b.drop_last().push(b.last()) =~= b);
    }
}

/// The literal `0x` followed by the hexadecimal numeral of a 64-bit value reads as that value,
/// and so does `0b` followed by its binary numeral.
pub proof fn lemma_bit_literal_of_numeral(v: nat)
    requires
        v <= u64::MAX,
    ensures
        bit_literal_value(seq![48u8, 120u8] + hex_numeral(v)) == Some(v),
        bit_literal_value(seq![48u8, 98u8] + bin_numeral(v)) == Some(v),
{
    lemma_numeral_bytes(v);
    lemma_hex_numeral_value(v);
    lemma_bin_numeral_value(v);
    let h = seq![48u8, 120u8] + hex_numeral(v);
    let b = seq![48u8, 98u8] + bin_numeral(v);
    assert forall|i: int| 0 <= i < h.len() implies h[i] != 95 by {
        if i >= 2 {
            assert(h[i] == hex_numeral(v)[i - 2]);
        }
    }
    assert forall|i: int| 0 <= i < b.len() implies b[i] != 95 by {
        if i >= 2 {
            assert(b[i] == bin_numeral(v)[i - 2]);
        }
    }
    lemma_no_underscores(h);
    lemma_no_underscores(b);
    assert(h.skip(2) =~= hex_numeral(v));
    assert(b.skip(2) =~= bin_numeral(v));
    assert(hex_numeral(v)[0] != 43);
    assert(bin_numeral(v)[0] != 43);
}

/// An unsigned 64-bit integer in base `radix`: an optional `+`, then one or more digits, within
/// range.
pub open spec fn u64_in_radix(s: Seq<u8>, radix: nat) -> Option<nat> {
    let body = if s.len() > 0 && s[0] == 43 { s.skip(1) } else { s };
    if body.len() == 0 {
        None
    } else {
        match radix_value(body, radix) {
            Some(v) => if v <= u64::MAX { Some(v) } else { None },
            None => None,
        }
    }
}

/// Whether the bytes start with `0` and then one of `x`, `X`, `b`, `B`.
pub open spec fn has_prefix(b: Seq<u8>, lower: u8, upper: u8) -> bool {
    b.len() >= 2 && b[0] == 48 && (b[1] == lower || b[1] == upper)
}

/// The value of a bit-pattern literal given as the bytes of its trimmed text.
pub open spec fn bit_literal_value(b: Seq<u8>) -> Option<nat> {
    let t = without_underscores(b);
    if has_prefix(t, 120, 88) {
        u64_in_radix(t.skip(2), 16)
    } else if has_prefix(t, 98, 66) {
        u64_in_radix(t.skip(2), 2)
    } else {
        u64_in_radix(t, 2)
    }
}

/// The bytes of `s` with white space trimmed.
fn trimmed_bytes(s: &str) -> (b: &[u8])
    ensures
        b@ == encode_utf8(trimmed(s@)),
{
    str_trim(s).as_bytes()
}

/// Whether a literal is a raw bit pattern rather than a decimal number.
pub fn is_bit_literal(s: &str) -> (r: bool)
    ensures
        ({
            let b = encode_utf8(trimmed(s@));
            r == (has_prefix(b, 120, 88) || has_prefix(b, 98, 66))
        }),
{
    let b = trimmed_bytes(s);
    b.len() >= 2 && b[0] == 48u8 && (b[1] == 120u8 || b[1] == 88u8 || b[1] == 98u8 || b[1] == 66u8)
}

/// Copy `b` without its `_` bytes.
fn drop_underscores(b: &[u8]) -> (v: Vec<u8>)
    ensures
        v@ == without_underscores(b@),
{
    let mut v: Vec<u8> = Vec::new();
    let mut i: usize = 0;
    while i < b.len()
        invariant
            i <= b@.len(),
            v@ == without_underscores(b@.take(i as int)),
        decreases b@.len() - i,
    {
        let c = b[i];
        proof {
            assert(b@.take(i + 1).drop_last() =~= b@.take(i as int));
        }
        if c != 95u8 {
            v.push(c);
        }
        i = i + 1;
    }
    assert(b@.take(i as int) =~= b@);
    v
}

/// The value of a digit byte in base 2 or 16.
fn digit_value(c: u8, radix: u64) -> (r: Option<u64>)
    requires
        radix == 2 || radix == 16,
    ensures
        match digit_in(c, radix as nat) {
            Some(d) => r == Some(d as u64),
            None => r is None,
        },
{
    if 48u8 <= c && c <= 57u8 && ((c - 48u8) as u64) < radix {
        Some((c - 48u8) as u64)
    } else if radix == 16 && 97u8 <= c && c <= 102u8 {
        Some((c - 87u8) as u64)
    } else if radix == 16 && 65u8 <= c && c <= 70u8 {
        Some((c - 55u8) as u64)
    } else {
        None
    }
}

/// Once a prefix is out of range, so is every extension of it with valid digits.
proof fn lemma_radix_grows(s: Seq<u8>, k: nat, radix: nat)
    requires
        radix == 2 || radix == 16,
        k <= s.len(),
        radix_value(s.take(k as int), radix) is Some,
    ensures
        radix_value(s, radix) is Some ==> radix_value(s, radix)->0 >= radix_value(s.take(k as int), radix)->0,
    decreases s.len() - k,
{
    if k < s.len() {
        let t = s.take(k + 1int);
        assert(t.drop_last() =~= s.take(k as int));
        if radix_value(t, radix) is Some {
            lemma_radix_grows(s, k + 1, radix);
        } else {
            lemma_radix_none(s, k + 1, radix);
        }
    } else {
        assert(s.take(k as int) =~= s);
    }
}

/// A prefix with a bad digit spoils the whole.
proof fn lemma_radix_none(s: Seq<u8>, k: nat, radix: nat)
    requires
        k <= s.len(),
        radix_value(s.take(k as int), radix) is None,
    ensures
        radix_value(s, radix) is None,
    decreases s.len() - k,
{
    if k < s.len() {
        let t = s.take(k + 1int);
        assert(t.drop_last() =~= s.take(k as int));
        lemma_radix_none(s, k + 1, radix);
    } else {
        assert(s.take(k as int) =~= s);
    }
}

/// Parse `b[from..]` as an unsigned 64-bit integer in base 2 or 16.
fn parse_u64(b: &Vec<u8>, from: usize, radix: u64) -> (r: Option<u64>)
    requires
        from <= b@.len(),
        radix == 2 || radix == 16,
    ensures
        match u64_in_radix(b@.skip(from as int), radix as nat) {
            Some(v) => r == Some(v as u64),
            None => r is None,
        },
{
    let ghost s = b@.skip(from as int);
    let n = b.len();
    if from == n {
        return None;
    }
    let start = if b[from] == 43u8 { from + 1 } else { from };
    let ghost body = if s.len() > 0 && s[0] == 43 { s.skip(1) } else { s };
    assert(body =~= b@.subrange(start as int, n as int));
    if start == n {
        return None;
    }
    let mut v: u64 = 0;
    let mut i = start;
    while i < n
        invariant
            start <= i <= n == b@.len(),
            start < n,
            from < n,
            radix == 2 || radix == 16,
            s == b@.skip(from as int),
            s.len() > 0,
            body == (if s.len() > 0 && s[0] == 43 { s.skip(1) } else { s }),
            body == b@.subrange(start as int, n as int),
            radix_value(body.take((i - start) as int), radix as nat) == Some(v as nat),
        decreases n - i,
    {
        let ghost pre = body.take((i - start) as int);
        let ghost next = body.take((i - start + 1) as int);
        assert(next.drop_last() =~= pre);
        assert(next.last() == b@[i as int]);
        match digit_value(b[i], radix) {
            None => {
                proof {
                    lemma_radix_none(body, (i - start + 1) as nat, radix as nat);
                }
                return None;
            },
            Some(d) => {
                match v.checked_mul(radix) {
                    None => {
                        proof {
                            lemma_radix_grows(body, (i - start + 1) as nat, radix as nat);
                        }
                        return None;
                    },
                    Some(w) => match w.checked_add(d) {
                        None => {
                            proof {
                                lemma_radix_grows(body, (i - start + 1) as nat, radix as nat);
                            }
                            return None;
                        },
                        Some(x) => {
                            v = x;
                        },
                    },
                }
            },
        }
        i = i + 1;
    }
    assert(body.take((i - start) as int) =~= body);
    Some(v)
}

/// Parse `0x…` as hex, anything else as binary.
pub fn parse_bit_literal(s: &str) -> (r: Option<u64>)
    ensures
        match bit_literal_value(encode_utf8(trimmed(s@))) {
            Some(v) => r == Some(v as u64),
            None => r is None,
        },
{
    let b = trimmed_bytes(s);
    let t = drop_underscores(b);
    if t.len() >= 2 && t[0] == 48u8 && (t[1] == 120u8 || t[1] == 88u8) {
        parse_u64(&t, 2, 16)
    } else if t.len() >= 2 && t[0] == 48u8 && (t[1] == 98u8 || t[1] == 66u8) {
        parse_u64(&t, 2, 2)
    } else {
        assert(t@.skip(0) =~= t@);
        parse_u64(&t, 0, 2)
    }
}

} // verus!
