//! Decimal digit strings of natural numbers.

use vstd::prelude::*;
use vstd::arithmetic::div_mod::{
    lemma_div_denominator, lemma_fundamental_div_mod, lemma_fundamental_div_mod_converse,
};
use vstd::arithmetic::mul::lemma_mul_basics;
use crate::arith::{lemma_pow10_add, lemma_pow10_pos, pow10};
use crate::text::push_char;

verus! {

/// The character of a decimal digit.
pub open spec fn digit_char(d: nat) -> char {
    (48 + d) as char
}

/// Decimal digits of `v`, most significant first, with no leading zero (`"0"` for zero).
pub open spec fn dec_digits(v: nat) -> Seq<char>
    decreases v,
{
    if v < 10 {
        seq![digit_char(v)]
    } else {
        dec_digits(v / 10).push(digit_char(v % 10))
    }
}

/// The low `w` decimal digits of `v`, zero-padded on the left.
pub open spec fn fixed_digits(v: nat, w: nat) -> Seq<char>
    decreases w,
{
    if w == 0 {
        Seq::empty()
    } else {
        fixed_digits(v / 10, (w - 1) as nat).push(digit_char(v % 10))
    }
}

/// Whether every character is a decimal digit.
pub open spec fn all_digits(s: Seq<char>) -> bool {
    forall|i: int| 0 <= i < s.len() ==> '0' <= #[trigger] s[i] <= '9'
}

/// The number a string of decimal digits spells, most significant first.
pub open spec fn digits_num(s: Seq<char>) -> nat
    decreases s.len(),
{
    if s.len() == 0 {
        0
    } else {
        10 * digits_num(s.drop_last()) + (s.last() as nat - 48) as nat
    }
}

/// The digits of `v` spell `v`.
pub proof fn lemma_digits_num_dec(v: nat)
    ensures
        digits_num(dec_digits(v)) == v,
    decreases v,
{
    if v < 10 {
        assert(dec_digits(v).drop_last() =~= Seq::<char>::empty());
        assert(digit_char(v) as nat == 48 + v);
        assert(dec_digits(v).last() == digit_char(v));
        assert(digits_num(Seq::<char>::empty()) == 0);
        assert(digits_num(dec_digits(v)) == 10 * digits_num(dec_digits(v).drop_last()) + (dec_digits(v).last() as nat - 48) as nat);
    } else {
        lemma_digits_num_dec(v / 10);
        lemma_fundamental_div_mod(v as int, 10);
        assert(dec_digits(v).drop_last() =~= dec_digits(v / 10));
        assert(digit_char(v % 10) as nat == 48 + v % 10);
        assert(dec_digits(v).last() == digit_char(v % 10));
        assert(digits_num(dec_digits(v)) == 10 * digits_num(dec_digits(v).drop_last()) + (dec_digits(v).last() as nat - 48) as nat);
    }
}

pub proof fn lemma_fixed_len(v: nat, w: nat)
    ensures
        fixed_digits(v, w).len() == w,
    decreases w,
{
    if w > 0 {
        lemma_fixed_len(v / 10, (w - 1) as nat);
    }
}

/// Digit `j` of the padded form, counted from the left, is `(v / 10^(w-1-j)) % 10`.
pub proof fn lemma_fixed_index(v: nat, w: nat, j: nat)
    requires
        j < w,
    ensures
        fixed_digits(v, w)[j as int] == digit_char((v / pow10((w - 1 - j) as nat)) % 10),
    decreases w,
{
    lemma_fixed_len(v, w);
    lemma_fixed_len(v / 10, (w - 1) as nat);
    if j == w - 1 {
        assert(pow10(0) == 1);
        vstd::arithmetic::div_mod::lemma_div_basics(v as int);
    } else {
        lemma_fixed_index(v / 10, (w - 1) as nat, j);
        let t = (w - 2 - j) as nat;
        lemma_pow10_pos(t);
        lemma_div_denominator(v as int, 10, pow10(t) as int);
        assert(pow10((w - 1 - j) as nat) == 10 * pow10(t));
    }
}

/// A number with exactly `w` digits is its own padded form.
pub proof fn lemma_dec_is_fixed(v: nat, w: nat)
    requires
        w >= 1,
        v < pow10(w),
        w == 1 || v >= pow10((w - 1) as nat),
    ensures
        dec_digits(v) == fixed_digits(v, w),
    decreases w,
{
    if w == 1 {
        assert(pow10(1) == 10 * pow10(0));
        assert(fixed_digits(v / 10, 0) =~= Seq::<char>::empty());
        assert(v / 10 == 0);
        assert(dec_digits(v) =~= fixed_digits(v, w));
    } else {
        let w1 = (w - 1) as nat;
        assert(pow10(w) == 10 * pow10(w1));
        assert(pow10(w1) == 10 * pow10((w1 - 1) as nat));
        lemma_pow10_pos((w1 - 1) as nat);
        assert(v >= 10);
        lemma_fundamental_div_mod(v as int, 10);
        assert(v / 10 < pow10(w1));
        assert(w1 == 1 || v / 10 >= pow10((w1 - 1) as nat));
        lemma_dec_is_fixed(v / 10, w1);
    }
}

/// Appending `w` padded digits: `digits(a·10^w + b) = digits(a) ++ pad_w(b)` for `a > 0`.
pub proof fn lemma_dec_concat(a: nat, b: nat, w: nat)
    requires
        a > 0,
        b < pow10(w),
    ensures
        dec_digits(a * pow10(w) + b) == dec_digits(a) + fixed_digits(b, w),
    decreases w,
{
    if w == 0 {
        assert(pow10(0) == 1);
        lemma_mul_basics(a as int);
        assert(dec_digits(a) + fixed_digits(b, w) =~= dec_digits(a));
    } else {
        let w1 = (w - 1) as nat;
        let x = a * pow10(w) + b;
        assert(pow10(w) == 10 * pow10(w1));
        lemma_pow10_pos(w1);
        lemma_fundamental_div_mod(b as int, 10);
        assert(b / 10 < pow10(w1)) by (nonlinear_arith)
            requires b < 10 * pow10(w1), b == 10 * (b / 10) + b % 10, b % 10 >= 0;
        assert(x == 10 * (a * pow10(w1) + b / 10) + b % 10) by (nonlinear_arith)
            requires
                x == a * pow10(w) + b,
                pow10(w) == 10 * pow10(w1),
                b == 10 * (b / 10) + b % 10,
        ;
        lemma_fundamental_div_mod_converse(x as int, 10, (a * pow10(w1) + b / 10) as int, (b % 10) as int);
        assert(a * pow10(w1) >= 1) by (nonlinear_arith)
            requires a >= 1, pow10(w1) >= 1;
        assert(x >= 10);
        lemma_dec_concat(a, b / 10, w1);
        assert(dec_digits(x) =~= dec_digits(a) + fixed_digits(b, w));
    }
}

pub proof fn lemma_dec_digits_nonempty(v: nat)
    ensures
        dec_digits(v).len() >= 1,
        all_digits(dec_digits(v)),
        dec_digits(v)[0] != '0' || v == 0,
    decreases v,
{
    if v >= 10 {
        lemma_dec_digits_nonempty(v / 10);
        assert(dec_digits(v)[0] == dec_digits(v / 10)[0]);
    }
}

/// A number below `10^k` has at most `k` digits, for `k >= 1`.
pub proof fn lemma_dec_len_bound(v: nat, k: nat)
    requires
        k >= 1,
        v < pow10(k),
    ensures
        dec_digits(v).len() <= k,
    decreases k,
{
    if v >= 10 {
        let k1 = (k - 1) as nat;
        assert(pow10(k) == 10 * pow10(k1));
        lemma_fundamental_div_mod(v as int, 10);
        assert(v / 10 < pow10(k1));
        if k1 == 0 {
            assert(pow10(0) == 1);
        } else {
            lemma_dec_len_bound(v / 10, k1);
        }
    }
}

pub proof fn lemma_dec_all_digits(v: nat)
    ensures
        all_digits(dec_digits(v)),
{
    lemma_dec_digits_nonempty(v);
}

pub proof fn lemma_fixed_all_digits(v: nat, w: nat)
    ensures
        all_digits(fixed_digits(v, w)),
    decreases w,
{
    if w > 0 {
        lemma_fixed_all_digits(v / 10, (w - 1) as nat);
    }
}

/// The character of a digit below ten.
pub fn digit_of(d: u32) -> (c: char)
    requires
        d < 10,
    ensures
        c == digit_char(d as nat),
{
    ((48 + d) as u8) as char
}

/// Appends the low `w` digits of `v`, zero-padded.
pub fn push_fixed(s: &mut String, v: u32, w: u32)
    requires
        w <= 10,
    ensures
        final(s)@ == old(s)@ + fixed_digits(v as nat, w as nat),
{
    let mut rev: Vec<char> = Vec::new();
    let mut x: u32 = v;
    let mut t: u32 = 0;
    proof {
        assert(pow10(0) == 1);
    }
    while t < w
        invariant
            t <= w,
            rev@.len() == t,
            x as nat == (v as nat) / pow10(t as nat),
            forall|k: int| 0 <= k < t ==> rev@[k] == digit_char(((v as nat) / pow10(k as nat)) % 10),
        decreases w - t,
    {
        rev.push(digit_of(x % 10));
        proof {
            lemma_pow10_pos(t as nat);
            lemma_div_denominator(v as int, pow10(t as nat) as int, 10);
            assert(pow10((t + 1) as nat) == 10 * pow10(t as nat));
            vstd::arithmetic::mul::lemma_mul_is_commutative(10, pow10(t as nat) as int);
        }
        x = x / 10;
        t += 1;
    }
    let ghost s0 = s@;
    let mut j: u32 = 0;
    proof {
        lemma_fixed_len(v as nat, w as nat);
    }
    while j < w
        invariant
            j <= w,
            rev@.len() == w,
            forall|k: int| 0 <= k < w ==> rev@[k] == digit_char(((v as nat) / pow10(k as nat)) % 10),
            fixed_digits(v as nat, w as nat).len() == w,
            s@ == s0 + fixed_digits(v as nat, w as nat).take(j as int),
        decreases w - j,
    {
        proof {
            lemma_fixed_index(v as nat, w as nat, j as nat);
            assert(fixed_digits(v as nat, w as nat).take(j + 1) =~= fixed_digits(v as nat, w as nat).take(j as int).push(rev@[(w - 1 - j) as int]));
        }
        push_char(s, rev[(w - 1 - j) as usize]);
        j += 1;
    }
    assert(fixed_digits(v as nat, w as nat).take(w as int) =~= fixed_digits(v as nat, w as nat));
}

/// Appends the decimal digits of `v`, with no leading zero.
pub fn push_dec(s: &mut String, v: u32)
    ensures
        final(s)@ == old(s)@ + dec_digits(v as nat),
{
    let mut w: u32 = 1;
    let mut p: u64 = 10;
    proof {
        reveal_with_fuel(pow10, 2);
    }
    while p <= v as u64
        invariant
            1 <= w <= 10,
            p as nat == pow10(w as nat),
            w == 1 || v as nat >= pow10((w - 1) as nat),
            p <= 10_000_000_000,
        decreases 11 - w,
    {
        proof {
            assert(pow10((w + 1) as nat) == 10 * pow10(w as nat));
            if w >= 10 {
                reveal_with_fuel(pow10, 11);
                assert(false);
            }
        }
        p = p * 10;
        w += 1;
        proof {
            if w == 10 {
                reveal_with_fuel(pow10, 11);
            }
        }
    }
    proof {
        lemma_dec_is_fixed(v as nat, w as nat);
    }
    push_fixed(s, v, w);
}

} // verus!
