//! Bit patterns of a fixed format are ordered by value.
//!
//! For a positive pattern `m`, the regime run is a count of leading equal bits, which is fixed by
//! the bit length of `m` (a run of zeros) or of its complement (a run of ones). The regime value
//! `k` therefore never decreases as `m` grows, patterns with the same `k` share every bit above
//! the exponent field, and the value `2^(k·2^es + e) × (1 + f)` grows with the remaining bits.

use vstd::prelude::*;
use vstd::arithmetic::power2::{
    lemma2_to64, lemma_pow2_adds, lemma_pow2_pos, lemma_pow2_strictly_increases, pow2,
};
use vstd::arithmetic::div_mod::{
    lemma_basic_div, lemma_div_is_ordered, lemma_fundamental_div_mod,
    lemma_fundamental_div_mod_converse, lemma_mod_bound, lemma_small_mod,
};
use vstd::arithmetic::mul::{lemma_mul_basics, lemma_mul_inequality, lemma_mul_is_commutative};
use crate::bits::{bit_of, decode_params_ok, numeric_fields, run_len, Fields};

verus! {

/// The number of binary digits of `x` (zero for zero).
pub open spec fn bitlen(x: nat) -> nat
    decreases x,
{
    if x == 0 {
        0
    } else {
        1 + bitlen(x / 2)
    }
}

pub proof fn lemma_bitlen_bounds(x: nat)
    ensures
        x == 0 ==> bitlen(x) == 0,
        x > 0 ==> bitlen(x) >= 1 && pow2((bitlen(x) - 1) as nat) <= x < pow2(bitlen(x)),
    decreases x,
{
    lemma2_to64();
    if x > 0 {
        lemma_bitlen_bounds(x / 2);
        lemma_fundamental_div_mod(x as int, 2);
        if x / 2 > 0 {
            let b = bitlen(x / 2);
            lemma_pow2_adds(1, (b - 1) as nat);
            lemma_pow2_adds(1, b);
            assert(1 + (b - 1) == b);
        }
    }
}

/// A number between `2^(b-1)` and `2^b` has exactly `b` digits.
pub proof fn lemma_bitlen_unique(x: nat, b: nat)
    requires
        b >= 1,
        pow2((b - 1) as nat) <= x < pow2(b),
    ensures
        bitlen(x) == b,
{
    lemma_pow2_pos((b - 1) as nat);
    lemma_bitlen_bounds(x);
    let c = bitlen(x);
    if c < b {
        if c < b - 1 {
            lemma_pow2_strictly_increases(c, (b - 1) as nat);
        }
    }
    if c > b {
        if c - 1 > b {
            lemma_pow2_strictly_increases(b, (c - 1) as nat);
        }
    }
}

/// A number below `2^b` has at most `b` digits.
pub proof fn lemma_bitlen_at_most(x: nat, b: nat)
    requires
        x < pow2(b),
    ensures
        bitlen(x) <= b,
{
    lemma_bitlen_bounds(x);
    if x > 0 && bitlen(x) > b {
        if bitlen(x) - 1 > b {
            lemma_pow2_strictly_increases(b, (bitlen(x) - 1) as nat);
        }
    }
}

pub proof fn lemma_bitlen_mono(x: nat, y: nat)
    requires
        x <= y,
    ensures
        bitlen(x) <= bitlen(y),
{
    lemma_bitlen_bounds(x);
    lemma_bitlen_bounds(y);
    if x > 0 && bitlen(x) > bitlen(y) {
        if bitlen(x) - 1 > bitlen(y) {
            lemma_pow2_strictly_increases(bitlen(y), (bitlen(x) - 1) as nat);
        }
    }
}

pub proof fn lemma_bitlen_succ(x: nat)
    ensures
        bitlen(x + 1) <= bitlen(x) + 1,
{
    lemma_bitlen_bounds(x);
    lemma_bitlen_bounds(x + 1);
    lemma2_to64();
    if x > 0 {
        let b = bitlen(x);
        lemma_pow2_adds(1, b);
        if bitlen(x + 1) > b + 1 {
            lemma_pow2_strictly_increases(b + 1, (bitlen(x + 1) - 1) as nat);
        }
    } else {
        assert(bitlen(1) == 1 + bitlen(0));
    }
}

/// A run of zeros from bit `i` down is the number of leading zeros among `i + 1` bits.
pub proof fn lemma_run_zeros(m: nat, i: int)
    requires
        i >= -1,
        m < pow2((i + 1) as nat),
    ensures
        run_len(m, i, 0) == i + 1 - bitlen(m),
    decreases i + 1,
{
    lemma2_to64();
    if i < 0 {
        assert(m == 0);
    } else {
        lemma_pow2_pos(i as nat);
        lemma_pow2_adds(1, i as nat);
        assert((i + 1) as nat == 1 + i as nat);
        if m < pow2(i as nat) {
            lemma_basic_div(m as int, pow2(i as nat) as int);
            lemma_run_zeros(m, i - 1);
        } else {
            assert(m / pow2(i as nat) == 1) by {
                lemma_fundamental_div_mod_converse(m as int, pow2(i as nat) as int, 1, (m - pow2(i as nat)) as int);
            }
            assert(i + 1 >= 1);
            lemma_bitlen_unique(m, (i + 1) as nat);
        }
    }
}

/// Runs of ones in `a` match runs of zeros in `b` when their bits are complementary.
pub proof fn lemma_run_complement(a: nat, b: nat, i: int)
    requires
        forall|j: nat| j <= i ==> bit_of(a, j) + bit_of(b, j) == 1,
    ensures
        run_len(a, i, 1) == run_len(b, i, 0),
    decreases i + 1,
{
    if i >= 0 {
        assert(bit_of(a, i as nat) + bit_of(b, i as nat) == 1);
        lemma_run_complement(a, b, i - 1);
    }
}

/// Bit `j` of `2^w - 1 - m` is the complement of bit `j` of `m`.
pub proof fn lemma_bit_complement(m: nat, w: nat, j: nat)
    requires
        m < pow2(w),
        j < w,
    ensures
        bit_of((pow2(w) - 1 - m) as nat, j) + bit_of(m, j) == 1,
{
    let c = (pow2(w) - 1 - m) as nat;
    let d = (w - j) as nat;
    lemma_pow2_pos(j);
    lemma_pow2_pos(d);
    lemma_pow2_adds(j, d);
    lemma_fundamental_div_mod(m as int, pow2(j) as int);
    let q = m / pow2(j);
    let r = m % pow2(j);
    // q < 2^d
    assert(q < pow2(d)) by {
        if q >= pow2(d) {
            lemma_mul_inequality(pow2(d) as int, q as int, pow2(j) as int);
            lemma_mul_is_commutative(pow2(d) as int, pow2(j) as int);
            lemma_mul_is_commutative(q as int, pow2(j) as int);
        }
    }
    assert(c == (pow2(d) - 1 - q) * pow2(j) + (pow2(j) - 1 - r)) by (nonlinear_arith)
        requires
            c == pow2(w) - 1 - m,
            pow2(w) == pow2(j) * pow2(d),
            m == pow2(j) * q + r,
    ;
    lemma_fundamental_div_mod_converse(c as int, pow2(j) as int, (pow2(d) - 1 - q) as int, (pow2(j) - 1 - r) as int);
    // 2^d is even
    lemma_pow2_adds(1, (d - 1) as nat);
    lemma2_to64();
    let h = pow2((d - 1) as nat);
    lemma_fundamental_div_mod(q as int, 2);
    assert((pow2(d) - 1 - q) == 2 * (h - 1 - q / 2) + (1 - q % 2)) by (nonlinear_arith)
        requires
            pow2(d) == 2 * h,
            q == 2 * (q / 2) + q % 2,
    ;
    lemma_mod_bound(q as int, 2);
    lemma_fundamental_div_mod_converse((pow2(d) - 1 - q) as int, 2, (h - 1 - q / 2) as int, (1 - q % 2) as int);
}

/// The format shapes the ordering argument covers: the capped regime, its terminator and the
/// exponent always fit after the sign, and the fraction never needs more than 60 bits.
pub open spec fn shape_ok(n: nat, es: nat, kmax: nat) -> bool {
    &&& 3 <= n <= 64
    &&& es <= 62
    &&& kmax < u32::MAX
    &&& (n - 1) * pow2(es) <= pow2(63)
    &&& kmax + 1 + es <= n - 1
    &&& n - 2 - es <= 60
}

/// The length of the leading run of equal bits after the sign of a positive pattern `m`.
pub open spec fn regime_raw(m: nat, n: nat) -> nat {
    if m >= pow2((n - 2) as nat) {
        ((n - 1) - bitlen((pow2((n - 1) as nat) - 1 - m) as nat)) as nat
    } else {
        ((n - 1) - bitlen(m)) as nat
    }
}

/// The regime run of a class with regime value `k`.
pub open spec fn class_run(k: int) -> nat {
    if k < 0 {
        (-k) as nat
    } else {
        (k + 1) as nat
    }
}

/// How many bits follow the regime (and its terminator, when present) in a class.
pub open spec fn class_avail(n: nat, kmax: nat, k: int) -> nat {
    if class_run(k) >= kmax + 1 {
        (n - 1 - (kmax + 1)) as nat
    } else {
        (n - 2 - class_run(k)) as nat
    }
}

/// The bits above the exponent field, which every pattern of a class shares.
pub open spec fn class_prefix(n: nat, kmax: nat, k: int) -> nat {
    let a = class_avail(n, kmax, k);
    if k < 0 {
        if class_run(k) >= kmax + 1 {
            0
        } else {
            1
        }
    } else {
        if class_run(k) >= kmax + 1 {
            (pow2((n - 1 - a) as nat) - 1) as nat
        } else {
            (pow2((n - 1 - a) as nat) - 2) as nat
        }
    }
}

/// The regime value of a positive pattern.
pub open spec fn class_k(m: nat, n: nat, kmax: nat) -> int {
    let raw = regime_raw(m, n);
    let run: nat = if raw < kmax + 1 { raw } else { kmax + 1 };
    if m >= pow2((n - 2) as nat) {
        run - 1
    } else {
        -run
    }
}

/// The regime run of a positive pattern is counted by the bit length of the pattern or of its
/// complement.
pub proof fn lemma_regime_raw(m: nat, n: nat)
    requires
        3 <= n <= 64,
        1 <= m < pow2((n - 1) as nat),
    ensures
        run_len(m, n - 2, bit_of(m, (n - 2) as nat)) == regime_raw(m, n),
        bit_of(m, (n - 2) as nat) == (if m >= pow2((n - 2) as nat) { 1nat } else { 0nat }),
        1 <= regime_raw(m, n) <= n - 1,
        m < pow2((n - 2) as nat) ==> regime_raw(m, n) <= n - 2,
{
    let i = (n - 2) as nat;
    lemma_pow2_pos(i);
    lemma_pow2_adds(1, i);
    lemma2_to64();
    assert((n - 1) as nat == 1 + i);
    lemma_bitlen_bounds(m);
    if m >= pow2(i) {
        assert(m / pow2(i) == 1) by {
            lemma_fundamental_div_mod_converse(m as int, pow2(i) as int, 1, (m - pow2(i)) as int);
        }
        let c = (pow2((n - 1) as nat) - 1 - m) as nat;
        assert forall|j: nat| j <= n - 2 implies bit_of(m, j) + bit_of(c, j) == 1 by {
            lemma_bit_complement(m, (n - 1) as nat, j);
        }
        lemma_run_complement(m, c, n - 2);
        lemma_run_zeros(c, n - 2);
        lemma_bitlen_bounds(c);
        if bitlen(c) > i {
            lemma_pow2_strictly_increases(i, (bitlen(c) - 1) as nat);
        }
    } else {
        lemma_basic_div(m as int, pow2(i) as int);
        lemma_run_zeros(m, n - 2);
        if bitlen(m) > i {
            lemma_pow2_strictly_increases(i, (bitlen(m) - 1) as nat);
        }
    }
}

/// `m = q·2^a + r` with `r < 2^a` fixes the quotient and remainder.
proof fn lemma_split_at(m: nat, a: nat, q: nat, r: nat)
    requires
        r < pow2(a),
        m == q * pow2(a) + r,
    ensures
        m / pow2(a) == q,
        m % pow2(a) == r,
{
    lemma_pow2_pos(a);
    lemma_fundamental_div_mod_converse(m as int, pow2(a) as int, q as int, r as int);
}

/// The patterns of a class share the bits above the exponent field.
proof fn lemma_class_prefix(m: nat, n: nat, es: nat, kmax: nat)
    requires
        shape_ok(n, es, kmax),
        1 <= m < pow2((n - 1) as nat),
    ensures
        m / pow2(class_avail(n, kmax, class_k(m, n, kmax))) == class_prefix(n, kmax, class_k(m, n, kmax)),
        class_run(class_k(m, n, kmax)) == (if regime_raw(m, n) < kmax + 1 { regime_raw(m, n) } else { kmax + 1 }),
{
    lemma_regime_raw(m, n);
    let cap = kmax + 1;
    let raw = regime_raw(m, n);
    let k = class_k(m, n, kmax);
    let a = class_avail(n, kmax, k);
    let n1 = (n - 1) as nat;
    lemma_pow2_adds(a, (n1 - a) as nat);
    assert(n1 == a + (n1 - a) as nat);
    if m < pow2((n - 2) as nat) {
        let b = bitlen(m);
        lemma_bitlen_bounds(m);
        if b - 1 > n - 2 {
            lemma_pow2_strictly_increases((n - 2) as nat, (b - 1) as nat);
        }
        assert(b <= n - 2);
        if raw < cap {
            assert(raw == (n - 1) - b);
            assert(k == -(raw as int));
            assert(class_run(k) == raw);
            assert(a == b - 1);
            lemma_pow2_adds(a, 1);
            lemma2_to64();
            lemma_mul_basics(pow2(a) as int);
            lemma_split_at(m, a, 1, (m - pow2(a)) as nat);
        } else {
            assert(b <= a);
            if b < a {
                lemma_pow2_strictly_increases(b, a);
            }
            lemma_split_at(m, a, 0, m);
        }
    } else {
        let c = (pow2(n1) - 1 - m) as nat;
        let b = bitlen(c);
        lemma_bitlen_bounds(c);
        lemma_pow2_adds(1, (n - 2) as nat);
        lemma2_to64();
        assert(n1 == 1 + (n - 2) as nat);
        assert(c < pow2((n - 2) as nat));
        if b - 1 > n - 2 {
            lemma_pow2_strictly_increases((n - 2) as nat, (b - 1) as nat);
        }
        assert(b <= n - 2);
        assert(raw == (n - 1) - b);
        let t = pow2((n1 - a) as nat);
        if raw < cap {
            assert(b >= 1);
            assert(a == b - 1);
            lemma_pow2_adds(1, a);
            lemma2_to64();
            assert(t >= 2) by {
                lemma_pow2_adds(1, (n1 - a - 1) as nat);
                lemma_pow2_pos((n1 - a - 1) as nat);
            }
            assert(m == (t - 2) * pow2(a) + (2 * pow2(a) - 1 - c)) by (nonlinear_arith)
                requires
                    m == pow2(n1) - 1 - c,
                    pow2(n1) == pow2(a) * t,
                    t >= 2,
            ;
            lemma_split_at(m, a, (t - 2) as nat, (2 * pow2(a) - 1 - c) as nat);
        } else {
            assert(b <= a);
            if b < a {
                lemma_pow2_strictly_increases(b, a);
            }
            lemma_pow2_pos((n1 - a) as nat);
            assert(m == (t - 1) * pow2(a) + (pow2(a) - 1 - c)) by (nonlinear_arith)
                requires
                    m == pow2(n1) - 1 - c,
                    pow2(n1) == pow2(a) * t,
                    t >= 1,
            ;
            lemma_split_at(m, a, (t - 1) as nat, (pow2(a) - 1 - c) as nat);
        }
    }
}

/// `(x · 2^a) / 2^(a+b) = x / 2^b`.
proof fn lemma_scale_down2(x: nat, a: nat, b: nat)
    ensures
        (x * pow2(a)) / pow2(a + b) == x / pow2(b),
{
    lemma_pow2_pos(a);
    lemma_pow2_pos(b);
    lemma_pow2_adds(a, b);
    vstd::arithmetic::div_mod::lemma_div_denominator((x * pow2(a)) as int, pow2(a) as int, pow2(b) as int);
    lemma_mul_is_commutative(x as int, pow2(a) as int);
    vstd::arithmetic::div_mod::lemma_div_multiples_vanish(x as int, pow2(a) as int);
}

/// `(x · 2^(a+b)) / 2^a = x · 2^b`.
proof fn lemma_scale_exact2(x: nat, a: nat, b: nat)
    ensures
        (x * pow2(a + b)) / pow2(a) == x * pow2(b),
{
    lemma_pow2_pos(a);
    lemma_pow2_adds(a, b);
    assert(x * pow2(a + b) == pow2(a) * (x * pow2(b))) by (nonlinear_arith)
        requires pow2(a + b) == pow2(a) * pow2(b);
    vstd::arithmetic::div_mod::lemma_div_multiples_vanish((x * pow2(b)) as int, pow2(a) as int);
}

/// The fields of a positive pattern in class form: the exponent and significand are read from
/// the bits below the class prefix.
pub proof fn lemma_positive_class(m: nat, n: nat, es: nat, kmax: nat)
    requires
        shape_ok(n, es, kmax),
        1 <= m < pow2((n - 1) as nat),
    ensures
        ({
            let f = numeric_fields(false, m, n, es, kmax);
            let k = class_k(m, n, kmax);
            let a = class_avail(n, kmax, k);
            let fl = (a - es) as nat;
            let low = m % pow2(a);
            &&& es <= a
            &&& fl <= 60
            &&& m / pow2(a) == class_prefix(n, kmax, k)
            &&& -((n - 1) as int) <= k <= (n - 2) as int
            &&& f.k as int == k
            &&& f.total_exp as int == k * pow2(es) + low / pow2(fl)
            &&& f.frac as nat == pow2(60) + (low % pow2(fl)) * pow2((60 - fl) as nat)
            &&& low / pow2(fl) < pow2(es)
        }),
{
    lemma_regime_raw(m, n);
    lemma_class_prefix(m, n, es, kmax);
    let f = numeric_fields(false, m, n, es, kmax);
    let k = class_k(m, n, kmax);
    let a = class_avail(n, kmax, k);
    let fl = (a - es) as nat;
    let low = m % pow2(a);
    lemma_pow2_pos(a);
    lemma_pow2_pos(fl);
    lemma_pow2_pos(es);
    lemma_mod_bound(m as int, pow2(a) as int);
    lemma_mod_bound(low as int, pow2(fl) as int);
    assert(a == es + fl);
    lemma_scale_down2(low, es, fl);
    lemma_scale_exact2(low % pow2(fl), fl, (60 - fl) as nat);
    assert(fl + (60 - fl) as nat == 60);
    lemma_pow2_adds(fl, (60 - fl) as nat);
    lemma_pow2_pos((60 - fl) as nat);
    // the exponent field value is below 2^es
    lemma_pow2_adds(fl, es);
    assert(low / pow2(fl) < pow2(es)) by {
        lemma_mul_is_commutative(pow2(fl) as int, pow2(es) as int);
        vstd::arithmetic::div_mod::lemma_multiply_divide_lt(low as int, pow2(fl) as int, pow2(es) as int);
    }
    // the significand fits well inside a u64
    let x = low % pow2(fl);
    let pp = pow2((60 - fl) as nat);
    assert(x * pp < pow2(fl) * pp) by (nonlinear_arith)
        requires x < pow2(fl), pp > 0;
    vstd::arithmetic::power2::lemma2_to64_rest();
    // the total exponent fits an i64
    let p = pow2(es);
    assert(k * p >= -((n - 1) * p)) by (nonlinear_arith)
        requires k >= -((n - 1) as int), p >= 0;
    assert(k * p <= (n - 2) * p) by (nonlinear_arith)
        requires k <= (n - 2) as int, p >= 0;
    assert((n - 2) * p + p == (n - 1) * p) by (nonlinear_arith);
}

/// A class prefix followed by any bits below it is a pattern of that class: the inverse of
/// [`lemma_class_prefix`].
pub proof fn lemma_class_of_prefix(n: nat, es: nat, kmax: nat, k: int, low: nat)
    requires
        shape_ok(n, es, kmax),
        -((kmax + 1) as int) <= k <= kmax as int,
        low < pow2(class_avail(n, kmax, k)),
        class_prefix(n, kmax, k) > 0 || low > 0,
    ensures
        ({
            let a = class_avail(n, kmax, k);
            let m = class_prefix(n, kmax, k) * pow2(a) + low;
            &&& 1 <= m < pow2((n - 1) as nat)
            &&& class_k(m, n, kmax) == k
        }),
{
    let cap = kmax + 1;
    let a = class_avail(n, kmax, k);
    let pre = class_prefix(n, kmax, k);
    let m = pre * pow2(a) + low;
    let n1 = (n - 1) as nat;
    let n2 = (n - 2) as nat;
    lemma2_to64();
    lemma_pow2_adds(1, n2);
    assert(n1 == 1 + n2);
    lemma_pow2_pos(a);
    assert(a <= n2);
    if a < n2 {
        lemma_pow2_strictly_increases(a, n2);
    }
    if k < 0 {
        let r = (-k) as nat;
        if r < cap {
            assert(pre == 1);
            assert(a + 1 <= n2) by {
                assert(a == n - 2 - r);
            }
            lemma_mul_basics(pow2(a) as int);
            lemma_pow2_adds(a, 1);
            lemma_bitlen_unique(m, a + 1);
            if a + 1 < n2 {
                lemma_pow2_strictly_increases(a + 1, n2);
            }
            assert(m < pow2(n2));
            assert(regime_raw(m, n) == r);
        } else {
            assert(pre == 0);
            lemma_mul_basics(pow2(a) as int);
            assert(m == low);
            assert(a == n - 1 - cap);
            assert(m < pow2(n2));
            lemma_bitlen_at_most(m, a);
            assert(regime_raw(m, n) >= cap);
        }
    } else {
        let r = (k + 1) as nat;
        let t = pow2((n1 - a) as nat);
        lemma_pow2_adds(a, (n1 - a) as nat);
        assert(pow2(n1) == pow2(a) * t);
        if r < cap {
            assert(a == n - 2 - r);
            assert((n1 - a) as nat == r + 1);
            lemma_pow2_adds(1, r);
            lemma_pow2_pos(r);
            assert(t >= 4) by {
                lemma_pow2_adds(1, (r - 1) as nat);
                lemma_pow2_pos((r - 1) as nat);
                lemma_pow2_adds(1, (r - 1 + 1) as nat);
            }
            assert((n - 1 - a) as nat == (n1 - a) as nat);
            assert(pre == t - 2);
            let c = (pow2(n1) - 1 - m) as nat;
            assert(m == pow2(n1) - 2 * pow2(a) + low) by (nonlinear_arith)
                requires m == (t - 2) * pow2(a) + low, pow2(n1) == pow2(a) * t;
            assert(c == 2 * pow2(a) - 1 - low);
            lemma_pow2_adds(a, 1);
            lemma_bitlen_unique(c, a + 1);
            assert(m >= pow2(n2)) by {
                assert(pow2(n1) - 2 * pow2(a) >= pow2(n2)) by (nonlinear_arith)
                    requires pow2(n1) == pow2(a) * t, t >= 4, pow2(n1) == 2 * pow2(n2), pow2(a) > 0;
            }
            assert(regime_raw(m, n) == r);
        } else {
            assert(a == n - 1 - cap);
            assert(t >= 2) by {
                lemma_pow2_adds(1, (n1 - a - 1) as nat);
                lemma_pow2_pos((n1 - a - 1) as nat);
            }
            assert((n - 1 - a) as nat == (n1 - a) as nat);
            assert(pre == t - 1);
            let c = (pow2(n1) - 1 - m) as nat;
            assert(m == pow2(n1) - pow2(a) + low) by (nonlinear_arith)
                requires m == (t - 1) * pow2(a) + low, pow2(n1) == pow2(a) * t;
            assert(c == pow2(a) - 1 - low);
            lemma_bitlen_at_most(c, a);
            assert(m >= pow2(n2)) by {
                assert(pow2(n1) - pow2(a) >= pow2(n2)) by (nonlinear_arith)
                    requires pow2(n1) == pow2(a) * t, t >= 2, pow2(n1) == 2 * pow2(n2), pow2(a) > 0;
            }
            assert(regime_raw(m, n) >= cap);
        }
    }
}

/// Exponent first, then significand.
pub open spec fn lex_less(e1: int, f1: nat, e2: int, f2: nat) -> bool {
    e1 < e2 || (e1 == e2 && f1 < f2)
}

/// The regime value never decreases as a positive pattern grows, and grows by at most one per
/// step.
pub proof fn lemma_class_k_mono(m: nat, m2: nat, n: nat, kmax: nat)
    requires
        3 <= n <= 64,
        1 <= m <= m2 < pow2((n - 1) as nat),
    ensures
        class_k(m, n, kmax) <= class_k(m2, n, kmax),
        m2 == m + 1 ==> class_k(m2, n, kmax) <= class_k(m, n, kmax) + 1,
{
    lemma_regime_raw(m, n);
    lemma_regime_raw(m2, n);
    let h = pow2((n - 2) as nat);
    let c = (pow2((n - 1) as nat) - 1 - m) as nat;
    let c2 = (pow2((n - 1) as nat) - 1 - m2) as nat;
    let cap = kmax + 1;
    let raw = regime_raw(m, n);
    let raw2 = regime_raw(m2, n);
    let run: nat = if raw < cap { raw } else { cap };
    let run2: nat = if raw2 < cap { raw2 } else { cap };
    assert(class_k(m, n, kmax) == if m >= h { run - 1 } else { -run });
    assert(class_k(m2, n, kmax) == if m2 >= h { run2 - 1 } else { -run2 });
    let n1 = (n - 1) as nat;
    lemma_pow2_adds(1, (n - 2) as nat);
    lemma2_to64();
    assert(n1 == 1 + (n - 2) as nat);
    if m2 < h {
        lemma_bitlen_at_most(m2, (n - 2) as nat);
        lemma_bitlen_mono(m, m2);
        assert(raw == (n - 1) - bitlen(m));
        assert(raw2 == (n - 1) - bitlen(m2));
        assert(raw2 <= raw);
        if m2 == m + 1 {
            lemma_bitlen_succ(m);
            assert(raw2 + 1 >= raw);
        }
    } else if m >= h {
        assert(c < h);
        lemma_bitlen_at_most(c, (n - 2) as nat);
        assert(c2 <= c);
        lemma_bitlen_mono(c2, c);
        assert(raw == (n - 1) - bitlen(c));
        assert(raw2 == (n - 1) - bitlen(c2));
        assert(raw <= raw2);
        if m2 == m + 1 {
            assert(c == c2 + 1);
            lemma_bitlen_succ(c2);
            assert(raw2 <= raw + 1);
        }
    } else {
        // m is on the zeros side, m2 on the ones side
        if m2 == m + 1 {
            assert(m + 1 == h);
            lemma_pow2_adds(1, (n - 2) as nat);
            lemma2_to64();
            assert(pow2((n - 1) as nat) == 2 * h) by {
                assert((n - 1) as nat == 1 + (n - 2) as nat);
            }
            lemma_pow2_pos((n - 3) as nat);
            lemma_pow2_adds(1, (n - 3) as nat);
            assert(h == 2 * pow2((n - 3) as nat)) by {
                assert((n - 2) as nat == 1 + (n - 3) as nat);
            }
            lemma_bitlen_unique(m, (n - 2) as nat);
            lemma_bitlen_unique(c2, (n - 2) as nat);
        }
    }
}

/// Pattern order is value order for positive patterns: exponent first, then significand.
pub proof fn lemma_positive_order(m: nat, m2: nat, n: nat, es: nat, kmax: nat)
    requires
        shape_ok(n, es, kmax),
        1 <= m < m2 < pow2((n - 1) as nat),
    ensures
        lex_less(
            numeric_fields(false, m, n, es, kmax).total_exp as int,
            numeric_fields(false, m, n, es, kmax).frac as nat,
            numeric_fields(false, m2, n, es, kmax).total_exp as int,
            numeric_fields(false, m2, n, es, kmax).frac as nat,
        ),
{
    lemma_positive_class(m, n, es, kmax);
    lemma_positive_class(m2, n, es, kmax);
    lemma_class_k_mono(m, m2, n, kmax);
    let k = class_k(m, n, kmax);
    let k2 = class_k(m2, n, kmax);
    let p = pow2(es);
    let a = class_avail(n, kmax, k);
    let fl = (a - es) as nat;
    let low = m % pow2(a);
    let e = low / pow2(fl);
    lemma_pow2_pos(es);
    lemma_pow2_pos(a);
    lemma_pow2_pos(fl);
    if k < k2 {
        let a2 = class_avail(n, kmax, k2);
        lemma_pow2_pos(a2);
        lemma_pow2_pos((a2 - es) as nat);
        let e2 = (m2 % pow2(a2)) / pow2((a2 - es) as nat);
        assert(e < p);
        assert(e2 >= 0);
        assert(k * p + e < k2 * p + e2) by (nonlinear_arith)
            requires k < k2, e < p, e2 >= 0, p > 0;
    } else {
        assert(k == k2);
        let low2 = m2 % pow2(a);
        lemma_pow2_pos(a);
        lemma_pow2_pos(fl);
        lemma_fundamental_div_mod(m as int, pow2(a) as int);
        lemma_fundamental_div_mod(m2 as int, pow2(a) as int);
        assert(low < low2);
        lemma_div_is_ordered(low as int, low2 as int, pow2(fl) as int);
        let e2 = low2 / pow2(fl);
        if e == e2 {
            lemma_fundamental_div_mod(low as int, pow2(fl) as int);
            lemma_fundamental_div_mod(low2 as int, pow2(fl) as int);
            assert(pow2(fl) * e == pow2(fl) * e2);
            assert(low % pow2(fl) < low2 % pow2(fl));
            let pp = pow2((60 - fl) as nat);
            lemma_pow2_pos((60 - fl) as nat);
            vstd::arithmetic::mul::lemma_mul_strict_inequality(
                (low % pow2(fl)) as int,
                (low2 % pow2(fl)) as int,
                pp as int,
            );
        }
    }
}

/// Consecutive positive patterns are at most two binades apart, and never out of order.
pub proof fn lemma_positive_step(m: nat, n: nat, es: nat, kmax: nat)
    requires
        shape_ok(n, es, kmax),
        1 <= m,
        m + 1 < pow2((n - 1) as nat),
    ensures
        numeric_fields(false, m, n, es, kmax).total_exp <= numeric_fields(false, m + 1, n, es, kmax).total_exp,
        numeric_fields(false, m + 1, n, es, kmax).total_exp - numeric_fields(false, m, n, es, kmax).total_exp
            < 2 * pow2(es),
{
    lemma_positive_class(m, n, es, kmax);
    lemma_positive_class(m + 1, n, es, kmax);
    lemma_class_k_mono(m, m + 1, n, kmax);
    lemma_positive_order(m, m + 1, n, es, kmax);
    let k = class_k(m, n, kmax);
    let k2 = class_k(m + 1, n, kmax);
    let p = pow2(es);
    let a = class_avail(n, kmax, k);
    let fl = (a - es) as nat;
    let e = (m % pow2(a)) / pow2(fl);
    let a2 = class_avail(n, kmax, k2);
    let e2 = ((m + 1) % pow2(a2)) / pow2((a2 - es) as nat);
    if k == k2 {
        lemma_pow2_pos(a);
        lemma_pow2_pos(fl);
        lemma_fundamental_div_mod(m as int, pow2(a) as int);
        lemma_fundamental_div_mod((m + 1) as int, pow2(a) as int);
        let low = m % pow2(a);
        let low2 = (m + 1) % pow2(a);
        assert(low2 == low + 1);
        lemma_fundamental_div_mod(low as int, pow2(fl) as int);
        lemma_fundamental_div_mod(low2 as int, pow2(fl) as int);
        lemma_mod_bound(low as int, pow2(fl) as int);
        lemma_mod_bound(low2 as int, pow2(fl) as int);
        assert(e2 <= e + 1) by (nonlinear_arith)
            requires
                low + 1 == pow2(fl) * e2 + low2 % pow2(fl),
                low == pow2(fl) * e + low % pow2(fl),
                low % pow2(fl) < pow2(fl),
                low2 % pow2(fl) >= 0,
                pow2(fl) > 0,
        ;
        assert(p >= 1) by {
            lemma_pow2_pos(es);
        }
    } else {
        assert(k2 == k + 1);
        lemma_pow2_pos(a);
        lemma_pow2_pos(fl);
        assert(e >= 0);
        assert(e2 < p);
        assert(k2 * p + e2 - (k * p + e) < 2 * p) by (nonlinear_arith)
            requires k2 == k + 1, e2 < p, e >= 0;
    }
}

} // verus!
