//! Decoding a bounded posit into its constituent bit fields.
//!
//! The layout of a b-posit, reading left to right, is
//!
//! ```text
//!   sign   regime run    [terminator]   exponent   fraction
//!    1        1..=cap       0 or 1          es       the rest
//! ```
//!
//! where `cap = k_max + 1` bounds the regime run. The one rule that makes a *bounded* posit
//! differ from an ordinary posit: when the run reaches `cap`, the terminating bit is suppressed,
//! and that bit belongs to the exponent instead. This is what puts a floor under the fraction
//! width.

use vstd::prelude::*;
use vstd::arithmetic::power2::{
    lemma2_to64, lemma2_to64_rest, lemma_pow2_adds, lemma_pow2_pos, lemma_pow2_strictly_increases,
    pow2,
};
use vstd::arithmetic::div_mod::{
    lemma_div_denominator, lemma_div_multiples_vanish, lemma_fundamental_div_mod,
    lemma_fundamental_div_mod_converse, lemma_mod_bound,
};
use vstd::arithmetic::mul::{lemma_mul_basics, lemma_mul_is_associative, lemma_mul_is_commutative};
use vstd::bits::{
    lemma_u64_low_bits_mask_is_mod, lemma_u64_pow2_no_overflow, lemma_u64_shl_is_mul,
    lemma_u64_shr_is_div, low_bits_mask,
};
use crate::text::push_char;

verus! {

/// Where the hidden (implicit leading) bit of [`Fields::frac`] sits.
pub const HIDDEN_BIT: u32 = 60;

/// The two encodings that stand outside the numeric grid.
#[derive(Clone, Copy, PartialEq, Eq, Structural, Debug)]
pub enum Special {
    Zero,
    /// "Not a Real": the posit analogue of NaN, and the only non-numeric value.
    NaR,
}

/// A fully decoded posit bit pattern.
#[derive(Clone, Copy, Debug)]
pub struct Fields {
    pub special: Option<Special>,
    pub neg: bool,
    /// Width of each field, in bits, in left-to-right order.
    pub regime_len: u32,
    /// 1 when a terminating bit is present, 0 when it was suppressed by the cap.
    pub term_len: u32,
    pub exp_len: u32,
    pub frac_len: u32,
    /// True when the regime run hit `cap` and the terminator was therefore suppressed.
    pub capped: bool,
    /// Regime value `k`.
    pub k: i64,
    /// Value of the exponent field.
    pub e: u64,
    /// Total binary exponent, `k·2^es + e`.
    pub total_exp: i64,
    /// Significand with the hidden bit at [`HIDDEN_BIT`], so the value is
    /// `±frac × 2^(total_exp − HIDDEN_BIT)`.
    pub frac: u64,
    /// The magnitude bit pattern the fields were read from. For a negative posit this is the
    /// two's complement of the stored pattern.
    pub magnitude: u64,
}

/// Bit `i` of `x`.
pub open spec fn bit_of(x: nat, i: nat) -> nat {
    (x / pow2(i)) % 2
}

/// The number of consecutive bits of `m` equal to `v`, reading from position `i` downwards.
pub open spec fn run_len(m: nat, i: int, v: nat) -> nat
    decreases i + 1,
{
    if i < 0 {
        0
    } else if bit_of(m, i as nat) == v {
        1 + run_len(m, i - 1, v)
    } else {
        0
    }
}

/// The magnitude that the fields of the `n`-bit pattern `u` are read from: the pattern itself
/// when non-negative, its two's complement when negative.
pub open spec fn magnitude_of(u: nat, n: nat) -> nat {
    if u >= pow2((n - 1) as nat) {
        (pow2(n) - u) as nat
    } else {
        u
    }
}

/// The fields of a numeric (non-zero, non-NaR) pattern, given its sign and magnitude `m`.
pub open spec fn numeric_fields(neg: bool, m: nat, n: nat, es: nat, kmax: nat) -> Fields {
    let v = bit_of(m, (n - 2) as nat);
    let raw = run_len(m, n - 2, v);
    let cap = kmax + 1;
    let run: nat = if raw < cap { raw } else { cap };
    let capped = raw >= cap;
    let k: int = if v == 1 { run - 1 } else { -run };
    let term: nat = if capped || run >= n - 1 { 0 } else { 1 };
    let avail = (n - 1 - run - term) as nat;
    let exp_len: nat = if es < avail { es } else { avail };
    let frac_len = (avail - exp_len) as nat;
    let low = m % pow2(avail);
    let e = (low * pow2(es)) / pow2(avail);
    let fv = low % pow2(frac_len);
    let frac = pow2(60) + (fv * pow2(60)) / pow2(frac_len);
    Fields {
        special: None,
        neg: neg,
        regime_len: run as u32,
        term_len: term as u32,
        exp_len: exp_len as u32,
        frac_len: frac_len as u32,
        capped: capped,
        k: k as i64,
        e: e as u64,
        total_exp: (k * pow2(es) + e) as i64,
        frac: frac as u64,
        magnitude: m as u64,
    }
}

/// The fields of the low `n` bits of `bits` under the format `(n, es, k_max)`.
pub open spec fn spec_decode(bits: u64, n: nat, es: nat, kmax: nat) -> Fields {
    let u = (bits as nat) % pow2(n);
    let blank = Fields {
        special: None,
        neg: false,
        regime_len: 0,
        term_len: 0,
        exp_len: 0,
        frac_len: 0,
        capped: false,
        k: 0,
        e: 0,
        total_exp: 0,
        frac: 0,
        magnitude: u as u64,
    };
    if u == 0 {
        Fields { special: Some(Special::Zero), ..blank }
    } else if u == pow2((n - 1) as nat) {
        Fields { special: Some(Special::NaR), neg: true, ..blank }
    } else {
        numeric_fields(u >= pow2((n - 1) as nat), magnitude_of(u, n), n, es, kmax)
    }
}

/// A posit and its negation share a magnitude: for any width, exponent size and cap, the two's
/// complement of a numeric pattern decodes to the same fields with the other sign.
pub proof fn lemma_decode_negation(bits: u64, neg_bits: u64, n: nat, es: nat, kmax: nat)
    requires
        3 <= n <= 64,
        (bits as nat) % pow2(n) != 0,
        (bits as nat) % pow2(n) != pow2((n - 1) as nat),
        neg_bits as nat == pow2(n) - (bits as nat) % pow2(n),
    ensures
        ({
            let f = spec_decode(bits, n, es, kmax);
            let g = spec_decode(neg_bits, n, es, kmax);
            &&& f.special.is_none()
            &&& g.special.is_none()
            &&& g.neg == !f.neg
            &&& g == Fields { neg: g.neg, ..f }
        }),
{
    lemma2_to64();
    lemma2_to64_rest();
    vstd::arithmetic::power2::lemma_pow2_adds(1, (n - 1) as nat);
    assert(n == 1 + (n - 1) as nat);
    vstd::arithmetic::power2::lemma_pow2_pos(n);
    let u = (bits as nat) % pow2(n);
    vstd::arithmetic::div_mod::lemma_mod_bound(bits as int, pow2(n) as int);
    let w = neg_bits as nat;
    vstd::arithmetic::div_mod::lemma_small_mod(w, pow2(n));
    assert(magnitude_of(w, n) == magnitude_of(u, n));
}

/// The parameters `decode` accepts: the total exponent `k·2^es + e` must fit an `i64`.
pub open spec fn decode_params_ok(n: u32, es: u32, kmax: u32) -> bool {
    &&& 3 <= n <= 64
    &&& es <= 62
    &&& kmax < u32::MAX
    &&& (n - 1) * pow2(es as nat) <= pow2(63)
}

/// `x << n`, yielding 0 rather than shifting out of range when `n >= 64`.
pub fn shl_checked(x: u64, n: u32) -> (r: u64)
    ensures
        r as nat == if n < 64 { ((x as nat) * pow2(n as nat)) % pow2(64) } else { 0 },
{
    if n >= 64 {
        0
    } else {
        proof {
            lemma_shl_mod(x, n);
        }
        x << n
    }
}

/// `x >> n`, yielding 0 rather than shifting out of range when `n >= 64`.
pub fn shr_checked(x: u64, n: u32) -> (r: u64)
    ensures
        r as nat == (x as nat) / pow2(n as nat),
{
    if n >= 64 {
        proof {
            lemma2_to64_rest();
            if n > 64 {
                lemma_pow2_strictly_increases(64, n as nat);
            }
            vstd::arithmetic::div_mod::lemma_basic_div(x as int, pow2(n as nat) as int);
        }
        0
    } else {
        proof {
            lemma_u64_shr_is_div(x, n as u64);
        }
        x >> n
    }
}

/// `x << n` for `n < 64` keeps the low 64 bits of `x · 2^n`.
proof fn lemma_shl_mod(x: u64, n: u32)
    requires
        n < 64,
    ensures
        ((x << n) as nat) == ((x as nat) * pow2(n as nat)) % pow2(64),
{
    lemma2_to64_rest();
    lemma_u64_pow2_no_overflow(n as nat);
    lemma_mul_basics(pow2(n as nat) as int);
    lemma_u64_shl_is_mul(1, n as u64);
    assert((x << n) as nat == ((x as nat) * ((1u64 << n) as nat)) % 0x1_0000_0000_0000_0000nat)
        by (bit_vector)
        requires n < 64u32;
}

/// Mask of the low `n` bits.
pub fn mask_n(n: u32) -> (r: u64)
    ensures
        r as nat == if n >= 64 { pow2(64) - 1 } else { pow2(n as nat) - 1 },
{
    if n >= 64 {
        proof {
            lemma2_to64_rest();
        }
        u64::MAX
    } else {
        proof {
            lemma_u64_pow2_no_overflow(n as nat);
            lemma_mul_basics(pow2(n as nat) as int);
            lemma_u64_shl_is_mul(1, n as u64);
        }
        (1u64 << n) - 1
    }
}

/// The character shown for one bit.
pub open spec fn bit_char(x: nat, i: nat) -> char {
    if bit_of(x, i) == 1 {
        '1'
    } else {
        '0'
    }
}

/// The raw stored bit pattern as a string of `n` '0'/'1' characters, most significant first.
pub fn bitstring(bits: u64, n: u32) -> (s: String)
    requires
        n <= 64,
    ensures
        s@.len() == n,
        forall|j: int| 0 <= j < n ==> #[trigger] s@[j] == bit_char(bits as nat, (n - 1 - j) as nat),
{
    let mut s = String::new();
    let mut i: u32 = n;
    while i > 0
        invariant
            i <= n <= 64,
            s@.len() == n - i,
            forall|j: int| 0 <= j < n - i ==> #[trigger] s@[j] == bit_char(bits as nat, (n - 1 - j) as nat),
        decreases i,
    {
        i -= 1;
        let t = bits >> i;
        proof {
            lemma_u64_shr_is_div(bits, i as u64);
        }
        assert(t & 1 == t % 2) by (bit_vector);
        let c = if (t & 1) == 1 { '1' } else { '0' };
        push_char(&mut s, c);
    }
    s
}

/// `(x · 2^a) / 2^(a+b) = x / 2^b`.
proof fn lemma_scale_down(x: nat, a: nat, b: nat)
    ensures
        (x * pow2(a)) / pow2(a + b) == x / pow2(b),
{
    lemma_pow2_pos(a);
    lemma_pow2_pos(b);
    lemma_pow2_adds(a, b);
    lemma_div_denominator((x * pow2(a)) as int, pow2(a) as int, pow2(b) as int);
    lemma_mul_is_commutative(x as int, pow2(a) as int);
    lemma_div_multiples_vanish(x as int, pow2(a) as int);
}

/// `(x · 2^(a+b)) / 2^a = x · 2^b`.
proof fn lemma_scale_exact(x: nat, a: nat, b: nat)
    ensures
        (x * pow2(a + b)) / pow2(a) == x * pow2(b),
{
    lemma_pow2_pos(a);
    lemma_pow2_adds(a, b);
    assert(x * pow2(a + b) == pow2(a) * (x * pow2(b))) by (nonlinear_arith)
        requires pow2(a + b) == pow2(a) * pow2(b);
    lemma_div_multiples_vanish((x * pow2(b)) as int, pow2(a) as int);
}

/// Bit `p` of `m`, computed with machine shifts.
fn bit_at(m: u64, p: u32) -> (b: u64)
    requires
        p < 64,
    ensures
        b as nat == bit_of(m as nat, p as nat),
        b <= 1,
{
    let t = m >> p;
    proof {
        lemma_u64_shr_is_div(m, p as u64);
    }
    assert(t & 1 == t % 2) by (bit_vector);
    t & 1
}

/// The low `a` bits of `m`, for `a < 64`.
fn low_bits(m: u64, a: u32) -> (r: u64)
    requires
        a < 64,
    ensures
        r as nat == (m as nat) % pow2(a as nat),
        (r as nat) < pow2(a as nat),
{
    let mask = mask_n(a);
    proof {
        lemma_u64_pow2_no_overflow(a as nat);
        lemma_u64_low_bits_mask_is_mod(m, a as nat);
        lemma_pow2_pos(a as nat);
        lemma_mod_bound(m as int, pow2(a as nat) as int);
    }
    m & mask
}

/// Decode the fields of a numeric pattern from its sign and magnitude.
fn decode_numeric(neg: bool, m: u64, n: u32, es: u32, kmax: u32) -> (f: Fields)
    requires
        decode_params_ok(n, es, kmax),
        1 <= m,
        (m as nat) < pow2((n - 1) as nat),
    ensures
        f == numeric_fields(neg, m as nat, n as nat, es as nat, kmax as nat),
{
    let cap = kmax + 1;
    let v = bit_at(m, n - 2);
    let ghost raw = run_len(m as nat, n - 2, v as nat);
    let mut c: u32 = 0;
    proof {
        reveal_with_fuel(run_len, 2);
    }
    loop
        invariant
            decode_params_ok(n, es, kmax),
            cap == kmax + 1,
            v as nat == bit_of(m as nat, (n - 2) as nat),
            raw == run_len(m as nat, n - 2, v as nat),
            c <= n - 1,
            c <= cap,
            raw == c + run_len(m as nat, n - 2 - c, v as nat),
        ensures
            raw == c || (c == cap && raw >= cap),
        decreases n - 1 - c,
    {
        if c >= cap {
            break;
        }
        if c >= n - 1 {
            break;
        }
        let b = bit_at(m, n - 2 - c);
        if b != v {
            break;
        }
        c += 1;
    }
    let capped = c >= cap;
    let k: i64 = if v == 1 {
        c as i64 - 1
    } else {
        -(c as i64)
    };
    let term: u32 = if capped || c >= n - 1 {
        0
    } else {
        1
    };
    let avail: u32 = n - 1 - c - term;
    let exp_len: u32 = if es < avail {
        es
    } else {
        avail
    };
    let frac_len: u32 = avail - exp_len;
    let low = low_bits(m, avail);
    let e: u64 = if es <= avail {
        proof {
            lemma_u64_shr_is_div(low, (avail - es) as u64);
            lemma_scale_down(low as nat, es as nat, (avail - es) as nat);
        }
        low >> (avail - es)
    } else {
        proof {
            lemma_pow2_adds(avail as nat, (es - avail) as nat);
            lemma_pow2_pos((es - avail) as nat);
            assert((low as nat) * pow2((es - avail) as nat) < pow2(es as nat)) by (nonlinear_arith)
                requires
                    (low as nat) < pow2(avail as nat),
                    pow2(es as nat) == pow2(avail as nat) * pow2((es - avail) as nat),
                    pow2((es - avail) as nat) > 0,
            ;
            lemma_pow2_strictly_increases(es as nat, 64);
            lemma2_to64_rest();
            lemma_u64_shl_is_mul(low, (es - avail) as u64);
            lemma_scale_exact(low as nat, avail as nat, (es - avail) as nat);
            lemma_mul_is_associative(low as int, pow2(avail as nat) as int, pow2((es - avail) as nat) as int);
        }
        low << (es - avail)
    };
    let fv = low_bits(low, frac_len);
    let ff: u64 = if frac_len <= 60 {
        proof {
            lemma_pow2_adds(frac_len as nat, (60 - frac_len) as nat);
            lemma_pow2_pos((60 - frac_len) as nat);
            assert((fv as nat) * pow2((60 - frac_len) as nat) < pow2(60)) by (nonlinear_arith)
                requires
                    (fv as nat) < pow2(frac_len as nat),
                    pow2(60) == pow2(frac_len as nat) * pow2((60 - frac_len) as nat),
                    pow2((60 - frac_len) as nat) > 0,
            ;
            lemma2_to64_rest();
            lemma_u64_shl_is_mul(fv, (60 - frac_len) as u64);
            lemma_scale_exact(fv as nat, frac_len as nat, (60 - frac_len) as nat);
        }
        fv << (60 - frac_len)
    } else {
        proof {
            lemma_u64_shr_is_div(fv, (frac_len - 60) as u64);
            lemma_scale_down(fv as nat, 60, (frac_len - 60) as nat);
            lemma_pow2_adds(60, (frac_len - 60) as nat);
            lemma_pow2_pos(60);
            vstd::arithmetic::div_mod::lemma_div_is_ordered(fv as int, pow2(frac_len as nat) as int, pow2((frac_len - 60) as nat) as int);
            lemma_pow2_pos((frac_len - 60) as nat);
            lemma_div_multiples_vanish(pow2(60) as int, pow2((frac_len - 60) as nat) as int);
            lemma_mul_is_commutative(pow2(60) as int, pow2((frac_len - 60) as nat) as int);
            vstd::arithmetic::div_mod::lemma_div_is_ordered(fv as int, (pow2(frac_len as nat) - 1) as int, pow2((frac_len - 60) as nat) as int);
            assert((fv as nat) / pow2((frac_len - 60) as nat) < pow2(60)) by {
                vstd::arithmetic::div_mod::lemma_multiply_divide_lt(fv as int, pow2((frac_len - 60) as nat) as int, pow2(60) as int);
            }
        }
        fv >> (frac_len - 60)
    };
    assert(ff < 0x1000_0000_0000_0000u64) by {
        lemma2_to64_rest();
    }
    assert((1u64 << 60u64) | ff == 0x1000_0000_0000_0000u64 + ff) by (bit_vector)
        requires ff < 0x1000_0000_0000_0000u64;
    let frac: u64 = (1u64 << 60u64) | ff;
    proof {
        lemma_pow2_strictly_increases(es as nat, 63);
        lemma2_to64_rest();
        lemma_u64_shl_is_mul(1, es as u64);
        lemma_mul_basics(pow2(es as nat) as int);
    }
    let scale: i64 = (1u64 << es) as i64;
    proof {
        let ghost p = pow2(es as nat);
        lemma_pow2_pos(es as nat);
        assert(-((n - 1) as int) <= k <= (n - 2) as int);
        assert(k * p >= -((n - 1) * p)) by (nonlinear_arith)
            requires k >= -((n - 1) as int), p >= 0;
        assert(k * p <= (n - 2) * p) by (nonlinear_arith)
            requires k <= (n - 2) as int, p >= 0;
        assert((low as nat) * pow2(es as nat) < pow2(avail as nat) * pow2(es as nat)) by (nonlinear_arith)
            requires (low as nat) < pow2(avail as nat), pow2(es as nat) > 0;
        lemma_pow2_pos(avail as nat);
        vstd::arithmetic::div_mod::lemma_multiply_divide_lt(((low as nat) * pow2(es as nat)) as int, pow2(avail as nat) as int, pow2(es as nat) as int);
        lemma_mul_is_commutative(pow2(avail as nat) as int, pow2(es as nat) as int);
        assert((n - 2) * p + p == (n - 1) * p) by (nonlinear_arith);
    }
    let total_exp: i64 = k * scale + e as i64;
    Fields {
        special: None,
        neg: neg,
        regime_len: c,
        term_len: term,
        exp_len: exp_len,
        frac_len: frac_len,
        capped: capped,
        k: k,
        e: e,
        total_exp: total_exp,
        frac: frac,
        magnitude: m,
    }
}

/// Decode `bits` (only the low `n` are read) under the format `(n, es, k_max)`.
///
/// Passing `k_max = n - 1` disables the cap, yielding ordinary (unbounded) posit semantics,
/// which is how the "unbounded shadow" comparison is produced.
pub fn decode(bits: u64, n: u32, es: u32, kmax: u32) -> (f: Fields)
    requires
        decode_params_ok(n, es, kmax),
    ensures
        f == spec_decode(bits, n as nat, es as nat, kmax as nat),
{
    let mask = mask_n(n);
    proof {
        lemma2_to64_rest();
        if n < 64 {
            lemma_u64_pow2_no_overflow(n as nat);
            lemma_u64_low_bits_mask_is_mod(bits, n as nat);
        } else {
            assert(bits & 0xffff_ffff_ffff_ffffu64 == bits) by (bit_vector);
            vstd::arithmetic::div_mod::lemma_small_mod(bits as nat, pow2(64));
        }
    }
    let u = bits & mask;
    let blank = Fields {
        special: None,
        neg: false,
        regime_len: 0,
        term_len: 0,
        exp_len: 0,
        frac_len: 0,
        capped: false,
        k: 0,
        e: 0,
        total_exp: 0,
        frac: 0,
        magnitude: u,
    };
    if u == 0 {
        return Fields { special: Some(Special::Zero), ..blank };
    }
    proof {
        lemma_u64_pow2_no_overflow((n - 1) as nat);
        lemma_mul_basics(pow2((n - 1) as nat) as int);
        lemma_u64_shl_is_mul(1, (n - 1) as u64);
        lemma_pow2_adds(1, (n - 1) as nat);
        lemma2_to64();
        assert(pow2(n as nat) == 2 * pow2((n - 1) as nat));
    }
    let half = 1u64 << (n - 1);
    if u == half {
        return Fields { special: Some(Special::NaR), neg: true, ..blank };
    }
    let neg = u >= half;
    let m = if neg {
        (mask - u) + 1
    } else {
        u
    };
    decode_numeric(neg, m, n, es, kmax)
}

} // verus!
