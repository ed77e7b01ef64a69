//! Exact rational arithmetic, for showing what an operation produced before it was rounded.
//!
//! Sums, differences and products of posits are dyadic and could be handled with plain big
//! integers, but quotients are not (`1/3` has no finite binary expansion), so the inspector needs
//! a real numerator and denominator.
//!
//! Fractions are not reduced to lowest terms; only common powers of two are stripped. A full GCD
//! would cost more than it saves here, because each displayed value is the result of one or two
//! operations rather than a long chain.

use vstd::prelude::*;
use vstd::arithmetic::power2::{lemma2_to64, lemma_pow2_adds, lemma_pow2_pos, pow2};
use vstd::arithmetic::div_mod::{
    lemma_div_by_multiple, lemma_div_denominator, lemma_fundamental_div_mod,
};
use vstd::arithmetic::mul::{lemma_mul_basics, lemma_mul_is_associative, lemma_mul_is_commutative};
use crate::arith::{lemma_pow10_pos, lemma_pow10_split, lemma_pow5_pos, pow10, pow5};
use crate::bignum::Big;
use crate::decimal::{lemma_strip_prefix, render, rendered_text, sci_from, sci_parts};
use crate::digits::{dec_digits, lemma_dec_all_digits, lemma_dec_len_bound};
use crate::text::push_char;
use core::cmp::Ordering;

verus! {

/// The number of factors of two in `x`.
pub open spec fn twos(x: nat) -> nat
    decreases x,
{
    if x > 0 && x % 2 == 0 {
        1 + twos(x / 2)
    } else {
        0
    }
}

/// Common factors of two removed; zero is `+0/1`.
pub open spec fn normalized(neg: bool, n: nat, d: nat) -> (bool, nat, nat) {
    if n == 0 {
        (false, 0, 1)
    } else {
        let t = if twos(n) < twos(d) { twos(n) } else { twos(d) };
        (neg, n / pow2(t), d / pow2(t))
    }
}

/// Halving `x` a number of times below its count of twos leaves an even number.
proof fn lemma_twos_even(x: nat, i: nat)
    requires
        x > 0,
        i <= twos(x),
    ensures
        x / pow2(i) > 0,
        (x / pow2(i)) % 2 == 0 <==> i < twos(x),
        x / pow2(i) / 2 == x / pow2(i + 1),
    decreases i,
{
    lemma2_to64();
    lemma_pow2_pos(i);
    lemma_pow2_adds(i, 1);
    lemma_div_denominator(x as int, pow2(i) as int, 2);
    if i > 0 {
        assert(x % 2 == 0);
        assert(twos(x) == 1 + twos(x / 2));
        lemma_fundamental_div_mod(x as int, 2);
        assert(x / 2 > 0);
        lemma_twos_even(x / 2, (i - 1) as nat);
        lemma_pow2_adds(1, (i - 1) as nat);
        lemma_pow2_pos((i - 1) as nat);
        lemma_div_denominator(x as int, 2, pow2((i - 1) as nat) as int);
        assert(pow2(i) == 2 * pow2((i - 1) as nat));
        assert(x / pow2(i) == (x / 2) / pow2((i - 1) as nat));
    } else {
        assert(x / pow2(0) == x);
    }
}

/// A signed exact rational, `±num / den`, with `den` never zero.
#[derive(Clone, Debug)]
pub struct Rational {
    pub neg: bool,
    num: Big,
    den: Big,
}

impl Rational {
    pub closed spec fn numer(&self) -> nat {
        self.num@
    }

    pub closed spec fn denom(&self) -> nat {
        self.den@
    }

    /// Both parts are well-formed big integers and the denominator is positive.
    pub closed spec fn wf(&self) -> bool {
        self.num.wf() && self.den.wf() && self.den@ > 0
    }

    /// Sign, numerator and denominator.
    pub closed spec fn parts(&self) -> (bool, nat, nat) {
        (self.neg, self.numer(), self.denom())
    }

    /// The numerator with the sign applied: the value is `signed_num / denom`.
    pub closed spec fn signed_num(&self) -> int {
        if self.neg {
            -(self.numer() as int)
        } else {
            self.numer() as int
        }
    }

    pub fn new(neg: bool, num: Big, den: Big) -> (r: Rational)
        requires
            num.wf(),
            den.wf(),
            den@ > 0,
        ensures
            r.wf(),
            r.parts() == normalized(neg, num@, den@),
    {
        if num.is_zero() {
            return Rational::zero();
        }
        let mut r = Rational { neg, num, den };
        r.strip_common_twos();
        r
    }

    pub fn zero() -> (r: Rational)
        ensures
            r.wf(),
            r.parts() == (false, 0nat, 1nat),
    {
        Rational { neg: false, num: Big::zero(), den: Big::one() }
    }

    /// Keeps dyadic values (the common case) from carrying a needlessly large denominator.
    fn strip_common_twos(&mut self)
        requires
            old(self).wf(),
            old(self).numer() > 0,
        ensures
            final(self).wf(),
            final(self).parts() == normalized(old(self).neg, old(self).numer(), old(self).denom()),
    {
        let ghost n0 = self.num@;
        let ghost d0 = self.den@;
        let ghost mut i: nat = 0;
        proof {
            lemma_pow2_pos(0);
            lemma2_to64();
        }
        while self.num.is_even() && self.den.is_even()
            invariant
                self.num.wf(),
                self.den.wf(),
                n0 > 0,
                d0 > 0,
                i <= twos(n0),
                i <= twos(d0),
                self.num@ == n0 / pow2(i),
                self.den@ == d0 / pow2(i),
                self.neg == old(self).neg,
                n0 == old(self).numer(),
                d0 == old(self).denom(),
            decreases self.num@,
        {
            proof {
                lemma_twos_even(n0, i);
                lemma_twos_even(d0, i);
            }
            self.num.shr_bits(1);
            self.den.shr_bits(1);
            proof {
                lemma2_to64();
                i = i + 1;
            }
        }
        proof {
            lemma_twos_even(n0, i);
            lemma_twos_even(d0, i);
            let t = if twos(n0) < twos(d0) { twos(n0) } else { twos(d0) };
            assert(i == t);
        }
    }

    pub fn is_zero(&self) -> (z: bool)
        requires
            self.wf(),
        ensures
            z == (self.numer() == 0),
    {
        self.num.is_zero()
    }
}


/// `b *= 10^n`
fn mul_pow10(b: &mut Big, n: u32)
    requires
        old(b).wf(),
    ensures
        final(b).wf(),
        final(b)@ == old(b)@ * pow10(n as nat),
{
    proof {
        lemma_pow10_split(n as nat);
        lemma_mul_is_associative(b@ as int, pow5(n as nat) as int, pow2(n as nat) as int);
    }
    if n == 0 || b.is_zero() {
        proof {
            lemma_mul_basics(b@ as int);
            assert(pow10(0) == 1);
        }
        return;
    }
    b.mul_pow5(n);
    b.shl_bits(n);
}

/// The value `a + b` of two signed fractions, before common twos are stripped: the sign of the
/// larger magnitude over the product of the denominators.
pub open spec fn sum_parts(a: (bool, nat, nat), b: (bool, nat, nat)) -> (bool, nat, nat) {
    let n1 = a.1 * b.2;
    let n2 = b.1 * a.2;
    let d = a.2 * b.2;
    if a.0 == b.0 {
        normalized(a.0, n1 + n2, d)
    } else if n1 > n2 {
        normalized(a.0, (n1 - n2) as nat, d)
    } else if n1 < n2 {
        normalized(b.0, (n2 - n1) as nat, d)
    } else {
        (false, 0, 1)
    }
}

/// The negation of a signed fraction; zero stays `+0/1`.
pub open spec fn negated_parts(a: (bool, nat, nat)) -> (bool, nat, nat) {
    if a.1 == 0 {
        (false, 0, 1)
    } else {
        normalized(!a.0, a.1, a.2)
    }
}

impl Rational {
    /// `±frac × 2^(exp − HIDDEN_BIT)`, the form a decoded posit comes in.
    pub fn from_significand(neg: bool, frac: u64, exp: i64) -> (r: Rational)
        requires
            -0xffff_ffff + 60 <= exp <= 0xffff_ffff + 60,
        ensures
            r.wf(),
            r.parts() == (if exp >= 60 {
                normalized(neg, frac as nat * pow2((exp - 60) as nat), 1)
            } else {
                normalized(neg, frac as nat, pow2((60 - exp) as nat))
            }),
    {
        let e = exp - crate::bits::HIDDEN_BIT as i64;
        let mut num = Big::from_u64(frac);
        let mut den = Big::one();
        if e > 0 {
            num.shl_bits(e as u32);
        } else if e < 0 {
            den.shl_bits((-e) as u32);
            proof {
                lemma_mul_basics(pow2((60 - exp) as nat) as int);
                lemma_pow2_pos((60 - exp) as nat);
            }
        } else {
            proof {
                lemma2_to64();
                lemma_mul_basics(frac as int);
            }
        }
        Rational::new(neg, num, den)
    }

    /// A small integer, for the constants operations need (1 for reciprocal, 2 for doubling).
    pub fn from_int(v: i64) -> (r: Rational)
        ensures
            r.wf(),
            r.parts() == normalized(v < 0, (if v < 0 { -(v as int) } else { v as int }) as nat, 1),
    {
        let m: u64 = if v < 0 { (0i128 - v as i128) as u64 } else { v as u64 };
        let r = Rational::from_significand(v < 0, m, crate::bits::HIDDEN_BIT as i64);
        proof {
            lemma2_to64();
            lemma_mul_basics(m as int);
        }
        r
    }

    /// `±mantissa × 10^exp10`, the form a typed literal comes in.
    pub fn from_decimal_parts(neg: bool, mantissa: Big, exp10: i32) -> (r: Rational)
        requires
            mantissa.wf(),
        ensures
            r.wf(),
            r.parts() == (if exp10 >= 0 {
                normalized(neg, mantissa@ * pow10(exp10 as nat), 1)
            } else {
                normalized(neg, mantissa@, pow10((-exp10) as nat))
            }),
    {
        let mut num = mantissa;
        let mut den = Big::one();
        if exp10 > 0 {
            mul_pow10(&mut num, exp10 as u32);
        } else if exp10 < 0 {
            mul_pow10(&mut den, (0i64 - exp10 as i64) as u32);
            proof {
                lemma_mul_basics(pow10((-exp10) as nat) as int);
            }
        } else {
            proof {
                assert(pow10(0) == 1);
                lemma_mul_basics(mantissa@ as int);
            }
        }
        proof {
            lemma_pow10_pos((-exp10) as nat);
        }
        Rational::new(neg, num, den)
    }

    pub fn negated(&self) -> (r: Rational)
        requires
            self.wf(),
        ensures
            r.wf(),
            r.parts() == negated_parts(self.parts()),
    {
        if self.is_zero() {
            return Rational::zero();
        }
        Rational::new(!self.neg, self.num.dup(), self.den.dup())
    }

    pub fn add(&self, other: &Rational) -> (r: Rational)
        requires
            self.wf(),
            other.wf(),
        ensures
            r.wf(),
            r.parts() == sum_parts(self.parts(), other.parts()),
    {
        let n1 = self.num.mul_big(&other.den);
        let n2 = other.num.mul_big(&self.den);
        let den = self.den.mul_big(&other.den);
        proof {
            lemma_product_positive(self.den@, other.den@);
        }
        if self.neg == other.neg {
            let mut n = n1;
            n.add(&n2);
            Rational::new(self.neg, n, den)
        } else {
            // Opposite signs: the larger magnitude wins and sets the sign.
            match n1.cmp(&n2) {
                Ordering::Greater => {
                    let mut n = n1;
                    n.sub_assign(&n2);
                    Rational::new(self.neg, n, den)
                },
                Ordering::Less => {
                    let mut n = n2;
                    n.sub_assign(&n1);
                    Rational::new(other.neg, n, den)
                },
                Ordering::Equal => Rational::zero(),
            }
        }
    }

    pub fn sub(&self, other: &Rational) -> (r: Rational)
        requires
            self.wf(),
            other.wf(),
        ensures
            r.wf(),
            r.parts() == sum_parts(self.parts(), negated_parts(other.parts())),
    {
        self.add(&other.negated())
    }

    pub fn mul(&self, other: &Rational) -> (r: Rational)
        requires
            self.wf(),
            other.wf(),
        ensures
            r.wf(),
            r.parts() == normalized(
                self.parts().0 != other.parts().0,
                self.numer() * other.numer(),
                self.denom() * other.denom(),
            ),
    {
        proof {
            lemma_product_positive(self.den@, other.den@);
        }
        Rational::new(self.neg != other.neg, self.num.mul_big(&other.num), self.den.mul_big(&other.den))
    }

    /// `None` when dividing by zero: the caller decides whether that means NaR.
    pub fn div(&self, other: &Rational) -> (r: Option<Rational>)
        requires
            self.wf(),
            other.wf(),
        ensures
            other.numer() == 0 ==> r is None,
            other.numer() != 0 ==> match r {
                Some(q) => q.wf() && q.parts() == normalized(
                    self.parts().0 != other.parts().0,
                    self.numer() * other.denom(),
                    self.denom() * other.numer(),
                ),
                None => false,
            },
    {
        if other.is_zero() {
            return None;
        }
        proof {
            lemma_product_positive(self.den@, other.num@);
        }
        Some(Rational::new(self.neg != other.neg, self.num.mul_big(&other.den), self.den.mul_big(&other.num)))
    }

    pub fn abs(&self) -> (r: Rational)
        requires
            self.wf(),
        ensures
            r.wf(),
            r.parts() == (false, self.numer(), self.denom()),
    {
        Rational { neg: false, num: self.num.dup(), den: self.den.dup() }
    }

    /// Signed comparison.
    pub fn cmp(&self, other: &Rational) -> (o: Ordering)
        requires
            self.wf(),
            other.wf(),
        ensures
            (o == Ordering::Less) == (self.signed_num() * other.denom() < other.signed_num() * self.denom()),
            (o == Ordering::Equal) == (self.signed_num() * other.denom() == other.signed_num() * self.denom()),
            (o == Ordering::Greater) == (self.signed_num() * other.denom() > other.signed_num() * self.denom()),
    {
        proof {
            lemma_signed_products(self.signed_num(), self.denom(), other.signed_num(), other.denom(), self.numer(), other.numer());
        }
        match (self.is_zero(), other.is_zero()) {
            (true, true) => {
                return Ordering::Equal;
            },
            (true, false) => {
                return if other.neg {
                    Ordering::Greater
                } else {
                    Ordering::Less
                };
            },
            (false, true) => {
                return if self.neg {
                    Ordering::Less
                } else {
                    Ordering::Greater
                };
            },
            _ => {},
        }
        match (self.neg, other.neg) {
            (false, true) => Ordering::Greater,
            (true, false) => Ordering::Less,
            (false, false) => self.cmp_abs(other),
            (true, true) => other.cmp_abs(self),
        }
    }

    /// Compare magnitudes: `a/b` versus `c/d` is `a·d` versus `c·b`.
    pub fn cmp_abs(&self, other: &Rational) -> (o: Ordering)
        requires
            self.wf(),
            other.wf(),
        ensures
            (o == Ordering::Less) == (self.numer() * other.denom() < other.numer() * self.denom()),
            (o == Ordering::Equal) == (self.numer() * other.denom() == other.numer() * self.denom()),
            (o == Ordering::Greater) == (self.numer() * other.denom() > other.numer() * self.denom()),
    {
        self.num.mul_big(&other.den).cmp(&other.num.mul_big(&self.den))
    }
}

proof fn lemma_product_positive(a: nat, b: nat)
    requires
        a > 0,
        b > 0,
    ensures
        a * b > 0,
{
    vstd::arithmetic::mul::lemma_mul_strictly_positive(a as int, b as int);
}

/// The signs of the cross products of two signed fractions with positive denominators.
proof fn lemma_signed_products(s1: int, d1: nat, s2: int, d2: nat, n1: nat, n2: nat)
    requires
        d1 > 0,
        d2 > 0,
        s1 == n1 || s1 == -n1,
        s2 == n2 || s2 == -n2,
    ensures
        n1 == 0 ==> s1 * d2 == 0,
        n2 == 0 ==> s2 * d1 == 0,
        (n1 > 0 && s1 == -n1) ==> s1 * d2 < 0,
        (n1 > 0 && s1 == n1) ==> s1 * d2 > 0,
        (n2 > 0 && s2 == -n2) ==> s2 * d1 < 0,
        (n2 > 0 && s2 == n2) ==> s2 * d1 > 0,
        s1 == -n1 && s2 == -n2 ==> (s1 * d2 < s2 * d1 <==> n2 * d1 < n1 * d2),
        s1 == -n1 && s2 == -n2 ==> (s1 * d2 == s2 * d1 <==> n2 * d1 == n1 * d2),
{
    assert(n1 == 0 ==> s1 * d2 == 0) by (nonlinear_arith)
        requires s1 == n1 || s1 == -n1;
    assert(n2 == 0 ==> s2 * d1 == 0) by (nonlinear_arith)
        requires s2 == n2 || s2 == -n2;
    assert((n1 > 0 && s1 == -n1) ==> s1 * d2 < 0) by (nonlinear_arith)
        requires d2 > 0;
    assert((n1 > 0 && s1 == n1) ==> s1 * d2 > 0) by (nonlinear_arith)
        requires d2 > 0;
    assert((n2 > 0 && s2 == -n2) ==> s2 * d1 < 0) by (nonlinear_arith)
        requires d1 > 0;
    assert((n2 > 0 && s2 == n2) ==> s2 * d1 > 0) by (nonlinear_arith)
        requires d1 > 0;
    assert(s1 == -n1 && s2 == -n2 ==> s1 * d2 == -(n1 * d2) && s2 * d1 == -(n2 * d1)) by (nonlinear_arith);
}


/// `x` without its factors of two.
pub open spec fn strip_twos(x: nat) -> nat
    decreases x,
{
    if x > 0 && x % 2 == 0 {
        strip_twos(x / 2)
    } else {
        x
    }
}

/// The number of factors of five in `x`.
pub open spec fn fives(x: nat) -> nat
    decreases x,
{
    if x > 0 && x % 5 == 0 {
        1 + fives(x / 5)
    } else {
        0
    }
}

/// `x` without its factors of five.
pub open spec fn strip_fives(x: nat) -> nat
    decreases x,
{
    if x > 0 && x % 5 == 0 {
        strip_fives(x / 5)
    } else {
        x
    }
}

/// The part of `den` left once its factors of two and five are taken out.
pub open spec fn odd_part(den: nat) -> nat {
    strip_fives(strip_twos(den))
}

/// The fraction `n / den` has a finite decimal expansion: what is left of `den` once its twos
/// and fives are taken out divides `n`, so that in lowest terms the denominator is `2^a · 5^b`.
/// [`lemma_terminates_finite`] shows this is `n × 10^k` being a multiple of `den` for some `k`.
pub open spec fn terminates(n: nat, den: nat) -> bool {
    n % odd_part(den) == 0
}

/// The power of ten that such a denominator divides: `max(a, b)`.
pub open spec fn clearing_scale(den: nat) -> nat {
    let a = twos(den);
    let b = fives(strip_twos(den));
    if a < b {
        b
    } else {
        a
    }
}

/// Dividing out the twos counted so far.
proof fn lemma_strip_twos(x: nat, i: nat)
    requires
        x > 0,
        i <= twos(x),
    ensures
        strip_twos(x / pow2(i)) == strip_twos(x),
        i == twos(x) ==> strip_twos(x) == x / pow2(i),
        pow2(twos(x)) <= x,
    decreases x,
{
    lemma_twos_even(x, i);
    lemma2_to64();
    if i > 0 {
        assert(x % 2 == 0);
        lemma_fundamental_div_mod(x as int, 2);
        lemma_strip_twos(x / 2, (i - 1) as nat);
        lemma_pow2_adds(1, (i - 1) as nat);
        lemma_pow2_pos((i - 1) as nat);
        lemma_div_denominator(x as int, 2, pow2((i - 1) as nat) as int);
        assert(x / pow2(i) == (x / 2) / pow2((i - 1) as nat));
        lemma_pow2_adds(1, twos(x / 2));
        assert(pow2(twos(x)) == 2 * pow2(twos(x / 2)));
    } else {
        assert(x / pow2(0) == x);
        if twos(x) > 0 {
            lemma_fundamental_div_mod(x as int, 2);
            lemma_twos_even(x / 2, 0);
            lemma_strip_twos(x / 2, 0);
            lemma_pow2_adds(1, twos(x / 2));
        }
    }
}

/// Dividing out the fives counted so far.
proof fn lemma_fives_step(x: nat, i: nat)
    requires
        x > 0,
        i <= fives(x),
    ensures
        x / pow5(i) > 0,
        (x / pow5(i)) % 5 == 0 <==> i < fives(x),
        x / pow5(i) / 5 == x / pow5(i + 1),
        strip_fives(x / pow5(i)) == strip_fives(x),
        i == fives(x) ==> strip_fives(x) == x / pow5(i),
        pow5(fives(x)) <= x,
    decreases x,
{
    assert(pow5(0) == 1);
    lemma_pow5_pos(i);
    assert(pow5(i + 1) == 5 * pow5(i));
    lemma_mul_is_commutative(5, pow5(i) as int);
    lemma_div_denominator(x as int, pow5(i) as int, 5);
    if i > 0 {
        assert(x % 5 == 0);
        lemma_fundamental_div_mod(x as int, 5);
        lemma_fives_step(x / 5, (i - 1) as nat);
        lemma_pow5_pos((i - 1) as nat);
        lemma_div_denominator(x as int, 5, pow5((i - 1) as nat) as int);
        assert(x / pow5(i) == (x / 5) / pow5((i - 1) as nat));
    } else {
        assert(x / pow5(0) == x);
        if fives(x) > 0 {
            lemma_fundamental_div_mod(x as int, 5);
            lemma_fives_step(x / 5, 0);
            assert(pow5(fives(x)) == 5 * pow5(fives(x / 5)));
        }
    }
}

/// `5^n` is at least `2^n`.
proof fn lemma_pow2_le_pow5(n: nat)
    ensures
        pow2(n) <= pow5(n),
    decreases n,
{
    lemma2_to64();
    if n > 0 {
        lemma_pow2_le_pow5((n - 1) as nat);
        lemma_pow2_adds(1, (n - 1) as nat);
    }
}

impl Rational {
    /// Small enough to print: each part fits in `2^25` limbs (about 320 million decimal digits).
    ///
    /// This is a size limit of printing, not of the arithmetic: below it every digit count, every
    /// power of ten used to scale, and every decimal exponent of the text fits the 32-bit
    /// integers the rendering works in. Larger values are not printed.
    pub closed spec fn display_ok(&self) -> bool {
        self.num.len_spec() <= 0x200_0000 && self.den.len_spec() <= 0x200_0000
    }

    /// A value whose numerator and denominator are both below `2^(2^30)` can be printed.
    pub proof fn lemma_display_small(&self)
        requires
            self.wf(),
            printable(self.parts()),
        ensures
            self.display_ok(),
    {
        self.num.lemma_len_bound(0x200_0000);
        self.den.lemma_len_bound(0x200_0000);
    }

    /// Whether [`Rational::to_decimal`] accepts this value.
    pub fn displayable(&self) -> (b: bool)
        ensures
            b == self.display_ok(),
    {
        self.num.limb_count() <= 0x200_0000 && self.den.limb_count() <= 0x200_0000
    }

    /// If the expansion terminates, the power of ten that clears the denominator.
    ///
    /// A fraction terminates in decimal exactly when, in lowest terms, its denominator is
    /// `2^a·5^b`; then `num × 10^max(a,b)` is divisible by the stored denominator, which is how
    /// the exact digits are obtained. A power too large for a `u32` is reported as `None`.
    fn terminating_scale(&self) -> (r: Option<u32>)
        requires
            self.wf(),
        ensures
            r is Some <==> (terminates(self.numer(), self.denom()) && clearing_scale(self.denom()) <= u32::MAX),
            r is Some ==> r->0 as nat == clearing_scale(self.denom()),
    {
        let ghost d0 = self.den@;
        let mut d = self.den.dup();
        let mut a: u32 = 0;
        proof {
            lemma2_to64();
        }
        while d.is_even()
            invariant
                d.wf(),
                d0 > 0,
                d0 == self.denom(),
                a <= twos(d0),
                d@ == d0 / pow2(a as nat),
            decreases d@,
        {
            proof {
                lemma_twos_even(d0, a as nat);
            }
            if a == u32::MAX {
                proof {
                    assert(a < twos(d0));
                    assert(clearing_scale(d0) >= twos(d0));
                }
                return None;
            }
            d.shr_bits(1);
            a = a + 1;
            proof {
                lemma2_to64();
            }
        }
        proof {
            lemma_twos_even(d0, a as nat);
            lemma_strip_twos(d0, a as nat);
        }
        let ghost e0 = d@;
        let mut b: u32 = 0;
        proof {
            assert(pow5(0) == 1);
        }
        loop
            invariant
                d.wf(),
                d0 == self.denom(),
                e0 == strip_twos(d0),
                e0 > 0,
                a == twos(d0),
                b <= fives(e0),
                d@ == e0 / pow5(b as nat),
            ensures
                d.wf(),
                d@ == e0 / pow5(b as nat),
                d@ % 5 != 0,
                b <= fives(e0),
            decreases d@,
        {
            proof {
                lemma_fives_step(e0, b as nat);
            }
            let mut q = d.dup();
            let rem = q.divmod_u32(5);
            if rem != 0 {
                break;
            }
            if b == u32::MAX {
                proof {
                    assert(b < fives(e0));
                    assert(clearing_scale(d0) >= fives(e0));
                }
                return None;
            }
            d = q;
            b = b + 1;
        }
        proof {
            lemma_fives_step(e0, b as nat);
        }
        let (_q, rem) = self.num.divmod_big(&d);
        if rem.is_zero() {
            Some(if a < b { b } else { a })
        } else {
            None
        }
    }

    /// Whether the value has a finite decimal expansion at all.
    pub fn is_terminating(&self) -> (t: bool)
        requires
            self.wf(),
        ensures
            t == terminates(self.numer(), self.denom()),
    {
        let ghost d0 = self.den@;
        let mut d = self.den.dup();
        let ghost mut a: nat = 0;
        proof {
            lemma2_to64();
        }
        while d.is_even()
            invariant
                d.wf(),
                d0 > 0,
                a <= twos(d0),
                d@ == d0 / pow2(a),
            decreases d@,
        {
            proof {
                lemma_twos_even(d0, a);
            }
            d.shr_bits(1);
            proof {
                lemma2_to64();
                a = a + 1;
            }
        }
        proof {
            lemma_twos_even(d0, a);
            lemma_strip_twos(d0, a);
        }
        let ghost e0 = d@;
        let ghost mut b: nat = 0;
        proof {
            assert(pow5(0) == 1);
        }
        loop
            invariant
                d.wf(),
                e0 == strip_twos(d0),
                e0 > 0,
                b <= fives(e0),
                d@ == e0 / pow5(b),
            ensures
                d.wf(),
                d@ == e0 / pow5(b),
                d@ % 5 != 0,
                b <= fives(e0),
            decreases d@,
        {
            proof {
                lemma_fives_step(e0, b);
            }
            let mut q = d.dup();
            let rem = q.divmod_u32(5);
            if rem != 0 {
                break;
            }
            d = q;
            proof {
                b = b + 1;
            }
        }
        proof {
            lemma_fives_step(e0, b);
        }
        let (_q, rem) = self.num.divmod_big(&d);
        rem.is_zero()
    }
}


/// The display of `±n/d` from its first digits: `n × 10^k / d` truncated, scaled back by
/// `10^−k`, and rendered at `sig` significant digits.
pub open spec fn decimal_text(neg: bool, n: nat, d: nat, k: nat, sig: nat) -> Seq<char> {
    let parts = sci_parts(dec_digits(n * pow10(k) / d), -(k as int));
    rendered_text(neg, parts.0, parts.1, sig)
}

/// A quotient of a scaled number has at most as many digits as the scaled number.
proof fn lemma_quotient_len(n: nat, k: nat, d: nat, len: nat)
    requires
        d > 0,
        len >= 1,
        n < pow10(len),
    ensures
        dec_digits(n * pow10(k) / d).len() <= len + k,
{
    lemma_pow10_pos(k);
    crate::arith::lemma_pow10_add(len, k);
    vstd::arithmetic::mul::lemma_mul_strict_inequality(n as int, pow10(len) as int, pow10(k) as int);
    vstd::arithmetic::div_mod::lemma_div_is_ordered_by_denominator((n * pow10(k)) as int, 1, d as int);
    vstd::arithmetic::div_mod::lemma_div_basics((n * pow10(k)) as int);
    lemma_dec_len_bound(n * pow10(k) / d, len + k);
}

/// `4^m` is at most `10^m`.
proof fn lemma_pow4_le_pow10(m: nat)
    ensures
        pow2(2 * m) <= pow10(m),
    decreases m,
{
    lemma2_to64();
    if m > 0 {
        let j = (m - 1) as nat;
        lemma_pow4_le_pow10(j);
        lemma_pow2_adds(2, 2 * j);
        assert(2 * m == 2 + 2 * j);
        assert(pow10(m) == 10 * pow10(j));
    }
}

/// A value below `2^(2^30)` is below `10^(2^29)`, so it has at most `2^29` digits.
proof fn lemma_small_len(x: nat)
    requires
        x < pow2(0x4000_0000),
    ensures
        x < pow10(0x2000_0000),
        dec_digits(x).len() <= 0x2000_0000,
{
    lemma_pow4_le_pow10(0x2000_0000);
    lemma_dec_len_bound(x, 0x2000_0000);
}

/// A power of two below `2^(2^30)` has an exponent below `2^30`.
proof fn lemma_small_exponent(e: nat, x: nat)
    requires
        pow2(e) <= x,
        x < pow2(0x4000_0000),
    ensures
        e < 0x4000_0000,
{
    if e >= 0x4000_0000 {
        if e > 0x4000_0000 {
            vstd::arithmetic::power2::lemma_pow2_strictly_increases(0x4000_0000, e);
        }
    }
}

impl Rational {
    /// The bounds that printing relies on.
    proof fn lemma_display_bounds(&self)
        requires
            self.wf(),
            self.display_ok(),
        ensures
            self.numer() < pow10(0x2000_0000),
            self.denom() < pow10(0x2000_0000),
            dec_digits(self.denom()).len() <= 0x2000_0000,
            clearing_scale(self.denom()) < 0x4000_0000,
    {
        self.num.lemma_size();
        self.den.lemma_size();
        if 32 * self.num.len_spec() < 0x4000_0000 {
            vstd::arithmetic::power2::lemma_pow2_strictly_increases(32 * self.num.len_spec(), 0x4000_0000);
        }
        if 32 * self.den.len_spec() < 0x4000_0000 {
            vstd::arithmetic::power2::lemma_pow2_strictly_increases(32 * self.den.len_spec(), 0x4000_0000);
        }
        lemma_small_len(self.num@);
        lemma_small_len(self.den@);
        let d = self.den@;
        lemma_strip_twos(d, 0);
        lemma_twos_even(d, twos(d));
        lemma_strip_twos(d, twos(d));
        lemma_small_exponent(twos(d), d);
        let e = strip_twos(d);
        lemma_pow2_pos(twos(d));
        vstd::arithmetic::div_mod::lemma_div_is_ordered_by_denominator(d as int, 1, pow2(twos(d)) as int);
        vstd::arithmetic::div_mod::lemma_div_basics(d as int);
        vstd::arithmetic::div_mod::lemma_div_pos_is_pos(d as int, pow2(twos(d)) as int);
        lemma_fives_step(e, 0);
        lemma_pow2_le_pow5(fives(e));
        lemma_small_exponent(fives(e), d);
    }

    /// Render to at most `sig` significant digits.
    ///
    /// The flag is true only when the returned text is the whole value: false both when the
    /// expansion does not terminate and when it terminates but was too long to show.
    /// Non-terminating values show the first digits of `num × 10^k / den` for
    /// `k = digits(den) + sig + 1`, which leaves more digits than the rounding reads.
    ///
    /// The value must be within the size limit of printing ([`Rational::display_ok`]) and `sig`
    /// below `2^28`, so that every count and exponent fits the 32-bit integers used.
    pub fn to_decimal(&self, sig: usize) -> (r: (String, bool))
        requires
            self.wf(),
            self.display_ok(),
            sig < 0x1000_0000,
        ensures
            self.numer() == 0 ==> r.0@ == seq!['0'] && r.1,
            self.numer() > 0 && terminates(self.numer(), self.denom()) ==> {
                let k = clearing_scale(self.denom());
                &&& r.0@ == decimal_text(self.parts().0, self.numer(), self.denom(), k, sig as nat)
                &&& r.1 == (sci_parts(dec_digits(self.numer() * pow10(k) / self.denom()), -(k as int)).0.len() <= sig)
            },
            self.numer() > 0 && !terminates(self.numer(), self.denom()) ==> {
                let k = (dec_digits(self.denom()).len() + sig + 1) as nat;
                &&& r.0@ == decimal_text(self.parts().0, self.numer(), self.denom(), k, sig as nat)
                &&& !r.1
            },
            r.0@ == fraction_text(self.parts(), sig as nat),
            r.1 == fraction_whole(self.parts(), sig as nat),
    {
        if self.is_zero() {
            let mut z = String::new();
            push_char(&mut z, '0');
            proof {
                assert(z@ =~= seq!['0']);
            }
            return (z, true);
        }
        proof {
            self.lemma_display_bounds();
        }
        match self.terminating_scale() {
            Some(k) => {
                let mut scaled = self.num.dup();
                mul_pow10(&mut scaled, k);
                let (q, _rem) = scaled.divmod_big(&self.den);
                let digits = q.to_decimal();
                proof {
                    lemma_dec_all_digits(q@);
                    lemma_quotient_len(self.num@, k as nat, self.den@, 0x2000_0000);
                }
                let sci = sci_from(digits, 0 - (k as i64));
                proof {
                    lemma_sci_bounds(q@, k as nat);
                }
                return render(self.neg, &sci, sig);
            },
            None => {},
        }
        // Non-terminating: produce `sig` digits and never claim exactness.
        let dd = self.den.to_decimal();
        let ds = dd.as_str();
        proof {
            lemma_dec_all_digits(self.den@);
            assert(vstd::utf8::is_ascii_chars(ds@));
            vstd::string::is_ascii_spec_bytes(ds);
        }
        let dlen = ds.len();
        let k = (dlen + sig + 1) as u32;
        let mut scaled = self.num.dup();
        mul_pow10(&mut scaled, k);
        let (q, _rem) = scaled.divmod_big(&self.den);
        let digits = q.to_decimal();
        proof {
            lemma_dec_all_digits(q@);
            lemma_quotient_len(self.num@, k as nat, self.den@, 0x2000_0000);
        }
        let sci = sci_from(digits, 0 - (k as i64));
        proof {
            lemma_sci_bounds(q@, k as nat);
        }
        (render(self.neg, &sci, sig).0, false)
    }
}

/// Numerator and denominator below `2^(2^30)`: small enough to print.
pub open spec fn printable(p: (bool, nat, nat)) -> bool {
    p.1 < pow2(0x4000_0000) && p.2 < pow2(0x4000_0000)
}

/// The text [`Rational::to_decimal`] gives for `±n/d` at `sig` significant digits: `0`, the
/// exact expansion rounded to `sig` digits when it terminates, and otherwise the first digits
/// of `n × 10^k / d` for `k = digits(d) + sig + 1`, rounded.
pub open spec fn fraction_text(p: (bool, nat, nat), sig: nat) -> Seq<char> {
    if p.1 == 0 {
        seq!['0']
    } else if terminates(p.1, p.2) {
        decimal_text(p.0, p.1, p.2, clearing_scale(p.2), sig)
    } else {
        decimal_text(p.0, p.1, p.2, (dec_digits(p.2).len() + sig + 1) as nat, sig)
    }
}

/// Whether that text is the whole value: always for zero, when the terminating expansion has at
/// most `sig` digits, and never for an expansion that does not terminate.
pub open spec fn fraction_whole(p: (bool, nat, nat), sig: nat) -> bool {
    if p.1 == 0 {
        true
    } else if terminates(p.1, p.2) {
        let k = clearing_scale(p.2);
        sci_parts(dec_digits(p.1 * pow10(k) / p.2), -(k as int)).0.len() <= sig
    } else {
        false
    }
}

/// The scientific form of a quotient's digits is one that rendering accepts.
proof fn lemma_sci_bounds(q: nat, k: nat)
    requires
        k < 0x4000_0000,
        dec_digits(q).len() <= 0x2000_0000 + k,
    ensures
        ({
            let parts = sci_parts(dec_digits(q), -(k as int));
            &&& 1 <= parts.0.len() < 0x8000_0000
            &&& parts.1 < i32::MAX
            &&& i32::MIN <= -(k as int) + dec_digits(q).len() - 1 <= i32::MAX
        }),
{
    lemma_strip_prefix(dec_digits(q));
    crate::digits::lemma_dec_digits_nonempty(q);
}


/// The signed numerator of a fraction given as sign, numerator and denominator.
pub open spec fn signed_of(p: (bool, nat, nat)) -> int {
    if p.0 {
        -(p.1 as int)
    } else {
        p.1 as int
    }
}

/// Two fractions with positive denominators have the same value.
pub open spec fn same_value(p: (bool, nat, nat), q: (bool, nat, nat)) -> bool {
    signed_of(p) * q.2 == signed_of(q) * p.2
}

/// Every count of fives up to the total divides exactly.
proof fn lemma_fives_divide(x: nat, i: nat)
    requires
        x > 0,
        i <= fives(x),
    ensures
        x == pow5(i) * (x / pow5(i)),
    decreases i,
{
    if i == 0 {
        assert(pow5(0) == 1);
        assert(x / 1 == x);
        lemma_mul_basics(x as int);
    } else {
        let j = (i - 1) as nat;
        lemma_fives_divide(x, j);
        lemma_fives_step(x, j);
        let y = x / pow5(j);
        assert(y % 5 == 0);
        lemma_fundamental_div_mod(y as int, 5);
        assert(y == 5 * (x / pow5(i)));
        assert(pow5(i) == 5 * pow5(j));
        assert(x == pow5(i) * (x / pow5(i))) by (nonlinear_arith)
            requires
                x == pow5(j) * y,
                y == 5 * (x / pow5(i)),
                pow5(i) == 5 * pow5(j),
        ;
    }
}

/// A denominator is `2^a · 5^b` times its odd part, which is odd and has no factor of five.
proof fn lemma_odd_part(d: nat)
    requires
        d > 0,
    ensures
        d == pow2(twos(d)) * pow5(fives(strip_twos(d))) * odd_part(d),
        odd_part(d) > 0,
        odd_part(d) % 2 == 1,
        odd_part(d) % 5 != 0,
{
    let a = twos(d);
    lemma_twos_divide(d, a);
    lemma_strip_twos(d, a);
    lemma_twos_even(d, a);
    let e = strip_twos(d);
    assert(e == d / pow2(a));
    assert(e > 0 && e % 2 != 0);
    let b = fives(e);
    lemma_fives_divide(e, b);
    lemma_fives_step(e, b);
    let r = odd_part(d);
    assert(r == e / pow5(b));
    assert(r % 5 != 0);
    if r % 2 == 0 {
        vstd::arithmetic::div_mod::lemma_mul_mod_noop_right(pow5(b) as int, r as int, 2);
        assert((pow5(b) * 0) % 2 == 0) by (nonlinear_arith);
        assert(e % 2 == 0);
    }
    lemma_mul_is_associative(pow2(a) as int, pow5(b) as int, r as int);
}

/// An odd divisor of `2y` divides `y`.
proof fn lemma_odd_divides(r: nat, y: nat)
    requires
        r > 0,
        r % 2 == 1,
        (2 * y) % r == 0,
    ensures
        y % r == 0,
{
    lemma_fundamental_div_mod((2 * y) as int, r as int);
    let q = (2 * y) / r;
    assert(2 * y == r * q);
    vstd::arithmetic::div_mod::lemma_mul_mod_noop(r as int, q as int, 2);
    assert((r * q) % 2 == 0);
    assert(((r % 2) * (q % 2)) % 2 == (q % 2) % 2);
    assert(q % 2 == 0);
    lemma_fundamental_div_mod(q as int, 2);
    let t = q / 2;
    assert(y == r * t) by (nonlinear_arith)
        requires 2 * y == r * q, q == 2 * t;
    vstd::arithmetic::div_mod::lemma_mod_multiples_basic(t as int, r as int);
    lemma_mul_is_commutative(r as int, t as int);
}

/// A divisor of `5y` with no factor of five divides `y`.
proof fn lemma_not_five_divides(r: nat, y: nat)
    requires
        r > 0,
        r % 5 != 0,
        (5 * y) % r == 0,
    ensures
        y % r == 0,
{
    lemma_fundamental_div_mod((5 * y) as int, r as int);
    let q = (5 * y) / r;
    assert(5 * y == r * q);
    vstd::arithmetic::div_mod::lemma_mul_mod_noop(r as int, q as int, 5);
    assert((r * q) % 5 == 0);
    let a = r % 5;
    let b = q % 5;
    assert((a * b) % 5 == 0);
    assert(b == 0) by {
        assert(1 <= a <= 4 && 0 <= b <= 4);
        if b == 1 {
            assert(a * b == a) by (nonlinear_arith) requires b == 1;
        } else if b == 2 {
            assert(a * b == 2 * a) by (nonlinear_arith) requires b == 2;
        } else if b == 3 {
            assert(a * b == 3 * a) by (nonlinear_arith) requires b == 3;
        } else if b == 4 {
            assert(a * b == 4 * a) by (nonlinear_arith) requires b == 4;
        }
    }
    lemma_fundamental_div_mod(q as int, 5);
    let t = q / 5;
    assert(y == r * t) by (nonlinear_arith)
        requires 5 * y == r * q, q == 5 * t;
    vstd::arithmetic::div_mod::lemma_mod_multiples_basic(t as int, r as int);
    lemma_mul_is_commutative(r as int, t as int);
}

/// A divisor with no factor of two or five that divides `n × 10^k` divides `n`.
proof fn lemma_coprime_to_ten(r: nat, n: nat, k: nat)
    requires
        r > 0,
        r % 2 == 1,
        r % 5 != 0,
        (n * pow10(k)) % r == 0,
    ensures
        n % r == 0,
    decreases k,
{
    if k == 0 {
        assert(pow10(0) == 1);
        lemma_mul_basics(n as int);
    } else {
        let j = (k - 1) as nat;
        let y = n * pow10(j);
        assert(n * pow10(k) == 2 * (5 * y)) by (nonlinear_arith)
            requires pow10(k) == 10 * pow10(j), y == n * pow10(j);
        lemma_odd_divides(r, 5 * y);
        lemma_not_five_divides(r, y);
        lemma_coprime_to_ten(r, n, j);
    }
}

/// The power of ten that the exact digits are scaled by clears the denominator: when `n / d`
/// terminates, `n × 10^clearing_scale(d)` is a whole multiple of `d`, so the quotient printed is
/// the exact value scaled by that power of ten, with nothing lost.
pub proof fn lemma_clearing_scale_clears(n: nat, d: nat)
    requires
        d > 0,
        terminates(n, d),
    ensures
        (n * pow10(clearing_scale(d))) % d == 0,
        (n * pow10(clearing_scale(d))) / d * d == n * pow10(clearing_scale(d)),
{
    lemma_odd_part(d);
    let r = odd_part(d);
    let a = twos(d);
    let b = fives(strip_twos(d));
    let k = clearing_scale(d);
    assert(k >= a && k >= b);
    lemma_fundamental_div_mod(n as int, r as int);
    let m = n / r;
    assert(n == r * m);
    lemma_pow10_split(k);
    crate::arith::lemma_pow5_add(b, (k - b) as nat);
    lemma_pow2_adds(a, (k - a) as nat);
    let t = m * pow5((k - b) as nat) * pow2((k - a) as nat);
    assert(n * pow10(k) == t * d) by (nonlinear_arith)
        requires
            n == r * m,
            pow10(k) == pow5(k) * pow2(k),
            pow5(k) == pow5(b) * pow5((k - b) as nat),
            pow2(k) == pow2(a) * pow2((k - a) as nat),
            d == pow2(a) * pow5(b) * r,
            t == m * pow5((k - b) as nat) * pow2((k - a) as nat),
    ;
    vstd::arithmetic::div_mod::lemma_mod_multiples_basic(t as int, d as int);
    vstd::arithmetic::div_mod::lemma_div_multiples_vanish(t as int, d as int);
    lemma_mul_is_commutative(d as int, t as int);
}

/// What [`terminates`] says is what a finite decimal expansion is: `n / d` terminates exactly
/// when `n × 10^k` is a multiple of `d` for some `k`, that is, when `n / d = m / 10^k` for whole
/// numbers `m` and `k`. It depends only on the value, not on how the fraction is written.
pub proof fn lemma_terminates_finite(n: nat, d: nat)
    requires
        d > 0,
    ensures
        terminates(n, d) <==> exists|k: nat| (#[trigger] (n * pow10(k))) % d == 0,
{
    lemma_odd_part(d);
    let r = odd_part(d);
    let a = twos(d);
    let b = fives(strip_twos(d));
    if terminates(n, d) {
        lemma_clearing_scale_clears(n, d);
        assert((n * pow10(clearing_scale(d))) % d == 0);
    }
    if exists|k: nat| (#[trigger] (n * pow10(k))) % d == 0 {
        let k = choose|k: nat| (#[trigger] (n * pow10(k))) % d == 0;
        lemma_fundamental_div_mod((n * pow10(k)) as int, d as int);
        let q = (n * pow10(k)) / d;
        let c = pow2(a) * pow5(b);
        assert(n * pow10(k) == (c * q) * r) by (nonlinear_arith)
            requires n * pow10(k) == d * q, d == c * r;
        vstd::arithmetic::div_mod::lemma_mod_multiples_basic((c * q) as int, r as int);
        lemma_coprime_to_ten(r, n, k);
    }
}

/// Every count of twos up to the total divides exactly.
proof fn lemma_twos_divide(x: nat, i: nat)
    requires
        x > 0,
        i <= twos(x),
    ensures
        x == pow2(i) * (x / pow2(i)),
    decreases i,
{
    lemma2_to64();
    if i > 0 {
        lemma_twos_even(x, i);
        assert(x % 2 == 0);
        lemma_fundamental_div_mod(x as int, 2);
        lemma_twos_divide(x / 2, (i - 1) as nat);
        lemma_pow2_adds(1, (i - 1) as nat);
        lemma_pow2_pos((i - 1) as nat);
        lemma_div_denominator(x as int, 2, pow2((i - 1) as nat) as int);
        let q = x / pow2(i);
        assert(x / 2 == pow2((i - 1) as nat) * q);
        assert(x == pow2(i) * q) by (nonlinear_arith)
            requires
                x == 2 * (x / 2),
                x / 2 == pow2((i - 1) as nat) * q,
                pow2(i) == 2 * pow2((i - 1) as nat),
        ;
    } else {
        assert(x / pow2(0) == x);
        lemma_mul_basics(x as int);
    }
}

/// Stripping common twos keeps the value and a positive denominator.
pub proof fn lemma_normalized_value(neg: bool, n: nat, d: nat)
    requires
        d > 0,
    ensures
        normalized(neg, n, d).2 > 0,
        same_value(normalized(neg, n, d), (neg, n, d)),
{
    lemma2_to64();
    if n > 0 {
        let t = if twos(n) < twos(d) { twos(n) } else { twos(d) };
        lemma_twos_divide(n, t);
        lemma_twos_divide(d, t);
        lemma_pow2_pos(t);
        let p = pow2(t);
        let n2 = n / p;
        let d2 = d / p;
        assert(d2 > 0) by (nonlinear_arith)
            requires d == p * d2, d > 0;
        assert(n2 * d == n * d2) by (nonlinear_arith)
            requires n == p * n2, d == p * d2;
        assert(-(n2 as int) * d == -(n as int) * d2) by (nonlinear_arith)
            requires n2 * d == n * d2;
    } else {
        assert(signed_of((neg, 0nat, d)) == 0);
    }
}

/// Addition is exact: the sum has the value `a + b`.
pub proof fn lemma_add_exact(a: (bool, nat, nat), b: (bool, nat, nat))
    requires
        a.2 > 0,
        b.2 > 0,
    ensures
        sum_parts(a, b).2 > 0,
        signed_of(sum_parts(a, b)) * (a.2 * b.2) == (signed_of(a) * b.2 + signed_of(b) * a.2) * sum_parts(a, b).2,
{
    let n1 = a.1 * b.2;
    let n2 = b.1 * a.2;
    let d = a.2 * b.2;
    lemma_product_positive(a.2, b.2);
    let target = signed_of(a) * b.2 + signed_of(b) * a.2;
    assert(signed_of(a) * b.2 == if a.0 { -(n1 as int) } else { n1 as int }) by (nonlinear_arith)
        requires signed_of(a) == if a.0 { -(a.1 as int) } else { a.1 as int }, n1 == a.1 * b.2;
    assert(signed_of(b) * a.2 == if b.0 { -(n2 as int) } else { n2 as int }) by (nonlinear_arith)
        requires signed_of(b) == if b.0 { -(b.1 as int) } else { b.1 as int }, n2 == b.1 * a.2;
    let raw: (bool, nat, nat) = if a.0 == b.0 {
        (a.0, n1 + n2, d)
    } else if n1 > n2 {
        (a.0, (n1 - n2) as nat, d)
    } else if n1 < n2 {
        (b.0, (n2 - n1) as nat, d)
    } else {
        (false, 0, d)
    };
    assert(signed_of(raw) == target);
    lemma_normalized_value(raw.0, raw.1, raw.2);
    let r = sum_parts(a, b);
    if a.0 != b.0 && n1 == n2 {
        assert(r == (false, 0nat, 1nat));
    } else {
        assert(r == normalized(raw.0, raw.1, raw.2));
    }
}

/// Multiplication is exact: the product has the value `a × b`.
pub proof fn lemma_mul_exact(a: (bool, nat, nat), b: (bool, nat, nat))
    requires
        a.2 > 0,
        b.2 > 0,
    ensures
        ({
            let r = normalized(a.0 != b.0, a.1 * b.1, a.2 * b.2);
            &&& r.2 > 0
            &&& signed_of(r) * (a.2 * b.2) == signed_of(a) * signed_of(b) * r.2
        }),
{
    lemma_product_positive(a.2, b.2);
    let raw = (a.0 != b.0, a.1 * b.1, a.2 * b.2);
    assert(signed_of(raw) == signed_of(a) * signed_of(b)) by (nonlinear_arith)
        requires
            signed_of(a) == if a.0 { -(a.1 as int) } else { a.1 as int },
            signed_of(b) == if b.0 { -(b.1 as int) } else { b.1 as int },
            signed_of(raw) == if a.0 != b.0 { -((a.1 * b.1) as int) } else { (a.1 * b.1) as int },
    ;
    lemma_normalized_value(raw.0, raw.1, raw.2);
}

/// Division is exact: the quotient has the value `a ÷ b`, that is, times `b` it gives `a`.
pub proof fn lemma_div_exact(a: (bool, nat, nat), b: (bool, nat, nat))
    requires
        a.2 > 0,
        b.2 > 0,
        b.1 > 0,
    ensures
        ({
            let r = normalized(a.0 != b.0, a.1 * b.2, a.2 * b.1);
            &&& r.2 > 0
            &&& signed_of(r) * signed_of(b) * a.2 == signed_of(a) * b.2 * r.2
        }),
{
    lemma_product_positive(a.2, b.1);
    let raw = (a.0 != b.0, a.1 * b.2, a.2 * b.1);
    let r = normalized(raw.0, raw.1, raw.2);
    lemma_normalized_value(raw.0, raw.1, raw.2);
    assert(signed_of(r) * signed_of(b) * a.2 == signed_of(a) * b.2 * r.2) by (nonlinear_arith)
        requires
            signed_of(r) * (a.2 * b.1) == signed_of(raw) * r.2,
            signed_of(a) == if a.0 { -(a.1 as int) } else { a.1 as int },
            signed_of(b) == if b.0 { -(b.1 as int) } else { b.1 as int },
            signed_of(raw) == if a.0 != b.0 { -((a.1 * b.2) as int) } else { (a.1 * b.2) as int },
            b.1 > 0,
    ;
}

impl Rational {
    /// The sign, numerator and denominator of a well-formed value describe it.
    pub proof fn lemma_parts(&self)
        requires
            self.wf(),
        ensures
            self.parts().2 > 0,
            self.parts().1 == self.numer(),
            self.parts().2 == self.denom(),
            signed_of(self.parts()) == self.signed_num(),
    {
    }
}

} // verus!
