//! Powers of five and ten, and the facts relating them to powers of two and to limb radices.

use vstd::prelude::*;
use vstd::arithmetic::power2::{lemma2_to64, lemma_pow2_adds, lemma_pow2_pos, pow2};
use vstd::arithmetic::mul::{lemma_mul_basics, lemma_mul_is_associative};
use crate::limbs::{radix, rpow};

verus! {

/// `5^n`.
pub open spec fn pow5(n: nat) -> nat
    decreases n,
{
    if n == 0 {
        1
    } else {
        5 * pow5((n - 1) as nat)
    }
}

/// `10^n`.
pub open spec fn pow10(n: nat) -> nat
    decreases n,
{
    if n == 0 {
        1
    } else {
        10 * pow10((n - 1) as nat)
    }
}

pub proof fn lemma_pow5_pos(n: nat)
    ensures
        pow5(n) >= 1,
    decreases n,
{
    if n > 0 {
        lemma_pow5_pos((n - 1) as nat);
    }
}

pub proof fn lemma_pow10_pos(n: nat)
    ensures
        pow10(n) >= 1,
    decreases n,
{
    if n > 0 {
        lemma_pow10_pos((n - 1) as nat);
    }
}

pub proof fn lemma_pow5_add(a: nat, b: nat)
    ensures
        pow5(a + b) == pow5(a) * pow5(b),
    decreases a,
{
    if a > 0 {
        let a1 = (a - 1) as nat;
        lemma_pow5_add(a1, b);
        assert(pow5(a + b) == 5 * pow5(a1 + b));
        assert(5 * (pow5(a1) * pow5(b)) == (5 * pow5(a1)) * pow5(b)) by (nonlinear_arith);
    } else {
        lemma_mul_basics(pow5(b) as int);
    }
}

pub proof fn lemma_pow10_add(a: nat, b: nat)
    ensures
        pow10(a + b) == pow10(a) * pow10(b),
    decreases a,
{
    if a > 0 {
        let a1 = (a - 1) as nat;
        lemma_pow10_add(a1, b);
        assert(pow10(a + b) == 10 * pow10(a1 + b));
        assert(10 * (pow10(a1) * pow10(b)) == (10 * pow10(a1)) * pow10(b)) by (nonlinear_arith);
    } else {
        lemma_mul_basics(pow10(b) as int);
    }
}

/// `10^n = 5^n · 2^n`.
pub proof fn lemma_pow10_split(n: nat)
    ensures
        pow10(n) == pow5(n) * pow2(n),
    decreases n,
{
    if n == 0 {
        lemma2_to64();
        lemma_mul_basics(1);
    } else {
        let n1 = (n - 1) as nat;
        lemma_pow10_split(n1);
        lemma_pow2_adds(1, n1);
        lemma2_to64();
        assert(pow2(n) == 2 * pow2(n1));
        assert(10 * (pow5(n1) * pow2(n1)) == (5 * pow5(n1)) * (2 * pow2(n1))) by (nonlinear_arith);
    }
}

pub proof fn lemma_pow2_le_pow10(n: nat)
    ensures
        pow2(n) <= pow10(n),
    decreases n,
{
    lemma2_to64();
    if n > 0 {
        lemma_pow2_le_pow10((n - 1) as nat);
        lemma_pow2_adds(1, (n - 1) as nat);
    }
}

pub proof fn lemma_pow5_le_pow10(n: nat)
    ensures
        pow5(n) <= pow10(n),
    decreases n,
{
    if n > 0 {
        lemma_pow5_le_pow10((n - 1) as nat);
    }
}

/// A limb radix power is a power of two.
pub proof fn lemma_rpow_pow2(k: nat)
    ensures
        rpow(k) == pow2(32 * k),
    decreases k,
{
    if k == 0 {
        lemma2_to64();
    } else {
        let k1 = (k - 1) as nat;
        lemma_rpow_pow2(k1);
        lemma_pow2_adds(32, 32 * k1);
        lemma2_to64();
        assert(32 + 32 * k1 == 32 * k);
    }
}

} // verus!
