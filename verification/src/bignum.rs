//! A minimal unsigned big integer, enough to print a dyadic rational exactly and to compare
//! decimal literals against posit values without any floating point.
//!
//! Every finite posit is `frac × 2^s` for an integer `frac` and a possibly negative `s`, so it
//! has a terminating decimal expansion that can run to a few hundred digits.

use vstd::prelude::*;
use vstd::arithmetic::div_mod::*;
use vstd::arithmetic::mul::*;
use crate::limbs::{
    lemma_rpow_add, lemma_rpow_pos, lemma_val_bound, lemma_val_canonical_len, lemma_val_drop_zero,
    lemma_val_first, lemma_val_lower, lemma_val_push, lemma_val_split, lemma_val_top_differs,
    lemma_prefix_full, lemma_prefix_step, lemma_prefix_zero, limb_at, limbs_val, prefix_val, radix,
    rpow,
};
use crate::limbs::{lemma_val_skip_div, lemma_val_zeros};
use crate::arith::{lemma_pow5_add, lemma_pow5_pos, lemma_rpow_pow2, pow5};
use vstd::arithmetic::power2::{lemma2_to64, lemma_pow2_adds, lemma_pow2_pos, pow2};
use vstd::bits::{lemma_u32_shr_is_div, lemma_u64_shl_is_mul};
use crate::arith::{lemma_pow10_add, lemma_pow10_pos, pow10};
use crate::digits::{dec_digits, lemma_dec_concat, push_dec, push_fixed};
use crate::text::push_char;
use core::cmp::Ordering;

verus! {

/// Little-endian base-2^32 magnitude. Never stores a trailing zero limb, so the representation
/// of each value is unique and ordering can compare limb counts first.
#[derive(Clone, Debug)]
pub struct Big {
    limbs: Vec<u32>,
}

impl View for Big {
    type V = nat;

    closed spec fn view(&self) -> nat {
        limbs_val(self.limbs@)
    }
}

/// Low 32 bits and high 32 bits of a `u64`.
proof fn lemma_split_u64(v: u64)
    ensures
        (v as u32) as nat == v as nat % radix(),
        (v >> 32u64) as nat == v as nat / radix(),
{
    assert((v as u32) == v % 0x1_0000_0000) by (bit_vector);
    assert(v >> 32u64 == v / 0x1_0000_0000) by (bit_vector);
}

/// [`lemma_val_top_differs`] at a machine index.
proof fn lemma_top_differs_at(a: Seq<u32>, b: Seq<u32>, i: usize)
    requires
        a.len() == b.len(),
        i < a.len(),
        forall|j: int| i < j < a.len() ==> a[j] == b[j],
        a[i as int] < b[i as int],
    ensures
        limbs_val(a) < limbs_val(b),
{
    lemma_val_top_differs(a, b, i as nat);
}

impl Big {
    /// No trailing zero limb.
    pub closed spec fn wf(&self) -> bool {
        self.limbs@.len() == 0 || self.limbs@.last() != 0
    }

    /// Number of limbs, for the bounds that callers need to state.
    pub closed spec fn len_spec(&self) -> nat {
        self.limbs@.len()
    }

    /// The number of limbs.
    pub fn limb_count(&self) -> (r: usize)
        ensures
            r == self.len_spec(),
    {
        self.limbs.len()
    }

    /// A value held in `k` limbs is below `2^(32k)`.
    pub proof fn lemma_size(&self)
        ensures
            self@ < pow2(32 * self.len_spec()),
    {
        lemma_val_bound(self.limbs@);
        lemma_rpow_pow2(self.limbs@.len());
    }

    /// A value below `2^(32k)` takes at most `k` limbs.
    pub proof fn lemma_len_bound(&self, k: nat)
        requires
            self.wf(),
            self@ < pow2(32 * k),
        ensures
            self.len_spec() <= k,
    {
        let s = self.limbs@;
        if s.len() > k {
            lemma_val_lower(s);
            let j = (s.len() - 1 - k) as nat;
            lemma_rpow_add(k, j);
            lemma_rpow_pos(k);
            lemma_rpow_pos(j);
            lemma_rpow_pow2(k);
            assert(k + j == (s.len() - 1) as nat);
            lemma_mul_inequality(1, rpow(j) as int, rpow(k) as int);
            lemma_mul_is_commutative(rpow(k) as int, rpow(j) as int);
        }
    }

    pub fn zero() -> (r: Big)
        ensures
            r.wf(),
            r@ == 0,
    {
        Big { limbs: Vec::new() }
    }

    pub fn one() -> (r: Big)
        ensures
            r.wf(),
            r@ == 1,
    {
        let mut limbs: Vec<u32> = Vec::new();
        limbs.push(1);
        proof {
            lemma_val_push(Seq::<u32>::empty(), 1);
            assert(limbs@ =~= Seq::<u32>::empty().push(1u32));
        }
        Big { limbs }
    }

    /// A copy with the same value.
    pub fn dup(&self) -> (r: Big)
        requires
            self.wf(),
        ensures
            r.wf(),
            r@ == self@,
            r.len_spec() == self.len_spec(),
    {
        let mut limbs: Vec<u32> = Vec::new();
        let mut i: usize = 0;
        while i < self.limbs.len()
            invariant
                i <= self.limbs@.len(),
                limbs@ =~= self.limbs@.take(i as int),
            decreases self.limbs@.len() - i,
        {
            limbs.push(self.limbs[i]);
            i += 1;
            assert(limbs@ =~= self.limbs@.take(i as int));
        }
        assert(self.limbs@.take(i as int) =~= self.limbs@);
        Big { limbs }
    }

    pub fn from_u64(v: u64) -> (r: Big)
        ensures
            r.wf(),
            r@ == v,
    {
        let lo = #[verifier::truncate] (v as u32);
        let hi = #[verifier::truncate] ((v >> 32u64) as u32);
        let mut limbs: Vec<u32> = Vec::new();
        limbs.push(lo);
        limbs.push(hi);
        proof {
            lemma_split_u64(v);
            let e = Seq::<u32>::empty();
            lemma_val_push(e, lo);
            lemma_val_push(e.push(lo), hi);
            assert(limbs@ =~= e.push(lo).push(hi));
            assert(rpow(0) == 1);
            assert(rpow(1) == radix() * rpow(0));
            lemma_mul_basics(lo as int);
            lemma_mul_basics(radix() as int);
            lemma_fundamental_div_mod(v as int, radix() as int);
            assert(limbs_val(limbs@) == (lo as nat) + (hi as nat) * radix());
            vstd::arithmetic::mul::lemma_mul_is_commutative(hi as int, radix() as int);
        }
        let mut b = Big { limbs };
        b.trim();
        b
    }

    pub fn is_zero(&self) -> (z: bool)
        requires
            self.wf(),
        ensures
            z == (self@ == 0),
    {
        proof {
            if self.limbs@.len() > 0 {
                lemma_val_lower(self.limbs@);
            }
        }
        self.limbs.len() == 0
    }

    pub fn is_one(&self) -> (o: bool)
        requires
            self.wf(),
        ensures
            o == (self@ == 1),
    {
        proof {
            let s = self.limbs@;
            if s.len() > 1 {
                lemma_val_lower(s);
                lemma_rpow_pos((s.len() - 2) as nat);
                assert(rpow((s.len() - 1) as nat) == radix() * rpow((s.len() - 2) as nat));
            }
            if s.len() == 1 {
                assert(s.drop_last() =~= Seq::<u32>::empty());
                assert(rpow(0) == 1);
                lemma_mul_basics(s[0] as int);
                assert(limbs_val(s.drop_last()) == 0);
                assert(limbs_val(s) == (s[0] as nat) * rpow(0));
            }
        }
        self.limbs.len() == 1 && self.limbs[0] == 1
    }

    /// Drop trailing zero limbs; the value does not change.
    fn trim(&mut self)
        ensures
            final(self).wf(),
            final(self)@ == old(self)@,
            final(self).len_spec() <= old(self).len_spec(),
    {
        while self.limbs.len() > 0 && self.limbs[self.limbs.len() - 1] == 0
            invariant
                limbs_val(self.limbs@) == limbs_val(old(self).limbs@),
                self.limbs@.len() <= old(self).limbs@.len(),
            decreases self.limbs@.len(),
        {
            proof {
                lemma_val_drop_zero(self.limbs@);
            }
            self.limbs.pop();
        }
    }

    /// `self *= m`
    pub fn mul_u32(&mut self, m: u32)
        requires
            old(self).wf(),
        ensures
            final(self).wf(),
            final(self)@ == old(self)@ * m,
            final(self).len_spec() <= old(self).len_spec() + 1,
    {
        if self.is_zero() {
            return;
        }
        if m == 0 {
            self.limbs.clear();
            return;
        }
        let ghost s = self.limbs@;
        let mut out: Vec<u32> = Vec::new();
        let mut carry: u64 = 0;
        let mut i: usize = 0;
        assert(s.take(0) =~= Seq::<u32>::empty());
        proof {
            lemma_mul_basics(m as int);
            lemma_mul_basics(rpow(0) as int);
        }
        while i < self.limbs.len()
            invariant
                s == self.limbs@,
                i <= s.len(),
                out@.len() == i,
                carry < radix(),
                limbs_val(out@) + carry * rpow(i as nat) == limbs_val(s.take(i as int)) * m,
            decreases s.len() - i,
        {
            let l = self.limbs[i];
            assert((l as u64) * (m as u64) + carry <= 0xffff_ffff_ffff_ffffu64) by (nonlinear_arith)
                requires l <= 0xffff_ffffu32, m <= 0xffff_ffffu32, carry < 0x1_0000_0000u64;
            let v: u64 = (l as u64) * (m as u64) + carry;
            proof {
                lemma_split_u64(v);
                lemma_val_push(out@, #[verifier::truncate] (v as u32));
                assert(s.take(i + 1).drop_last() =~= s.take(i as int));
                lemma_fundamental_div_mod(v as int, radix() as int);
                let ghost vi = limbs_val(s.take(i as int));
                assert(limbs_val(s.take(i + 1)) == vi + (l as nat) * rpow(i as nat));
                assert(rpow((i + 1) as nat) == radix() * rpow(i as nat));
                assert(limbs_val(out@) + ((v as nat) % radix()) * rpow(i as nat) + ((v as nat)
                    / radix()) * rpow((i + 1) as nat) == limbs_val(s.take(i + 1)) * m)
                    by (nonlinear_arith)
                    requires
                        limbs_val(out@) + carry * rpow(i as nat) == vi * m,
                        limbs_val(s.take(i + 1)) == vi + (l as nat) * rpow(i as nat),
                        rpow((i + 1) as nat) == radix() * rpow(i as nat),
                        v as nat == radix() * ((v as nat) / radix()) + (v as nat) % radix(),
                        v as nat == l * m + carry,
                ;
            }
            out.push(#[verifier::truncate] (v as u32));
            carry = v >> 32u64;
            i += 1;
        }
        assert(s.take(i as int) =~= s);
        if carry != 0 {
            proof {
                lemma_val_push(out@, carry as u32);
            }
            out.push(carry as u32);
        }
        self.limbs = out;
        self.trim();
    }

    /// The limb at `i`, or zero past the end.
    fn limb_or_zero(&self, i: usize) -> (r: u32)
        ensures
            r as nat == limb_at(self.limbs@, i as int),
    {
        if i < self.limbs.len() {
            self.limbs[i]
        } else {
            0
        }
    }

    /// `self += v`
    pub fn add_u32(&mut self, v: u32)
        requires
            old(self).wf(),
        ensures
            final(self).wf(),
            final(self)@ == old(self)@ + v,
    {
        let other = Big::from_u64(v as u64);
        self.add(&other);
    }

    /// `self += other`
    pub fn add(&mut self, other: &Big)
        requires
            old(self).wf(),
            other.wf(),
        ensures
            final(self).wf(),
            final(self)@ == old(self)@ + other@,
    {
        if other.is_zero() {
            return;
        }
        let ghost a = self.limbs@;
        let ghost b = other.limbs@;
        let n = if self.limbs.len() < other.limbs.len() {
            other.limbs.len()
        } else {
            self.limbs.len()
        };
        let mut out: Vec<u32> = Vec::new();
        let mut carry: u64 = 0;
        let mut i: usize = 0;
        proof {
            lemma_prefix_zero(a);
            lemma_prefix_zero(b);
            lemma_mul_basics(rpow(0) as int);
        }
        while i < n
            invariant
                a == self.limbs@,
                b == other.limbs@,
                n >= a.len(),
                n >= b.len(),
                i <= n,
                carry <= 1,
                out@.len() == i,
                limbs_val(out@) + carry * rpow(i as nat) == prefix_val(a, i as nat) + prefix_val(
                    b,
                    i as nat,
                ),
            decreases n - i,
        {
            let x = self.limb_or_zero(i);
            let y = other.limb_or_zero(i);
            let s: u64 = x as u64 + y as u64 + carry;
            assert(s >> 32u64 <= 1) by (bit_vector)
                requires s < 0x2_0000_0000u64;
            proof {
                lemma_split_u64(s);
                lemma_val_push(out@, #[verifier::truncate] (s as u32));
                lemma_prefix_step(a, i as nat);
                lemma_prefix_step(b, i as nat);
                lemma_fundamental_div_mod(s as int, radix() as int);
                assert(rpow((i + 1) as nat) == radix() * rpow(i as nat));
                let ghost pa = prefix_val(a, i as nat);
                let ghost pb = prefix_val(b, i as nat);
                assert(limbs_val(out@) + ((s as nat) % radix()) * rpow(i as nat) + ((s as nat)
                    / radix()) * rpow((i + 1) as nat) == pa + (x as nat) * rpow(i as nat) + pb + (
                y as nat) * rpow(i as nat)) by (nonlinear_arith)
                    requires
                        limbs_val(out@) + carry * rpow(i as nat) == pa + pb,
                        rpow((i + 1) as nat) == radix() * rpow(i as nat),
                        s as nat == radix() * ((s as nat) / radix()) + (s as nat) % radix(),
                        s as nat == x + y + carry,
                ;
            }
            out.push(#[verifier::truncate] (s as u32));
            carry = s >> 32u64;
            i += 1;
        }
        proof {
            lemma_prefix_full(a, n as nat);
            lemma_prefix_full(b, n as nat);
        }
        if carry != 0 {
            proof {
                lemma_val_push(out@, carry as u32);
            }
            out.push(carry as u32);
        }
        self.limbs = out;
        self.trim();
    }

    /// `self -= other`; the caller guarantees `other <= self`.
    pub fn sub_assign(&mut self, other: &Big)
        requires
            old(self).wf(),
            other.wf(),
            other@ <= old(self)@,
        ensures
            final(self).wf(),
            final(self)@ == old(self)@ - other@,
    {
        let ghost a = self.limbs@;
        let ghost b = other.limbs@;
        let n = if self.limbs.len() < other.limbs.len() {
            other.limbs.len()
        } else {
            self.limbs.len()
        };
        let mut out: Vec<u32> = Vec::new();
        let mut borrow: u64 = 0;
        let mut i: usize = 0;
        proof {
            lemma_prefix_zero(a);
            lemma_prefix_zero(b);
            lemma_mul_basics(rpow(0) as int);
        }
        while i < n
            invariant
                a == self.limbs@,
                b == other.limbs@,
                n >= a.len(),
                n >= b.len(),
                i <= n,
                borrow <= 1,
                out@.len() == i,
                limbs_val(out@) + prefix_val(b, i as nat) == prefix_val(a, i as nat) + borrow
                    * rpow(i as nat),
            decreases n - i,
        {
            let x = self.limb_or_zero(i);
            let y = other.limb_or_zero(i);
            let t: u64 = 0x1_0000_0000u64 + x as u64 - y as u64 - borrow;
            let d: u32 = #[verifier::truncate] (t as u32);
            let nb: u64 = if t >= 0x1_0000_0000u64 { 0 } else { 1 };
            proof {
                lemma_split_u64(t);
                lemma_val_push(out@, d);
                lemma_prefix_step(a, i as nat);
                lemma_prefix_step(b, i as nat);
                assert(d as nat + (y as nat) + borrow == (x as nat) + nb * radix());
                assert(rpow((i + 1) as nat) == radix() * rpow(i as nat));
                let ghost pa = prefix_val(a, i as nat);
                let ghost pb = prefix_val(b, i as nat);
                assert(limbs_val(out@) + (d as nat) * rpow(i as nat) + pb + (y as nat) * rpow(
                    i as nat,
                ) == pa + (x as nat) * rpow(i as nat) + nb * rpow((i + 1) as nat))
                    by (nonlinear_arith)
                    requires
                        limbs_val(out@) + pb == pa + borrow * rpow(i as nat),
                        rpow((i + 1) as nat) == radix() * rpow(i as nat),
                        d as nat + (y as nat) + borrow == (x as nat) + nb * radix(),
                ;
            }
            out.push(d);
            borrow = nb;
            i += 1;
        }
        proof {
            lemma_prefix_full(a, n as nat);
            lemma_prefix_full(b, n as nat);
            lemma_val_bound(out@);
            if borrow == 1 {
                lemma_mul_basics(rpow(n as nat) as int);
                assert(false);
            }
        }
        self.limbs = out;
        self.trim();
    }

    /// `self /= d`, returning the remainder.
    pub fn divmod_u32(&mut self, d: u32) -> (rem: u32)
        requires
            old(self).wf(),
            d > 0,
        ensures
            final(self).wf(),
            final(self)@ == old(self)@ / (d as nat),
            rem as nat == old(self)@ % (d as nat),
            final(self).len_spec() <= old(self).len_spec(),
    {
        let ghost s = self.limbs@;
        let mut q: Vec<u32> = self.limbs.clone();
        let mut rem: u64 = 0;
        let mut i: usize = self.limbs.len();
        proof {
            assert(q@ =~= s);
            assert(q@.skip(i as int) =~= Seq::<u32>::empty());
            assert(s.take(i as int) =~= s);
            lemma_mul_basics(d as int);
            lemma_mul_basics(rpow(i as nat) as int);
        }
        while i > 0
            invariant
                s == self.limbs@,
                i <= s.len(),
                q@.len() == s.len(),
                rem < d,
                forall|j: int| 0 <= j < i ==> q@[j] == s[j],
                limbs_val(s) == limbs_val(s.take(i as int)) + rpow(i as nat) * (limbs_val(
                    q@.skip(i as int),
                ) * (d as nat) + rem),
            decreases i,
        {
            let ghost qold = q@;
            i -= 1;
            let l = self.limbs[i];
            assert(rem * 0x1_0000_0000u64 + (l as u64) <= 0xffff_ffff_ffff_ffffu64)
                by (nonlinear_arith)
                requires rem < 0x1_0000_0000u64, l <= 0xffff_ffffu32;
            let cur: u64 = rem * 0x1_0000_0000u64 + l as u64;
            let qd: u64 = cur / (d as u64);
            assert(qd < 0x1_0000_0000u64) by (nonlinear_arith)
                requires
                    qd == cur / (d as u64),
                    cur == rem * 0x1_0000_0000u64 + (l as u64),
                    rem < d,
                    l <= 0xffff_ffffu32,
                    d > 0,
            {
                assert(cur < (rem + 1) * 0x1_0000_0000u64);
                assert((rem + 1) * 0x1_0000_0000u64 <= (d as u64) * 0x1_0000_0000u64);
                assert(qd * (d as u64) <= cur);
            }
            q.set(i, qd as u32);
            let nrem = cur % (d as u64);
            proof {
                let ghost hi = limbs_val(qold.skip(i + 1));
                assert(q@.skip(i + 1) =~= qold.skip(i + 1));
                lemma_val_first(q@.skip(i as int));
                assert(q@.skip(i as int).skip(1) =~= q@.skip(i + 1));
                assert(q@.skip(i as int)[0] == qd as u32);
                assert(limbs_val(q@.skip(i as int)) == qd + radix() * hi);
                assert(s.take(i + 1).drop_last() =~= s.take(i as int));
                assert(limbs_val(s.take(i + 1)) == limbs_val(s.take(i as int)) + (l as nat) * rpow(
                    i as nat,
                ));
                assert(rpow((i + 1) as nat) == radix() * rpow(i as nat));
                lemma_fundamental_div_mod(cur as int, d as int);
                let ghost lo = limbs_val(s.take(i as int));
                assert(limbs_val(s) == lo + rpow(i as nat) * ((qd + radix() * hi) * (d as nat)
                    + nrem)) by (nonlinear_arith)
                    requires
                        limbs_val(s) == lo + (l as nat) * rpow(i as nat) + rpow((i + 1) as nat) * (
                        hi * (d as nat) + rem),
                        rpow((i + 1) as nat) == radix() * rpow(i as nat),
                        cur as int == (d as int) * (qd as int) + nrem,
                        cur == rem * radix() + l,
                ;
            }
            rem = nrem;
        }
        proof {
            assert(s.take(0) =~= Seq::<u32>::empty());
            assert(q@.skip(0) =~= q@);
            lemma_mul_basics((limbs_val(q@) * (d as nat) + rem) as int);
            lemma_fundamental_div_mod_converse(
                limbs_val(s) as int,
                d as int,
                limbs_val(q@) as int,
                rem as int,
            );
        }
        self.limbs = q;
        self.trim();
        rem as u32
    }

    /// Exact comparison of the two values.
    pub fn cmp(&self, other: &Big) -> (o: Ordering)
        requires
            self.wf(),
            other.wf(),
        ensures
            (o == Ordering::Less) == (self@ < other@),
            (o == Ordering::Equal) == (self@ == other@),
            (o == Ordering::Greater) == (self@ > other@),
    {
        let a = &self.limbs;
        let b = &other.limbs;
        if a.len() < b.len() {
            proof {
                lemma_val_canonical_len(a@, b@);
            }
            return Ordering::Less;
        }
        if a.len() > b.len() {
            proof {
                lemma_val_canonical_len(b@, a@);
            }
            return Ordering::Greater;
        }
        let mut i = a.len();
        while i > 0
            invariant
                a@ == self.limbs@,
                b@ == other.limbs@,
                a@.len() == b@.len(),
                i <= a@.len(),
                forall|j: int| i <= j < a@.len() ==> a@[j] == b@[j],
            decreases i,
        {
            i -= 1;
            if a[i] < b[i] {
                proof {
                    lemma_top_differs_at(a@, b@, i);
                }
                return Ordering::Less;
            }
            if a[i] > b[i] {
                proof {
                    lemma_top_differs_at(b@, a@, i);
                }
                return Ordering::Greater;
            }
        }
        assert(a@ =~= b@);
        Ordering::Equal
    }

    /// `self <<= p` for a shift within one limb.
    fn shl_small(&mut self, p: u32)
        requires
            old(self).wf(),
            0 < p < 32,
        ensures
            final(self).wf(),
            final(self)@ == old(self)@ * pow2(p as nat),
    {
        let ghost s = self.limbs@;
        let ghost pp = pow2(p as nat);
        proof {
            lemma_pow2_pos(p as nat);
            vstd::bits::lemma_u64_pow2_no_overflow(p as nat);
            lemma_pow2_adds(32, p as nat);
            vstd::arithmetic::power2::lemma_pow2_strictly_increases(p as nat, 32);
            lemma2_to64();
        }
        let mut out: Vec<u32> = Vec::new();
        let mut carry: u64 = 0;
        let mut i: usize = 0;
        proof {
            assert(s.take(0) =~= Seq::<u32>::empty());
            lemma_mul_basics(pp as int);
            lemma_mul_basics(rpow(0) as int);
        }
        while i < self.limbs.len()
            invariant
                s == self.limbs@,
                pp == pow2(p as nat),
                0 < pp < radix(),
                0 < p < 32,
                i <= s.len(),
                out@.len() == i,
                carry < pp,
                limbs_val(out@) + carry * rpow(i as nat) == limbs_val(s.take(i as int)) * pp,
            decreases s.len() - i,
        {
            let l = self.limbs[i];
            let hi: u64 = (l as u64) << (p as u64);
            proof {
                assert((l as u64) * pp <= u64::MAX) by (nonlinear_arith)
                    requires l < radix(), pp < radix();
                lemma_u64_shl_is_mul(l as u64, p as u64);
                assert(carry < (1u64 << (p as u64))) by {
                    vstd::bits::lemma_u64_shl_is_mul(1u64, p as u64);
                    lemma_mul_basics(pp as int);
                }
            }
            let c = carry;
            assert(hi | c == hi + c) by (bit_vector)
                requires hi == (l as u64) << (p as u64), c < (1u64 << (p as u64)), p < 32u32;
            let v: u64 = hi | c;
            proof {
                lemma_split_u64(v);
                lemma_val_push(out@, #[verifier::truncate] (v as u32));
                assert(s.take(i + 1).drop_last() =~= s.take(i as int));
                lemma_fundamental_div_mod(v as int, radix() as int);
                let ghost vi = limbs_val(s.take(i as int));
                assert(limbs_val(s.take(i + 1)) == vi + (l as nat) * rpow(i as nat));
                assert(rpow((i + 1) as nat) == radix() * rpow(i as nat));
                assert(limbs_val(out@) + ((v as nat) % radix()) * rpow(i as nat) + ((v as nat)
                    / radix()) * rpow((i + 1) as nat) == limbs_val(s.take(i + 1)) * pp)
                    by (nonlinear_arith)
                    requires
                        limbs_val(out@) + carry * rpow(i as nat) == vi * pp,
                        limbs_val(s.take(i + 1)) == vi + (l as nat) * rpow(i as nat),
                        rpow((i + 1) as nat) == radix() * rpow(i as nat),
                        v as nat == radix() * ((v as nat) / radix()) + (v as nat) % radix(),
                        v as nat == l * pp + carry,
                ;
                assert((v as nat) / radix() < pp) by (nonlinear_arith)
                    requires
                        v as nat == l * pp + carry,
                        l < radix(),
                        carry < pp,
                        pp > 0,
                        radix() > 0,
                {
                    assert((v as nat) < radix() * pp);
                    vstd::arithmetic::div_mod::lemma_multiply_divide_lt(v as int, radix() as int, pp as int);
                }
            }
            out.push(#[verifier::truncate] (v as u32));
            carry = v >> 32u64;
            i += 1;
        }
        assert(s.take(i as int) =~= s);
        if carry != 0 {
            proof {
                lemma_val_push(out@, carry as u32);
            }
            out.push(carry as u32);
        }
        self.limbs = out;
        self.trim();
    }

    /// `self *= radix^w`, by prepending `w` zero limbs.
    fn shl_limbs(&mut self, w: u32)
        requires
            old(self).wf(),
        ensures
            final(self).wf(),
            final(self)@ == old(self)@ * rpow(w as nat),
    {
        if self.limbs.len() == 0 {
            proof {
                lemma_mul_basics(rpow(w as nat) as int);
            }
            return;
        }
        let ghost s = self.limbs@;
        let mut out: Vec<u32> = Vec::new();
        let mut j: u32 = 0;
        while j < w
            invariant
                j <= w,
                out@.len() == j,
                forall|t: int| 0 <= t < j ==> out@[t] == 0,
            decreases w - j,
        {
            out.push(0);
            j += 1;
        }
        let mut i: usize = 0;
        while i < self.limbs.len()
            invariant
                s == self.limbs@,
                i <= s.len(),
                out@.len() == w + i,
                forall|t: int| 0 <= t < w ==> out@[t] == 0,
                forall|t: int| 0 <= t < i ==> out@[w + t] == s[t],
            decreases s.len() - i,
        {
            out.push(self.limbs[i]);
            i += 1;
        }
        proof {
            lemma_val_split(out@, w as nat);
            lemma_val_zeros(out@.take(w as int));
            assert(out@.skip(w as int) =~= s);
            lemma_mul_is_commutative(rpow(w as nat) as int, limbs_val(s) as int);
        }
        self.limbs = out;
    }

    /// `self <<= n`
    pub fn shl_bits(&mut self, n: u32)
        requires
            old(self).wf(),
        ensures
            final(self).wf(),
            final(self)@ == old(self)@ * pow2(n as nat),
    {
        let ghost v0 = self@;
        let whole = n / 32;
        let part = n % 32;
        if part > 0 {
            self.shl_small(part);
        } else {
            proof {
                lemma2_to64();
                lemma_mul_basics(v0 as int);
            }
        }
        self.shl_limbs(whole);
        proof {
            lemma_rpow_pow2(whole as nat);
            assert(n as nat == part as nat + 32 * (whole as nat));
            lemma_pow2_adds(part as nat, 32 * (whole as nat));
            lemma_mul_is_associative(v0 as int, pow2(part as nat) as int, pow2(32 * (whole as nat)) as int);
        }
    }

    /// `self >>= n`
    pub fn shr_bits(&mut self, n: u32)
        requires
            old(self).wf(),
        ensures
            final(self).wf(),
            final(self)@ == old(self)@ / pow2(n as nat),
    {
        let ghost s = self.limbs@;
        let whole = n / 32;
        let part = n % 32;
        proof {
            lemma_rpow_pow2(whole as nat);
            lemma_rpow_pos(whole as nat);
            lemma_pow2_pos(part as nat);
            assert(n as nat == part as nat + 32 * (whole as nat));
            lemma_pow2_adds(32 * (whole as nat), part as nat);
            vstd::arithmetic::div_mod::lemma_div_denominator(
                limbs_val(s) as int,
                rpow(whole as nat) as int,
                pow2(part as nat) as int,
            );
        }
        if (whole as usize) >= self.limbs.len() {
            proof {
                lemma_val_bound(s);
                vstd::arithmetic::power::lemma_pow_increases(2, 32 * s.len(), 32 * (whole as nat));
                vstd::arithmetic::power2::lemma_pow2(32 * s.len());
                vstd::arithmetic::power2::lemma_pow2(32 * (whole as nat));
                lemma_rpow_pow2(s.len());
                vstd::arithmetic::div_mod::lemma_basic_div(limbs_val(s) as int, rpow(whole as nat) as int);
                vstd::arithmetic::div_mod::lemma_div_basics_2(pow2(part as nat) as int);
            }
            self.limbs.clear();
            return;
        }
        let mut out: Vec<u32> = Vec::new();
        let mut i: usize = whole as usize;
        while i < self.limbs.len()
            invariant
                s == self.limbs@,
                whole <= i <= s.len(),
                out@ =~= s.subrange(whole as int, i as int),
            decreases s.len() - i,
        {
            out.push(self.limbs[i]);
            i += 1;
        }
        proof {
            assert(out@ =~= s.skip(whole as int));
            lemma_val_skip_div(s, whole as nat);
        }
        self.limbs = out;
        if part > 0 {
            let d: u32 = 1u32 << part;
            proof {
                vstd::bits::lemma_u32_pow2_no_overflow(part as nat);
                lemma_mul_basics(pow2(part as nat) as int);
                vstd::bits::lemma_u32_shl_is_mul(1u32, part);
            }
            self.divmod_u32(d);
        } else {
            proof {
                lemma2_to64();
            }
        }
    }

    /// `self *= 5^n`
    pub fn mul_pow5(&mut self, n: u32)
        requires
            old(self).wf(),
        ensures
            final(self).wf(),
            final(self)@ == old(self)@ * pow5(n as nat),
    {
        let ghost v0 = self@;
        let mut m = n;
        proof {
            lemma_mul_basics(v0 as int);
        }
        while m >= 13
            invariant
                self.wf(),
                m <= n,
                self@ == v0 * pow5((n - m) as nat),
            decreases m,
        {
            proof {
                reveal_with_fuel(pow5, 14);
                lemma_pow5_add((n - m) as nat, 13);
                lemma_mul_is_associative(v0 as int, pow5((n - m) as nat) as int, pow5(13) as int);
            }
            self.mul_u32(1_220_703_125);
            m -= 13;
        }
        if m > 0 {
            let f = small_pow5(m);
            proof {
                lemma_pow5_add((n - m) as nat, m as nat);
                lemma_mul_is_associative(v0 as int, pow5((n - m) as nat) as int, pow5(m as nat) as int);
            }
            self.mul_u32(f);
        }
    }

    /// Bit `b` of limb `k`, which is bit `32k + b` of the value.
    pub fn bit_at(&self, k: usize, b: u32) -> (r: bool)
        requires
            self.wf(),
            b < 32,
        ensures
            r == ((self@ / pow2(bit_pos(k, b))) % 2 == 1),
    {
        let ghost s = self.limbs@;
        if k >= self.limbs.len() {
            proof {
                lemma_val_bound(s);
                lemma_rpow_pow2(s.len());
                vstd::arithmetic::power::lemma_pow_increases(2, 32 * s.len(), bit_pos(k, b));
                vstd::arithmetic::power2::lemma_pow2(32 * s.len());
                vstd::arithmetic::power2::lemma_pow2(bit_pos(k, b));
                lemma_pow2_pos(bit_pos(k, b));
                vstd::arithmetic::div_mod::lemma_basic_div(limbs_val(s) as int, pow2(bit_pos(k, b)) as int);
            }
            return false;
        }
        let l = self.limbs[k];
        let t = l >> b;
        proof {
            lemma_u32_shr_is_div(l, b);
            lemma_val_bit(s, k as nat, b as nat);
        }
        assert(t & 1 == t % 2) by (bit_vector);
        (t & 1) == 1
    }

    /// Whether the value is a multiple of two.
    pub fn is_even(&self) -> (e: bool)
        requires
            self.wf(),
        ensures
            e == (self@ % 2 == 0),
    {
        proof {
            lemma2_to64();
            assert(bit_pos(0, 0) == 0);
            vstd::arithmetic::div_mod::lemma_div_basics_2(self@ as int);
        }
        !self.bit_at(0, 0)
    }

    /// `self * other`
    pub fn mul_big(&self, other: &Big) -> (r: Big)
        requires
            self.wf(),
            other.wf(),
        ensures
            r.wf(),
            r@ == self@ * other@,
    {
        let ghost b = other.limbs@;
        let mut acc = Big::zero();
        let mut j = other.limbs.len();
        proof {
            assert(b.skip(j as int) =~= Seq::<u32>::empty());
            lemma_mul_basics(self@ as int);
        }
        while j > 0
            invariant
                b == other.limbs@,
                j <= b.len(),
                self.wf(),
                acc.wf(),
                acc@ == self@ * limbs_val(b.skip(j as int)),
            decreases j,
        {
            j -= 1;
            let ghost hi = limbs_val(b.skip(j + 1));
            acc.shl_bits(32);
            let mut t = self.dup();
            t.mul_u32(other.limbs[j]);
            acc.add(&t);
            proof {
                lemma2_to64();
                lemma_val_first(b.skip(j as int));
                assert(b.skip(j as int).skip(1) =~= b.skip(j + 1));
                assert(acc@ == self@ * limbs_val(b.skip(j as int))) by (nonlinear_arith)
                    requires
                        acc@ == (self@ * hi) * radix() + self@ * (b[j as int] as nat),
                        limbs_val(b.skip(j as int)) == (b[j as int] as nat) + radix() * hi,
                ;
            }
        }
        assert(b.skip(0) =~= b);
        acc
    }

    /// Whether `self < other`.
    pub fn lt(&self, other: &Big) -> (r: bool)
        requires
            self.wf(),
            other.wf(),
        ensures
            r == (self@ < other@),
    {
        match self.cmp(other) {
            Ordering::Less => true,
            _ => false,
        }
    }

    /// Quotient and remainder, by binary long division.
    pub fn divmod_big(&self, d: &Big) -> (qr: (Big, Big))
        requires
            self.wf(),
            d.wf(),
            d@ > 0,
        ensures
            qr.0.wf(),
            qr.1.wf(),
            qr.0@ == self@ / d@,
            qr.1@ == self@ % d@,
    {
        let ghost x = self@;
        let mut q = Big::zero();
        let mut r = Big::zero();
        let mut k = self.limbs.len();
        proof {
            lemma_val_bound(self.limbs@);
            lemma_rpow_pow2(k as nat);
            lemma_pow2_pos(bit_pos(k, 0));
            assert(bit_pos(k, 0) == 32 * k);
            vstd::arithmetic::div_mod::lemma_basic_div(x as int, pow2(bit_pos(k, 0)) as int);
            lemma_mul_basics(d@ as int);
        }
        while k > 0
            invariant
                self.wf(),
                d.wf(),
                d@ > 0,
                x == self@,
                q.wf(),
                r.wf(),
                r@ < d@,
                x / pow2(bit_pos(k, 0)) == q@ * d@ + r@,
            decreases k,
        {
            k -= 1;
            let mut b: u32 = 32;
            proof {
                assert(bit_pos(k, 32) == bit_pos((k + 1) as usize, 0));
            }
            while b > 0
                invariant
                    self.wf(),
                    d.wf(),
                    d@ > 0,
                    x == self@,
                    q.wf(),
                    r.wf(),
                    r@ < d@,
                    b <= 32,
                    x / pow2(bit_pos(k, b)) == q@ * d@ + r@,
                decreases b,
            {
                b -= 1;
                let bit = self.bit_at(k, b);
                let ghost q0 = q@;
                let ghost r0 = r@;
                r.shl_bits(1);
                if bit {
                    r.add_u32(1);
                }
                q.shl_bits(1);
                proof {
                    lemma2_to64();
                    lemma_div_step(x, bit_pos(k, b));
                    assert(bit_pos(k, b) + 1 == bit_pos(k, (b + 1) as u32));
                    assert(r@ == 2 * r0 + (if bit { 1nat } else { 0nat }));
                    assert(q@ == 2 * q0);
                    assert(x / pow2(bit_pos(k, b)) == q@ * d@ + r@) by (nonlinear_arith)
                        requires
                            x / pow2(bit_pos(k, b)) == 2 * (q0 * d@ + r0) + (if bit { 1nat } else { 0nat }),
                            r@ == 2 * r0 + (if bit { 1nat } else { 0nat }),
                            q@ == 2 * q0,
                    ;
                }
                if !r.lt(d) {
                    let ghost q1 = q@;
                    let ghost r1 = r@;
                    r.sub_assign(d);
                    q.add_u32(1);
                    proof {
                        assert(x / pow2(bit_pos(k, b)) == q@ * d@ + r@) by (nonlinear_arith)
                            requires
                                x / pow2(bit_pos(k, b)) == q1 * d@ + r1,
                                r@ == r1 - d@,
                                q@ == q1 + 1,
                                r1 >= d@,
                        ;
                    }
                }
            }
        }
        proof {
            assert(bit_pos(0, 0) == 0);
            lemma2_to64();
            vstd::arithmetic::div_mod::lemma_fundamental_div_mod_converse(
                x as int,
                d@ as int,
                q@ as int,
                r@ as int,
            );
        }
        (q, r)
    }
}

/// The value of little-endian base-10^9 groups.
pub open spec fn groups_val(g: Seq<u32>) -> nat
    decreases g.len(),
{
    if g.len() == 0 {
        0
    } else {
        (g[0] as nat) + 1_000_000_000 * groups_val(g.skip(1))
    }
}

proof fn lemma_groups_push(g: Seq<u32>, x: u32)
    ensures
        groups_val(g.push(x)) == groups_val(g) + (x as nat) * pow10(9 * g.len()),
    decreases g.len(),
{
    if g.len() == 0 {
        assert(g.push(x).skip(1) =~= Seq::<u32>::empty());
        assert(groups_val(g.push(x).skip(1)) == 0);
        assert(groups_val(g) == 0);
        assert(pow10(0) == 1);
        lemma_mul_basics(x as int);
    } else {
        assert(g.push(x).skip(1) =~= g.skip(1).push(x));
        assert(g.push(x)[0] == g[0]);
        lemma_groups_push(g.skip(1), x);
        lemma_pow10_add(9, 9 * (g.len() - 1) as nat);
        reveal_with_fuel(pow10, 10);
        assert(9 * g.len() == 9 + 9 * (g.len() - 1) as nat);
        assert(1_000_000_000 * ((x as nat) * pow10(9 * (g.len() - 1) as nat)) == (x as nat) * (
        1_000_000_000 * pow10(9 * (g.len() - 1) as nat))) by (nonlinear_arith);
    }
}

proof fn lemma_groups_pos(g: Seq<u32>)
    requires
        g.len() > 0,
        g.last() > 0,
    ensures
        groups_val(g) > 0,
    decreases g.len(),
{
    if g.len() > 1 {
        assert(g.skip(1).last() == g.last());
        lemma_groups_pos(g.skip(1));
    }
}

impl Big {
    /// Decimal digits, most significant first; `"0"` when zero.
    pub fn to_decimal(&self) -> (s: String)
        requires
            self.wf(),
        ensures
            s@ == dec_digits(self@),
    {
        if self.is_zero() {
            let mut s = String::new();
            push_char(&mut s, '0');
            return s;
        }
        let mut work = self.dup();
        let mut groups: Vec<u32> = Vec::new();
        proof {
            assert(pow10(0) == 1);
            lemma_mul_basics(work@ as int);
        }
        while !work.is_zero()
            invariant
                work.wf(),
                self@ == work@ * pow10(9 * groups@.len()) + groups_val(groups@),
                groups@.len() > 0 || work@ > 0,
                groups@.len() == 0 || work@ > 0 || groups@.last() > 0,
                forall|j: int| 0 <= j < groups@.len() ==> groups@[j] < 1_000_000_000,
            decreases work@,
        {
            let ghost w0 = work@;
            let r = work.divmod_u32(1_000_000_000);
            proof {
                lemma_groups_push(groups@, r);
                lemma_pow10_add(9 * groups@.len(), 9);
                reveal_with_fuel(pow10, 10);
                lemma_fundamental_div_mod(w0 as int, 1_000_000_000);
                lemma_pow10_pos(9 * groups@.len());
                let ghost p = pow10(9 * groups@.len());
                assert(w0 * p == work@ * (p * 1_000_000_000) + (r as nat) * p) by (nonlinear_arith)
                    requires w0 == 1_000_000_000 * work@ + r;
            }
            groups.push(r);
        }
        let k = groups.len();
        let ghost g = groups@;
        let mut s = String::new();
        push_dec(&mut s, groups[k - 1]);
        proof {
            assert(g.skip(k - 1).skip(1) =~= Seq::<u32>::empty());
            assert(g.skip(k - 1)[0] == g[k - 1]);
            lemma_mul_basics(work@ as int);
        }
        let mut i = k - 1;
        while i > 0
            invariant
                g == groups@,
                k == g.len(),
                i < k,
                g.last() > 0,
                forall|j: int| 0 <= j < g.len() ==> g[j] < 1_000_000_000,
                s@ == dec_digits(groups_val(g.skip(i as int))),
            decreases i,
        {
            proof {
                assert(g.skip(i as int).last() == g.last());
                lemma_groups_pos(g.skip(i as int));
                assert(g.skip(i - 1).skip(1) =~= g.skip(i as int));
                assert(g.skip(i - 1)[0] == g[i - 1]);
                reveal_with_fuel(pow10, 10);
                lemma_dec_concat(groups_val(g.skip(i as int)), g[i - 1] as nat, 9);
                vstd::arithmetic::mul::lemma_mul_is_commutative(1_000_000_000, groups_val(g.skip(i as int)) as int);
            }
            push_fixed(&mut s, groups[i - 1], 9);
            i -= 1;
        }
        assert(g.skip(0) =~= g);
        s
    }
}

/// The bit position `32k + b`.
pub open spec fn bit_pos(k: usize, b: u32) -> nat {
    (32 * k + b) as nat
}

/// `5^n` for `n < 13`, which fits in a limb.
fn small_pow5(n: u32) -> (r: u32)
    requires
        0 < n < 13,
    ensures
        r as nat == pow5(n as nat),
{
    proof {
        reveal_with_fuel(pow5, 13);
    }
    match n {
        1 => 5,
        2 => 25,
        3 => 125,
        4 => 625,
        5 => 3125,
        6 => 15625,
        7 => 78125,
        8 => 390625,
        9 => 1953125,
        10 => 9765625,
        11 => 48828125,
        _ => 244140625,
    }
}

/// One step of binary long division: `x / 2^p = 2 (x / 2^(p+1)) + bit p`.
proof fn lemma_div_step(x: nat, p: nat)
    ensures
        x / pow2(p) == 2 * (x / pow2(p + 1)) + (x / pow2(p)) % 2,
{
    lemma_pow2_pos(p);
    lemma_pow2_adds(p, 1);
    lemma2_to64();
    vstd::arithmetic::div_mod::lemma_div_denominator(x as int, pow2(p) as int, 2);
    lemma_fundamental_div_mod((x / pow2(p)) as int, 2);
}

/// Bit `32k + b` of a limb sequence's value is bit `b` of limb `k`.
proof fn lemma_val_bit(s: Seq<u32>, k: nat, b: nat)
    requires
        k < s.len(),
        b < 32,
    ensures
        (limbs_val(s) / pow2(32 * k + b)) % 2 == ((s[k as int] as nat) / pow2(b)) % 2,
{
    let x = limbs_val(s);
    let lo = limbs_val(s.take(k as int));
    let hp = limbs_val(s.skip(k as int));
    let h = limbs_val(s.skip((k + 1) as int));
    let l = s[k as int] as nat;
    lemma_val_split(s, k);
    lemma_val_bound(s.take(k as int));
    lemma_val_first(s.skip(k as int));
    assert(s.skip(k as int).skip(1) =~= s.skip((k + 1) as int));
    lemma_rpow_pow2(k);
    lemma_rpow_pos(k);
    lemma_pow2_pos(b);
    lemma_pow2_adds(32 * k, b);
    // x / rpow(k) == hp
    vstd::arithmetic::div_mod::lemma_fundamental_div_mod_converse(x as int, rpow(k) as int, hp as int, lo as int);
    vstd::arithmetic::div_mod::lemma_div_denominator(x as int, rpow(k) as int, pow2(b) as int);
    // hp / 2^b == l / 2^b + 2^(32-b) h
    let e = (32 - b) as nat;
    lemma_pow2_adds(b, e);
    lemma2_to64();
    lemma_pow2_pos(e);
    lemma_fundamental_div_mod(l as int, pow2(b) as int);
    let qq = l / pow2(b);
    let rr = l % pow2(b);
    assert(hp == pow2(b) * (qq + pow2(e) * h) + rr) by (nonlinear_arith)
        requires
            hp == l + radix() * h,
            radix() == pow2(b) * pow2(e),
            l == pow2(b) * qq + rr,
    ;
    vstd::arithmetic::div_mod::lemma_fundamental_div_mod_converse(hp as int, pow2(b) as int, (qq + pow2(e) * h) as int, rr as int);
    // the high part is even
    lemma_pow2_adds(1, (e - 1) as nat);
    lemma_fundamental_div_mod(qq as int, 2);
    assert(qq + pow2(e) * h == 2 * (qq / 2 + pow2((e - 1) as nat) * h) + qq % 2) by (nonlinear_arith)
        requires
            pow2(e) == pow2(1) * pow2((e - 1) as nat),
            pow2(1) == 2,
            qq == 2 * (qq / 2) + qq % 2,
    ;
    vstd::arithmetic::div_mod::lemma_fundamental_div_mod_converse((qq + pow2(e) * h) as int, 2, (qq / 2 + pow2((e - 1) as nat) * h) as int, (qq % 2) as int);
}

} // verus!
