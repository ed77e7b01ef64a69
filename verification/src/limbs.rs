//! The value of a little-endian limb sequence, and the facts about it that the big-integer
//! routines rely on.

use vstd::prelude::*;
use vstd::arithmetic::mul::lemma_mul_basics;

verus! {

/// The limb radix, 2^32.
pub open spec fn radix() -> nat {
    0x1_0000_0000nat
}

/// `radix()^i`.
pub open spec fn rpow(i: nat) -> nat
    decreases i,
{
    if i == 0 {
        1
    } else {
        radix() * rpow((i - 1) as nat)
    }
}

/// The value of a little-endian sequence of base-2^32 limbs.
pub open spec fn limbs_val(s: Seq<u32>) -> nat
    decreases s.len(),
{
    if s.len() == 0 {
        0
    } else {
        limbs_val(s.drop_last()) + (s.last() as nat) * rpow((s.len() - 1) as nat)
    }
}

pub proof fn lemma_rpow_pos(i: nat)
    ensures
        rpow(i) >= 1,
    decreases i,
{
    if i > 0 {
        lemma_rpow_pos((i - 1) as nat);
        assert(radix() * rpow((i - 1) as nat) >= rpow((i - 1) as nat)) by (nonlinear_arith)
            requires rpow((i - 1) as nat) >= 1;
    }
}

pub proof fn lemma_rpow_add(a: nat, b: nat)
    ensures
        rpow(a + b) == rpow(a) * rpow(b),
    decreases a,
{
    if a > 0 {
        let a1 = (a - 1) as nat;
        lemma_rpow_add(a1, b);
        assert(rpow(a + b) == radix() * rpow(a1 + b));
        assert(rpow(a) == radix() * rpow(a1));
        assert(radix() * (rpow(a1) * rpow(b)) == (radix() * rpow(a1)) * rpow(b))
            by (nonlinear_arith);
    } else {
        lemma_mul_basics(rpow(b) as int);
    }
}

pub proof fn lemma_val_push(s: Seq<u32>, x: u32)
    ensures
        limbs_val(s.push(x)) == limbs_val(s) + (x as nat) * rpow(s.len()),
{
    assert(s.push(x).drop_last() =~= s);
}

pub proof fn lemma_val_bound(s: Seq<u32>)
    ensures
        limbs_val(s) < rpow(s.len()),
    decreases s.len(),
{
    if s.len() > 0 {
        let n = (s.len() - 1) as nat;
        lemma_val_bound(s.drop_last());
        assert(rpow(s.len()) == radix() * rpow(n));
        assert(limbs_val(s.drop_last()) + (s.last() as nat) * rpow(n) < radix() * rpow(n))
            by (nonlinear_arith)
            requires
                limbs_val(s.drop_last()) < rpow(n),
                (s.last() as nat) < radix(),
        ;
    }
}

/// A nonzero top limb puts the value at least at `radix^(len-1)`.
pub proof fn lemma_val_lower(s: Seq<u32>)
    requires
        s.len() > 0,
        s.last() != 0,
    ensures
        limbs_val(s) >= rpow((s.len() - 1) as nat),
        limbs_val(s) > 0,
{
    let n = (s.len() - 1) as nat;
    lemma_rpow_pos(n);
    assert((s.last() as nat) * rpow(n) >= rpow(n)) by (nonlinear_arith)
        requires s.last() != 0;
}

/// A zero top limb contributes nothing.
pub proof fn lemma_val_drop_zero(s: Seq<u32>)
    requires
        s.len() > 0,
        s.last() == 0,
    ensures
        limbs_val(s) == limbs_val(s.drop_last()),
{
}

/// Splitting a limb sequence into a low and a high part.
pub proof fn lemma_val_split(s: Seq<u32>, i: nat)
    requires
        i <= s.len(),
    ensures
        limbs_val(s) == limbs_val(s.take(i as int)) + rpow(i) * limbs_val(s.skip(i as int)),
    decreases s.len(),
{
    if i == s.len() {
        assert(s.take(i as int) =~= s);
        assert(s.skip(i as int) =~= Seq::<u32>::empty());
        lemma_mul_basics(rpow(i) as int);
    } else {
        let t = s.drop_last();
        lemma_val_split(t, i);
        assert(t.take(i as int) =~= s.take(i as int));
        let hi = s.skip(i as int);
        assert(hi.drop_last() =~= t.skip(i as int));
        assert(hi.last() == s.last());
        let k = (hi.len() - 1) as nat;
        assert((s.len() - 1) as nat == i + k);
        lemma_rpow_add(i, k);
        assert(limbs_val(hi) == limbs_val(t.skip(i as int)) + (s.last() as nat) * rpow(k));
        assert(rpow(i) * limbs_val(hi) == rpow(i) * limbs_val(t.skip(i as int)) + (s.last() as nat)
            * (rpow(i) * rpow(k))) by (nonlinear_arith)
            requires
                limbs_val(hi) == limbs_val(t.skip(i as int)) + (s.last() as nat) * rpow(k),
        ;
    }
}

/// The lowest limb and the rest.
pub proof fn lemma_val_first(s: Seq<u32>)
    requires
        s.len() > 0,
    ensures
        limbs_val(s) == (s[0] as nat) + radix() * limbs_val(s.skip(1)),
{
    lemma_val_split(s, 1);
    assert(s.take(1).drop_last() =~= Seq::<u32>::empty());
    assert(rpow(0) == 1);
    assert(rpow(1) == radix() * rpow(0));
    lemma_mul_basics(s[0] as int);
    assert(s.take(1).last() == s[0]);
    assert(limbs_val(s.take(1).drop_last()) == 0);
    assert(limbs_val(s.take(1)) == (s[0] as nat) * rpow(0));
    lemma_mul_basics(limbs_val(s.skip(1)) as int);
}

/// Every limb value is determined by the value: two canonical sequences of equal value are equal.
pub proof fn lemma_val_canonical_len(a: Seq<u32>, b: Seq<u32>)
    requires
        a.len() == 0 || a.last() != 0,
        b.len() == 0 || b.last() != 0,
        a.len() < b.len(),
    ensures
        limbs_val(a) < limbs_val(b),
{
    lemma_val_bound(a);
    lemma_val_lower(b);
    if a.len() < b.len() - 1 {
        lemma_rpow_add(a.len(), (b.len() - 1 - a.len()) as nat);
        lemma_rpow_pos((b.len() - 1 - a.len()) as nat);
        assert(rpow(a.len()) * rpow((b.len() - 1 - a.len()) as nat) >= rpow(a.len()))
            by (nonlinear_arith)
            requires rpow((b.len() - 1 - a.len()) as nat) >= 1;
    }
}

} // verus!

verus! {

/// Equal-length sequences that agree above position `i` are ordered by their limbs at `i`.
pub proof fn lemma_val_top_differs(a: Seq<u32>, b: Seq<u32>, i: nat)
    requires
        a.len() == b.len(),
        i < a.len(),
        forall|j: int| i < j < a.len() ==> a[j] == b[j],
        a[i as int] < b[i as int],
    ensures
        limbs_val(a) < limbs_val(b),
{
    let k = i + 1;
    lemma_val_split(a, k);
    lemma_val_split(b, k);
    assert(a.skip(k as int) =~= b.skip(k as int));
    let at = a.take(k as int);
    let bt = b.take(k as int);
    assert(at.drop_last() =~= a.take(i as int));
    assert(bt.drop_last() =~= b.take(i as int));
    lemma_val_bound(a.take(i as int));
    assert(limbs_val(at) == limbs_val(a.take(i as int)) + (a[i as int] as nat) * rpow(i));
    assert(limbs_val(bt) == limbs_val(b.take(i as int)) + (b[i as int] as nat) * rpow(i));
    assert(limbs_val(a.take(i as int)) + (a[i as int] as nat) * rpow(i) < (b[i as int] as nat)
        * rpow(i)) by (nonlinear_arith)
        requires
            limbs_val(a.take(i as int)) < rpow(i),
            a[i as int] < b[i as int],
    ;
}

} // verus!

verus! {

/// The limb at `i`, reading zero past the end.
pub open spec fn limb_at(s: Seq<u32>, i: int) -> nat {
    if 0 <= i < s.len() {
        s[i] as nat
    } else {
        0
    }
}

/// The value of the lowest `i` limbs (all of them once `i` passes the end).
pub open spec fn prefix_val(s: Seq<u32>, i: nat) -> nat {
    if i <= s.len() {
        limbs_val(s.take(i as int))
    } else {
        limbs_val(s)
    }
}

pub proof fn lemma_prefix_zero(s: Seq<u32>)
    ensures
        prefix_val(s, 0) == 0,
{
    assert(s.take(0) =~= Seq::<u32>::empty());
}

pub proof fn lemma_prefix_step(s: Seq<u32>, i: nat)
    ensures
        prefix_val(s, i + 1) == prefix_val(s, i) + limb_at(s, i as int) * rpow(i),
{
    if i < s.len() {
        assert(s.take((i + 1) as int).drop_last() =~= s.take(i as int));
    } else {
        if i == s.len() {
            assert(s.take(i as int) =~= s);
        }
        lemma_mul_basics(rpow(i) as int);
    }
}

pub proof fn lemma_prefix_full(s: Seq<u32>, i: nat)
    requires
        i >= s.len(),
    ensures
        prefix_val(s, i) == limbs_val(s),
{
    if i == s.len() {
        assert(s.take(i as int) =~= s);
    }
}

} // verus!

verus! {

/// A sequence of zero limbs has value zero.
pub proof fn lemma_val_zeros(s: Seq<u32>)
    requires
        forall|j: int| 0 <= j < s.len() ==> s[j] == 0,
    ensures
        limbs_val(s) == 0,
    decreases s.len(),
{
    if s.len() > 0 {
        lemma_val_zeros(s.drop_last());
        lemma_mul_basics(rpow((s.len() - 1) as nat) as int);
    }
}

/// Dropping the lowest `k` limbs divides by `radix^k`.
pub proof fn lemma_val_skip_div(s: Seq<u32>, k: nat)
    requires
        k <= s.len(),
    ensures
        limbs_val(s.skip(k as int)) == limbs_val(s) / rpow(k),
        limbs_val(s.take(k as int)) == limbs_val(s) % rpow(k),
{
    lemma_val_split(s, k);
    lemma_val_bound(s.take(k as int));
    lemma_rpow_pos(k);
    vstd::arithmetic::div_mod::lemma_fundamental_div_mod_converse(
        limbs_val(s) as int,
        rpow(k) as int,
        limbs_val(s.skip(k as int)) as int,
        limbs_val(s.take(k as int)) as int,
    );
}

} // verus!
