//! Little-endian sequences of 32-bit limbs as natural numbers.

use vstd::arithmetic::div_mod::*;
use vstd::arithmetic::mul::*;
use vstd::arithmetic::power2::*;
use vstd::prelude::*;

verus! {

/// The radix of a limb.
pub open spec fn radix() -> nat {
    0x1_0000_0000
}

/// `radix()^k`.
pub open spec fn radix_pow(k: nat) -> nat {
    pow2(32 * k)
}

/// The number written by `s`, least significant limb first.
pub open spec fn limbs_value(s: Seq<u32>) -> nat
    decreases s.len(),
{
    if s.len() == 0 {
        0
    } else {
        limbs_value(s.drop_last()) + s.last() as nat * radix_pow((s.len() - 1) as nat)
    }
}

/// The number written by wide digits `s` in the same radix,
/// before any carry is propagated.
pub open spec fn columns_value(s: Seq<nat>) -> nat
    decreases s.len(),
{
    if s.len() == 0 {
        0
    } else {
        columns_value(s.drop_last()) + s.last() * radix_pow((s.len() - 1) as nat)
    }
}

/// Unnormalised columns as numbers.
pub open spec fn wide(s: Seq<u128>) -> Seq<nat> {
    Seq::new(s.len(), |k: int| s[k] as nat)
}

pub proof fn lemma_radix_pow(k: nat)
    ensures
        radix_pow(0) == 1,
        radix_pow(1) == radix(),
        radix_pow(k) > 0,
        radix_pow(k + 1) == radix() * radix_pow(k),
        radix_pow(k + 1) == radix_pow(k) * radix(),
{
    lemma2_to64();
    lemma_pow2_pos(32 * k);
    lemma_pow2_adds(32, 32 * k);
    assert(32 * (k + 1) == 32 + 32 * k);
    lemma_mul_is_commutative(radix() as int, radix_pow(k) as int);
}

pub proof fn lemma_radix_pow_adds(a: nat, b: nat)
    ensures
        radix_pow(a + b) == radix_pow(a) * radix_pow(b),
{
    lemma_pow2_adds(32 * a, 32 * b);
    assert(32 * (a + b) == 32 * a + 32 * b);
}

/// A number of `k` limbs is below `radix()^k`.
pub proof fn lemma_limbs_bound(s: Seq<u32>)
    ensures
        limbs_value(s) < radix_pow(s.len()),
    decreases s.len(),
{
    if s.len() == 0 {
        lemma_radix_pow(0);
    } else {
        let k = (s.len() - 1) as nat;
        lemma_limbs_bound(s.drop_last());
        lemma_radix_pow(k);
        let p = radix_pow(k);
        assert(s.last() as nat * p + p <= radix() * p) by (nonlinear_arith)
            requires
                s.last() as nat + 1 <= radix(),
        ;
    }
}

/// Appending a limb adds it at the top.
pub proof fn lemma_limbs_push(s: Seq<u32>, v: u32)
    ensures
        limbs_value(s.push(v)) == limbs_value(s) + v as nat * radix_pow(s.len()),
{
    assert(s.push(v).drop_last() =~= s);
}

/// Splitting at `k`: low limbs plus the high limbs shifted up.
pub proof fn lemma_limbs_split(s: Seq<u32>, k: int)
    requires
        0 <= k <= s.len(),
    ensures
        limbs_value(s) == limbs_value(s.take(k)) + radix_pow(k as nat) * limbs_value(s.skip(k)),
    decreases s.len() - k,
{
    if k == s.len() {
        assert(s.take(k) =~= s);
        assert(s.skip(k) =~= Seq::<u32>::empty());
        lemma_mul_basics(radix_pow(k as nat) as int);
    } else {
        let n = (s.len() - 1) as nat;
        lemma_limbs_split(s.drop_last(), k);
        assert(s.drop_last().take(k) =~= s.take(k));
        assert(s.skip(k).drop_last() =~= s.drop_last().skip(k));
        assert(s.skip(k).last() == s.last());
        let lo = radix_pow(k as nat);
        let hi = radix_pow((n - k) as nat);
        lemma_radix_pow_adds(k as nat, (n - k) as nat);
        let x = limbs_value(s.drop_last().skip(k));
        let top = s.last() as nat;
        assert(lo * (x + top * hi) == lo * x + top * (lo * hi)) by (nonlinear_arith);
    }
}

/// Limb sequences of one length are equal when their values are.
pub proof fn lemma_limbs_injective(a: Seq<u32>, b: Seq<u32>)
    requires
        a.len() == b.len(),
        limbs_value(a) == limbs_value(b),
    ensures
        a == b,
    decreases a.len(),
{
    if a.len() > 0 {
        let k = (a.len() - 1) as nat;
        let p = radix_pow(k);
        lemma_limbs_bound(a.drop_last());
        lemma_limbs_bound(b.drop_last());
        let (x, y) = (limbs_value(a.drop_last()), limbs_value(b.drop_last()));
        let (u, v) = (a.last() as nat, b.last() as nat);
        assert(u == v && x == y) by (nonlinear_arith)
            requires
                x < p,
                y < p,
                x + u * p == y + v * p,
        ;
        lemma_limbs_injective(a.drop_last(), b.drop_last());
        assert(a =~= a.drop_last().push(a.last()));
        assert(b =~= b.drop_last().push(b.last()));
    }
}

} // verus!
