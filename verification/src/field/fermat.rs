//! Squaring as often as the field has bits gives an element back, so that
//! every element but zero is a root of unity.

use vstd::arithmetic::power2::*;
use vstd::prelude::*;

use super::gf;
use super::laws;
use super::laws::Ring;
use crate::atoms::exp_form;

verus! {

/// `a^(2^n)`.
pub open spec fn frobenius<R: Ring>(a: R, n: nat) -> R
    decreases n,
{
    if n == 0 {
        a
    } else {
        let b = frobenius(a, (n - 1) as nat);
        b.times(b)
    }
}

/// Squaring respects sums.
proof fn lemma_square_of_sum<R: Ring>(a: R, b: R)
    ensures
        a.plus(b).times(a.plus(b)) == a.times(a).plus(b.times(b)),
{
    R::distributes(a.plus(b), a, b);
    laws::lemma_distributes_right(a, b, a);
    laws::lemma_distributes_right(a, b, b);
    R::commutes(a, b);
    let (x, y, z) = (a.times(a), a.times(b), b.times(b));
    // (x + y) + (y + z) = x + z
    laws::lemma_sums3(x, y, y.plus(z));
    laws::lemma_sums3(y, y, z);
    laws::lemma_sums3(z, z, z);
}

/// Squaring respects products.
proof fn lemma_square_of_product<R: Ring>(a: R, b: R)
    ensures
        a.times(b).times(a.times(b)) == a.times(a).times(b.times(b)),
{
    R::associates(a, b, a.times(b));
    R::associates(b, a, b);
    R::commutes(a, b);
    R::associates(a, b, b);
    R::associates(a, a, b.times(b));
}

proof fn lemma_frobenius_of_sum<R: Ring>(a: R, b: R, n: nat)
    ensures
        frobenius(a.plus(b), n) == frobenius(a, n).plus(frobenius(b, n)),
    decreases n,
{
    if n > 0 {
        lemma_frobenius_of_sum(a, b, (n - 1) as nat);
        lemma_square_of_sum(frobenius(a, (n - 1) as nat), frobenius(b, (n - 1) as nat));
    }
}

proof fn lemma_frobenius_adds<R: Ring>(a: R, m: nat, n: nat)
    ensures
        frobenius(frobenius(a, m), n) == frobenius(a, m + n),
    decreases n,
{
    if n > 0 {
        lemma_frobenius_adds(a, m, (n - 1) as nat);
    }
}

// ---------------------------------------------------------------
// One level up
// ---------------------------------------------------------------

/// What squaring `n` times adds to the low half for each unit of the high one.
spec fn twist<R: Ring>(n: nat) -> R
    decreases n,
{
    if n == 0 {
        R::zero()
    } else {
        let t = twist::<R>((n - 1) as nat);
        t.times(t).plus(R::tau())
    }
}

/// The halves of `(a0 + a1 X)^(2^n)`.
spec fn lifted<R: Ring>(a0: R, a1: R, n: nat) -> (R, R)
    decreases n,
{
    if n == 0 {
        (a0, a1)
    } else {
        let (b0, b1) = lifted(a0, a1, (n - 1) as nat);
        (laws::ext_lo(b0, b1, b0, b1), laws::ext_hi(b0, b1, b0, b1))
    }
}

/// The halves follow those of the level below, with a twist.
proof fn lemma_lifted<R: Ring>(a0: R, a1: R, n: nat)
    ensures
        lifted(a0, a1, n) == (
            frobenius(a0, n).plus(frobenius(a1, n).times(twist::<R>(n))),
            frobenius(a1, n),
        ),
    decreases n,
{
    if n == 0 {
        R::units(a1);
        laws::lemma_sums3(a0, a0, a0);
    } else {
        let m = (n - 1) as nat;
        lemma_lifted(a0, a1, m);
        let (f0, f1, t) = (frobenius(a0, m), frobenius(a1, m), twist::<R>(m));
        let b0 = f0.plus(f1.times(t));
        let (s0, s1) = (f0.times(f0), f1.times(f1));
        lemma_square_of_sum(f0, f1.times(t));
        lemma_square_of_product(f1, t);
        // low: (s0 + s1 t²) + s1 τ = s0 + s1 (t² + τ)
        R::distributes(s1, t.times(t), R::tau());
        laws::lemma_sums3(s0, s1.times(t.times(t)), s1.times(R::tau()));
        // high: b0 f1 + f1 b0 + f1 f1 = f1 f1
        R::commutes(b0, f1);
        laws::lemma_sums3(b0.times(f1), b0.times(f1), s1);
        laws::lemma_sums3(s1, s1, s1);
    }
}

/// Where squaring `n` times gives the level below back, squaring `2n` times
/// gives this one back.
proof fn lemma_lifted_back<R: Ring>(a0: R, a1: R, n: nat)
    requires
        forall|x: R| #[trigger] frobenius(x, n) == x,
    ensures
        ({
            let (b0, b1) = lifted(a0, a1, n);
            lifted(b0, b1, n) == (a0, a1)
        }),
{
    lemma_lifted(a0, a1, n);
    let (b0, b1) = lifted(a0, a1, n);
    lemma_lifted(b0, b1, n);
    assert(frobenius(a0, n) == a0 && frobenius(a1, n) == a1 && frobenius(b0, n) == b0);
    let x = a1.times(twist::<R>(n));
    laws::lemma_sums3(a0, x, x);
    laws::lemma_sums3(x, x, x);
    laws::lemma_sums3(a0, a0, a0);
}

// ---------------------------------------------------------------
// The levels
// ---------------------------------------------------------------

proof fn lemma_gf8_back(a: u8)
    ensures
        frobenius(a, 8) == a,
{
    let a2 = gf::gf8_mul(a, a);
    let a4 = gf::gf8_mul(a2, a2);
    let a8 = gf::gf8_mul(a4, a4);
    let a16 = gf::gf8_mul(a8, a8);
    let a32 = gf::gf8_mul(a16, a16);
    let a64 = gf::gf8_mul(a32, a32);
    let a128 = gf::gf8_mul(a64, a64);
    assert(gf::gf8_mul(a128, a128) == a) by (bit_vector)
        requires
            a2 == gf::gf8_mul(a, a),
            a4 == gf::gf8_mul(a2, a2),
            a8 == gf::gf8_mul(a4, a4),
            a16 == gf::gf8_mul(a8, a8),
            a32 == gf::gf8_mul(a16, a16),
            a64 == gf::gf8_mul(a32, a32),
            a128 == gf::gf8_mul(a64, a64),
    ;
    reveal_with_fuel(frobenius, 9);
    assert(frobenius(a, 1) == a2 && frobenius(a, 2) == a4 && frobenius(a, 3) == a8 && frobenius(
        a,
        4,
    ) == a16);
    assert(frobenius(a, 5) == a32 && frobenius(a, 6) == a64 && frobenius(a, 7) == a128);
}

/// The halves of a power in GF(2^16).
proof fn lemma_gf16_lifts(a: u16, n: nat)
    ensures
        ({
            let b = frobenius(a, n);
            (b as u8, (b >> 8) as u8) == lifted(a as u8, (a >> 8) as u8, n)
        }),
    decreases n,
{
    if n > 0 {
        let b = frobenius(a, (n - 1) as nat);
        lemma_gf16_lifts(a, (n - 1) as nat);
        reveal(gf::gf16_mul);
        let (b0, b1) = (b as u8, (b >> 8) as u8);
        laws::lemma_halves16(
            b,
            laws::ext_lo(b0, b1, b0, b1),
            laws::ext_hi(b0, b1, b0, b1),
            b,
            0,
            0,
        );
    }
}

proof fn lemma_gf16_back(a: u16)
    ensures
        frobenius(a, 16) == a,
{
    assert forall|x: u8| #[trigger] frobenius(x, 8) == x by {
        lemma_gf8_back(x);
    }
    let (a0, a1) = (a as u8, (a >> 8) as u8);
    let b = frobenius(a, 8);
    let c = frobenius(b, 8);
    lemma_gf16_lifts(a, 8);
    lemma_gf16_lifts(b, 8);
    lemma_lifted_back(a0, a1, 8);
    laws::lemma_halves16(a, 0, 0, a, 0, 0);
    laws::lemma_halves16(c, 0, 0, c, 0, 0);
    lemma_frobenius_adds(a, 8, 8);
}

/// The halves of a power in GF(2^32).
proof fn lemma_gf32_lifts(a: u32, n: nat)
    ensures
        ({
            let b = frobenius(a, n);
            (b as u16, (b >> 16) as u16) == lifted(a as u16, (a >> 16) as u16, n)
        }),
    decreases n,
{
    if n > 0 {
        let b = frobenius(a, (n - 1) as nat);
        lemma_gf32_lifts(a, (n - 1) as nat);
        reveal(gf::gf32_mul);
        let (b0, b1) = (b as u16, (b >> 16) as u16);
        laws::lemma_halves32(
            b,
            laws::ext_lo(b0, b1, b0, b1),
            laws::ext_hi(b0, b1, b0, b1),
            b,
            0,
            0,
        );
    }
}

proof fn lemma_gf32_back(a: u32)
    ensures
        frobenius(a, 32) == a,
{
    assert forall|x: u16| #[trigger] frobenius(x, 16) == x by {
        lemma_gf16_back(x);
    }
    let (a0, a1) = (a as u16, (a >> 16) as u16);
    let b = frobenius(a, 16);
    let c = frobenius(b, 16);
    lemma_gf32_lifts(a, 16);
    lemma_gf32_lifts(b, 16);
    lemma_lifted_back(a0, a1, 16);
    laws::lemma_halves32(a, 0, 0, a, 0, 0);
    laws::lemma_halves32(c, 0, 0, c, 0, 0);
    lemma_frobenius_adds(a, 16, 16);
}

/// The halves of a power in GF(2^64).
proof fn lemma_gf64_lifts(a: u64, n: nat)
    ensures
        ({
            let b = frobenius(a, n);
            (b as u32, (b >> 32) as u32) == lifted(a as u32, (a >> 32) as u32, n)
        }),
    decreases n,
{
    if n > 0 {
        let b = frobenius(a, (n - 1) as nat);
        lemma_gf64_lifts(a, (n - 1) as nat);
        reveal(gf::gf64_mul);
        let (b0, b1) = (b as u32, (b >> 32) as u32);
        laws::lemma_halves64(
            b,
            laws::ext_lo(b0, b1, b0, b1),
            laws::ext_hi(b0, b1, b0, b1),
            b,
            0,
            0,
        );
    }
}

proof fn lemma_gf64_back(a: u64)
    ensures
        frobenius(a, 64) == a,
{
    assert forall|x: u32| #[trigger] frobenius(x, 32) == x by {
        lemma_gf32_back(x);
    }
    let (a0, a1) = (a as u32, (a >> 32) as u32);
    let b = frobenius(a, 32);
    let c = frobenius(b, 32);
    lemma_gf64_lifts(a, 32);
    lemma_gf64_lifts(b, 32);
    lemma_lifted_back(a0, a1, 32);
    laws::lemma_halves64(a, 0, 0, a, 0, 0);
    laws::lemma_halves64(c, 0, 0, c, 0, 0);
    lemma_frobenius_adds(a, 32, 32);
}

/// The halves of a power in GF(2^128).
proof fn lemma_gf128_lifts(a: u128, n: nat)
    ensures
        ({
            let b = frobenius(a, n);
            (b as u64, (b >> 64) as u64) == lifted(a as u64, (a >> 64) as u64, n)
        }),
    decreases n,
{
    if n > 0 {
        let b = frobenius(a, (n - 1) as nat);
        lemma_gf128_lifts(a, (n - 1) as nat);
        reveal(gf::gf128_mul);
        let (b0, b1) = (b as u64, (b >> 64) as u64);
        laws::lemma_halves128(
            b,
            laws::ext_lo(b0, b1, b0, b1),
            laws::ext_hi(b0, b1, b0, b1),
            b,
            0,
            0,
        );
    }
}

proof fn lemma_gf128_back(a: u128)
    ensures
        frobenius(a, 128) == a,
{
    assert forall|x: u64| #[trigger] frobenius(x, 64) == x by {
        lemma_gf64_back(x);
    }
    let (a0, a1) = (a as u64, (a >> 64) as u64);
    let b = frobenius(a, 64);
    let c = frobenius(b, 64);
    lemma_gf128_lifts(a, 64);
    lemma_gf128_lifts(b, 64);
    lemma_lifted_back(a0, a1, 64);
    laws::lemma_halves128(a, 0, 0, a, 0, 0);
    laws::lemma_halves128(c, 0, 0, c, 0, 0);
    lemma_frobenius_adds(a, 64, 64);
}

/// Powers of powers of two are repeated squares.
proof fn lemma_power_is_frobenius(a: u128, n: nat)
    ensures
        gf::gf128_pow(a, pow2(n)) == frobenius(a, n),
    decreases n,
{
    lemma2_to64();
    if n == 0 {
        exp_form::lemma_first_power(a);
    } else {
        lemma_power_is_frobenius(a, (n - 1) as nat);
        lemma_pow2_unfold(n);
        exp_form::law_square_doubles(a, pow2((n - 1) as nat));
    }
}

/// Every element of GF(2^128) is its own `2^128`-th power.
pub proof fn law_frobenius_closes(a: u128)
    ensures
        gf::gf128_pow(a, pow2(128)) == a,
{
    lemma_power_is_frobenius(a, 128);
    lemma_gf128_back(a);
}

/// Every element of GF(2^128) but zero is a `(2^128 - 1)`-th root of one.
pub proof fn law_roots_of_unity(a: u128)
    requires
        a != 0,
    ensures
        gf::gf128_pow(a, u128::MAX as nat) == 1,
{
    law_frobenius_closes(a);
    lemma_pow2_adds(64, 64);
    lemma2_to64();
    let e = u128::MAX as nat;
    assert(pow2(128) == e + 1);
    let p = gf::gf128_pow(a, e);
    assert(gf::gf128_mul(p, a) == a);
    let i = <u128 as Ring>::inverse(a);
    // p = p (a i) = (p a) i = a i = 1
    <u128 as Ring>::associates(p, a, i);
    <u128 as Ring>::units(p);
}

} // verus!
