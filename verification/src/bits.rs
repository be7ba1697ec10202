//! Machine words as numbers, bit by bit.

use vstd::arithmetic::div_mod::*;
use vstd::arithmetic::power2::*;
use vstd::prelude::*;

verus! {

/// Bit `i` of a number.
pub open spec fn bit(x: nat, i: nat) -> nat {
    (x / pow2(i)) % 2
}

/// `n` is a power of two.
pub open spec fn is_power_of_two(n: nat) -> bool {
    exists|k: nat| n == #[trigger] pow2(k)
}

pub proof fn lemma_bit_u32(x: u32, i: nat)
    requires
        i < 32,
    ensures
        (x >> (i as u32)) & 1 == bit(x as nat, i),
{
    vstd::bits::lemma_u32_shr_is_div(x, i as u32);
    let y = x >> (i as u32);
    vstd::bits::lemma_u32_low_bits_mask_is_mod(y, 1);
    vstd::bits::lemma_low_bits_mask_values();
    lemma2_to64();
}

pub proof fn lemma_bit_u64(x: u64, i: nat)
    requires
        i < 64,
    ensures
        (x >> (i as u64)) & 1 == bit(x as nat, i),
{
    vstd::bits::lemma_u64_shr_is_div(x, i as u64);
    let y = x >> (i as u64);
    vstd::bits::lemma_u64_low_bits_mask_is_mod(y, 1);
    vstd::bits::lemma_low_bits_mask_values();
    lemma2_to64();
}

pub proof fn lemma_bit_u128(x: u128, i: nat)
    requires
        i < 128,
    ensures
        (x >> (i as u128)) & 1 == bit(x as nat, i),
        (x >> (i as u128)) & 1 <= 1,
{
    lemma_shr_u128(x, i);
    let y = x >> (i as u128);
    assert(y & 1 == y % 2) by (bit_vector);
}

/// `x >> i` is `x / 2^i`.
pub proof fn lemma_shr_u128(x: u128, i: nat)
    requires
        i < 128,
    ensures
        x >> (i as u128) == x as nat / pow2(i),
    decreases i,
{
    lemma2_to64();
    let j = (i - 1) as u128;
    assert(x >> 0u128 == x && (j < 127 ==> x >> ((j + 1) as u128) == (x >> j) / 2)) by (bit_vector);
    if i > 0 {
        lemma_shr_u128(x, (i - 1) as nat);
        lemma_pow2_adds((i - 1) as nat, 1);
        lemma_pow2_pos((i - 1) as nat);
        lemma_div_denominator(x as int, pow2((i - 1) as nat) as int, 2);
        assert((j + 1) as u128 == i as u128);
        vstd::arithmetic::mul::lemma_mul_is_commutative(pow2((i - 1) as nat) as int, 2);
    } else {
        assert(i as u128 == 0u128);
    }
}

/// One more bit of a residue.
pub proof fn lemma_mod_pow2_step(x: nat, i: nat)
    ensures
        x % pow2(i + 1) == x % pow2(i) + bit(x, i) * pow2(i),
        bit(x, i) <= 1,
{
    lemma_pow2_pos(i);
    lemma_pow2_adds(i, 1);
    lemma2_to64();
    lemma_mod_breakdown(x as int, pow2(i) as int, 2);
    vstd::arithmetic::mul::lemma_mul_is_commutative(pow2(i) as int, bit(x, i) as int);
}

/// `1 << k` is `2^k`.
pub proof fn lemma_one_shl_u128(k: nat)
    requires
        k < 128,
    ensures
        1u128 << (k as u128) == pow2(k),
    decreases k,
{
    lemma2_to64();
    let j = (k - 1) as u128;
    assert(1u128 << 0u128 == 1 && (j < 127 ==> (1u128 << j) <= 0x4000_0000_0000_0000_0000_0000_0000_0000u128
        && 1u128 << ((j + 1) as u128) == 2 * (1u128 << j))) by (bit_vector);
    if k > 0 {
        lemma_one_shl_u128((k - 1) as nat);
        lemma_pow2_adds((k - 1) as nat, 1);
    }
}

/// The largest `k` with `2^k <= n`, for `n > 0`.
pub open spec fn floor_log2(n: nat) -> nat
    decreases n,
{
    if n <= 1 {
        0
    } else {
        1 + floor_log2(n / 2)
    }
}

/// The least `k` with `n <= 2^k`.
pub open spec fn ceil_log2(n: nat) -> nat {
    if n <= 1 {
        0
    } else {
        floor_log2((n - 1) as nat) + 1
    }
}

pub proof fn lemma_floor_log2(n: nat)
    requires
        n > 0,
    ensures
        pow2(floor_log2(n)) <= n < pow2(floor_log2(n) + 1),
    decreases n,
{
    lemma2_to64();
    if n > 1 {
        lemma_floor_log2(n / 2);
        lemma_pow2_unfold(floor_log2(n));
        lemma_pow2_unfold(floor_log2(n) + 1);
    }
}

pub proof fn lemma_ceil_log2(n: nat)
    ensures
        n <= pow2(ceil_log2(n)),
        ceil_log2(n) > 0 ==> pow2((ceil_log2(n) - 1) as nat) < n,
{
    lemma2_to64();
    if n > 1 {
        lemma_floor_log2((n - 1) as nat);
    }
}

/// Powers of two grow.
pub proof fn lemma_pow2_monotone(a: nat, b: nat)
    ensures
        a <= b ==> pow2(a) <= pow2(b),
        a < b ==> 2 * pow2(a) <= pow2(b),
{
    if a < b {
        lemma_pow2_unfold(a + 1);
        if a + 1 < b {
            lemma_pow2_strictly_increases(a + 1, b);
        }
    }
}

/// There is one `k` with `2^k <= n < 2^(k+1)`.
pub proof fn lemma_floor_log2_unique(n: nat, k: nat)
    requires
        pow2(k) <= n < pow2(k + 1),
    ensures
        floor_log2(n) == k,
{
    lemma_pow2_pos(k);
    lemma_floor_log2(n);
    lemma_pow2_monotone(k + 1, floor_log2(n));
    lemma_pow2_monotone(floor_log2(n) + 1, k);
}

/// The logarithm of a positive number, rounded down.
pub fn ilog2(n: u128) -> (r: u32)
    requires
        n > 0,
    ensures
        r == floor_log2(n as nat),
        r < 128,
{
    let mut k: u32 = 0;
    let mut rest: u128 = n;
    proof {
        lemma2_to64();
        lemma2_to64_rest();
    }
    while rest > 1
        invariant
            rest > 0,
            k < 128,
            floor_log2(n as nat) == k + floor_log2(rest as nat),
            rest as nat * pow2(k as nat) <= n,
        decreases rest,
    {
        proof {
            lemma_pow2_unfold(k as nat + 1);
            lemma_pow2_pos(k as nat);
            let p = pow2(k as nat);
            let half = rest / 2;
            assert(half * (2 * p) <= rest * p) by (nonlinear_arith)
                requires
                    half == rest / 2,
                    p > 0,
            ;
            assert(half * (2 * p) >= 2 * p) by (nonlinear_arith)
                requires
                    half >= 1,
                    p > 0,
            ;
            if k >= 127 {
                lemma_pow2_monotone(128, k as nat + 1);
                lemma_pow2_adds(64, 64);
                lemma2_to64_rest();
                assert(pow2(64) == 0x10000000000000000);
                assert(pow2(128) > u128::MAX) by (nonlinear_arith)
                    requires
                        pow2(128) == pow2(64) * pow2(64),
                        pow2(64) == 0x10000000000000000,
                ;
            }
        }
        rest = rest / 2;
        k = k + 1;
    }
    k
}

/// Masking by one less than a power of two is the remainder.
pub proof fn lemma_usize_mask(x: int, len: usize, k: nat)
    requires
        0 <= x <= usize::MAX,
        len as nat == pow2(k),
    ensures
        (x as usize) & ((len - 1) as usize) == x % len as int,
        x % (len as int) < len,
{
    lemma_pow2_pos(k);
    lemma2_to64();
    lemma2_to64_rest();
    lemma_pow2_monotone(usize::BITS as nat, k);
    vstd::bits::lemma_usize_low_bits_mask_is_mod(x as usize, k);
    vstd::bits::lemma_low_bits_mask_values();
    lemma_mod_bound(x, len as int);
}

/// The logarithm of a power of two; none for other numbers.
pub fn log2_exact(n: u128) -> (r: Option<u32>)
    ensures
        r is Some <==> is_power_of_two(n as nat),
        r matches Some(k) ==> n as nat == pow2(k as nat) && k < 128,
{
    if n == 0 {
        proof {
            assert forall|k: nat| 0 != #[trigger] pow2(k) by {
                lemma_pow2_pos(k);
            }
        }
        return None;
    }
    let k: u32 = ilog2(n);
    proof {
        lemma_floor_log2(n as nat);
        lemma_one_shl_u128(k as nat);
        assert forall|j: nat| n as nat == #[trigger] pow2(j) implies j == k by {
            lemma_pow2_monotone(j, j + 1);
            lemma_floor_log2_unique(n as nat, j);
        }
    }
    if n == 1u128 << (k as u128) {
        Some(k)
    } else {
        None
    }
}

} // verus!
