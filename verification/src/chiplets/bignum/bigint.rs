//! Limb arithmetic on little-endian 32-bit limbs: schoolbook columns,
//! carry normalisation and branch-free long division.

use vstd::arithmetic::div_mod::*;
use vstd::arithmetic::mul::*;
use vstd::arithmetic::power2::*;
use vstd::prelude::*;

use super::limbs;
use crate::errors::Error;

verus! {

pub const LIMB_BITS: usize = 32;

pub const PAIR_BITS: usize = 64;

// ---------------------------------------------------------------
// Column sums
// ---------------------------------------------------------------

/// The 64-bit limb made of limbs `2i` and `2i + 1`.
pub open spec fn pair(limbs: Seq<u32>, i: int) -> nat {
    limbs[2 * i] as nat + limbs[2 * i + 1] as nat * limbs::radix()
}

/// What 64-bit limb `i` of `a` contributes to column `k` of `a * b`.
pub open spec fn column_term(a: Seq<u32>, b: Seq<u32>, i: int, k: int) -> nat {
    if 0 <= k - 2 * i < b.len() {
        pair(a, i) * b[k - 2 * i] as nat
    } else {
        0
    }
}

/// Column `k` of the product of the first `m` 64-bit limbs of `a` with `b`.
pub open spec fn column_sum(a: Seq<u32>, b: Seq<u32>, m: nat, k: int) -> nat
    decreases m,
{
    if m == 0 {
        0
    } else {
        column_sum(a, b, (m - 1) as nat, k) + column_term(a, b, m - 1, k)
    }
}

proof fn lemma_column_sum_monotone(a: Seq<u32>, b: Seq<u32>, m: nat, n: nat, k: int)
    requires
        m <= n,
    ensures
        column_sum(a, b, m, k) <= column_sum(a, b, n, k),
    decreases n,
{
    if m < n {
        lemma_column_sum_monotone(a, b, m, (n - 1) as nat, k);
    }
}

proof fn lemma_pair_bits(lo: u32, hi: u32)
    ensures
        (lo as u64 | ((hi as u64) << 32)) == lo + hi * 0x1_0000_0000,
{
    assert((lo as u64 | ((hi as u64) << 32)) == lo as u64 + (hi as u64) * 0x1_0000_0000) by (bit_vector);
}

/// The 64-bit limb `i` of `limbs`.
pub fn limb_pair(limbs: &[u32], i: usize) -> (r: u64)
    requires
        2 * i + 1 < limbs.len(),
    ensures
        r as nat == pair(limbs@, i as int),
{
    proof {
        lemma_pair_bits(limbs@[2 * i], limbs@[2 * i + 1]);
    }
    limbs[2 * i] as u64 | ((limbs[2 * i + 1] as u64) << 32u64)
}

/// `sums[k] = Σ_{2i+j=k} pair_i(a) · b_j`,
/// 64-bit `a` limbs against 32-bit `b` limbs.
pub fn column_sums(a: &[u32], b: &[u32], sums: &mut [u128])
    requires
        a.len() / 2 > 0 && b.len() > 0 ==> 2 * (a.len() / 2) + b.len() <= old(sums).len() + 2,
        forall|k: int|
            0 <= k < old(sums).len() ==> #[trigger] column_sum(
                a@,
                b@,
                (a.len() / 2) as nat,
                k,
            ) <= u128::MAX,
    ensures
        final(sums)@.len() == old(sums)@.len(),
        forall|k: int|
            0 <= k < final(sums)@.len() ==> (#[trigger] final(sums)@[k]) as nat == column_sum(
                a@,
                b@,
                (a.len() / 2) as nat,
                k,
            ),
{
    let n: usize = sums.len();
    for k in 0..n
        invariant
            n == sums.len(),
            sums.len() == old(sums).len(),
            forall|c: int| 0 <= c < k ==> sums@[c] == 0,
    {
        sums[k] = 0;
    }

    let half: usize = a.len() / 2;
    assert(half as nat == (a.len() / 2) as nat);
    for i in 0..half
        invariant
            half == a.len() / 2,
            sums.len() == old(sums).len(),
            half > 0 && b.len() > 0 ==> 2 * half + b.len() <= sums.len() + 2,
            forall|k: int|
                0 <= k < sums@.len() ==> #[trigger] column_sum(a@, b@, half as nat, k) <= u128::MAX,
            forall|k: int|
                0 <= k < sums@.len() ==> (#[trigger] sums@[k]) as nat == column_sum(
                    a@,
                    b@,
                    i as nat,
                    k,
                ),
    {
        let ai: u128 = limb_pair(a, i) as u128;
        for j in 0..b.len()
            invariant
                i < half,
                half == a.len() / 2,
                ai == pair(a@, i as int),
                ai <= u64::MAX,
                sums.len() == old(sums).len(),
                half > 0 && b.len() > 0 ==> 2 * half + b.len() <= sums.len() + 2,
                forall|k: int|
                    0 <= k < sums@.len() ==> #[trigger] column_sum(a@, b@, half as nat, k)
                        <= u128::MAX,
                forall|k: int|
                    0 <= k < sums@.len() ==> (#[trigger] sums@[k]) as nat == column_sum(
                        a@,
                        b@,
                        i as nat,
                        k,
                    ) + (if k - 2 * i < j {
                        column_term(a@, b@, i as int, k)
                    } else {
                        0
                    }),
        {
            let bj: u128 = b[j] as u128;
            proof {
                let k = 2 * i + j;
                lemma_column_sum_monotone(a@, b@, (i + 1) as nat, half as nat, k);
                assert(column_sum(a@, b@, (i + 1) as nat, k) == column_sum(a@, b@, i as nat, k)
                    + column_term(a@, b@, i as int, k));
                assert(column_sum(a@, b@, half as nat, k) <= u128::MAX);
                assert(ai * bj <= 0xffff_ffff_ffff_ffff * 0xffff_ffff) by (nonlinear_arith)
                    requires
                        0 <= ai <= 0xffff_ffff_ffff_ffff,
                        0 <= bj <= 0xffff_ffff,
                ;
                assert(column_term(a@, b@, i as int, k) == ai * bj);
            }
            sums[2 * i + j] = sums[2 * i + j] + ai * bj;
        }
        proof {
            assert forall|k: int| 0 <= k < sums@.len() implies (#[trigger] sums@[k]) as nat
                == column_sum(a@, b@, (i + 1) as nat, k) by {
                assert(column_sum(a@, b@, (i + 1) as nat, k) == column_sum(a@, b@, i as nat, k)
                    + column_term(a@, b@, i as int, k));
            }
        }
    }
}

// ---------------------------------------------------------------
// Normalisation
// ---------------------------------------------------------------

/// Digit `k` of the number added into the columns, zero past its end.
pub open spec fn digit_or_zero(add: Seq<u32>, k: int) -> nat {
    if 0 <= k < add.len() {
        add[k] as nat
    } else {
        0
    }
}

/// The carry into column `k` when `add` is added to `sums`.
pub open spec fn carry_into(sums: Seq<u128>, add: Seq<u32>, k: nat) -> nat
    decreases k, 0nat,
{
    if k == 0 {
        0
    } else {
        column_total(sums, add, (k - 1) as nat) / limbs::radix()
    }
}

/// Column `k` with the addend's digit and the incoming carry.
pub open spec fn column_total(sums: Seq<u128>, add: Seq<u32>, k: nat) -> nat
    decreases k, 1nat,
{
    sums[k as int] as nat + digit_or_zero(add, k as int) + carry_into(sums, add, k)
}

/// `add` lands in the low columns;
/// `carries[k]` is the carry into column `k`.
pub fn normalise(sums: &[u128], add: &[u32], digits: &mut [u32], carries: &mut [u128])
    requires
        sums.len() <= old(digits).len(),
        sums.len() < old(carries).len(),
        forall|k: nat| k < sums.len() ==> #[trigger] column_total(sums@, add@, k) <= u128::MAX,
    ensures
        final(digits)@.len() == old(digits)@.len(),
        final(carries)@.len() == old(carries)@.len(),
        forall|k: int|
            0 <= k < sums.len() ==> (#[trigger] final(digits)@[k]) as nat == column_total(
                sums@,
                add@,
                k as nat,
            ) % limbs::radix(),
        forall|k: int|
            sums.len() <= k < final(digits)@.len() ==> final(digits)@[k] == old(digits)@[k],
        forall|k: int|
            0 <= k <= sums.len() ==> (#[trigger] final(carries)@[k]) as nat == carry_into(
                sums@,
                add@,
                k as nat,
            ),
        forall|k: int|
            sums.len() < k < final(carries)@.len() ==> final(carries)@[k] == old(carries)@[k],
{
    carries[0] = 0;

    for k in 0..sums.len()
        invariant
            digits.len() == old(digits).len(),
            carries.len() == old(carries).len(),
            sums.len() <= digits.len(),
            sums.len() < carries.len(),
            forall|c: nat| c < sums.len() ==> #[trigger] column_total(sums@, add@, c) <= u128::MAX,
            forall|c: int|
                0 <= c < k ==> (#[trigger] digits@[c]) as nat == column_total(sums@, add@, c as nat)
                    % limbs::radix(),
            forall|c: int| k <= c < digits@.len() ==> digits@[c] == old(digits)@[c],
            forall|c: int|
                0 <= c <= k ==> (#[trigger] carries@[c]) as nat == carry_into(sums@, add@, c as nat),
            forall|c: int| k < c < carries@.len() ==> carries@[c] == old(carries)@[c],
    {
        let extra: u128 = if k < add.len() {
            add[k] as u128
        } else {
            0
        };
        proof {
            assert(column_total(sums@, add@, k as nat) <= u128::MAX);
            assert(carries@[k as int] as nat == carry_into(sums@, add@, k as nat));
        }
        let t: u128 = sums[k] + extra + carries[k];
        assert(t as nat == column_total(sums@, add@, k as nat));
        assert(t as u32 as u128 == t % 0x1_0000_0000 && t >> 32 == t / 0x1_0000_0000) by (bit_vector);

        #[verifier::truncate]
        let digit: u32 = t as u32;
        digits[k] = digit;
        carries[k + 1] = t >> 32u128;
        assert(carry_into(sums@, add@, (k + 1) as nat) == column_total(sums@, add@, k as nat)
            / limbs::radix());
    }
}

// ---------------------------------------------------------------
// Comparison and subtraction
// ---------------------------------------------------------------

proof fn lemma_compare_step(x: nat, y: nat, u: nat, v: nat, p: nat)
    requires
        x < p,
        y < p,
    ensures
        (x + u * p < y + v * p) <==> (u < v || (u == v && x < y)),
{
    if u < v {
        assert(u * p + p <= v * p) by (nonlinear_arith)
            requires
                u + 1 <= v,
        ;
    } else if u > v {
        assert(v * p + p <= u * p) by (nonlinear_arith)
            requires
                v + 1 <= u,
        ;
    }
}

proof fn lemma_take_step(s: Seq<u32>, k: int)
    requires
        0 <= k < s.len(),
    ensures
        limbs::limbs_value(s.take(k + 1)) == limbs::limbs_value(s.take(k)) + s[k] as nat
            * limbs::radix_pow(k as nat),
        limbs::limbs_value(s.take(k)) < limbs::radix_pow(k as nat),
{
    assert(s.take(k + 1) =~= s.take(k).push(s[k]));
    limbs::lemma_limbs_push(s.take(k), s[k]);
    limbs::lemma_limbs_bound(s.take(k));
}

/// The borrow out of `u - v - borrow` on 32-bit operands.
fn borrow_out(u: u32, v: u32, borrow: u64) -> (r: u64)
    requires
        borrow <= 1,
    ensures
        r <= 1,
        r == 1 <==> u < v + borrow,
{
    let d: u64 = (u as u64).wrapping_sub(v as u64).wrapping_sub(borrow);
    let top: u64 = d >> 63u64;
    proof {
        let (x, y) = (u as u64, v as u64);
        assert(d == (x - y - borrow) % 0x1_0000_0000_0000_0000);
        assert((d >= 0x8000_0000_0000_0000u64 ==> d >> 63u64 == 1) && (d < 0x8000_0000_0000_0000u64
            ==> d >> 63u64 == 0)) by (bit_vector);
        if u < v + borrow {
            assert(d == x - y - borrow + 0x1_0000_0000_0000_0000);
        } else {
            assert(d == x - y - borrow);
        }
    }
    top
}

/// Whether `a < b` as numbers of `a.len()` limbs.
pub fn is_less(a: &[u32], b: &[u32]) -> (r: bool)
    requires
        a.len() <= b.len(),
    ensures
        r == (limbs::limbs_value(a@) < limbs::limbs_value(b@.take(a.len() as int))),
{
    let mut borrow: u64 = 0;
    for k in 0..a.len()
        invariant
            a.len() <= b.len(),
            borrow <= 1,
            borrow == 1 <==> limbs::limbs_value(a@.take(k as int)) < limbs::limbs_value(
                b@.take(k as int),
            ),
    {
        proof {
            lemma_take_step(a@, k as int);
            lemma_take_step(b@, k as int);
            lemma_compare_step(
                limbs::limbs_value(a@.take(k as int)),
                limbs::limbs_value(b@.take(k as int)),
                a@[k as int] as nat,
                b@[k as int] as nat,
                limbs::radix_pow(k as nat),
            );
        }
        borrow = borrow_out(a[k], b[k], borrow);
    }
    assert(a@.take(a.len() as int) =~= a@);

    borrow == 1
}

/// All ones when `r >= n`, zero otherwise: `r - n`
/// borrows out of the top limb exactly when `r < n`.
fn geq_mask(r: &[u32], n: &[u32]) -> (mask: u32)
    requires
        r.len() == n.len() + 1,
    ensures
        limbs::limbs_value(r@) >= limbs::limbs_value(n@) ==> mask == u32::MAX,
        limbs::limbs_value(r@) < limbs::limbs_value(n@) ==> mask == 0,
{
    let limbs: usize = n.len();

    let mut borrow: u64 = 0;
    for k in 0..limbs
        invariant
            limbs == n.len(),
            r.len() == n.len() + 1,
            borrow <= 1,
            borrow == 1 <==> limbs::limbs_value(r@.take(k as int)) < limbs::limbs_value(
                n@.take(k as int),
            ),
    {
        proof {
            lemma_take_step(r@, k as int);
            lemma_take_step(n@, k as int);
            lemma_compare_step(
                limbs::limbs_value(r@.take(k as int)),
                limbs::limbs_value(n@.take(k as int)),
                r@[k as int] as nat,
                n@[k as int] as nat,
                limbs::radix_pow(k as nat),
            );
        }
        borrow = borrow_out(r[k], n[k], borrow);
    }
    let negative: u64 = borrow_out(r[limbs], 0, borrow);
    proof {
        lemma_take_step(r@, limbs as int);
        assert(n@.take(limbs as int) =~= n@);
        assert(r@.take(limbs + 1) =~= r@);
        limbs::lemma_limbs_bound(n@);
        lemma_compare_step(
            limbs::limbs_value(r@.take(limbs as int)),
            limbs::limbs_value(n@),
            r@[limbs as int] as nat,
            0,
            limbs::radix_pow(limbs as nat),
        );
        assert(negative == 1 || negative == 0);
    }

    (negative as u32).wrapping_sub(1)
}

/// One limb of a subtraction: the difference and the borrow out.
fn sub_limb(u: u32, v: u32, borrow: u32) -> (r: (u32, u32))
    requires
        borrow <= 1,
    ensures
        r.1 <= 1,
        r.0 == u - v - borrow + r.1 * 0x1_0000_0000,
{
    let t: u64 = 0x1_0000_0000 + u as u64 - v as u64 - borrow as u64;
    if t >= 0x1_0000_0000 {
        ((t - 0x1_0000_0000) as u32, 0)
    } else {
        (t as u32, 1)
    }
}

/// Adding limb `k` to a partial difference.
proof fn lemma_sub_step(x: int, y: int, z: int, u: int, v: int, d: int, b0: int, b1: int, p: int)
    requires
        z == x - y + b0 * p,
        d == u - v - b0 + b1 * limbs::radix(),
    ensures
        z + d * p == x + u * p - (y + v * p) + b1 * (limbs::radix() * p),
{
    assert((u - v - b0 + b1 * limbs::radix()) * p == u * p - v * p - b0 * p + b1 * (limbs::radix()
        * p)) by (nonlinear_arith);
}

/// `n - r - 1`, modulo the width; exactly that for `r < n`.
pub fn sub_one_minus(n: &[u32], r: &[u32], w: &mut [u32])
    requires
        n.len() <= r.len(),
        n.len() <= old(w).len(),
    ensures
        final(w)@.len() == old(w)@.len(),
        limbs::limbs_value(final(w)@.take(n.len() as int)) == (limbs::limbs_value(n@)
            - limbs::limbs_value(r@.take(n.len() as int)) - 1) % (limbs::radix_pow(
            n.len() as nat,
        ) as int),
        forall|k: int| n.len() <= k < final(w)@.len() ==> final(w)@[k] == old(w)@[k],
{
    let mut borrow: u32 = 1;
    proof {
        limbs::lemma_radix_pow(0);
    }
    for k in 0..n.len()
        invariant
            n.len() <= r.len(),
            n.len() <= w.len(),
            w.len() == old(w).len(),
            borrow <= 1,
            limbs::limbs_value(w@.take(k as int)) == limbs::limbs_value(n@.take(k as int))
                - limbs::limbs_value(r@.take(k as int)) - 1 + borrow * limbs::radix_pow(k as nat),
            forall|c: int| k <= c < w@.len() ==> w@[c] == old(w)@[c],
    {
        let ghost before = w@;
        let (d, out) = sub_limb(n[k], r[k], borrow);
        w[k] = d;
        proof {
            lemma_take_step(n@, k as int);
            lemma_take_step(r@, k as int);
            lemma_take_step(w@, k as int);
            limbs::lemma_radix_pow(k as nat);
            assert(w@.take(k as int) =~= before.take(k as int));
            lemma_sub_step(
                limbs::limbs_value(n@.take(k as int)) - 1,
                limbs::limbs_value(r@.take(k as int)) as int,
                limbs::limbs_value(before.take(k as int)) as int,
                n@[k as int] as int,
                r@[k as int] as int,
                d as int,
                borrow as int,
                out as int,
                limbs::radix_pow(k as nat) as int,
            );
        }
        borrow = out;
    }
    proof {
        let p = limbs::radix_pow(n.len() as nat) as int;
        let x = limbs::limbs_value(n@) - limbs::limbs_value(r@.take(n.len() as int)) - 1;
        let z = limbs::limbs_value(w@.take(n.len() as int)) as int;
        assert(n@.take(n.len() as int) =~= n@);
        limbs::lemma_limbs_bound(w@.take(n.len() as int));
        limbs::lemma_radix_pow(n.len() as nat);
        assert(x == -borrow * p + z) by (nonlinear_arith)
            requires
                z == x + borrow * p,
        ;
        lemma_fundamental_div_mod_converse(x, p, -borrow as int, z);
    }
}

/// Subtracts `n` when `mask` is all ones, nothing when it is zero.
fn sub_masked(r: &mut [u32], n: &[u32], mask: u32)
    requires
        old(r).len() == n.len() + 1,
        mask == 0 || mask == u32::MAX,
        mask == u32::MAX ==> limbs::limbs_value(n@) <= limbs::limbs_value(old(r)@),
    ensures
        final(r)@.len() == old(r)@.len(),
        limbs::limbs_value(final(r)@) == limbs::limbs_value(old(r)@) - (if mask == 0 {
            0
        } else {
            limbs::limbs_value(n@)
        }),
{
    let limbs: usize = n.len();
    let ghost sel = if mask == 0 { 0int } else { 1int };

    let mut borrow: u32 = 0;
    for k in 0..limbs
        invariant
            limbs == n.len(),
            r.len() == old(r).len(),
            r.len() == n.len() + 1,
            mask == 0 || mask == u32::MAX,
            sel == if mask == 0 { 0int } else { 1int },
            borrow <= 1,
            limbs::limbs_value(r@.take(k as int)) == limbs::limbs_value(old(r)@.take(k as int))
                - sel * limbs::limbs_value(n@.take(k as int)) + borrow * limbs::radix_pow(k as nat),
            forall|c: int| k <= c < r@.len() ==> r@[c] == old(r)@[c],
    {
        let ghost before = r@;
        let nk: u32 = n[k];
        assert(nk & 0u32 == 0 && nk & 0xffff_ffffu32 == nk) by (bit_vector);
        let (d, out) = sub_limb(r[k], nk & mask, borrow);
        r[k] = d;
        proof {
            lemma_take_step(n@, k as int);
            lemma_take_step(old(r)@, k as int);
            lemma_take_step(r@, k as int);
            limbs::lemma_radix_pow(k as nat);
            assert(r@.take(k as int) =~= before.take(k as int));
            lemma_sub_step(
                limbs::limbs_value(old(r)@.take(k as int)) as int,
                sel * limbs::limbs_value(n@.take(k as int)),
                limbs::limbs_value(before.take(k as int)) as int,
                old(r)@[k as int] as int,
                sel * nk,
                d as int,
                borrow as int,
                out as int,
                limbs::radix_pow(k as nat) as int,
            );
            assert(sel * (limbs::limbs_value(n@.take(k as int)) + nk * limbs::radix_pow(k as nat))
                == sel * limbs::limbs_value(n@.take(k as int)) + (sel * nk) * limbs::radix_pow(
                k as nat,
            )) by (nonlinear_arith);
        }
        borrow = out;
    }

    let ghost before = r@;
    let (d, out) = sub_limb(r[limbs], 0, borrow);
    r[limbs] = d;
    proof {
        let k = limbs as int;
        lemma_take_step(old(r)@, k);
        lemma_take_step(r@, k);
        limbs::lemma_radix_pow(k as nat);
        assert(r@.take(k) =~= before.take(k));
        assert(n@.take(k) =~= n@);
        assert(r@.take(k + 1) =~= r@);
        assert(old(r)@.take(k + 1) =~= old(r)@);
        lemma_sub_step(
            limbs::limbs_value(old(r)@.take(k)) as int,
            sel * limbs::limbs_value(n@),
            limbs::limbs_value(before.take(k)) as int,
            old(r)@[k] as int,
            0,
            d as int,
            borrow as int,
            out as int,
            limbs::radix_pow(k as nat) as int,
        );
        limbs::lemma_limbs_bound(r@);
        limbs::lemma_limbs_bound(old(r)@);
        assert(0 * limbs::radix_pow(k as nat) == 0);
        assert(sel * limbs::limbs_value(n@) == if mask == 0 {
            0
        } else {
            limbs::limbs_value(n@) as int
        });
        if out == 1 {
            assert(limbs::limbs_value(r@) >= limbs::radix_pow((k + 1) as nat));
        }
    }
}

/// Shifts `acc` left by one bit, shifting `bit` in; returns the bit shifted out.
fn shift_in(acc: &mut [u32], bit: u32) -> (out: u32)
    requires
        bit <= 1,
    ensures
        out <= 1,
        final(acc)@.len() == old(acc)@.len(),
        limbs::limbs_value(final(acc)@) + out * limbs::radix_pow(old(acc)@.len()) == 2
            * limbs::limbs_value(old(acc)@) + bit,
{
    let mut carry: u32 = bit;
    proof {
        limbs::lemma_radix_pow(0);
        lemma_mul_basics(bit as int);
    }
    let len: usize = acc.len();
    for k in 0..len
        invariant
            len == acc.len(),
            acc.len() == old(acc).len(),
            carry <= 1,
            limbs::limbs_value(acc@.take(k as int)) + carry * limbs::radix_pow(k as nat) == 2
                * limbs::limbs_value(old(acc)@.take(k as int)) + bit,
            forall|c: int| k <= c < acc@.len() ==> acc@[c] == old(acc)@[c],
    {
        let ghost before = acc@;
        let limb: u32 = acc[k];
        let out: u32 = limb >> 31u32;
        let shifted: u32 = (limb << 1u32) | carry;
        assert(out <= 1 && shifted + out * 0x1_0000_0000 == 2 * limb + carry) by (bit_vector)
            requires
                carry <= 1,
                out == limb >> 31u32,
                shifted == (limb << 1u32) | carry,
        ;
        acc[k] = shifted;
        proof {
            lemma_take_step(old(acc)@, k as int);
            lemma_take_step(acc@, k as int);
            limbs::lemma_radix_pow(k as nat);
            assert(acc@.take(k as int) =~= before.take(k as int));
            let p = limbs::radix_pow(k as nat) as int;
            assert(shifted * p + out * (limbs::radix() * p) == 2 * (limb * p) + carry * p)
                by (nonlinear_arith)
                requires
                    shifted + out * 0x1_0000_0000 == 2 * limb + carry,
                    limbs::radix() == 0x1_0000_0000,
            ;
        }
        carry = out;
    }
    assert(acc@.take(acc.len() as int) =~= acc@);
    assert(old(acc)@.take(acc.len() as int) =~= old(acc)@);
    carry
}

// ---------------------------------------------------------------
// Long division
// ---------------------------------------------------------------

/// The bits of `x` below position `s` are all zero.
spec fn low_clear(x: u32, s: u32) -> bool {
    ((x as u64) >> s) << s == x as u64
}

proof fn lemma_set_bit(x: u32, b: u32, s: u32)
    requires
        b <= 1,
        s < 32,
        low_clear(x, (s + 1) as u32),
    ensures
        low_clear(x | (b << s), s),
        (x | (b << s)) == x + b * pow2(s as nat),
{
    let t = (s + 1) as u32;
    assert((((x | (b << s)) as u64) >> s) << s == (x | (b << s)) as u64 && (x | (b << s)) == x + (b << s))
        by (bit_vector)
        requires
            b <= 1,
            s < 32,
            t == s + 1,
            ((x as u64) >> t) << t == x as u64,
    ;
    lemma2_to64();
    lemma_mul_basics(pow2(s as nat) as int);
    if b == 1 {
        vstd::arithmetic::power2::lemma_pow2_strictly_increases(s as nat, 32);
        vstd::bits::lemma_u32_shl_is_mul(1, s);
    } else {
        vstd::bits::lemma_u32_shl_is_mul(0, s);
    }
}

/// Bit `bit` of `t`, read from its limb, is that bit of the number `t` writes.
proof fn lemma_bit_of_limbs(t: Seq<u32>, bit: nat)
    requires
        bit < 32 * t.len(),
    ensures
        ({
            let limb = t[(bit / 32) as int];
            (limb >> (bit % 32) as u32) & 1 == (limbs::limbs_value(t) / pow2(bit)) % 2
        }),
{
    let k = (bit / 32) as int;
    let s = (bit % 32) as nat;
    let limb = t[k];
    let v = limbs::limbs_value(t);
    limbs::lemma_limbs_split(t, k);
    limbs::lemma_limbs_bound(t.take(k));
    let rest = t.skip(k);
    limbs::lemma_limbs_split(rest, 1);
    assert(rest.take(1) =~= seq![limb]);
    reveal_with_fuel(limbs::limbs_value, 2);
    limbs::lemma_radix_pow(0);
    let hi = limbs::limbs_value(rest.skip(1));
    let r = limbs::limbs_value(rest);
    assert(limbs::limbs_value(seq![limb]) == limb) by {
        assert(seq![limb].drop_last() =~= Seq::<u32>::empty());
        lemma_mul_basics(limb as int);
    }
    assert(r == limb + limbs::radix() * hi);
    // v / 2^bit == (v / 2^(32 k)) / 2^s == r / 2^s
    let p = limbs::radix_pow(k as nat);
    lemma_pow2_pos(32 * k as nat);
    lemma_pow2_pos(s);
    lemma_pow2_adds((32 * k) as nat, s);
    assert(bit == 32 * k + s);
    lemma_div_denominator(v as int, p as int, pow2(s) as int);
    lemma_fundamental_div_mod_converse(
        v as int,
        p as int,
        r as int,
        limbs::limbs_value(t.take(k)) as int,
    );
    assert(v / pow2(bit) == r / pow2(s));
    // r / 2^s == limb / 2^s + 2^(32-s) * hi
    lemma_pow2_adds(s, (32 - s) as nat);
    lemma2_to64();
    let q = pow2((32 - s) as nat);
    assert(limbs::radix() * hi == pow2(s) * (q * hi)) by (nonlinear_arith)
        requires
            limbs::radix() == pow2(s) * q,
    ;
    lemma_hoist_over_denominator(limb as int, (q * hi) as int, pow2(s));
    lemma_mul_is_commutative((q * hi) as int, pow2(s) as int);
    lemma_pow2_adds(1, (31 - s) as nat);
    let half = pow2((31 - s) as nat);
    assert(q * hi == 2 * (half * hi)) by (nonlinear_arith)
        requires
            q == 2 * half,
    ;
    assert((r / pow2(s)) % 2 == (limb as nat / pow2(s)) % 2);
    vstd::bits::lemma_u32_shr_is_div(limb, s as u32);
    let shifted = limb >> (s as u32);
    assert(shifted & 1 == shifted % 2) by (bit_vector);
}

/// Halving the shift doubles the prefix and appends one bit.
proof fn lemma_prefix_step(v: nat, bit: nat)
    ensures
        v / pow2(bit) == 2 * (v / pow2(bit + 1)) + (v / pow2(bit)) % 2,
{
    lemma_pow2_pos(bit);
    lemma_pow2_adds(bit, 1);
    lemma2_to64();
    lemma_div_denominator(v as int, pow2(bit) as int, 2);
    lemma_fundamental_div_mod((v / pow2(bit)) as int, 2);
}

/// One step of the quotient: what stays, what overflows.
proof fn lemma_quotient_step(q: nat, take: nat, bit: nat, width: nat)
    requires
        take <= 1,
    ensures
        (2 * q + take) * pow2(bit) == q * pow2(bit + 1) + take * pow2(bit),
        (2 * q + take) * pow2(bit) >= pow2(width) <==> (q * pow2(bit + 1) >= pow2(width) || (take == 1
            && bit >= width)),
{
    let p = pow2(bit);
    lemma_pow2_pos(bit);
    lemma_pow2_adds(bit, 1);
    lemma2_to64();
    assert((2 * q + take) * p == q * (p * 2) + take * p) by (nonlinear_arith);
    assert(0 <= take * p) by (nonlinear_arith);
    lemma_mul_basics(p as int);
    if bit < width {
        let m = pow2((width - bit - 1) as nat);
        lemma_pow2_adds(bit + 1, (width - bit - 1) as nat);
        if q * pow2(bit + 1) < pow2(width) {
            assert(q < m) by (nonlinear_arith)
                requires
                    q * (p * 2) < (p * 2) * m,
            ;
            assert((2 * q + take) * p < (p * 2) * m) by (nonlinear_arith)
                requires
                    q + 1 <= m,
                    take <= 1,
                    p > 0,
            ;
        }
    } else {
        lemma_pow2_adds(width, (bit - width) as nat);
        lemma_pow2_pos((bit - width) as nat);
        lemma_pow2_pos(width);
        let m = pow2((bit - width) as nat);
        assert(p >= pow2(width)) by (nonlinear_arith)
            requires
                p == pow2(width) * m,
                m >= 1,
        ;
        if q >= 1 {
            assert(q * (p * 2) >= p) by (nonlinear_arith)
                requires
                    q >= 1,
                    p > 0,
            ;
        } else {
            lemma_mul_basics((p * 2) as int);
        }
    }
}

/// Setting limb `idx` to a larger value raises the number by the shifted difference.
proof fn lemma_update_limb(s: Seq<u32>, idx: int, x: u32)
    requires
        0 <= idx < s.len(),
    ensures
        limbs::limbs_value(s.update(idx, x)) == limbs::limbs_value(s) + (x - s[idx])
            * limbs::radix_pow(idx as nat),
    decreases s.len(),
{
    let n = s.len() - 1;
    let p = limbs::radix_pow(idx as nat) as int;
    if idx == n {
        assert(s.update(idx, x).drop_last() =~= s.drop_last());
        assert((x - s[idx]) * p == x * p - s[idx] * p) by (nonlinear_arith);
    } else {
        lemma_update_limb(s.drop_last(), idx, x);
        assert(s.update(idx, x).drop_last() =~= s.drop_last().update(idx, x));
    }
}

/// Branch-free binary long division of `t` by `n`;
/// `acc` is `n.len() + 1` limbs of scratch and holds
/// the remainder in its low `n.len()` limbs on return.
///
/// # Errors
/// The quotient exceeds `n.len()` limbs.
///
/// A zero divisor is never subtracted away: every step then takes a
/// quotient bit, so the quotient is all ones over the width of `t`.
#[verifier::rlimit(40)]
pub fn divrem(t: &[u32], n: &[u32], q: &mut [u32], acc: &mut [u32]) -> (res: Result<(), Error>)
    requires
        n.len() >= 1,
        n.len() <= old(q).len(),
        old(acc).len() == n.len() + 1,
        32 * t.len() <= usize::MAX,
        32 * n.len() <= usize::MAX,
    ensures
        final(q)@.len() == old(q)@.len(),
        final(acc)@.len() == old(acc)@.len(),
        limbs::limbs_value(n@) > 0 ==> {
            let quotient = limbs::limbs_value(t@) / limbs::limbs_value(n@);
            &&& res is Ok <==> quotient < limbs::radix_pow(n.len() as nat)
            &&& res is Ok ==> limbs::limbs_value(final(q)@) == quotient
            &&& limbs::limbs_value(final(acc)@) == limbs::limbs_value(t@) % limbs::limbs_value(n@)
        },
        limbs::limbs_value(n@) == 0 ==> {
            &&& res is Ok <==> t.len() <= n.len()
            &&& res is Ok ==> limbs::limbs_value(final(q)@) == limbs::radix_pow(t.len() as nat) - 1
            &&& res is Ok ==> limbs::limbs_value(final(acc)@) == limbs::limbs_value(t@)
        },
        res matches Err(e) ==> e.is_protocol(
            "bignum"@,
            "quotient exceeds the modulus width: operand not reduced"@,
        ),
{
    let limbs: usize = n.len();
    let total: usize = t.len() * 32;
    let width: usize = limbs * 32;
    let ghost tv = limbs::limbs_value(t@);
    let ghost nv = limbs::limbs_value(n@);

    let qlen: usize = q.len();
    for k in 0..qlen
        invariant
            qlen == q.len(),
            q.len() == old(q).len(),
            forall|c: int| 0 <= c < k ==> q@[c] == 0,
    {
        q[k] = 0;
    }
    for k in 0..limbs + 1
        invariant
            acc.len() == limbs + 1,
            acc.len() == old(acc).len(),
            forall|c: int| 0 <= c < k ==> acc@[c] == 0,
    {
        acc[k] = 0;
    }

    let mut overflow: u32 = 0;
    let mut bit: usize = total;
    let ghost mut quo: nat = 0;
    proof {
        lemma_zero_limbs(q@);
        lemma_zero_limbs(acc@);
        limbs::lemma_limbs_bound(t@);
        lemma_pow2_pos(total as nat);
        lemma_pow2_pos(width as nat);
        lemma_mul_basics(pow2(total as nat) as int);
        lemma_mul_basics(nv as int);
        lemma_basic_div(tv as int, pow2(total as nat) as int);
        lemma2_to64();
        assert forall|j: int| 0 <= j < limbs implies #[trigger] bits_clear_below(q@[j], j, bit as int) by {
            lemma_zero_clear();
        }
    }
    while bit > 0
        invariant
            limbs == n.len(),
            limbs >= 1,
            limbs <= q.len(),
            q.len() == old(q).len(),
            acc.len() == limbs + 1,
            acc.len() == old(acc).len(),
            total == 32 * t.len(),
            width == 32 * limbs,
            bit <= total,
            tv == limbs::limbs_value(t@),
            tv < pow2(total as nat),
            nv == limbs::limbs_value(n@),
            overflow == 0 || overflow == 1,
            overflow == 0 <==> quo * pow2(bit as nat) < pow2(width as nat),
            overflow == 0 ==> limbs::limbs_value(q@) == quo * pow2(bit as nat),
            forall|j: int| 0 <= j < limbs ==> #[trigger] bits_clear_below(q@[j], j, bit as int),
            nv > 0 ==> {
                &&& limbs::limbs_value(acc@) < nv
                &&& tv / pow2(bit as nat) == quo * nv + limbs::limbs_value(acc@)
            },
            nv == 0 ==> {
                &&& quo == pow2((total - bit) as nat) - 1
                &&& total <= width ==> limbs::limbs_value(acc@) == tv / pow2(bit as nat)
            },
        decreases bit,
    {
        let ghost bit_before = bit;
        let ghost quo_before = quo;
        bit = bit - 1;
        let ghost acc_before = limbs::limbs_value(acc@);
        let carry: u32 = (t[bit / 32] >> ((bit % 32) as u32)) & 1;
        proof {
            lemma_bit_of_limbs(t@, bit as nat);
            lemma_prefix_step(tv, bit as nat);
        }
        let out: u32 = shift_in(acc, carry);
        proof {
            lemma_shift_fits(acc@, n@, acc_before, carry as nat, out as nat, tv, bit as nat, total as nat, width as nat);
        }
        let ghost shifted = limbs::limbs_value(acc@);

        let mask: u32 = geq_mask(acc, n);
        sub_masked(acc, n, mask);
        let take: u32 = mask & 1;
        assert(0xffff_ffffu32 & 1 == 1 && 0u32 & 1 == 0 && 0u32 | 0u32 == 0 && 0u32 | 1u32 == 1 && 1u32
            | 0u32 == 1 && 1u32 | 1u32 == 1) by (bit_vector);

        let fits: bool = bit < width;
        proof {
            quo = 2 * quo_before + take as nat;
            lemma_quotient_step(quo_before, take as nat, bit as nat, width as nat);
            lemma_remainder_step(quo_before, nv, acc_before, carry as nat, take as nat);
            lemma_all_ones_step(total as nat, bit as nat);
            if nv > 0 {
                assert(shifted == 2 * acc_before + carry);
                assert(tv / pow2(bit as nat) == 2 * (tv / pow2(bit_before as nat)) + carry);
                assert(take == 1 <==> shifted >= nv);
                lemma_mul_basics(nv as int);
                if shifted >= nv {
                    assert(take * nv == nv);
                } else {
                    assert(take == 0);
                    assert(take * nv == 0);
                }
                assert(limbs::limbs_value(acc@) == shifted - take * nv);
                assert(limbs::limbs_value(acc@) < nv);
            }
        }
        let ghost q_before = q@;
        if fits {
            let idx: usize = (bit / 32) % limbs;
            let s: u32 = (bit % 32) as u32;
            assert(idx == bit / 32) by {
                lemma_small_mod((bit / 32) as nat, limbs as nat);
            }
            proof {
                assert(bits_clear_below(q@[idx as int], idx as int, bit_before as int));
                lemma_set_bit(q@[idx as int], take, s);
                lemma_update_limb(q@, idx as int, q@[idx as int] | (take << s));
                lemma_pow2_adds(s as nat, (32 * idx) as nat);
                assert(bit == s + 32 * idx);
                let m = limbs::radix_pow(idx as nat);
                assert((take * pow2(s as nat)) * m == take * (pow2(s as nat) * m))
                    by (nonlinear_arith);
            }
            q[idx] = q[idx] | (take << s);
        } else {
            overflow = overflow | take;
        }
        proof {
            assert forall|j: int| 0 <= j < limbs implies #[trigger] bits_clear_below(q@[j], j, bit as int) by {
                assert(bits_clear_below(q_before[j], j, bit_before as int));
                lemma_clear_weakens(q_before[j], j, bit as int);
            }
        }
    }
    proof {
        lemma2_to64();
        assert(quo * pow2(0) == quo);
        lemma_div_basics(tv as int);
        if nv > 0 {
            lemma_fundamental_div_mod_converse(
                tv as int,
                nv as int,
                quo as int,
                limbs::limbs_value(acc@) as int,
            );
        } else {
            lemma_pow2_order(total as nat, width as nat);
        }
    }

    if overflow != 0 {
        return Err(
            Error::Protocol {
                protocol: "bignum",
                message: "quotient exceeds the modulus width: operand not reduced",
            },
        );
    }
    Ok(())
}

/// The bits of limb `j`, holding value `x`, below overall position `bit` are zero.
spec fn bits_clear_below(x: u32, j: int, bit: int) -> bool {
    &&& bit >= 32 * j + 32 ==> low_clear(x, 32)
    &&& 32 * j < bit < 32 * j + 32 ==> low_clear(x, (bit - 32 * j) as u32)
}

proof fn lemma_zero_clear()
    ensures
        forall|s: u32| s <= 32 ==> low_clear(0, s),
{
    assert forall|s: u32| s <= 32 implies low_clear(0, s) by {
        assert(((0u32 as u64) >> s) << s == 0u32 as u64) by (bit_vector);
    }
}

proof fn lemma_clear_weakens(x: u32, j: int, bit: int)
    requires
        bits_clear_below(x, j, bit + 1),
    ensures
        bits_clear_below(x, j, bit),
{
    if 32 * j < bit < 32 * j + 32 {
        let s = (bit - 32 * j) as u32;
        let t = (s + 1) as u32;
        assert(low_clear(x, t));
        assert(((x as u64) >> s) << s == x as u64) by (bit_vector)
            requires
                s < 32,
                t == s + 1,
                ((x as u64) >> t) << t == x as u64,
        ;
    }
}

proof fn lemma_zero_limbs(s: Seq<u32>)
    requires
        forall|c: int| 0 <= c < s.len() ==> s[c] == 0,
    ensures
        limbs::limbs_value(s) == 0,
    decreases s.len(),
{
    if s.len() > 0 {
        lemma_zero_limbs(s.drop_last());
        assert(s.last() == 0);
        lemma_mul_basics(limbs::radix_pow((s.len() - 1) as nat) as int);
    }
}

proof fn lemma_pow2_order(a: nat, b: nat)
    ensures
        a <= b ==> pow2(a) <= pow2(b),
        a > b ==> pow2(a) > pow2(b),
{
    if a < b {
        lemma_pow2_strictly_increases(a, b);
    } else if b < a {
        lemma_pow2_strictly_increases(b, a);
    }
}

proof fn lemma_shift_fits(
    acc: Seq<u32>,
    n: Seq<u32>,
    before: nat,
    carry: nat,
    out: nat,
    tv: nat,
    bit: nat,
    total: nat,
    width: nat,
)
    requires
        acc.len() == n.len() + 1,
        n.len() >= 1,
        width == 32 * n.len(),
        carry <= 1,
        out <= 1,
        bit < total,
        tv < pow2(total),
        limbs::limbs_value(acc) + out * limbs::radix_pow(acc.len()) == 2 * before + carry,
        limbs::limbs_value(n) > 0 ==> before < limbs::limbs_value(n),
        limbs::limbs_value(n) == 0 && total <= width ==> 2 * before + carry == tv / pow2(bit),
    ensures
        limbs::limbs_value(n) > 0 || total <= width ==> limbs::limbs_value(acc) == 2 * before
            + carry,
{
    limbs::lemma_limbs_bound(n);
    limbs::lemma_radix_pow(n.len());
    let p = limbs::radix_pow(n.len());
    assert(limbs::radix_pow(acc.len()) == limbs::radix() * p);
    if limbs::limbs_value(n) > 0 {
        assert(2 * before + carry < limbs::radix() * p) by (nonlinear_arith)
            requires
                before < p,
                carry <= 1,
                limbs::radix() >= 2,
        ;
    } else if total <= width {
        lemma_pow2_order(total, width);
        lemma_pow2_pos(bit);
        lemma_div_is_ordered_by_denominator(tv as int, 1, pow2(bit) as int);
        lemma_div_basics(tv as int);
        assert(tv / pow2(bit) < p);
        assert(p <= limbs::radix() * p) by (nonlinear_arith)
            requires
                limbs::radix() >= 1,
        ;
    }
    assert(out == 1 ==> out * limbs::radix_pow(acc.len()) == limbs::radix_pow(acc.len()));
    assert(out == 0 ==> out * limbs::radix_pow(acc.len()) == 0);
}

proof fn lemma_remainder_step(quo: nat, nv: nat, acc: nat, carry: nat, take: nat)
    ensures
        2 * (quo * nv + acc) + carry == (2 * quo + take) * nv + (2 * acc + carry - take * nv),
{
    assert((2 * quo + take) * nv == 2 * (quo * nv) + take * nv) by (nonlinear_arith);
}

proof fn lemma_all_ones_step(total: nat, bit: nat)
    requires
        bit < total,
    ensures
        2 * (pow2((total - bit - 1) as nat) - 1) + 1 == pow2((total - bit) as nat) - 1,
{
    lemma_pow2_adds(1, (total - bit - 1) as nat);
    lemma2_to64();
}

// ---------------------------------------------------------------
// What the columns and digits stand for
// ---------------------------------------------------------------

/// The first `n` column sums of `a * b` over `m` 64-bit limbs of `a`.
pub open spec fn column_seq(a: Seq<u32>, b: Seq<u32>, m: nat, n: nat) -> Seq<nat> {
    Seq::new(n, |k: int| column_sum(a, b, m, k))
}

proof fn lemma_term_row(a: Seq<u32>, b: Seq<u32>, i: int, n: nat)
    requires
        0 <= i,
    ensures
        limbs::columns_value(Seq::new(n, |k: int| column_term(a, b, i, k))) == pair(a, i)
            * limbs::radix_pow((2 * i) as nat) * limbs::limbs_value(
            b.take(
                if n <= 2 * i {
                    0
                } else if n - 2 * i <= b.len() {
                    n - 2 * i
                } else {
                    b.len() as int
                },
            ),
        ),
    decreases n,
{
    let row = Seq::new(n, |k: int| column_term(a, b, i, k));
    let c = pair(a, i) * limbs::radix_pow((2 * i) as nat);
    if n == 0 {
        assert(b.take(0) =~= Seq::<u32>::empty());
        assert(limbs::limbs_value(b.take(0)) == 0);
        lemma_mul_basics(c as int);
    } else {
        let prev = Seq::new((n - 1) as nat, |k: int| column_term(a, b, i, k));
        assert(row.drop_last() =~= prev);
        lemma_term_row(a, b, i, (n - 1) as nat);
        let j = n - 1 - 2 * i;
        if 0 <= j < b.len() {
            lemma_take_step(b, j);
            limbs::lemma_radix_pow_adds((2 * i) as nat, j as nat);
            let (x, y, p, q) = (
                pair(a, i),
                b[j] as nat,
                limbs::radix_pow((2 * i) as nat),
                limbs::radix_pow(j as nat),
            );
            assert((x * y) * (p * q) == (x * p) * (y * q)) by (nonlinear_arith);
            lemma_mul_is_distributive_add(
                c as int,
                limbs::limbs_value(b.take(j)) as int,
                (y * q) as int,
            );
        } else {
            lemma_mul_basics(limbs::radix_pow((n - 1) as nat) as int);
        }
    }
}

proof fn lemma_columns_add(x: Seq<nat>, y: Seq<nat>, z: Seq<nat>)
    requires
        x.len() == z.len(),
        y.len() == z.len(),
        forall|k: int| 0 <= k < z.len() ==> z[k] == x[k] + y[k],
    ensures
        limbs::columns_value(z) == limbs::columns_value(x) + limbs::columns_value(y),
    decreases z.len(),
{
    if z.len() > 0 {
        lemma_columns_add(x.drop_last(), y.drop_last(), z.drop_last());
        lemma_mul_is_distributive_add(
            limbs::radix_pow((z.len() - 1) as nat) as int,
            x.last() as int,
            y.last() as int,
        );
        lemma_mul_is_commutative(
            limbs::radix_pow((z.len() - 1) as nat) as int,
            x.last() as int,
        );
        lemma_mul_is_commutative(
            limbs::radix_pow((z.len() - 1) as nat) as int,
            y.last() as int,
        );
        lemma_mul_is_commutative(
            limbs::radix_pow((z.len() - 1) as nat) as int,
            z.last() as int,
        );
    }
}

proof fn lemma_columns_partial_product(a: Seq<u32>, b: Seq<u32>, m: nat, n: nat)
    requires
        2 * m <= a.len(),
        m > 0 && b.len() > 0 ==> 2 * m + b.len() <= n + 2,
    ensures
        limbs::columns_value(column_seq(a, b, m, n)) == limbs::limbs_value(a.take(2 * m as int))
            * limbs::limbs_value(b),
    decreases m,
{
    let bv = limbs::limbs_value(b);
    if m == 0 {
        lemma_zero_columns(column_seq(a, b, 0, n));
        assert(a.take(0) =~= Seq::<u32>::empty());
        assert(limbs::limbs_value(a.take(0)) == 0);
        lemma_mul_basics(bv as int);
    } else {
        let i = (m - 1) as nat;
        lemma_columns_partial_product(a, b, i, n);
        let terms = Seq::new(n, |k: int| column_term(a, b, i as int, k));
        lemma_columns_add(column_seq(a, b, i, n), terms, column_seq(a, b, m, n));
        lemma_term_row(a, b, i as int, n);
        lemma_take_step(a, 2 * i as int);
        lemma_take_step(a, (2 * i + 1) as int);
        limbs::lemma_radix_pow(2 * i);
        assert(b.take(b.len() as int) =~= b);
        if b.len() == 0 {
            assert(b.take(0) =~= b);
            assert(bv == 0);
            lemma_mul_basics((pair(a, i as int) * limbs::radix_pow(2 * i)) as int);
            lemma_mul_basics(limbs::limbs_value(a.take(2 * m as int)) as int);
            lemma_mul_basics(limbs::limbs_value(a.take(2 * i as int)) as int);
        } else {
            let p = limbs::radix_pow(2 * i);
            let (lo, hi) = (a[2 * i as int] as nat, a[(2 * i + 1) as int] as nat);
            let prev = limbs::limbs_value(a.take(2 * i as int));
            assert(prev * bv + (lo + hi * limbs::radix()) * p * bv == (prev + lo * p + hi * (p
                * limbs::radix())) * bv) by (nonlinear_arith);
        }
    }
}

proof fn lemma_zero_columns(s: Seq<nat>)
    requires
        forall|k: int| 0 <= k < s.len() ==> s[k] == 0,
    ensures
        limbs::columns_value(s) == 0,
    decreases s.len(),
{
    if s.len() > 0 {
        lemma_zero_columns(s.drop_last());
        lemma_mul_basics(limbs::radix_pow((s.len() - 1) as nat) as int);
    }
}

/// The column sums of two numbers write their product.
pub proof fn law_columns_write_product(a: Seq<u32>, b: Seq<u32>, n: nat)
    requires
        a.len() % 2 == 0,
        a.len() > 0 && b.len() > 0 ==> a.len() + b.len() <= n + 2,
    ensures
        limbs::columns_value(column_seq(a, b, a.len() / 2, n)) == limbs::limbs_value(a)
            * limbs::limbs_value(b),
{
    lemma_columns_partial_product(a, b, a.len() / 2, n);
    assert(a.take(a.len() as int) =~= a);
}

/// Normalising keeps the number: the digits and the carry out of the
/// top write the columns plus the addend.
pub proof fn law_normalise_keeps_value(
    sums: Seq<u128>,
    add: Seq<u32>,
    digits: Seq<u32>,
)
    requires
        digits.len() == sums.len(),
        add.len() <= sums.len(),
        forall|k: int|
            0 <= k < sums.len() ==> (#[trigger] digits[k]) as nat == column_total(
                sums,
                add,
                k as nat,
            ) % limbs::radix(),
    ensures
        limbs::limbs_value(digits) + carry_into(sums, add, sums.len()) * limbs::radix_pow(
            sums.len(),
        ) == limbs::columns_value(limbs::wide(sums)) + limbs::limbs_value(add),
{
    lemma_normalise_prefix(sums, add, digits, sums.len());
    assert(digits.take(sums.len() as int) =~= digits);
    assert(sums.take(sums.len() as int) =~= sums);
    assert(add.take(add.len() as int) =~= add);
}

proof fn lemma_normalise_prefix(sums: Seq<u128>, add: Seq<u32>, digits: Seq<u32>, n: nat)
    requires
        n <= sums.len(),
        digits.len() == sums.len(),
        forall|k: int|
            0 <= k < sums.len() ==> (#[trigger] digits[k]) as nat == column_total(
                sums,
                add,
                k as nat,
            ) % limbs::radix(),
    ensures
        limbs::limbs_value(digits.take(n as int)) + carry_into(sums, add, n) * limbs::radix_pow(n)
            == limbs::columns_value(limbs::wide(sums.take(n as int)))
            + limbs::limbs_value(
            add.take(
                if n <= add.len() {
                    n as int
                } else {
                    add.len() as int
                },
            ),
        ),
    decreases n,
{
    if n == 0 {
        assert(digits.take(0) =~= Seq::<u32>::empty());
        assert(add.take(0) =~= Seq::<u32>::empty());
        assert(limbs::wide(sums.take(0)) =~= Seq::<nat>::empty());
        limbs::lemma_radix_pow(0);
        assert(limbs::limbs_value(digits.take(0)) == 0);
        assert(limbs::limbs_value(add.take(0)) == 0);
        assert(limbs::columns_value(limbs::wide(sums.take(0))) == 0);
    } else {
        let k = (n - 1) as nat;
        lemma_normalise_prefix(sums, add, digits, k);
        lemma_take_step(digits, k as int);
        let cols = limbs::wide(sums.take(n as int));
        assert(cols.drop_last() =~= limbs::wide(sums.take(k as int)));
        assert(cols.last() == sums[k as int] as nat);
        let p = limbs::radix_pow(k);
        limbs::lemma_radix_pow(k);
        let total = column_total(sums, add, k);
        lemma_fundamental_div_mod(total as int, limbs::radix() as int);
        let (d, c) = (total % limbs::radix(), total / limbs::radix());
        assert(digits[k as int] as nat == d);
        assert(carry_into(sums, add, n) == c);
        let (s, e, b) = (sums[k as int] as nat, digit_or_zero(add, k as int), carry_into(sums, add, k));
        assert(d * p + c * (limbs::radix() * p) == s * p + e * p + b * p) by (nonlinear_arith)
            requires
                limbs::radix() * c + d == s + e + b,
        ;
        if k < add.len() {
            lemma_take_step(add, k as int);
        } else {
            lemma_mul_basics(p as int);
        }
    }
}

} // verus!
