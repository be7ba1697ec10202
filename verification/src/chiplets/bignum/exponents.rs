//! The integers behind a row of the exponentiation table, and how those of
//! one row follow from those of the row before.
//!
//! Row `i` of a block multiplies 64-bit limb `i` of the left factor by every
//! limb of the right one and adds the products to running columns. It then
//! finishes columns `2i` and `2i + 1` of its own block and columns `64 + 2i`
//! and `65 + 2i` of the block before.

use vstd::arithmetic::div_mod::*;
use vstd::arithmetic::power2::*;
use vstd::prelude::*;

use super::bigint;
use super::limbs;
use super::modexp::Modexp;
use super::modmul;

verus! {

/// The block before block `b`; the last before the first.
pub open spec fn block_before(b: int) -> int {
    if b == 0 {
        31
    } else {
        b - 1
    }
}

/// The left factor of side `side` of block `b`: `x` of `x · y`, `q` of
/// `q · N + r`.
pub open spec fn left(m: Modexp, side: int, b: int) -> Seq<u32> {
    if side == 0 {
        m.steps()[b].x@
    } else {
        m.steps()[b].q@
    }
}

/// The right factor: `y` of `x · y`, `N` of `q · N + r`.
pub open spec fn right(m: Modexp, side: int, b: int) -> Seq<u32> {
    if side == 0 {
        m.steps()[b].y@
    } else {
        m.n_limbs()
    }
}

/// What is added to the product: nothing, or `r`.
pub open spec fn added(m: Modexp, side: int, b: int) -> Seq<u32> {
    if side == 0 {
        Seq::empty()
    } else {
        m.steps()[b].r@
    }
}

/// The 64-bit limb that row `i` multiplies.
pub open spec fn limb(m: Modexp, side: int, b: int, i: int) -> nat {
    bigint::pair(left(m, side, b), i)
}

/// Running column `c` after row `i`: what the limbs so far add to column
/// `2i + c` of the product.
pub open spec fn running(m: Modexp, side: int, b: int, i: int, c: int) -> nat {
    bigint::column_sum(left(m, side, b), right(m, side, b), (i + 1) as nat, 2 * i + c)
}

/// Running column `c` of the block before, as row `i` still holds it.
pub open spec fn tail(m: Modexp, side: int, b: int, i: int, c: int) -> nat {
    let p = block_before(b);
    bigint::column_sum(left(m, side, p), right(m, side, p), 32, 64 + 2 * i + c)
}

/// The carry into column `k` of one side of block `b`.
pub open spec fn carry(m: Modexp, side: int, b: int, k: int) -> nat {
    m.steps()[b].carries@[side]@[k] as nat
}

/// The carry into limb `k` of `r + w + 1`.
pub open spec fn sum_carry(r: Seq<u32>, w: Seq<u32>, k: int) -> nat
    decreases k,
{
    if k <= 0 {
        1
    } else {
        ((r[k - 1] + w[k - 1] + sum_carry(r, w, k - 1)) / 0x1_0000_0000) as nat
    }
}

// ---------------------------------------------------------------
// Columns
// ---------------------------------------------------------------

/// Limbs whose products fall beyond a column's end add nothing to it.
pub proof fn lemma_column_past(a: Seq<u32>, b: Seq<u32>, n: nat, k: int)
    requires
        k - 2 * (n - 1) >= b.len(),
    ensures
        bigint::column_sum(a, b, n, k) == 0,
    decreases n,
{
    if n > 0 {
        lemma_column_past(a, b, (n - 1) as nat, k);
    }
}

/// Limbs whose products start above a column add nothing to it.
pub proof fn lemma_column_settled(a: Seq<u32>, b: Seq<u32>, n: nat, t: nat, k: int)
    requires
        n <= t,
        k < 2 * n,
    ensures
        bigint::column_sum(a, b, t, k) == bigint::column_sum(a, b, n, k),
    decreases t,
{
    if n < t {
        lemma_column_settled(a, b, n, (t - 1) as nat, k);
    }
}

/// Limb `i` of the left factor adds its product with limb `c` of the right one
/// to what stood two columns further.
pub proof fn lemma_column_step(x: Seq<u32>, y: Seq<u32>, i: int, c: int)
    requires
        y.len() == 64,
        0 <= i,
        0 <= c < 64,
    ensures
        bigint::column_sum(x, y, (i + 1) as nat, 2 * i + c) == (if i > 0 && c + 2 < 64 {
            bigint::column_sum(x, y, i as nat, 2 * (i - 1) + (c + 2))
        } else {
            0
        }) + bigint::pair(x, i) * y[c] as nat,
{
    let k = 2 * i + c;
    assert(bigint::column_term(x, y, i, k) == bigint::pair(x, i) * y[c] as nat);
    if c + 2 >= 64 {
        lemma_column_past(x, y, i as nat, k);
    } else if i > 0 {
        assert(2 * (i - 1) + (c + 2) == k);
    } else {
        assert(bigint::column_sum(x, y, 0, k) == 0);
    }
}

/// Row `i` adds its limb times limb `c` of the right factor to what stood
/// two columns further on the row before.
pub proof fn lemma_running_step(m: Modexp, side: int, b: int, i: int, c: int)
    requires
        m.wf(),
        0 <= side < 2,
        0 <= b < 32,
        0 <= i < 32,
        0 <= c < 64,
    ensures
        running(m, side, b, i, c) == (if i > 0 && c + 2 < 64 {
            running(m, side, b, i - 1, c + 2)
        } else {
            0
        }) + limb(m, side, b, i) * right(m, side, b)[c] as nat,
{
    lemma_column_step(left(m, side, b), right(m, side, b), i, c);
}

/// The tail of the first row is what the block before left running, and each
/// further row drops two columns of it.
pub proof fn lemma_tail_step(m: Modexp, side: int, b: int, i: int, c: int)
    requires
        m.wf(),
        0 <= side < 2,
        0 <= b < 32,
        0 <= i < 32,
        0 <= c < 64,
    ensures
        tail(m, side, b, i, c) == (if c + 2 >= 64 {
            0
        } else if i > 0 {
            tail(m, side, b, i - 1, c + 2)
        } else {
            running(m, side, block_before(b), 31, c + 2)
        }),
{
    let p = block_before(b);
    if c + 2 >= 64 {
        assert(right(m, side, p).len() == 64);
        lemma_column_past(left(m, side, p), right(m, side, p), 32, 64 + 2 * i + c);
    }
}

/// A carry stays below `2^70`.
pub proof fn lemma_carry_small(m: Modexp, side: int, b: int, k: int)
    requires
        m.wf(),
        0 <= side < 2,
        0 <= b < 32,
        0 <= k <= 128,
    ensures
        carry(m, side, b, k) < pow2(70),
{
    let (x, y) = (left(m, side, b), right(m, side, b));
    reveal(modmul::Modmul::wf);
    assert(m.steps()[b].wf(m.n_limbs()));
    let sums = modmul::product_columns(x, y);
    lemma_product_columns(x, y);
    modmul::law_carries_below_2_70(sums, added(m, side, b), k as nat);
    assert(m.steps()[b].carries@[side]@[k] as nat == bigint::carry_into(
        sums,
        added(m, side, b),
        k as nat,
    ));
}

pub proof fn lemma_product_columns(x: Seq<u32>, y: Seq<u32>)
    requires
        x.len() == 64,
    ensures
        forall|c: int|
            0 <= c < 128 ==> (#[trigger] modmul::product_columns(x, y)[c]) as nat
                == bigint::column_sum(x, y, 32, c) && modmul::product_columns(x, y)[c] < pow2(101),
{
    assert forall|c: int| 0 <= c < 128 implies (#[trigger] modmul::product_columns(x, y)[c]) as nat
        == bigint::column_sum(x, y, 32, c) && modmul::product_columns(x, y)[c] < pow2(101) by {
        modmul::law_column_sums_below_2_101(x, y, c);
        lemma_pow2_101();
    }
}

proof fn lemma_pow2_101()
    ensures
        pow2(101) == 0x20_0000_0000_0000_0000_0000_0000,
{
    lemma_pow2_adds(64, 32);
    lemma_pow2_adds(96, 5);
    lemma2_to64();
    lemma2_to64_rest();
}

/// Nothing is carried into the first column.
pub proof fn lemma_no_carry_in(m: Modexp, side: int, b: int)
    requires
        m.wf(),
        0 <= side < 2,
        0 <= b < 32,
    ensures
        carry(m, side, b, 0) == 0,
{
    reveal(modmul::Modmul::wf);
    assert(m.steps()[b].wf(m.n_limbs()));
    assert(m.steps()[b].carries@[side]@[0] as nat == bigint::carry_into(
        modmul::product_columns(left(m, side, b), right(m, side, b)),
        added(m, side, b),
        0,
    ));
}

/// A finished column splits into its digit and the carry out of it.
pub proof fn lemma_split(m: Modexp, side: int, b: int, k: int)
    requires
        m.wf(),
        0 <= side < 2,
        0 <= b < 32,
        0 <= k < 128,
    ensures
        bigint::column_sum(left(m, side, b), right(m, side, b), 32, k) + bigint::digit_or_zero(
            added(m, side, b),
            k,
        ) + carry(m, side, b, k) == m.steps()[b].digits@[k] + carry(m, side, b, k + 1) * pow2(32),
{
    let (x, y) = (left(m, side, b), right(m, side, b));
    let add = added(m, side, b);
    let step = m.steps()[b];
    reveal(modmul::Modmul::wf);
    assert(step.wf(m.n_limbs()));
    let sums = modmul::product_columns(x, y);
    lemma_product_columns(x, y);
    let carries = step.carries@[side]@;
    assert(carries[k] as nat == bigint::carry_into(sums, add, k as nat));
    assert(carries[k + 1] as nat == bigint::carry_into(sums, add, (k + 1) as nat));
    let total = bigint::column_total(sums, add, k as nat);
    assert(step.digits@[k] as nat == total % limbs::radix());
    lemma2_to64();
    lemma_fundamental_div_mod(total as int, limbs::radix() as int);
}

/// The two columns that row `i` finishes of its own block.
pub proof fn lemma_head_split(m: Modexp, side: int, b: int, i: int, c: int)
    requires
        m.wf(),
        0 <= side < 2,
        0 <= b < 32,
        0 <= i < 32,
        0 <= c < 2,
    ensures
        running(m, side, b, i, c) + carry(m, side, b, 2 * i + c) + (if side == 0 {
            0
        } else {
            m.steps()[b].r@[2 * i + c] as nat
        }) == m.steps()[b].digits@[2 * i + c] + carry(m, side, b, 2 * i + c + 1) * pow2(32),
{
    lemma_split(m, side, b, 2 * i + c);
    lemma_column_settled(
        left(m, side, b),
        right(m, side, b),
        (i + 1) as nat,
        32,
        2 * i + c,
    );
}

/// The two columns that row `i` finishes of the block before.
pub proof fn lemma_tail_split(m: Modexp, side: int, b: int, i: int, c: int)
    requires
        m.wf(),
        0 <= side < 2,
        0 <= b < 32,
        0 <= i < 32,
        0 <= c < 2,
    ensures
        tail(m, side, b, i, c) + carry(m, side, block_before(b), 64 + 2 * i + c)
            == m.steps()[block_before(b)].digits@[64 + 2 * i + c] + carry(
            m,
            side,
            block_before(b),
            64 + 2 * i + c + 1,
        ) * pow2(32),
{
    lemma_split(m, side, block_before(b), 64 + 2 * i + c);
}

/// Nothing is carried out of the last column.
pub proof fn lemma_no_carry_out(m: Modexp, side: int, b: int)
    requires
        m.wf(),
        0 <= side < 2,
        0 <= b < 32,
    ensures
        carry(m, side, b, 128) == 0,
{
    let step = m.steps()[b];
    reveal(modmul::Modmul::wf);
    assert(step.wf(m.n_limbs()));
    let (x, y) = (left(m, side, b), right(m, side, b));
    let add = added(m, side, b);
    let sums = modmul::product_columns(x, y);
    lemma_product_columns(x, y);
    bigint::law_normalise_keeps_value(sums, add, step.digits@);
    bigint::law_columns_write_product(x, y, 128);
    assert(limbs::wide(sums) =~= bigint::column_seq(x, y, 32, 128));
    assert(limbs::limbs_value(Seq::<u32>::empty()) == 0);
    assert(step.carries@[side]@[128] as nat == bigint::carry_into(sums, add, 128));
    let c = bigint::carry_into(sums, add, 128);
    limbs::lemma_radix_pow(128);
    let p = limbs::radix_pow(128);
    assert(c == 0) by (nonlinear_arith)
        requires
            c * p == 0,
            p > 0,
    ;
}

// ---------------------------------------------------------------
// r + w + 1 = N
// ---------------------------------------------------------------

pub proof fn lemma_sum_carry_bit(r: Seq<u32>, w: Seq<u32>, k: int)
    ensures
        sum_carry(r, w, k) <= 1,
    decreases k,
{
    if k > 0 {
        lemma_sum_carry_bit(r, w, k - 1);
    }
}

/// The low limbs of a sum.
spec fn sum_limb(r: Seq<u32>, w: Seq<u32>, k: int) -> u32 {
    ((r[k] + w[k] + sum_carry(r, w, k)) % 0x1_0000_0000) as u32
}

proof fn lemma_sum_value(r: Seq<u32>, w: Seq<u32>, k: nat)
    requires
        r.len() == w.len(),
        k <= r.len(),
    ensures
        limbs::limbs_value(r.take(k as int)) + limbs::limbs_value(w.take(k as int)) + 1
            == limbs::limbs_value(Seq::new(k, |i: int| sum_limb(r, w, i))) + sum_carry(
            r,
            w,
            k as int,
        ) * limbs::radix_pow(k),
    decreases k,
{
    let low = Seq::new(k, |i: int| sum_limb(r, w, i));
    if k == 0 {
        assert(r.take(0).len() == 0 && w.take(0).len() == 0 && low.len() == 0);
        limbs::lemma_radix_pow(0);
        assert(sum_carry(r, w, 0) * limbs::radix_pow(0) == 1) by (nonlinear_arith)
            requires
                sum_carry(r, w, 0) == 1,
                limbs::radix_pow(0) == 1,
        ;
    } else {
        let j = (k - 1) as nat;
        lemma_sum_value(r, w, j);
        lemma_sum_carry_bit(r, w, j as int);
        assert(r.take(k as int).drop_last() =~= r.take(j as int));
        assert(w.take(k as int).drop_last() =~= w.take(j as int));
        assert(low.drop_last() =~= Seq::new(j, |i: int| sum_limb(r, w, i)));
        let total = r[j as int] + w[j as int] + sum_carry(r, w, j as int);
        let (p, d, c) = (
            limbs::radix_pow(j) as int,
            sum_limb(r, w, j as int) as int,
            sum_carry(r, w, k as int) as int,
        );
        limbs::lemma_radix_pow(k);
        limbs::lemma_radix_pow(j);
        assert(total == d + c * 0x1_0000_0000);
        assert(total * p == d * p + c * (0x1_0000_0000 * p)) by (nonlinear_arith)
            requires
                total == d + c * 0x1_0000_0000,
        ;
        assert(total * p == r[j as int] as int * p + w[j as int] as int * p + sum_carry(
            r,
            w,
            j as int,
        ) as int * p) by (nonlinear_arith)
            requires
                total == r[j as int] + w[j as int] + sum_carry(r, w, j as int),
        ;
        assert(limbs::radix_pow(k) == 0x1_0000_0000 * p);
        assert(r.take(k as int).last() == r[j as int] && w.take(k as int).last() == w[j as int]);
        assert(low.last() == sum_limb(r, w, j as int));
        assert(limbs::limbs_value(r.take(k as int)) == limbs::limbs_value(r.take(j as int))
            + r[j as int] as int * p);
        assert(limbs::limbs_value(w.take(k as int)) == limbs::limbs_value(w.take(j as int))
            + w[j as int] as int * p);
        assert(limbs::limbs_value(low) == limbs::limbs_value(low.drop_last()) + d * p);
        let q = limbs::radix_pow(k) as int;
        assert(c * q == c * (0x1_0000_0000 * p)) by (nonlinear_arith)
            requires
                q == 0x1_0000_0000 * p,
        ;
        assert(limbs::limbs_value(r.take(k as int)) + limbs::limbs_value(w.take(k as int)) + 1
            == limbs::limbs_value(low) + c * q);
    }
}

/// `r + w + 1 = N` limb by limb, with one-bit carries.
pub proof fn lemma_remainder_limbs(m: Modexp, b: int, k: int)
    requires
        m.wf(),
        0 <= b < 32,
        0 <= k < 64,
    ensures
        m.steps()[b].r@[k] + m.steps()[b].w@[k] + sum_carry(
            m.steps()[b].r@,
            m.steps()[b].w@,
            k,
        ) == m.n_limbs()[k] + 0x1_0000_0000 * sum_carry(
            m.steps()[b].r@,
            m.steps()[b].w@,
            k + 1,
        ),
        sum_carry(m.steps()[b].r@, m.steps()[b].w@, 64) == 0,
{
    let step = m.steps()[b];
    let (r, w, n) = (step.r@, step.w@, m.n_limbs());
    reveal(modmul::Modmul::wf);
    assert(step.wf(n));
    lemma_sum_value(r, w, 64);
    assert(r.take(64) =~= r && w.take(64) =~= w);
    let low = Seq::new(64, |i: int| sum_limb(r, w, i));
    limbs::lemma_limbs_bound(n);
    limbs::lemma_limbs_bound(low);
    let (c, p, v) = (sum_carry(r, w, 64), limbs::radix_pow(64), limbs::limbs_value(low));
    assert(c == 0) by (nonlinear_arith)
        requires
            v + c * p < p,
            v >= 0,
    ;
    assert(0 * p == 0) by (nonlinear_arith);
    limbs::lemma_limbs_injective(low, n);
    assert(low[k] == n[k]);
}

} // verus!
