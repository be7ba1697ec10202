//! What evaluation of a multilinear polynomial satisfies.

use vstd::arithmetic::power2::*;
use vstd::prelude::*;

use super::variant;
use crate::bits;
use crate::field::gf;
use crate::field::laws::Ring;
use crate::tensor;

verus! {

/// The lower corners take the share `1 - x` of their weights.
proof fn lemma_lower(values: Seq<u128>, r: Seq<u128>, x: u128, k: nat)
    requires
        k <= pow2(r.len()),
    ensures
        variant::weighted_sum(values, r.push(x), k) == gf::gf128_mul(
            1 ^ x,
            variant::weighted_sum(values, r, k),
        ),
    decreases k,
{
    let y = 1 ^ x;
    <u128 as Ring>::units(y);
    if k > 0 {
        let i = (k - 1) as nat;
        lemma_lower(values, r, x, i);
        variant::lemma_high_bit(i, r.len());
        assert(r.push(x).drop_last() =~= r);
        let w = tensor::eq_at(1, i, r);
        <u128 as Ring>::distributes(
            y,
            variant::weighted_sum(values, r, i),
            gf::gf128_mul(values[i as int], w),
        );
        <u128 as Ring>::commutes(y, gf::gf128_mul(values[i as int], w));
        <u128 as Ring>::associates(values[i as int], w, y);
    }
}

/// The upper corners take the share `x`.
proof fn lemma_upper(values: Seq<u128>, r: Seq<u128>, x: u128, k: nat)
    requires
        values.len() == 2 * pow2(r.len()),
        k <= pow2(r.len()),
    ensures
        variant::weighted_sum(values, r.push(x), pow2(r.len()) + k) == variant::weighted_sum(
            values,
            r.push(x),
            pow2(r.len()),
        ) ^ gf::gf128_mul(
            x,
            variant::weighted_sum(values.skip(pow2(r.len()) as int), r, k),
        ),
    decreases k,
{
    let half = pow2(r.len());
    let upper = values.skip(half as int);
    let low = variant::weighted_sum(values, r.push(x), half);
    <u128 as Ring>::units(x);
    <u128 as Ring>::sums(low, 0, 0, 0, 0, 0, 0, 0);
    if k > 0 {
        let i = (k - 1) as nat;
        lemma_upper(values, r, x, i);
        variant::lemma_high_bit(i, r.len());
        variant::lemma_low_bits(i, r.len(), r);
        assert(r.push(x).drop_last() =~= r);
        let w = tensor::eq_at(1, i, r);
        let v = values[(half + i) as int];
        let s = variant::weighted_sum(upper, r, i);
        assert(upper[i as int] == v);
        <u128 as Ring>::distributes(x, s, gf::gf128_mul(v, w));
        <u128 as Ring>::commutes(x, gf::gf128_mul(v, w));
        <u128 as Ring>::associates(v, w, x);
        <u128 as Ring>::sums(
            low,
            gf::gf128_mul(x, s),
            gf::gf128_mul(x, gf::gf128_mul(v, w)),
            0,
            0,
            0,
            0,
            0,
        );
    }
}

/// The polynomial is linear in its last variable: at `x` it is `1 - x` of the
/// lower half and `x` of the upper half.
pub proof fn law_extension_splits(values: Seq<u128>, r: Seq<u128>, x: u128)
    requires
        values.len() == 2 * pow2(r.len()),
    ensures
        variant::extension(values, r.push(x)) == gf::gf128_mul(
            1 ^ x,
            variant::extension(values.take(pow2(r.len()) as int), r),
        ) ^ gf::gf128_mul(x, variant::extension(values.skip(pow2(r.len()) as int), r)),
{
    let half = pow2(r.len());
    lemma_pow2_unfold(r.len() + 1);
    lemma_lower(values, r, x, half);
    lemma_upper(values, r, x, half);
    lemma_same_prefix(values, values.take(half as int), r, half);
}

/// The sum depends on the first values alone.
proof fn lemma_same_prefix(a: Seq<u128>, b: Seq<u128>, r: Seq<u128>, k: nat)
    requires
        k <= a.len(),
        k <= b.len(),
        forall|i: int| 0 <= i < k ==> a[i] == b[i],
    ensures
        variant::weighted_sum(a, r, k) == variant::weighted_sum(b, r, k),
    decreases k,
{
    if k > 0 {
        lemma_same_prefix(a, b, r, (k - 1) as nat);
    }
}

proof fn lemma_one_corner(v: u128, r: Seq<u128>)
    requires
        r.len() == 0,
    ensures
        variant::extension(seq![v], r) == v,
{
    lemma2_to64();
    let values = seq![v];
    <u128 as Ring>::units(v);
    <u128 as Ring>::sums(0, v, 0, 0, 0, 0, 0, 0);
    <u128 as Ring>::sums(v, 0, 0, 0, 0, 0, 0, 0);
    assert(variant::weighted_sum(values, r, 0) == 0);
    assert(variant::weighted_sum(values, r, 1) == variant::weighted_sum(values, r, 0)
        ^ gf::gf128_mul(values[0], tensor::eq_at(1, 0, r)));
}

/// A polynomial that is constant on the corners is constant everywhere.
pub proof fn law_extension_of_constant(values: Seq<u128>, c: u128, r: Seq<u128>)
    requires
        values.len() == pow2(r.len()),
        forall|i: int| 0 <= i < values.len() ==> #[trigger] values[i] == c,
    ensures
        variant::extension(values, r) == c,
    decreases r.len(),
{
    lemma2_to64();
    if r.len() == 0 {
        assert(values =~= seq![c]);
        lemma_one_corner(c, r);
    } else {
        let head = r.drop_last();
        let x = r.last();
        let half = pow2(head.len());
        lemma_pow2_unfold(r.len());
        assert(head.push(x) =~= r);
        law_extension_splits(values, head, x);
        law_extension_of_constant(values.take(half as int), c, head);
        law_extension_of_constant(values.skip(half as int), c, head);
        <u128 as Ring>::distributes(c, 1 ^ x, x);
        <u128 as Ring>::commutes(c, 1 ^ x);
        <u128 as Ring>::commutes(c, x);
        <u128 as Ring>::sums(1, x, x, 0, 0, 0, 0, 0);
        <u128 as Ring>::sums(x, x, 0, 0, 0, 0, 0, 0);
        <u128 as Ring>::units(c);
    }
}

/// On a corner of the cube, the polynomial has the value stored for it.
pub proof fn law_extension_extends(values: Seq<u128>, j: nat, n: nat)
    requires
        values.len() == pow2(n),
        j < pow2(n),
    ensures
        variant::extension(values, tensor::corner(j, n)) == values[j as int],
    decreases n,
{
    lemma2_to64();
    let r = tensor::corner(j, n);
    if n == 0 {
        assert(values =~= seq![values[0]]);
        lemma_one_corner(values[0], r);
    } else {
        let m = (n - 1) as nat;
        let half = pow2(m);
        lemma_pow2_unfold(n);
        lemma_pow2_pos(m);
        let head = tensor::corner(j, m);
        let b = bits::bit(j, m) as u128;
        assert(r =~= head.push(b));
        law_extension_splits(values, head, b);
        let (lower, upper) = (values.take(half as int), values.skip(half as int));
        let (e0, e1) = (variant::extension(lower, head), variant::extension(upper, head));
        <u128 as Ring>::units(e0);
        <u128 as Ring>::units(e1);
        <u128 as Ring>::commutes(0, e0);
        <u128 as Ring>::commutes(1, e0);
        <u128 as Ring>::commutes(0, e1);
        <u128 as Ring>::commutes(1, e1);
        <u128 as Ring>::sums(1, 0, 0, 0, 0, 0, 0, 0);
        <u128 as Ring>::sums(e0, 0, 0, 0, 0, 0, 0, 0);
        <u128 as Ring>::sums(0, e1, 0, 0, 0, 0, 0, 0);
        <u128 as Ring>::sums(e1, 0, 0, 0, 0, 0, 0, 0);
        if j < half {
            variant::lemma_high_bit(j, m);
            law_extension_extends(lower, j, m);
        } else {
            let k = (j - half) as nat;
            variant::lemma_high_bit(k, m);
            lemma_corner_low(k, m);
            law_extension_extends(upper, k, m);
        }
    }
}

/// A high bit does not change the low coordinates of a corner.
proof fn lemma_corner_low(k: nat, m: nat)
    ensures
        tensor::corner(pow2(m) + k, m) == tensor::corner(k, m),
{
    assert forall|i: int| 0 <= i < m implies #[trigger] tensor::corner(pow2(m) + k, m)[i]
        == tensor::corner(k, m)[i] by {
        let j = i as nat;
        let rest = (m - j - 1) as nat;
        lemma_pow2_adds(j + 1, rest);
        lemma_pow2_unfold(j + 1);
        lemma_pow2_pos(j);
        let p = pow2(j) as int;
        let q = pow2(rest) as int;
        assert(pow2(m) + k == (2 * q) * p + k) by (nonlinear_arith)
            requires
                pow2(m) == (2 * p) * q,
        ;
        vstd::arithmetic::div_mod::lemma_hoist_over_denominator(k as int, 2 * q, p as nat);
        assert((k as int / p + 2 * q) % 2 == (k as int / p) % 2);
    }
    assert(tensor::corner(pow2(m) + k, m) =~= tensor::corner(k, m));
}

} // verus!
