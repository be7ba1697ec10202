//! Interpolation gives a polynomial of low degree, and the only one.

use vstd::prelude::*;

use super::univariate;
use super::univariate::MAX_POINTS;
use crate::atoms::int_laws;
use crate::field::gf;
use crate::field::laws;
use crate::field::laws::Ring;
use crate::field::Block128;

verus! {

/// `Σ coeffs[i] · z^i`.
pub open spec fn poly_value(coeffs: Seq<u128>, z: u128) -> u128
    decreases coeffs.len(),
{
    if coeffs.len() == 0 {
        0
    } else {
        coeffs[0] ^ gf::gf128_mul(z, poly_value(coeffs.skip(1), z))
    }
}

/// `coeffs` has these values at `0, 1, 2, ...`.
pub open spec fn passes_through(coeffs: Seq<u128>, evals: Seq<Block128>) -> bool {
    forall|i: nat|
        i < evals.len() ==> #[trigger] poly_value(coeffs, i as u128) == evals[i as int].0
}

proof fn lemma_xors(a: u128, b: u128, c: u128, d: u128)
    ensures
        (a ^ b) ^ (a ^ c) == b ^ c,
        (a ^ b) ^ (c ^ d) == (a ^ c) ^ (b ^ d),
        (a ^ b) ^ c == a ^ (b ^ c),
        (a ^ b) ^ (b ^ c) == a ^ c,
{
    assert((a ^ b) ^ (a ^ c) == b ^ c && (a ^ b) ^ (c ^ d) == (a ^ c) ^ (b ^ d) && (a ^ b) ^ c == a
        ^ (b ^ c) && (a ^ b) ^ (b ^ c) == a ^ c) by (bit_vector);
}

/// `(a + b) · c = a · c + b · c`.
pub proof fn lemma_distributes(a: u128, b: u128, c: u128)
    ensures
        gf::gf128_mul(a ^ b, c) == gf::gf128_mul(a, c) ^ gf::gf128_mul(b, c),
        gf::gf128_mul(c, a ^ b) == gf::gf128_mul(c, a) ^ gf::gf128_mul(c, b),
{
    <u128 as Ring>::distributes(c, a, b);
    <u128 as Ring>::commutes(a ^ b, c);
    <u128 as Ring>::commutes(a, c);
    <u128 as Ring>::commutes(b, c);
}

// ---------------------------------------------------------------
// Arithmetic of coefficients
// ---------------------------------------------------------------

/// The sum of two polynomials.
pub open spec fn summed(c: Seq<u128>, d: Seq<u128>) -> Seq<u128> {
    Seq::new(c.len(), |i: int| c[i] ^ d[i])
}

/// A multiple of a polynomial.
pub open spec fn scaled(c: Seq<u128>, s: u128) -> Seq<u128> {
    Seq::new(c.len(), |i: int| gf::gf128_mul(s, c[i]))
}

/// `(z + a) · c`.
spec fn times_linear(c: Seq<u128>, a: u128) -> Seq<u128>
    decreases c.len(),
{
    if c.len() == 0 {
        seq![0u128]
    } else {
        let rest = times_linear(c.skip(1), a);
        seq![gf::gf128_mul(a, c[0])] + rest.update(0, rest[0] ^ c[0])
    }
}

/// What `c` without its value at `a` is, divided by `z + a`.
spec fn quotient(c: Seq<u128>, a: u128) -> Seq<u128>
    decreases c.len(),
{
    if c.len() <= 1 {
        Seq::empty()
    } else {
        seq![poly_value(c.skip(1), a)] + quotient(c.skip(1), a)
    }
}

/// The sum of two polynomials is a polynomial.
pub proof fn lemma_summed(c: Seq<u128>, d: Seq<u128>, z: u128)
    requires
        c.len() == d.len(),
    ensures
        poly_value(summed(c, d), z) == poly_value(c, z) ^ poly_value(d, z),
    decreases c.len(),
{
    if c.len() > 0 {
        let (s, t) = (c.skip(1), d.skip(1));
        lemma_summed(s, t, z);
        assert(summed(c, d).skip(1) =~= summed(s, t));
        let (x, y) = (poly_value(s, z), poly_value(t, z));
        lemma_distributes(x, y, z);
        lemma_xors(c[0], d[0], gf::gf128_mul(z, x), gf::gf128_mul(z, y));
    } else {
        int_laws::lemma_xor(0, 0);
    }
}

/// A multiple of a polynomial is a polynomial.
pub proof fn lemma_scaled(c: Seq<u128>, s: u128, z: u128)
    ensures
        poly_value(scaled(c, s), z) == gf::gf128_mul(s, poly_value(c, z)),
    decreases c.len(),
{
    <u128 as Ring>::units(s);
    if c.len() > 0 {
        let t = c.skip(1);
        lemma_scaled(t, s, z);
        assert(scaled(c, s).skip(1) =~= scaled(t, s));
        let x = poly_value(t, z);
        lemma_distributes(c[0], gf::gf128_mul(z, x), s);
        <u128 as Ring>::associates(z, s, x);
        <u128 as Ring>::associates(s, z, x);
        <u128 as Ring>::commutes(z, s);
    }
}

proof fn lemma_times_linear(c: Seq<u128>, a: u128, z: u128)
    ensures
        times_linear(c, a).len() == c.len() + 1,
        poly_value(times_linear(c, a), z) == gf::gf128_mul(z ^ a, poly_value(c, z)),
    decreases c.len(),
{
    let all = times_linear(c, a);
    <u128 as Ring>::units(z ^ a);
    <u128 as Ring>::units(z);
    if c.len() == 0 {
        assert(all.skip(1) =~= Seq::<u128>::empty());
        assert(poly_value(all.skip(1), z) == 0);
        int_laws::lemma_xor(0, 0);
    } else {
        let t = c.skip(1);
        let rest = times_linear(t, a);
        lemma_times_linear(t, a, z);
        let lifted = rest.update(0, rest[0] ^ c[0]);
        assert(all.skip(1) =~= lifted);
        assert(lifted.skip(1) =~= rest.skip(1));
        let (x, y) = (poly_value(t, z), gf::gf128_mul(z, poly_value(rest.skip(1), z)));
        // The lifted rest is c_0 more than the rest.
        lemma_xors(rest[0], c[0], y, 0);
        lemma_xors(rest[0], y, c[0], 0);
        int_laws::lemma_xor(c[0], y);
        let w = gf::gf128_mul(z ^ a, x);
        assert(poly_value(rest, z) == rest[0] ^ y);
        assert(poly_value(lifted, z) == (rest[0] ^ c[0]) ^ y);
        assert(poly_value(lifted, z) == w ^ c[0]);
        // a·c_0 + z·((z + a)·x + c_0) = (z + a)·(c_0 + z·x)
        let zx = gf::gf128_mul(z, x);
        lemma_distributes(w, c[0], z);
        lemma_distributes(c[0], zx, z ^ a);
        lemma_distributes(z, a, c[0]);
        <u128 as Ring>::associates(z, z ^ a, x);
        <u128 as Ring>::associates(z ^ a, z, x);
        <u128 as Ring>::commutes(z, z ^ a);
        let (p, q, r) = (
            gf::gf128_mul(a, c[0]),
            gf::gf128_mul(z, c[0]),
            gf::gf128_mul(z, w),
        );
        assert(poly_value(all, z) == p ^ (r ^ q));
        int_laws::lemma_xor(r, q);
        lemma_xors(p, q, r, 0);
        int_laws::lemma_xor(p, q);
        assert(gf::gf128_mul(z ^ a, zx) == r);
        assert(gf::gf128_mul(z ^ a, poly_value(c, z)) == (q ^ p) ^ r);
    }
}

/// `c(z) + c(a) = (z + a) · quotient(z)`.
proof fn lemma_quotient(c: Seq<u128>, a: u128, z: u128)
    ensures
        c.len() > 0 ==> quotient(c, a).len() == c.len() - 1,
        poly_value(c, z) ^ poly_value(c, a) == gf::gf128_mul(
            z ^ a,
            poly_value(quotient(c, a), z),
        ),
    decreases c.len(),
{
    <u128 as Ring>::units(z ^ a);
    <u128 as Ring>::units(z);
    <u128 as Ring>::units(a);
    int_laws::lemma_xor(poly_value(c, z), poly_value(c, a));
    if c.len() == 0 {
    } else {
        let t = c.skip(1);
        let (x, y) = (poly_value(t, z), poly_value(t, a));
        let (zx, ay, zy) = (gf::gf128_mul(z, x), gf::gf128_mul(a, y), gf::gf128_mul(z, y));
        lemma_xors(c[0], zx, ay, 0);
        if c.len() == 1 {
            assert(x == 0 && y == 0);
        } else {
            lemma_quotient(t, a, z);
            let q = quotient(t, a);
            let all = quotient(c, a);
            assert(all.skip(1) =~= q);
            let v = poly_value(q, z);
            // z·x + a·y = z·(x + y) + (z + a)·y
            lemma_distributes(x, y, z);
            lemma_distributes(z, a, y);
            lemma_xors(zx, zy, ay, 0);
            let f = z ^ a;
            let zv = gf::gf128_mul(z, v);
            lemma_distributes(y, zv, f);
            <u128 as Ring>::associates(z, f, v);
            <u128 as Ring>::associates(f, z, v);
            <u128 as Ring>::commutes(z, f);
            let (p, r) = (gf::gf128_mul(f, y), gf::gf128_mul(z, gf::gf128_mul(f, v)));
            assert(r == zx ^ zy);
            assert(p == zy ^ ay);
            int_laws::lemma_xor(p, r);
            assert(poly_value(all, z) == y ^ zv);
        }
    }
}

/// A polynomial with as many roots as coefficients is zero.
proof fn lemma_too_many_roots(c: Seq<u128>, z: u128)
    requires
        c.len() <= MAX_POINTS,
        forall|i: nat| i < c.len() ==> #[trigger] poly_value(c, i as u128) == 0,
    ensures
        poly_value(c, z) == 0,
    decreases c.len(),
{
    if c.len() > 0 {
        let k = (c.len() - 1) as nat;
        let a = k as u128;
        let q = quotient(c, a);
        assert(poly_value(c, k as u128) == 0);
        assert forall|i: nat| i < q.len() implies #[trigger] poly_value(q, i as u128) == 0 by {
            lemma_quotient(c, a, i as u128);
            assert(poly_value(c, i as u128) == 0);
            int_laws::lemma_xor(0, 0);
            int_laws::lemma_xor(i as u128, a);
            laws::law_no_zero_divisors::<u128>((i as u128) ^ a, poly_value(q, i as u128));
        }
        lemma_quotient(c, a, z);
        lemma_too_many_roots(q, z);
        <u128 as Ring>::units(z ^ a);
        int_laws::lemma_xor(poly_value(c, z), 0);
    }
}

// ---------------------------------------------------------------
// The interpolation as a polynomial
// ---------------------------------------------------------------

/// The coefficients of [`others`](univariate::others).
spec fn others_poly(i: int, k: nat) -> Seq<u128>
    decreases k,
{
    if k == 0 {
        seq![1u128]
    } else if k - 1 == i {
        others_poly(i, (k - 1) as nat)
    } else {
        times_linear(others_poly(i, (k - 1) as nat), (k - 1) as u128)
    }
}

/// The coefficients of [`basis_sum`](univariate::basis_sum).
spec fn sum_poly(evals: Seq<Block128>, k: nat) -> Seq<u128>
    decreases k,
{
    let n = evals.len();
    if k == 0 {
        Seq::new(n, |i: int| 0u128)
    } else {
        let i = k - 1;
        summed(
            sum_poly(evals, i as nat),
            scaled(
                others_poly(i, n),
                gf::gf128_mul(
                    evals[i].0,
                    gf::gf128_inv(univariate::others(i as u128, i, n)),
                ),
            ),
        )
    }
}

proof fn lemma_others_poly(i: int, k: nat, z: u128)
    ensures
        others_poly(i, k).len() == (if 0 <= i < k {
            k
        } else {
            k + 1
        }),
        poly_value(others_poly(i, k), z) == univariate::others(z, i, k),
    decreases k,
{
    if k == 0 {
        let c = seq![1u128];
        assert(c.skip(1) =~= Seq::<u128>::empty());
        assert(poly_value(c.skip(1), z) == 0);
        <u128 as Ring>::units(z);
        int_laws::lemma_xor(1, 0);
    } else {
        lemma_others_poly(i, (k - 1) as nat, z);
        if k - 1 != i {
            let a = (k - 1) as u128;
            lemma_times_linear(others_poly(i, (k - 1) as nat), a, z);
            <u128 as Ring>::commutes(z ^ a, univariate::others(z, i, (k - 1) as nat));
        }
    }
}

proof fn lemma_zero_poly(n: nat, z: u128)
    ensures
        poly_value(Seq::new(n, |i: int| 0u128), z) == 0,
    decreases n,
{
    if n > 0 {
        let c = Seq::new(n, |i: int| 0u128);
        assert(c.skip(1) =~= Seq::new((n - 1) as nat, |i: int| 0u128));
        lemma_zero_poly((n - 1) as nat, z);
        <u128 as Ring>::units(z);
        int_laws::lemma_xor(0, 0);
    }
}

proof fn lemma_sum_poly(evals: Seq<Block128>, k: nat, z: u128)
    requires
        k <= evals.len(),
    ensures
        sum_poly(evals, k).len() == evals.len(),
        poly_value(sum_poly(evals, k), z) == univariate::basis_sum(evals, z, k),
    decreases k,
{
    let n = evals.len();
    if k == 0 {
        lemma_zero_poly(n, z);
    } else {
        let i = k - 1;
        let e = evals[i].0;
        let inv = gf::gf128_inv(univariate::others(i as u128, i, n));
        let s = gf::gf128_mul(e, inv);
        let (c, d) = (sum_poly(evals, i as nat), scaled(others_poly(i, n), s));
        lemma_sum_poly(evals, i as nat, z);
        lemma_others_poly(i, n, z);
        lemma_scaled(others_poly(i, n), s, z);
        lemma_summed(c, d, z);
        let o = univariate::others(z, i, n);
        <u128 as Ring>::associates(e, inv, o);
        <u128 as Ring>::commutes(inv, o);
    }
}

/// The interpolation of `k` values is a polynomial with `k` coefficients, so of
/// degree below `k`, and it passes through the values.
pub proof fn law_interpolation_is_a_polynomial(evals: Seq<Block128>) -> (coeffs: Seq<u128>)
    requires
        evals.len() <= MAX_POINTS,
    ensures
        coeffs.len() == evals.len(),
        forall|z: u128| #[trigger]
            poly_value(coeffs, z) == univariate::interpolated(evals, z),
        passes_through(coeffs, evals),
{
    let c = sum_poly(evals, evals.len());
    assert forall|z: u128| #[trigger]
        poly_value(c, z) == univariate::interpolated(evals, z) by {
        lemma_sum_poly(evals, evals.len(), z);
    }
    lemma_sum_poly(evals, evals.len(), 0);
    assert forall|i: nat| i < evals.len() implies #[trigger] poly_value(c, i as u128)
        == evals[i as int].0 by {
        univariate::law_interpolation(evals, i);
    }
    c
}

/// A polynomial of degree below `k` with the same `k` values is the
/// interpolation.
pub proof fn law_interpolation_is_unique(evals: Seq<Block128>, coeffs: Seq<u128>, z: u128)
    requires
        evals.len() <= MAX_POINTS,
        coeffs.len() == evals.len(),
        passes_through(coeffs, evals),
    ensures
        poly_value(coeffs, z) == univariate::interpolated(evals, z),
{
    let c = law_interpolation_is_a_polynomial(evals);
    let diff = summed(coeffs, c);
    assert forall|i: nat| i < diff.len() implies #[trigger] poly_value(diff, i as u128) == 0 by {
        lemma_summed(coeffs, c, i as u128);
        assert(poly_value(coeffs, i as u128) == evals[i as int].0);
        assert(poly_value(c, i as u128) == evals[i as int].0);
        int_laws::lemma_xor(poly_value(coeffs, i as u128), poly_value(c, i as u128));
    }
    lemma_too_many_roots(diff, z);
    lemma_summed(coeffs, c, z);
    int_laws::lemma_xor(poly_value(coeffs, z), poly_value(c, z));
}

} // verus!
