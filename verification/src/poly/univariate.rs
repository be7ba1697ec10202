//! Univariate polynomials, given by their values.

use vstd::prelude::*;

use crate::atoms::int_laws;
use crate::field::elements;
use crate::field::gf;
use crate::field::laws;
use crate::field::laws::Ring;
use crate::field::{Block128, Flat};

verus! {

/// The most values that a polynomial can be evaluated from.
pub const MAX_POINTS: usize = 16;

// ---------------------------------------------------------------
// Interpolation
// ---------------------------------------------------------------

/// `Π (z - j)` over `j < k` other than `i`.
pub open spec fn others(z: u128, i: int, k: nat) -> u128
    decreases k,
{
    if k == 0 {
        1
    } else if k - 1 == i {
        others(z, i, (k - 1) as nat)
    } else {
        gf::gf128_mul(others(z, i, (k - 1) as nat), z ^ ((k - 1) as u128))
    }
}

/// The polynomial that is one at `i` and zero at the other points below `n`,
/// at `z`.
pub open spec fn basis(z: u128, i: int, n: nat) -> u128 {
    gf::gf128_mul(others(z, i, n), gf::gf128_inv(others(i as u128, i, n)))
}

/// `Σ evals[i] · basis(z, i)` over `i < k`.
pub open spec fn basis_sum(evals: Seq<Block128>, z: u128, k: nat) -> u128
    decreases k,
{
    if k == 0 {
        0
    } else {
        basis_sum(evals, z, (k - 1) as nat) ^ gf::gf128_mul(
            evals[k - 1].0,
            basis(z, k - 1, evals.len()),
        )
    }
}

/// The polynomial of least degree with these values at `0, 1, 2, ...`, at `z`.
pub open spec fn interpolated(evals: Seq<Block128>, z: u128) -> u128 {
    basis_sum(evals, z, evals.len())
}

/// A polynomial, carried as its values at `0, 1, ..., degree`.
#[derive(Clone, Debug)]
pub struct UnivariatePoly {
    pub evals: Vec<Block128>,
}

/// The product over the other points is zero only at one of them.
proof fn lemma_others_nonzero(z: u128, i: int, k: nat)
    requires
        forall|j: nat| j < k && j != i ==> z != #[trigger] (j as u128),
        k <= MAX_POINTS,
    ensures
        others(z, i, k) != 0,
    decreases k,
{
    if k > 0 {
        let j = (k - 1) as nat;
        lemma_others_nonzero(z, i, j);
        if j != i {
            assert(z != j as u128);
            int_laws::lemma_xor(z, j as u128);
            laws::law_inverse_of_product(others(z, i, j), z ^ (j as u128));
        }
    }
}

/// The product over the other points is zero at one of them.
proof fn lemma_others_zero(z: u128, i: int, k: nat, j: nat)
    requires
        j < k <= MAX_POINTS,
        j != i,
        z == j,
    ensures
        others(z, i, k) == 0,
    decreases k,
{
    let m = (k - 1) as nat;
    if m == j {
        int_laws::lemma_xor(z, m as u128);
        <u128 as Ring>::units(others(z, i, m));
    } else {
        lemma_others_zero(z, i, m, j);
        if m != i {
            <u128 as Ring>::units(z ^ (m as u128));
            <u128 as Ring>::commutes(0, z ^ (m as u128));
        }
    }
}

/// The product over all points is the factor of `i` times that over the
/// others.
proof fn lemma_all_points(z: u128, i: nat, k: nat)
    requires
        i < k,
    ensures
        others(z, -1, k) == gf::gf128_mul(z ^ (i as u128), others(z, i as int, k)),
    decreases k,
{
    let m = (k - 1) as nat;
    let (f, g) = (z ^ (i as u128), z ^ (m as u128));
    if m == i {
        lemma_no_others(z, i, m);
        <u128 as Ring>::commutes(f, others(z, -1, m));
    } else {
        lemma_all_points(z, i, m);
        <u128 as Ring>::associates(f, others(z, i as int, m), g);
    }
}

/// Excluding a point that is not there changes nothing.
proof fn lemma_no_others(z: u128, i: nat, k: nat)
    requires
        k <= i,
    ensures
        others(z, i as int, k) == others(z, -1, k),
    decreases k,
{
    if k > 0 {
        lemma_no_others(z, i, (k - 1) as nat);
    }
}

/// At a point, its basis polynomial is one and the others are zero.
proof fn lemma_basis_at_point(i: nat, j: nat, n: nat)
    requires
        i < n <= MAX_POINTS,
        j < n,
    ensures
        basis(i as u128, j as int, n) == (if i == j {
            1u128
        } else {
            0u128
        }),
{
    if i == j {
        assert forall|t: nat| t < n && t != i implies i as u128 != #[trigger] (t as u128) by {}
        lemma_others_nonzero(i as u128, i as int, n);
        laws::law_inverse(others(i as u128, i as int, n));
    } else {
        lemma_others_zero(i as u128, j as int, n, i);
        let d = gf::gf128_inv(others(j as u128, j as int, n));
        <u128 as Ring>::units(d);
        <u128 as Ring>::commutes(0, d);
    }
}

proof fn lemma_sum_at_point(evals: Seq<Block128>, i: nat, k: nat)
    requires
        i < evals.len() <= MAX_POINTS,
        k <= evals.len(),
    ensures
        basis_sum(evals, i as u128, k) == (if i < k {
            evals[i as int].0
        } else {
            0u128
        }),
    decreases k,
{
    if k > 0 {
        let j = (k - 1) as nat;
        lemma_sum_at_point(evals, i, j);
        lemma_basis_at_point(i, j, evals.len());
        let e = evals[j as int].0;
        <u128 as Ring>::units(e);
        int_laws::lemma_xor(0, e);
        int_laws::lemma_xor(basis_sum(evals, i as u128, j), 0);
    }
}

/// The polynomial has its values at its points.
pub proof fn law_interpolation(evals: Seq<Block128>, i: nat)
    requires
        i < evals.len() <= MAX_POINTS,
    ensures
        interpolated(evals, i as u128) == evals[i as int].0,
{
    lemma_sum_at_point(evals, i, evals.len());
}

/// A polynomial with one value is constant.
pub proof fn law_one_value(e: Block128, z: u128)
    ensures
        interpolated(seq![e], z) == e.0,
{
    let evals = seq![e];
    assert(others(z, 0, 0) == 1);
    assert(others(0, 0, 0) == 1);
    assert(others(z, 0, 1) == 1);
    assert(others(0, 0, 1) == 1);
    <u128 as Ring>::units(1);
    laws::law_inverse_is_unique(1, 1);
    <u128 as Ring>::units(e.0);
    int_laws::lemma_xor(0, e.0);
    assert(basis_sum(evals, z, 0) == 0);
    assert(basis_sum(evals, z, 1) == basis_sum(evals, z, 0) ^ gf::gf128_mul(
        evals[0].0,
        basis(z, 0, 1),
    ));
}

// ---------------------------------------------------------------
// Evaluation
// ---------------------------------------------------------------

/// `Π v_j` over `j < n`.
spec fn product(v: Seq<Block128>, n: nat) -> u128
    decreases n,
{
    if n == 0 {
        1
    } else {
        gf::gf128_mul(product(v, (n - 1) as nat), v[n - 1].0)
    }
}

proof fn lemma_product_nonzero(v: Seq<Block128>, n: nat)
    requires
        n <= v.len(),
        forall|j: int| 0 <= j < v.len() ==> (#[trigger] v[j]).0 != 0,
    ensures
        product(v, n) != 0,
    decreases n,
{
    if n > 0 {
        lemma_product_nonzero(v, (n - 1) as nat);
        laws::law_inverse_of_product(product(v, (n - 1) as nat), v[n - 1].0);
    }
}

/// One step of inverting many elements with one inversion.
proof fn lemma_batch_step(p: u128, v: u128)
    requires
        p != 0,
        v != 0,
    ensures
        gf::gf128_mul(p, gf::gf128_inv(gf::gf128_mul(p, v))) == gf::gf128_inv(v),
        gf::gf128_mul(gf::gf128_inv(gf::gf128_mul(p, v)), v) == gf::gf128_inv(p),
{
    let (a, b) = (gf::gf128_inv(p), gf::gf128_inv(v));
    laws::law_inverse(p);
    laws::law_inverse(v);
    laws::law_inverse_of_product(p, v);
    <u128 as Ring>::associates(p, a, b);
    <u128 as Ring>::commutes(1, b);
    <u128 as Ring>::units(b);
    <u128 as Ring>::associates(a, b, v);
    <u128 as Ring>::units(a);
}

/// A term of the barycentric sum is a term of the interpolation.
proof fn lemma_term(e: u128, z: u128, i: nat, n: nat)
    requires
        i < n <= MAX_POINTS,
        forall|j: nat| j < n ==> z != #[trigger] (j as u128),
    ensures
        ({
            let v = gf::gf128_mul(z ^ (i as u128), others(i as u128, i as int, n));
            gf::gf128_mul(gf::gf128_mul(e, others(z, -1, n)), gf::gf128_inv(v))
        }) == gf::gf128_mul(e, basis(z, i as int, n)),
{
    let f = z ^ (i as u128);
    let den = others(i as u128, i as int, n);
    let num = others(z, i as int, n);
    assert(z != i as u128);
    int_laws::lemma_xor(z, i as u128);
    assert forall|t: nat| t < n && t != i implies i as u128 != #[trigger] (t as u128) by {}
    lemma_others_nonzero(i as u128, i as int, n);
    lemma_all_points(z, i, n);
    laws::law_inverse(f);
    laws::law_inverse_of_product(f, den);
    let (a, b) = (gf::gf128_inv(f), gf::gf128_inv(den));
    // (e·(f·num))·(a·b) = e·((f·num)·(a·b)) and (f·num)·(a·b) = num·b
    let all = gf::gf128_mul(f, num);
    <u128 as Ring>::associates(e, all, gf::gf128_mul(a, b));
    <u128 as Ring>::commutes(f, num);
    <u128 as Ring>::associates(num, f, gf::gf128_mul(a, b));
    <u128 as Ring>::associates(f, a, b);
    <u128 as Ring>::commutes(1, b);
    <u128 as Ring>::units(b);
}

impl UnivariatePoly {
    pub fn new(evals: Vec<Block128>) -> (r: Self)
        ensures
            r.evals == evals,
    {
        UnivariatePoly { evals }
    }

    /// `Π (i - j)` over the other points.
    fn denominator(i: usize, k: usize) -> (r: Block128)
        requires
            k <= MAX_POINTS,
            i < k,
        ensures
            r.0 == others(i as u128, i as int, k as nat),
    {
        let xi = Block128(i as u128);
        let mut den = Block128(1);
        let mut j: usize = 0;
        while j < k
            invariant
                j <= k <= MAX_POINTS,
                xi.0 == i,
                den.0 == others(i as u128, i as int, j as nat),
            decreases k - j,
        {
            if i != j {
                den = den.times(xi.plus(Block128(j as u128)));
            }
            j = j + 1;
        }
        den
    }

    /// Inverts every element with one inversion.
    fn invert_all(v: &Vec<Block128>) -> (r: Vec<Block128>)
        requires
            forall|j: int| 0 <= j < v@.len() ==> (#[trigger] v@[j]).0 != 0,
        ensures
            r@.len() == v@.len(),
            forall|j: int|
                0 <= j < v@.len() ==> (#[trigger] r@[j]).0 == gf::gf128_inv(v@[j].0),
    {
        let k: usize = v.len();
        let mut out: Vec<Block128> = Vec::new();
        let mut acc = Block128(1);
        let mut i: usize = 0;
        while i < k
            invariant
                i <= k,
                k == v@.len(),
                out@.len() == i,
                acc.0 == product(v@, i as nat),
                forall|j: int| 0 <= j < i ==> (#[trigger] out@[j]).0 == product(v@, j as nat),
            decreases k - i,
        {
            out.push(acc);
            acc = acc.times(v[i]);
            i = i + 1;
        }
        let mut acc_inv = acc.invert();
        proof {
            lemma_product_nonzero(v@, k as nat);
            laws::law_inverse_is_unique(acc.0, acc_inv.0);
        }
        while i > 0
            invariant
                i <= k,
                k == v@.len(),
                out@.len() == k,
                acc_inv.0 == gf::gf128_inv(product(v@, i as nat)),
                forall|j: int| 0 <= j < v@.len() ==> (#[trigger] v@[j]).0 != 0,
                forall|j: int| 0 <= j < i ==> (#[trigger] out@[j]).0 == product(v@, j as nat),
                forall|j: int|
                    i <= j < k ==> (#[trigger] out@[j]).0 == gf::gf128_inv(v@[j].0),
            decreases i,
        {
            i = i - 1;
            proof {
                lemma_product_nonzero(v@, i as nat);
                assert(v@[i as int].0 != 0);
                lemma_batch_step(product(v@, i as nat), v@[i as int].0);
                assert(out@[i as int].0 == product(v@, i as nat));
            }
            let inv = out[i].times(acc_inv);
            acc_inv = acc_inv.times(v[i]);
            out[i] = inv;
        }
        out
    }

    /// Evaluates at any point, by barycentric interpolation.
    pub fn evaluate(&self, z: Block128) -> (r: Block128)
        requires
            self.evals@.len() <= MAX_POINTS,
        ensures
            r.0 == interpolated(self.evals@, z.0),
    {
        let k: usize = self.evals.len();
        if k == 0 {
            return Block128(0);
        }
        if k == 1 {
            proof {
                assert(self.evals@ =~= seq![self.evals@[0]]);
                law_one_value(self.evals@[0], z.0);
            }
            return self.evals[0];
        }
        let mut z_prod = Block128(1);
        let mut v_vals: Vec<Block128> = Vec::new();
        let mut i: usize = 0;
        while i < k
            invariant
                i <= k <= MAX_POINTS,
                k == self.evals@.len(),
                v_vals@.len() == i,
                z_prod.0 == others(z.0, -1, i as nat),
                forall|j: nat| j < i ==> z.0 != #[trigger] (j as u128),
                forall|j: int|
                    0 <= j < i ==> (#[trigger] v_vals@[j]).0 == gf::gf128_mul(
                        z.0 ^ (j as u128),
                        others(j as u128, j, k as nat),
                    ) && v_vals@[j].0 != 0,
            decreases k - i,
        {
            let xi = Block128(i as u128);
            if z.0 == xi.0 {
                proof {
                    law_interpolation(self.evals@, i as nat);
                }
                return self.evals[i];
            }
            let diff = z.plus(xi);
            z_prod = z_prod.times(diff);
            let den = Self::denominator(i, k);
            proof {
                int_laws::lemma_xor(z.0, i as u128);
                assert forall|t: nat| t < k && t != i implies i as u128 != #[trigger] (t as u128) by {}
                lemma_others_nonzero(i as u128, i as int, k as nat);
                laws::law_inverse_of_product(diff.0, den.0);
            }
            v_vals.push(diff.times(den));
            i = i + 1;
        }
        let inverses: Vec<Block128> = Self::invert_all(&v_vals);
        let mut result = Block128(0);
        let mut t: usize = 0;
        while t < k
            invariant
                t <= k <= MAX_POINTS,
                k == self.evals@.len(),
                inverses@.len() == k,
                v_vals@.len() == k,
                z_prod.0 == others(z.0, -1, k as nat),
                forall|j: nat| j < k ==> z.0 != #[trigger] (j as u128),
                forall|j: int|
                    0 <= j < k ==> (#[trigger] v_vals@[j]).0 == gf::gf128_mul(
                        z.0 ^ (j as u128),
                        others(j as u128, j, k as nat),
                    ),
                forall|j: int|
                    0 <= j < k ==> (#[trigger] inverses@[j]).0 == gf::gf128_inv(v_vals@[j].0),
                result.0 == basis_sum(self.evals@, z.0, t as nat),
            decreases k - t,
        {
            proof {
                assert(inverses@[t as int].0 == gf::gf128_inv(v_vals@[t as int].0));
                lemma_term(self.evals@[t as int].0, z.0, t as nat, k as nat);
            }
            result = result.plus(self.evals[t].times(z_prod).times(inverses[t]));
            t = t + 1;
        }
        result
    }

    /// Evaluates at a point in the flat basis.
    pub fn evaluate_hw(&self, z_hw: Flat<Block128>) -> (r: Flat<Block128>)
        requires
            0 < self.evals@.len() <= MAX_POINTS,
        ensures
            r@ == interpolated(self.evals@, z_hw@),
            r.0.0 == elements::flat128(interpolated(self.evals@, z_hw@)),
    {
        self.evaluate(z_hw.to_tower()).to_hardware()
    }
}

} // verus!
