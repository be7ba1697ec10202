//! The equality polynomial, held as its point.

use vstd::prelude::*;

use crate::bits;
use crate::errors;
use crate::field::gf;
use crate::field::laws::Ring;
use crate::field::{Block128, Flat};
use crate::poly::variant;
use crate::wipe;

verus! {

/// The field elements that flat elements stand for.
pub open spec fn values(s: Seq<Flat<Block128>>) -> Seq<u128> {
    s.map_values(|x: Flat<Block128>| x@)
}

/// `(1 - x)(1 - r) + x·r`.
pub open spec fn eq_term(x: u128, r: u128) -> u128 {
    gf::gf128_mul(1 ^ x, 1 ^ r) ^ gf::gf128_mul(x, r)
}

/// `scale · Π eq_term(x_i, r_i)`.
pub open spec fn eq_product(scale: u128, x: Seq<u128>, r: Seq<u128>) -> u128
    decreases r.len(),
{
    if r.len() == 0 {
        scale
    } else {
        gf::gf128_mul(
            eq_product(scale, x.drop_last(), r.drop_last()),
            eq_term(x.last(), r.last()),
        )
    }
}

/// `r` where the bit is set, `1 - r` elsewhere.
pub open spec fn chosen(bit: nat, r: u128) -> u128 {
    if bit == 1 {
        r
    } else {
        1 ^ r
    }
}

/// `scale · Π (r_i or 1 - r_i)`, by the bits of an index, the lowest first.
pub open spec fn eq_at(scale: u128, index: nat, r: Seq<u128>) -> u128
    decreases r.len(),
{
    if r.len() == 0 {
        scale
    } else {
        gf::gf128_mul(
            eq_at(scale, index, r.drop_last()),
            chosen(bits::bit(index, (r.len() - 1) as nat), r.last()),
        )
    }
}

/// `scale · Eq(x, r)` as a polynomial in `x`, held lazily.
#[derive(Clone, Debug)]
pub struct TensorProduct {
    /// The remaining coordinates of `r`; folding drops the first.
    pub r_coords: Vec<Flat<Block128>>,
    /// What folding has accumulated.
    pub current_scale: Flat<Block128>,
}

/// The factor of one coordinate.
fn term(x: Flat<Block128>, r: Flat<Block128>) -> (t: Flat<Block128>)
    ensures
        t@ == eq_term(x@, r@),
{
    let one = Flat::<Block128>::one();
    let term_0 = one.plus(x).times(one.plus(r));
    let term_1 = x.times(r);
    term_0.plus(term_1)
}

/// `start · Π eq_term(x_i, r_i)`.
fn product(start: Flat<Block128>, x: &[Flat<Block128>], r: &[Flat<Block128>]) -> (t: Flat<
    Block128,
>)
    requires
        x@.len() == r@.len(),
    ensures
        t@ == eq_product(start@, values(x@), values(r@)),
{
    let mut res = start;
    let mut i: usize = 0;
    let ghost (xs, rs) = (values(x@), values(r@));
    while i < r.len()
        invariant
            i <= r@.len(),
            x@.len() == r@.len(),
            xs == values(x@),
            rs == values(r@),
            res@ == eq_product(start@, xs.take(i as int), rs.take(i as int)),
        decreases r@.len() - i,
    {
        proof {
            assert(xs.take(i + 1).drop_last() =~= xs.take(i as int));
            assert(rs.take(i + 1).drop_last() =~= rs.take(i as int));
        }
        res = res.times(term(x[i], r[i]));
        i = i + 1;
    }
    proof {
        assert(xs.take(xs.len() as int) =~= xs);
        assert(rs.take(rs.len() as int) =~= rs);
    }
    res
}

impl TensorProduct {
    /// The accumulated factor.
    pub open spec fn scale(self) -> u128 {
        self.current_scale@
    }

    /// The remaining coordinates.
    pub open spec fn point(self) -> Seq<u128> {
        values(self.r_coords@)
    }

    /// Overwrites the coordinates and the factor with zero, and drops the
    /// coordinates.
    pub fn zeroize(&mut self)
        ensures
            final(self).r_coords@.len() == 0,
            final(self).current_scale.0.0 == 0,
    {
        wipe::wipe128(&mut self.r_coords);
        wipe::wipe_element(&mut self.current_scale);
    }

    pub fn new(r: Vec<Flat<Block128>>) -> (t: Self)
        ensures
            t.r_coords == r,
            t.scale() == 1,
    {
        TensorProduct { r_coords: r, current_scale: Flat::<Block128>::one() }
    }

    pub fn num_vars(&self) -> (n: usize)
        ensures
            n == self.r_coords@.len(),
    {
        self.r_coords.len()
    }

    /// Evaluates at any point with as many coordinates.
    pub fn evaluate_extension(&self, x: &[Flat<Block128>]) -> (v: Result<
        Flat<Block128>,
        errors::Error,
    >)
        ensures
            match v {
                Ok(r) => x@.len() == self.r_coords@.len() && r@ == eq_product(
                    self.scale(),
                    values(x@),
                    self.point(),
                ),
                Err(e) => x@.len() != self.r_coords@.len() && e == errors::Error::Poly(
                    variant::Error::PointDimensionMismatch {
                        expected_len: self.r_coords@.len() as usize,
                        got_len: x@.len() as usize,
                    },
                ),
            },
    {
        let expected_len: usize = self.r_coords.len();
        let got_len: usize = x.len();
        if got_len != expected_len {
            return Err(
                errors::Error::Poly(
                    variant::Error::PointDimensionMismatch { expected_len, got_len },
                ),
            );
        }
        Ok(product(self.current_scale, x, self.r_coords.as_slice()))
    }

    /// `Eq(x, r)` of two points.
    pub fn evaluate_eq_slice(r: &[Flat<Block128>], x: &[Flat<Block128>]) -> (v: Flat<Block128>)
        requires
            r@.len() == x@.len(),
        ensures
            v@ == eq_product(1, values(r@), values(x@)),
    {
        product(Flat::<Block128>::one(), r, x)
    }

    /// Evaluates at a corner of the cube: bit `i` of the index is
    /// coordinate `i`.
    pub fn evaluate_at_index(&self, index: usize) -> (v: Flat<Block128>)
        requires
            self.r_coords@.len() <= usize::BITS,
        ensures
            v@ == eq_at(self.scale(), index as nat, self.point()),
    {
        let mut val = self.current_scale;
        let one = Flat::<Block128>::one();
        let mut i: usize = 0;
        let mut rest: usize = index;
        let ghost rs = self.point();
        proof {
            vstd::arithmetic::power2::lemma2_to64();
            assert(index as nat / 1 == index as nat);
        }
        while i < self.r_coords.len()
            invariant
                i <= self.r_coords@.len() <= usize::BITS,
                rs == self.point(),
                one@ == 1,
                rest as nat == index as nat / vstd::arithmetic::power2::pow2(i as nat),
                val@ == eq_at(self.scale(), index as nat, rs.take(i as int)),
            decreases self.r_coords@.len() - i,
        {
            let r_val = self.r_coords[i];
            proof {
                assert(rs.take(i + 1).drop_last() =~= rs.take(i as int));
                assert(bits::bit(index as nat, i as nat) == rest % 2);
                vstd::arithmetic::power2::lemma_pow2_unfold(i as nat + 1);
                vstd::arithmetic::power2::lemma_pow2_pos(i as nat);
                vstd::arithmetic::div_mod::lemma_div_denominator(
                    index as int,
                    vstd::arithmetic::power2::pow2(i as nat) as int,
                    2,
                );
            }
            if rest % 2 == 1 {
                val = val.times(r_val);
            } else {
                val = val.times(one.plus(r_val));
            }
            rest = rest / 2;
            i = i + 1;
        }
        proof {
            assert(rs.take(rs.len() as int) =~= rs);
        }
        val
    }

    /// Fixes the first coordinate of `x`: drops the first coordinate of `r`,
    /// and multiplies the scale by their factor.
    pub fn fold(&self, u: Flat<Block128>) -> (t: Self)
        ensures
            self.r_coords@.len() == 0 ==> t.scale() == self.scale() && t.r_coords@
                == self.r_coords@,
            self.r_coords@.len() > 0 ==> t.scale() == gf::gf128_mul(
                self.scale(),
                eq_term(u@, self.point()[0]),
            ) && t.r_coords@ == self.r_coords@.skip(1),
    {
        if self.r_coords.len() == 0 {
            let empty: Vec<Flat<Block128>> = Vec::new();
            proof {
                assert(empty@ =~= self.r_coords@);
            }
            return TensorProduct { r_coords: empty, current_scale: self.current_scale };
        }
        let factor = term(u, self.r_coords[0]);
        let tail: &[Flat<Block128>] = vstd::slice::slice_subrange(
            self.r_coords.as_slice(),
            1,
            self.r_coords.len(),
        );
        let rest: Vec<Flat<Block128>> = vstd::slice::slice_to_vec(tail);
        proof {
            assert(rest@ =~= self.r_coords@.skip(1));
        }
        TensorProduct { r_coords: rest, current_scale: self.current_scale.times(factor) }
    }
}

// ---------------------------------------------------------------
// Laws
// ---------------------------------------------------------------

/// Folding by `u` and evaluating at the rest is evaluating at `u` and the
/// rest.
pub proof fn law_fold_evaluates(scale: u128, u: u128, r0: u128, x: Seq<u128>, r: Seq<u128>)
    requires
        x.len() == r.len(),
    ensures
        eq_product(gf::gf128_mul(scale, eq_term(u, r0)), x, r) == eq_product(
            scale,
            seq![u] + x,
            seq![r0] + r,
        ),
    decreases r.len(),
{
    let (ux, rr) = (seq![u] + x, seq![r0] + r);
    if r.len() == 0 {
        assert(ux.drop_last() =~= Seq::<u128>::empty());
        assert(rr.drop_last() =~= Seq::<u128>::empty());
        assert(eq_product(scale, ux.drop_last(), rr.drop_last()) == scale);
    } else {
        law_fold_evaluates(scale, u, r0, x.drop_last(), r.drop_last());
        assert(ux.drop_last() =~= seq![u] + x.drop_last());
        assert(rr.drop_last() =~= seq![r0] + r.drop_last());
    }
}

/// The corner with the bits of an index, as a point.
pub open spec fn corner(index: nat, n: nat) -> Seq<u128> {
    Seq::new(n, |i: int| bits::bit(index, i as nat) as u128)
}

proof fn lemma_term_at_bit(b: nat, r: u128)
    requires
        b <= 1,
    ensures
        eq_term(b as u128, r) == chosen(b, r),
{
    <u128 as Ring>::units(r);
    <u128 as Ring>::units(1 ^ r);
    <u128 as Ring>::commutes(0, r);
    <u128 as Ring>::commutes(1, r);
    <u128 as Ring>::commutes(0, 1 ^ r);
    <u128 as Ring>::commutes(1, 1 ^ r);
    <u128 as Ring>::sums(1, 0, 0, 0, 0, 0, 0, 0);
    <u128 as Ring>::sums(1 ^ r, 0, 0, 0, 0, 0, 0, 0);
    <u128 as Ring>::sums(0, r, 0, 0, 0, 0, 0, 0);
    <u128 as Ring>::sums(r, 0, 0, 0, 0, 0, 0, 0);
}

/// Reading a corner is evaluating at it.
pub proof fn law_index_is_corner(scale: u128, index: nat, r: Seq<u128>)
    ensures
        eq_at(scale, index, r) == eq_product(scale, corner(index, r.len()), r),
    decreases r.len(),
{
    if r.len() > 0 {
        let n = (r.len() - 1) as nat;
        law_index_is_corner(scale, index, r.drop_last());
        assert(corner(index, r.len()).drop_last() =~= corner(index, n));
        lemma_term_at_bit(bits::bit(index, n), r.last());
    }
}

/// Two points play the same part.
pub proof fn law_eq_is_symmetric(scale: u128, x: Seq<u128>, r: Seq<u128>)
    requires
        x.len() == r.len(),
    ensures
        eq_product(scale, x, r) == eq_product(scale, r, x),
    decreases r.len(),
{
    if r.len() > 0 {
        law_eq_is_symmetric(scale, x.drop_last(), r.drop_last());
        <u128 as Ring>::commutes(1 ^ x.last(), 1 ^ r.last());
        <u128 as Ring>::commutes(x.last(), r.last());
    }
}

/// On the corners of a coordinate the factor is one where both agree and zero
/// where they differ; between them it is linear in the coordinate.
pub proof fn law_factor_on_corners(r: u128)
    ensures
        eq_term(0, r) == 1 ^ r,
        eq_term(1, r) == r,
        eq_term(0, 0) == 1,
        eq_term(0, 1) == 0,
        eq_term(1, 0) == 0,
        eq_term(1, 1) == 1,
{
    lemma_term_at_bit(0, r);
    lemma_term_at_bit(1, r);
    lemma_term_at_bit(0, 0);
    lemma_term_at_bit(1, 0);
    lemma_term_at_bit(0, 1);
    lemma_term_at_bit(1, 1);
    assert(1u128 ^ 0 == 1 && 1u128 ^ 1 == 0) by {
        <u128 as Ring>::sums(1, 1, 0, 0, 0, 0, 0, 0);
    }
}

/// The equality polynomial at two corners: the scale where they are the same
/// corner, zero where they differ.
pub proof fn law_eq_is_an_indicator(scale: u128, a: nat, b: nat, n: nat)
    ensures
        eq_at(scale, a, corner(b, n)) == (if forall|i: nat|
            i < n ==> #[trigger] bits::bit(a, i) == bits::bit(b, i) {
            scale
        } else {
            0
        }),
    decreases n,
{
    let r = corner(b, n);
    if n > 0 {
        let m = (n - 1) as nat;
        law_eq_is_an_indicator(scale, a, b, m);
        assert(r.drop_last() =~= corner(b, m));
        let head = eq_at(scale, a, corner(b, m));
        let (x, y) = (bits::bit(a, m), bits::bit(b, m));
        assert(r.last() == y as u128);
        assert(x <= 1 && y <= 1);
        law_factor_on_corners(0);
        <u128 as Ring>::units(head);
        assert(1u128 ^ 0 == 1 && 1u128 ^ 1 == 0) by {
            <u128 as Ring>::sums(1, 1, 0, 0, 0, 0, 0, 0);
        }
        if x != y {
            assert(!(forall|i: nat| i < n ==> #[trigger] bits::bit(a, i) == bits::bit(b, i)));
        } else if forall|i: nat| i < m ==> #[trigger] bits::bit(a, i) == bits::bit(b, i) {
            assert forall|i: nat| i < n implies #[trigger] bits::bit(a, i) == bits::bit(b, i) by {
                if i == m {
                }
            }
        }
    }
}

} // verus!
