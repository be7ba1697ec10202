//! The tower levels are commutative rings of characteristic 2.

use vstd::prelude::*;

use super::gf;

verus! {

// ---------------------------------------------------------------
// GF(2^8)
// ---------------------------------------------------------------

proof fn lemma_double_is_linear(a: u8, b: u8)
    ensures
        gf::gf8_double(a ^ b) == gf::gf8_double(a) ^ gf::gf8_double(b),
        gf::gf8_double(0) == 0,
{
    assert(gf::gf8_double(a ^ b) == gf::gf8_double(a) ^ gf::gf8_double(b) && gf::gf8_double(0) == 0)
        by (bit_vector);
}

proof fn lemma_xor_zero(a: u8)
    ensures
        a ^ 0 == a,
        0 ^ a == a,
{
    assert(a ^ 0 == a && 0 ^ a == a) by (bit_vector);
}

/// Regrouping the XOR of eight pairs.
proof fn lemma_xor_pairs(
    x0: u8,
    x1: u8,
    x2: u8,
    x3: u8,
    x4: u8,
    x5: u8,
    x6: u8,
    x7: u8,
    y0: u8,
    y1: u8,
    y2: u8,
    y3: u8,
    y4: u8,
    y5: u8,
    y6: u8,
    y7: u8,
)
    ensures
        (x0 ^ y0) ^ (x1 ^ y1) ^ (x2 ^ y2) ^ (x3 ^ y3) ^ (x4 ^ y4) ^ (x5 ^ y5) ^ (x6 ^ y6) ^ (x7 ^ y7)
            == (x0 ^ x1 ^ x2 ^ x3 ^ x4 ^ x5 ^ x6 ^ x7) ^ (y0 ^ y1 ^ y2 ^ y3 ^ y4 ^ y5 ^ y6 ^ y7),
{
    assert((x0 ^ y0) ^ (x1 ^ y1) ^ (x2 ^ y2) ^ (x3 ^ y3) ^ (x4 ^ y4) ^ (x5 ^ y5) ^ (x6 ^ y6) ^ (x7 ^ y7)
        == (x0 ^ x1 ^ x2 ^ x3 ^ x4 ^ x5 ^ x6 ^ x7) ^ (y0 ^ y1 ^ y2 ^ y3 ^ y4 ^ y5 ^ y6 ^ y7)) by (bit_vector);
}

proof fn lemma_gf8_distributes_right(a: u8, b: u8, c: u8)
    ensures
        gf::gf8_mul(a ^ b, c) == gf::gf8_mul(a, c) ^ gf::gf8_mul(b, c),
{
    let a1 = gf::gf8_double(a);
    let a2 = gf::gf8_double(a1);
    let a3 = gf::gf8_double(a2);
    let a4 = gf::gf8_double(a3);
    let a5 = gf::gf8_double(a4);
    let a6 = gf::gf8_double(a5);
    let a7 = gf::gf8_double(a6);
    let b1 = gf::gf8_double(b);
    let b2 = gf::gf8_double(b1);
    let b3 = gf::gf8_double(b2);
    let b4 = gf::gf8_double(b3);
    let b5 = gf::gf8_double(b4);
    let b6 = gf::gf8_double(b5);
    let b7 = gf::gf8_double(b6);
    lemma_xor_zero(0);
    lemma_double_is_linear(a, b);
    lemma_double_is_linear(a1, b1);
    lemma_double_is_linear(a2, b2);
    lemma_double_is_linear(a3, b3);
    lemma_double_is_linear(a4, b4);
    lemma_double_is_linear(a5, b5);
    lemma_double_is_linear(a6, b6);
    lemma_xor_pairs(
        gf::gf8_term(a, c, 0),
        gf::gf8_term(a1, c, 1),
        gf::gf8_term(a2, c, 2),
        gf::gf8_term(a3, c, 3),
        gf::gf8_term(a4, c, 4),
        gf::gf8_term(a5, c, 5),
        gf::gf8_term(a6, c, 6),
        gf::gf8_term(a7, c, 7),
        gf::gf8_term(b, c, 0),
        gf::gf8_term(b1, c, 1),
        gf::gf8_term(b2, c, 2),
        gf::gf8_term(b3, c, 3),
        gf::gf8_term(b4, c, 4),
        gf::gf8_term(b5, c, 5),
        gf::gf8_term(b6, c, 6),
        gf::gf8_term(b7, c, 7),
    );
}

proof fn lemma_gf8_doubles(a: u8, b: u8)
    ensures
        gf::gf8_mul(gf::gf8_double(a), b) == gf::gf8_double(gf::gf8_mul(a, b)),
{
    let a1 = gf::gf8_double(a);
    let a2 = gf::gf8_double(a1);
    let a3 = gf::gf8_double(a2);
    let a4 = gf::gf8_double(a3);
    let a5 = gf::gf8_double(a4);
    let a6 = gf::gf8_double(a5);
    let a7 = gf::gf8_double(a6);
    let t0 = gf::gf8_term(a, b, 0);
    let t1 = gf::gf8_term(a1, b, 1);
    let t2 = gf::gf8_term(a2, b, 2);
    let t3 = gf::gf8_term(a3, b, 3);
    let t4 = gf::gf8_term(a4, b, 4);
    let t5 = gf::gf8_term(a5, b, 5);
    let t6 = gf::gf8_term(a6, b, 6);
    let t7 = gf::gf8_term(a7, b, 7);
    lemma_double_is_linear(t0, t1);
    lemma_double_is_linear(t0 ^ t1, t2);
    lemma_double_is_linear(t0 ^ t1 ^ t2, t3);
    lemma_double_is_linear(t0 ^ t1 ^ t2 ^ t3, t4);
    lemma_double_is_linear(t0 ^ t1 ^ t2 ^ t3 ^ t4, t5);
    lemma_double_is_linear(t0 ^ t1 ^ t2 ^ t3 ^ t4 ^ t5, t6);
    lemma_double_is_linear(t0 ^ t1 ^ t2 ^ t3 ^ t4 ^ t5 ^ t6, t7);
}

proof fn lemma_gf8_basis_commutes(b: u8)
    ensures
        gf::gf8_mul(1, b) == gf::gf8_mul(b, 1),
        gf::gf8_mul(2, b) == gf::gf8_mul(b, 2),
        gf::gf8_mul(4, b) == gf::gf8_mul(b, 4),
        gf::gf8_mul(8, b) == gf::gf8_mul(b, 8),
        gf::gf8_mul(16, b) == gf::gf8_mul(b, 16),
        gf::gf8_mul(32, b) == gf::gf8_mul(b, 32),
        gf::gf8_mul(64, b) == gf::gf8_mul(b, 64),
        gf::gf8_mul(128, b) == gf::gf8_mul(b, 128),
{
    assert(gf::gf8_mul(1, b) == gf::gf8_mul(b, 1)
        && gf::gf8_mul(2, b) == gf::gf8_mul(b, 2)
        && gf::gf8_mul(4, b) == gf::gf8_mul(b, 4)
        && gf::gf8_mul(8, b) == gf::gf8_mul(b, 8)
        && gf::gf8_mul(16, b) == gf::gf8_mul(b, 16)
        && gf::gf8_mul(32, b) == gf::gf8_mul(b, 32)
        && gf::gf8_mul(64, b) == gf::gf8_mul(b, 64)
        && gf::gf8_mul(128, b) == gf::gf8_mul(b, 128)) by (bit_vector);
}

proof fn lemma_gf8_units(a: u8)
    ensures
        gf::gf8_mul(a, 0) == 0,
        gf::gf8_mul(0, a) == 0,
        gf::gf8_mul(a, 1) == a,
        gf::gf8_mul(1, a) == a,
{
    assert(gf::gf8_mul(a, 0) == 0 && gf::gf8_mul(0, a) == 0 && gf::gf8_mul(a, 1) == a && gf::gf8_mul(
        1,
        a,
    ) == a) by (bit_vector);
}

proof fn lemma_gf8_distributes_left(a: u8, b: u8, c: u8)
    ensures
        gf::gf8_mul(a, b ^ c) == gf::gf8_mul(a, b) ^ gf::gf8_mul(a, c),
{
    assert(gf::gf8_mul(a, b ^ c) == gf::gf8_mul(a, b) ^ gf::gf8_mul(a, c)) by (bit_vector);
}

/// The bits of a byte, each in place.
spec fn bit_at(a: u8, i: u8) -> u8 {
    a & (1u8 << i)
}

proof fn lemma_bits_of(a: u8)
    ensures
        a == bit_at(a, 0) ^ bit_at(a, 1) ^ bit_at(a, 2) ^ bit_at(a, 3) ^ bit_at(a, 4) ^ bit_at(a, 5) ^ bit_at(a, 6) ^ bit_at(a, 7),
        bit_at(a, 0) == 0 || bit_at(a, 0) == 1,
        bit_at(a, 1) == 0 || bit_at(a, 1) == 2,
        bit_at(a, 2) == 0 || bit_at(a, 2) == 4,
        bit_at(a, 3) == 0 || bit_at(a, 3) == 8,
        bit_at(a, 4) == 0 || bit_at(a, 4) == 16,
        bit_at(a, 5) == 0 || bit_at(a, 5) == 32,
        bit_at(a, 6) == 0 || bit_at(a, 6) == 64,
        bit_at(a, 7) == 0 || bit_at(a, 7) == 128,
{
    assert(a == bit_at(a, 0) ^ bit_at(a, 1) ^ bit_at(a, 2) ^ bit_at(a, 3) ^ bit_at(a, 4) ^ bit_at(a, 5) ^ bit_at(a, 6) ^ bit_at(a, 7)
        && (bit_at(a, 0) == 0 || bit_at(a, 0) == 1)
        && (bit_at(a, 1) == 0 || bit_at(a, 1) == 2)
        && (bit_at(a, 2) == 0 || bit_at(a, 2) == 4)
        && (bit_at(a, 3) == 0 || bit_at(a, 3) == 8)
        && (bit_at(a, 4) == 0 || bit_at(a, 4) == 16)
        && (bit_at(a, 5) == 0 || bit_at(a, 5) == 32)
        && (bit_at(a, 6) == 0 || bit_at(a, 6) == 64)
        && (bit_at(a, 7) == 0 || bit_at(a, 7) == 128)) by (bit_vector);
}

pub proof fn lemma_gf8_commutes(a: u8, b: u8)
    ensures
        gf::gf8_mul(a, b) == gf::gf8_mul(b, a),
{
    lemma_bits_of(a);
    lemma_gf8_basis_commutes(b);
    lemma_gf8_units(b);
    let t0 = bit_at(a, 0);
    let t1 = bit_at(a, 1);
    let t2 = bit_at(a, 2);
    let t3 = bit_at(a, 3);
    let t4 = bit_at(a, 4);
    let t5 = bit_at(a, 5);
    let t6 = bit_at(a, 6);
    let t7 = bit_at(a, 7);
    lemma_gf8_distributes_right(t0, t1, b);
    lemma_gf8_distributes_left(b, t0, t1);
    lemma_gf8_distributes_right(t0 ^ t1, t2, b);
    lemma_gf8_distributes_left(b, t0 ^ t1, t2);
    lemma_gf8_distributes_right(t0 ^ t1 ^ t2, t3, b);
    lemma_gf8_distributes_left(b, t0 ^ t1 ^ t2, t3);
    lemma_gf8_distributes_right(t0 ^ t1 ^ t2 ^ t3, t4, b);
    lemma_gf8_distributes_left(b, t0 ^ t1 ^ t2 ^ t3, t4);
    lemma_gf8_distributes_right(t0 ^ t1 ^ t2 ^ t3 ^ t4, t5, b);
    lemma_gf8_distributes_left(b, t0 ^ t1 ^ t2 ^ t3 ^ t4, t5);
    lemma_gf8_distributes_right(t0 ^ t1 ^ t2 ^ t3 ^ t4 ^ t5, t6, b);
    lemma_gf8_distributes_left(b, t0 ^ t1 ^ t2 ^ t3 ^ t4 ^ t5, t6);
    lemma_gf8_distributes_right(t0 ^ t1 ^ t2 ^ t3 ^ t4 ^ t5 ^ t6, t7, b);
    lemma_gf8_distributes_left(b, t0 ^ t1 ^ t2 ^ t3 ^ t4 ^ t5 ^ t6, t7);
}

pub proof fn lemma_gf8_associates(a: u8, b: u8, c: u8)
    ensures
        gf::gf8_mul(gf::gf8_mul(a, b), c) == gf::gf8_mul(a, gf::gf8_mul(b, c)),
{
    let b1 = gf::gf8_double(b);
    let b2 = gf::gf8_double(b1);
    let b3 = gf::gf8_double(b2);
    let b4 = gf::gf8_double(b3);
    let b5 = gf::gf8_double(b4);
    let b6 = gf::gf8_double(b5);
    let b7 = gf::gf8_double(b6);
    lemma_gf8_commutes(a, b);
    lemma_gf8_commutes(a, b1);
    lemma_gf8_doubles(b, a);
    lemma_gf8_commutes(a, b1);
    lemma_gf8_commutes(a, b2);
    lemma_gf8_doubles(b1, a);
    lemma_gf8_commutes(a, b2);
    lemma_gf8_commutes(a, b3);
    lemma_gf8_doubles(b2, a);
    lemma_gf8_commutes(a, b3);
    lemma_gf8_commutes(a, b4);
    lemma_gf8_doubles(b3, a);
    lemma_gf8_commutes(a, b4);
    lemma_gf8_commutes(a, b5);
    lemma_gf8_doubles(b4, a);
    lemma_gf8_commutes(a, b5);
    lemma_gf8_commutes(a, b6);
    lemma_gf8_doubles(b5, a);
    lemma_gf8_commutes(a, b6);
    lemma_gf8_commutes(a, b7);
    lemma_gf8_doubles(b6, a);
    lemma_gf8_units(a);
    let t0 = gf::gf8_term(b, c, 0);
    let t1 = gf::gf8_term(b1, c, 1);
    let t2 = gf::gf8_term(b2, c, 2);
    let t3 = gf::gf8_term(b3, c, 3);
    let t4 = gf::gf8_term(b4, c, 4);
    let t5 = gf::gf8_term(b5, c, 5);
    let t6 = gf::gf8_term(b6, c, 6);
    let t7 = gf::gf8_term(b7, c, 7);
    lemma_gf8_distributes_left(a, t0, t1);
    lemma_gf8_distributes_left(a, t0 ^ t1, t2);
    lemma_gf8_distributes_left(a, t0 ^ t1 ^ t2, t3);
    lemma_gf8_distributes_left(a, t0 ^ t1 ^ t2 ^ t3, t4);
    lemma_gf8_distributes_left(a, t0 ^ t1 ^ t2 ^ t3 ^ t4, t5);
    lemma_gf8_distributes_left(a, t0 ^ t1 ^ t2 ^ t3 ^ t4 ^ t5, t6);
    lemma_gf8_distributes_left(a, t0 ^ t1 ^ t2 ^ t3 ^ t4 ^ t5 ^ t6, t7);
}

// ---------------------------------------------------------------
// The tower
// ---------------------------------------------------------------

/// A commutative ring of characteristic 2 with the constant of the
/// extension built on it.
pub trait Ring: Sized {
    spec fn plus(self, other: Self) -> Self;

    spec fn times(self, other: Self) -> Self;

    spec fn zero() -> Self;

    spec fn one() -> Self;

    /// `τ` of `X^2 + X + τ`.
    spec fn tau() -> Self;

    /// Sums do not depend on order or grouping, every element is its own
    /// negative, and zero is neutral.
    proof fn sums(a: Self, b: Self, c: Self, d: Self, e: Self, f: Self, g: Self, h: Self)
        ensures
            a.plus(b) == b.plus(a),
            a.plus(b).plus(c) == a.plus(b.plus(c)),
            a.plus(a) == Self::zero(),
            a.plus(Self::zero()) == a,
            a.plus(b).plus(c.plus(d)) == a.plus(c).plus(b.plus(d)),
            a.plus(b).plus(c.plus(d).plus(e)) == a.plus(c).plus(d.plus(b).plus(e)),
            a.plus(b).plus(c.plus(d).plus(e)).plus(f.plus(g).plus(h)) == a.plus(c).plus(f).plus(
                d.plus(b),
            ).plus(g.plus(e).plus(h)),
            a.plus(b).plus(c.plus(d)).plus(e.plus(f)) == a.plus(c).plus(e).plus(
                b.plus(d).plus(f),
            ),
    ;

    proof fn units(a: Self)
        ensures
            a.times(Self::zero()) == Self::zero(),
            a.times(Self::one()) == a,
    ;

    proof fn commutes(a: Self, b: Self)
        ensures
            a.times(b) == b.times(a),
    ;

    proof fn associates(a: Self, b: Self, c: Self)
        ensures
            a.times(b).times(c) == a.times(b.times(c)),
    ;

    proof fn distributes(a: Self, b: Self, c: Self)
        ensures
            a.times(b.plus(c)) == a.times(b).plus(a.times(c)),
    ;

    /// `X^2 + X + τ` has no root here.
    proof fn no_root(y: Self)
        ensures
            y.times(y).plus(y) != Self::tau(),
    ;

    /// Every element but zero has an inverse.
    proof fn inverse(a: Self) -> (b: Self)
        requires
            a != Self::zero(),
        ensures
            a.times(b) == Self::one(),
    ;
}

/// A product is zero only where a factor is.
pub proof fn law_no_zero_divisors<R: Ring>(a: R, b: R)
    requires
        a.times(b) == R::zero(),
    ensures
        a == R::zero() || b == R::zero(),
{
    if a != R::zero() {
        let i = R::inverse(a);
        R::commutes(a, i);
        R::associates(i, a, b);
        R::units(i);
        R::units(b);
        R::commutes(b, R::one());
    }
}

/// `x^2 + x = 0` has no solutions but zero and one.
pub proof fn law_boolean<R: Ring>(x: R)
    requires
        x.times(x.plus(R::one())) == R::zero(),
    ensures
        x == R::zero() || x == R::one(),
{
    law_no_zero_divisors(x, x.plus(R::one()));
    if x.plus(R::one()) == R::zero() {
        R::sums(x, R::one(), R::one(), x, x, x, x, x);
        R::sums(R::one(), x, x, x, x, x, x, x);
        lemma_sums3(R::one(), R::one(), x);
        lemma_sums3(x, R::one(), x);
    }
}

/// The low half of `(a0 + a1 X)(b0 + b1 X)`.
pub open spec fn ext_lo<R: Ring>(a0: R, a1: R, b0: R, b1: R) -> R {
    a0.times(b0).plus(a1.times(b1).times(R::tau()))
}

/// The high half of `(a0 + a1 X)(b0 + b1 X)`.
pub open spec fn ext_hi<R: Ring>(a0: R, a1: R, b0: R, b1: R) -> R {
    a0.times(b1).plus(a1.times(b0)).plus(a1.times(b1))
}

pub proof fn lemma_sums3<R: Ring>(a: R, b: R, c: R)
    ensures
        a.plus(b) == b.plus(a),
        a.plus(b).plus(c) == a.plus(b.plus(c)),
        a.plus(a) == R::zero(),
        a.plus(R::zero()) == a,
        R::zero().plus(a) == a,
{
    R::sums(a, b, c, a, a, a, a, a);
    R::sums(R::zero(), a, a, a, a, a, a, a);
}

pub proof fn lemma_distributes_right<R: Ring>(a: R, b: R, c: R)
    ensures
        a.plus(b).times(c) == a.times(c).plus(b.times(c)),
{
    R::commutes(a.plus(b), c);
    R::distributes(c, a, b);
    R::commutes(a, c);
    R::commutes(b, c);
}

/// `(x · τ) · c` with the constant moved last.
proof fn lemma_tau_last<R: Ring>(x: R, c: R)
    ensures
        x.times(R::tau()).times(c) == x.times(c).times(R::tau()),
        c.times(x.times(R::tau())) == c.times(x).times(R::tau()),
{
    let t = R::tau();
    R::associates(x, t, c);
    R::commutes(t, c);
    R::associates(x, c, t);
    R::associates(c, x, t);
}

proof fn lemma_sum3_times<R: Ring>(a: R, b: R, c: R, x: R)
    ensures
        a.plus(b).plus(c).times(x) == a.times(x).plus(b.times(x)).plus(c.times(x)),
        x.times(a.plus(b).plus(c)) == x.times(a).plus(x.times(b)).plus(x.times(c)),
{
    lemma_distributes_right(a.plus(b), c, x);
    lemma_distributes_right(a, b, x);
    R::distributes(x, a.plus(b), c);
    R::distributes(x, a, b);
}

proof fn lemma_ext_commutes<R: Ring>(a0: R, a1: R, b0: R, b1: R)
    ensures
        ext_lo(a0, a1, b0, b1) == ext_lo(b0, b1, a0, a1),
        ext_hi(a0, a1, b0, b1) == ext_hi(b0, b1, a0, a1),
{
    R::commutes(a0, b0);
    R::commutes(a1, b1);
    R::commutes(a0, b1);
    R::commutes(a1, b0);
    lemma_sums3(a0.times(b1), a1.times(b0), a0);
}

proof fn lemma_ext_distributes<R: Ring>(a0: R, a1: R, b0: R, b1: R, c0: R, c1: R)
    ensures
        ext_lo(a0, a1, b0.plus(c0), b1.plus(c1)) == ext_lo(a0, a1, b0, b1).plus(
            ext_lo(a0, a1, c0, c1),
        ),
        ext_hi(a0, a1, b0.plus(c0), b1.plus(c1)) == ext_hi(a0, a1, b0, b1).plus(
            ext_hi(a0, a1, c0, c1),
        ),
{
    R::distributes(a0, b0, c0);
    R::distributes(a1, b1, c1);
    R::distributes(a0, b1, c1);
    R::distributes(a1, b0, c0);
    let t = R::tau();
    lemma_distributes_right(a1.times(b1), a1.times(c1), t);
    R::sums(
        a0.times(b0),
        a0.times(c0),
        a1.times(b1).times(t),
        a1.times(c1).times(t),
        a0,
        a0,
        a0,
        a0,
    );
    R::sums(
        a0.times(b1),
        a0.times(c1),
        a1.times(b0),
        a1.times(c0),
        a1.times(b1),
        a1.times(c1),
        a0,
        a0,
    );
}

proof fn lemma_ext_units<R: Ring>(a0: R, a1: R)
    ensures
        ext_lo(a0, a1, R::zero(), R::zero()) == R::zero(),
        ext_hi(a0, a1, R::zero(), R::zero()) == R::zero(),
        ext_lo(a0, a1, R::one(), R::zero()) == a0,
        ext_hi(a0, a1, R::one(), R::zero()) == a1,
{
    let z = R::zero();
    R::units(a0);
    R::units(a1);
    R::units(R::tau());
    R::commutes(z, R::tau());
    lemma_sums3(z, z, z);
    lemma_sums3(a0, z, z);
    lemma_sums3(a1, z, z);
}

proof fn lemma_ext_associates<R: Ring>(a0: R, a1: R, b0: R, b1: R, c0: R, c1: R)
    ensures
        ext_lo(ext_lo(a0, a1, b0, b1), ext_hi(a0, a1, b0, b1), c0, c1) == ext_lo(
            a0,
            a1,
            ext_lo(b0, b1, c0, c1),
            ext_hi(b0, b1, c0, c1),
        ),
        ext_hi(ext_lo(a0, a1, b0, b1), ext_hi(a0, a1, b0, b1), c0, c1) == ext_hi(
            a0,
            a1,
            ext_lo(b0, b1, c0, c1),
            ext_hi(b0, b1, c0, c1),
        ),
{
    let t = R::tau();
    // The eight products of three halves.
    let p000 = a0.times(b0).times(c0);
    let p001 = a0.times(b0).times(c1);
    let p010 = a0.times(b1).times(c0);
    let p011 = a0.times(b1).times(c1);
    let p100 = a1.times(b0).times(c0);
    let p101 = a1.times(b0).times(c1);
    let p110 = a1.times(b1).times(c0);
    let p111 = a1.times(b1).times(c1);
    R::associates(a0, b0, c0);
    R::associates(a0, b0, c1);
    R::associates(a0, b1, c0);
    R::associates(a0, b1, c1);
    R::associates(a1, b0, c0);
    R::associates(a1, b0, c1);
    R::associates(a1, b1, c0);
    R::associates(a1, b1, c1);

    // (a b) c
    let (lo, hi) = (ext_lo(a0, a1, b0, b1), ext_hi(a0, a1, b0, b1));
    lemma_distributes_right(a0.times(b0), a1.times(b1).times(t), c0);
    lemma_distributes_right(a0.times(b0), a1.times(b1).times(t), c1);
    lemma_tau_last(a1.times(b1), c0);
    lemma_tau_last(a1.times(b1), c1);
    assert(lo.times(c0) == p000.plus(p110.times(t)));
    assert(lo.times(c1) == p001.plus(p111.times(t)));
    lemma_sum3_times(a0.times(b1), a1.times(b0), a1.times(b1), c0);
    lemma_sum3_times(a0.times(b1), a1.times(b0), a1.times(b1), c1);
    assert(hi.times(c0) == p010.plus(p100).plus(p110));
    assert(hi.times(c1) == p011.plus(p101).plus(p111));
    lemma_sum3_times(p011, p101, p111, t);

    // a (b c)
    let (lo2, hi2) = (ext_lo(b0, b1, c0, c1), ext_hi(b0, b1, c0, c1));
    R::distributes(a0, b0.times(c0), b1.times(c1).times(t));
    R::distributes(a1, b0.times(c0), b1.times(c1).times(t));
    lemma_tau_last(b1.times(c1), a0);
    lemma_tau_last(b1.times(c1), a1);
    assert(a0.times(lo2) == p000.plus(p011.times(t)));
    assert(a1.times(lo2) == p100.plus(p111.times(t)));
    lemma_sum3_times(b0.times(c1), b1.times(c0), b1.times(c1), a0);
    lemma_sum3_times(b0.times(c1), b1.times(c0), b1.times(c1), a1);
    assert(a0.times(hi2) == p001.plus(p010).plus(p011));
    assert(a1.times(hi2) == p101.plus(p110).plus(p111));
    lemma_sum3_times(p101, p110, p111, t);

    R::sums(
        p000,
        p110.times(t),
        p011.times(t),
        p101.times(t),
        p111.times(t),
        p000,
        p000,
        p000,
    );
    R::sums(p001, p111.times(t), p010, p100, p110, p011, p101, p111);
}

/// `a0² + a0 a1 + τ a1²`, the norm of `a0 + a1 X`.
spec fn norm<R: Ring>(a0: R, a1: R) -> R {
    a0.times(a0).plus(a0.times(a1)).plus(a1.times(a1).times(R::tau()))
}

proof fn lemma_norm_nonzero<R: Ring>(a0: R, a1: R)
    requires
        a0 != R::zero() || a1 != R::zero(),
    ensures
        norm(a0, a1) != R::zero(),
{
    let z = R::zero();
    let t = R::tau();
    if norm(a0, a1) == z {
        if a1 == z {
            R::units(a0);
            R::units(z);
            R::commutes(z, t);
            R::units(t);
            lemma_sums3(a0.times(a0), z, z);
            law_no_zero_divisors(a0, a0);
        } else {
            // y = a0 / a1 would be a root of X^2 + X + τ.
            let i = R::inverse(a1);
            let y = a0.times(i);
            let ii = i.times(i);
            // a1² i² = 1
            R::associates(a1, a1, ii);
            R::associates(a1, i, i);
            R::commutes(R::one(), i);
            R::units(i);
            assert(a1.times(ii) == i);
            assert(a1.times(a1).times(ii) == R::one());
            // a0² i² = y²
            R::associates(a0, a0, ii);
            R::associates(a0, i, i);
            R::associates(a0, i, y);
            R::commutes(i, y);
            R::associates(a0, i, i);
            assert(a0.times(a0).times(ii) == y.times(y)) by {
                R::associates(a0, a0, ii);
                assert(a0.times(ii) == y.times(i));
                R::associates(a0, y, i);
                R::commutes(a0, y);
                R::associates(y, a0, i);
            }
            // a0 a1 i² = y
            assert(a0.times(a1).times(ii) == y) by {
                R::associates(a0, a1, ii);
            }
            // τ a1² i² = τ
            assert(a1.times(a1).times(t).times(ii) == t) by {
                lemma_tau_last(a1.times(a1), ii);
                R::commutes(R::one(), t);
                R::units(t);
            }
            lemma_sum3_times(a0.times(a0), a0.times(a1), a1.times(a1).times(t), ii);
            R::commutes(z, ii);
            R::units(ii);
            assert(y.times(y).plus(y).plus(t) == z);
            R::sums(y.times(y).plus(y), t, t, t, t, t, t, t);
            lemma_sums3(t, t, t);
            lemma_sums3(y.times(y).plus(y), t, t);
            assert(y.times(y).plus(y).plus(t).plus(t) == y.times(y).plus(y));
            lemma_sums3(z, t, t);
            R::no_root(y);
        }
    }
}

/// The halves of the inverse of `a0 + a1 X`.
proof fn lemma_ext_inverse<R: Ring>(a0: R, a1: R) -> (b: (R, R))
    requires
        a0 != R::zero() || a1 != R::zero(),
    ensures
        ext_lo(a0, a1, b.0, b.1) == R::one(),
        ext_hi(a0, a1, b.0, b.1) == R::zero(),
{
    lemma_norm_nonzero(a0, a1);
    let t = R::tau();
    let n = norm(a0, a1);
    let i = R::inverse(n);
    let b0 = a0.plus(a1).times(i);
    let b1 = a1.times(i);
    // a0 b0 + τ a1 b1 = (a0 (a0 + a1) + τ a1²) i
    R::distributes(a0, a0, a1);
    R::associates(a0, a0.plus(a1), i);
    R::associates(a1, a1, i);
    lemma_tau_last(a1.times(a1), i);
    lemma_distributes_right(a0.times(a0).plus(a0.times(a1)), a1.times(a1).times(t), i);
    // a0 b1 + a1 b0 + a1 b1 = (a0 a1 + a1 (a0 + a1) + a1²) i = 0
    R::associates(a0, a1, i);
    R::distributes(a1, a0, a1);
    R::associates(a1, a0.plus(a1), i);
    R::commutes(a1, a0);
    let p = a0.times(a1);
    let q = a1.times(a1);
    assert(a1.times(b0) == p.plus(q).times(i));
    lemma_sum3_times(p, p.plus(q), q, i);
    assert(ext_hi(a0, a1, b0, b1) == p.plus(p.plus(q)).plus(q).times(i));
    R::sums(p, p, q, q, p, p, p, p);
    lemma_sums3(p, p, q);
    lemma_sums3(q, q, q);
    lemma_sums3(p.plus(q), q, q);
    assert(p.plus(p.plus(q)) == p.plus(p).plus(q));
    assert(p.plus(p).plus(q) == q);
    R::commutes(R::zero(), i);
    R::units(i);
    (b0, b1)
}

/// The high half of `(y0 + y1 X)² + (y0 + y1 X)` is `y1² + y1`.
proof fn lemma_ext_no_root<R: Ring>(y0: R, y1: R)
    ensures
        ext_hi(y0, y1, y0, y1).plus(y1) != R::tau(),
{
    R::commutes(y0, y1);
    lemma_sums3(y0.times(y1), y0.times(y1), y1);
    lemma_sums3(y1.times(y1), y1, y1);
    R::no_root(y1);
}

impl Ring for u8 {
    open spec fn plus(self, other: u8) -> u8 {
        self ^ other
    }

    open spec fn times(self, other: u8) -> u8 {
        gf::gf8_mul(self, other)
    }

    open spec fn zero() -> u8 {
        0
    }

    open spec fn one() -> u8 {
        1
    }

    open spec fn tau() -> u8 {
        0x20
    }

    proof fn sums(a: u8, b: u8, c: u8, d: u8, e: u8, f: u8, g: u8, h: u8) {
        assert(a ^ b == b ^ a && (a ^ b) ^ c == a ^ (b ^ c) && a ^ a == 0 && a ^ 0 == a && (a ^ b) ^ (c
            ^ d) == (a ^ c) ^ (b ^ d) && (a ^ b) ^ ((c ^ d) ^ e) == (a ^ c) ^ ((d ^ b) ^ e) && ((a ^ b)
            ^ ((c ^ d) ^ e)) ^ ((f ^ g) ^ h) == (((a ^ c) ^ f) ^ (d ^ b)) ^ ((g ^ e) ^ h) && ((a ^ b) ^ (
        c ^ d)) ^ (e ^ f) == ((a ^ c) ^ e) ^ ((b ^ d) ^ f)) by (bit_vector);
    }

    proof fn units(a: u8) {
        lemma_gf8_units(a);
    }

    proof fn commutes(a: u8, b: u8) {
        lemma_gf8_commutes(a, b);
    }

    proof fn associates(a: u8, b: u8, c: u8) {
        lemma_gf8_associates(a, b, c);
    }

    proof fn distributes(a: u8, b: u8, c: u8) {
        lemma_gf8_distributes_left(a, b, c);
    }

    proof fn no_root(y: u8) {
        assert(gf::gf8_mul(y, y) ^ y != 0x20) by (bit_vector);
    }

    proof fn inverse(a: u8) -> (b: u8) {
        lemma_gf8_inverse(a);
        gf8_power_254(a)
    }
}

/// `a^254`.
pub open spec fn gf8_power_254(a: u8) -> u8 {
    let a2 = gf::gf8_mul(a, a);
    let a4 = gf::gf8_mul(a2, a2);
    let a8 = gf::gf8_mul(a4, a4);
    let a16 = gf::gf8_mul(a8, a8);
    let a32 = gf::gf8_mul(a16, a16);
    let a64 = gf::gf8_mul(a32, a32);
    let a128 = gf::gf8_mul(a64, a64);
    gf::gf8_mul(
        gf::gf8_mul(gf::gf8_mul(gf::gf8_mul(gf::gf8_mul(gf::gf8_mul(a2, a4), a8), a16), a32), a64),
        a128,
    )
}

/// In GF(2^8), `a^254` is the inverse of `a`, and zero for zero.
pub proof fn lemma_gf8_inverse(a: u8)
    ensures
        a != 0 ==> gf::gf8_mul(a, gf8_power_254(a)) == 1,
        a == 0 ==> gf8_power_254(a) == 0,
{
    let a2 = gf::gf8_mul(a, a);
    let a4 = gf::gf8_mul(a2, a2);
    let a8 = gf::gf8_mul(a4, a4);
    let a16 = gf::gf8_mul(a8, a8);
    let a32 = gf::gf8_mul(a16, a16);
    let a64 = gf::gf8_mul(a32, a32);
    let a128 = gf::gf8_mul(a64, a64);
    let a6 = gf::gf8_mul(a2, a4);
    let a14 = gf::gf8_mul(a6, a8);
    let a30 = gf::gf8_mul(a14, a16);
    let a62 = gf::gf8_mul(a30, a32);
    let a126 = gf::gf8_mul(a62, a64);
    let a254 = gf::gf8_mul(a126, a128);
    assert(a != 0 ==> gf::gf8_mul(a, a254) == 1) by (bit_vector)
        requires
            a2 == gf::gf8_mul(a, a),
            a4 == gf::gf8_mul(a2, a2),
            a8 == gf::gf8_mul(a4, a4),
            a16 == gf::gf8_mul(a8, a8),
            a32 == gf::gf8_mul(a16, a16),
            a64 == gf::gf8_mul(a32, a32),
            a128 == gf::gf8_mul(a64, a64),
            a6 == gf::gf8_mul(a2, a4),
            a14 == gf::gf8_mul(a6, a8),
            a30 == gf::gf8_mul(a14, a16),
            a62 == gf::gf8_mul(a30, a32),
            a126 == gf::gf8_mul(a62, a64),
            a254 == gf::gf8_mul(a126, a128),
    ;
    if a == 0 {
        lemma_gf8_units(0);
        lemma_gf8_units(a128);
    }
}

impl Ring for u16 {
    open spec fn plus(self, other: u16) -> u16 {
        self ^ other
    }

    open spec fn times(self, other: u16) -> u16 {
        gf::gf16_mul(self, other)
    }

    open spec fn zero() -> u16 {
        0
    }

    open spec fn one() -> u16 {
        1
    }

    open spec fn tau() -> u16 {
        0x2000
    }

    proof fn sums(a: u16, b: u16, c: u16, d: u16, e: u16, f: u16, g: u16, h: u16) {
        assert(a ^ b == b ^ a && (a ^ b) ^ c == a ^ (b ^ c) && a ^ a == 0 && a ^ 0 == a && (a ^ b) ^ (c
            ^ d) == (a ^ c) ^ (b ^ d) && (a ^ b) ^ ((c ^ d) ^ e) == (a ^ c) ^ ((d ^ b) ^ e) && ((a ^ b)
            ^ ((c ^ d) ^ e)) ^ ((f ^ g) ^ h) == (((a ^ c) ^ f) ^ (d ^ b)) ^ ((g ^ e) ^ h) && ((a ^ b) ^ (
        c ^ d)) ^ (e ^ f) == ((a ^ c) ^ e) ^ ((b ^ d) ^ f)) by (bit_vector);
    }

    proof fn units(a: u16) {
        reveal(gf::gf16_mul);
        let (a0, a1) = (a as u8, (a >> 8) as u8);
        lemma_ext_units(a0, a1);
        lemma_halves16(a, 0, 0, 0, 0, 0);
        lemma_halves16(0, 0, 0, 0, 0, 0);
    }

    proof fn commutes(a: u16, b: u16) {
        reveal(gf::gf16_mul);
        let (a0, a1) = (a as u8, (a >> 8) as u8);
        let (b0, b1) = (b as u8, (b >> 8) as u8);
        lemma_ext_commutes(a0, a1, b0, b1);
    }

    proof fn associates(a: u16, b: u16, c: u16) {
        reveal(gf::gf16_mul);
        let (a0, a1) = (a as u8, (a >> 8) as u8);
        let (b0, b1) = (b as u8, (b >> 8) as u8);
        let (c0, c1) = (c as u8, (c >> 8) as u8);
        lemma_ext_associates(a0, a1, b0, b1, c0, c1);
        lemma_halves16(
            a,
            ext_lo(a0, a1, b0, b1),
            ext_hi(a0, a1, b0, b1),
            a,
            ext_lo(b0, b1, c0, c1),
            ext_hi(b0, b1, c0, c1),
        );
        lemma_halves16(
            a,
            ext_lo(b0, b1, c0, c1),
            ext_hi(b0, b1, c0, c1),
            a,
            0,
            0,
        );
    }

    proof fn distributes(a: u16, b: u16, c: u16) {
        reveal(gf::gf16_mul);
        let (a0, a1) = (a as u8, (a >> 8) as u8);
        let (b0, b1) = (b as u8, (b >> 8) as u8);
        let (c0, c1) = (c as u8, (c >> 8) as u8);
        lemma_ext_distributes(a0, a1, b0, b1, c0, c1);
        lemma_halves16(
            b,
            ext_lo(a0, a1, b0, b1),
            ext_hi(a0, a1, b0, b1),
            c,
            ext_lo(a0, a1, c0, c1),
            ext_hi(a0, a1, c0, c1),
        );
    }

    proof fn no_root(y: u16) {
        reveal(gf::gf16_mul);
        let (y0, y1) = (y as u8, (y >> 8) as u8);
        lemma_ext_no_root(y0, y1);
        let square = gf::gf16_mul(y, y);
        lemma_halves16(square, ext_lo(y0, y1, y0, y1), ext_hi(y0, y1, y0, y1), y, 0, 0);
    }

    proof fn inverse(a: u16) -> (b: u16) {
        reveal(gf::gf16_mul);
        let (a0, a1) = (a as u8, (a >> 8) as u8);
        lemma_halves16(a, 0, 0, 0, 0, 0);
        lemma_halves16(0, 0, 0, 0, 0, 0);
        lemma_halves16(1, 0, 0, 0, 0, 0);
        let (b0, b1) = lemma_ext_inverse(a0, a1);
        lemma_halves16(a, b0, b1, 0, 0, 0);
        (b0 as u16) | ((b1 as u16) << 8)
    }
}

/// Splitting into halves and joining them undo each other, joining weighs
/// the upper half, and both respect sums; zero, one and `τ` split as the tower has them.
pub proof fn lemma_halves16(x: u16, lo: u8, hi: u8, y: u16, lo2: u8, hi2: u8)
    ensures
        ((lo as u16) | ((hi as u16) << 8)) == lo + hi * 0x100,
        ((lo as u16) | ((hi as u16) << 8)) as u8 == lo,
        (((lo as u16) | ((hi as u16) << 8)) >> 8) as u8 == hi,
        (x as u8 as u16) | (((x >> 8) as u8 as u16) << 8) == x,
        (x ^ y) as u8 == x as u8 ^ y as u8,
        ((x ^ y) >> 8) as u8 == (x >> 8) as u8 ^ (y >> 8) as u8,
        ((lo ^ lo2) as u16) | (((hi ^ hi2) as u16) << 8) == ((lo as u16) | ((hi as u16) << 8)) ^ ((
        lo2 as u16) | ((hi2 as u16) << 8)),
        1u16 as u8 == 1,
        (1u16 >> 8) as u8 == 0,
        0u16 as u8 == 0,
        (0u16 >> 8) as u8 == 0,
        (0x2000u16 >> 8) as u8 == 0x20,
{
    assert(((lo as u16) | ((hi as u16) << 8)) == lo + hi * 0x100 && ((lo as u16) | ((hi as u16) << 8)) as u8 == lo && (((lo as u16) | ((hi as u16) << 8))
        >> 8) as u8 == hi && (x as u8 as u16) | (((x >> 8) as u8 as u16) << 8) == x && (x ^ y)
        as u8 == x as u8 ^ y as u8 && ((x ^ y) >> 8) as u8 == (x >> 8) as u8 ^ (y >> 8) as u8
        && ((lo ^ lo2) as u16) | (((hi ^ hi2) as u16) << 8) == ((lo as u16) | ((hi as u16) << 8)) ^ ((
    lo2 as u16) | ((hi2 as u16) << 8)) && 1u16 as u8 == 1 && (1u16 >> 8) as u8 == 0 && 0u16 as u8
        == 0 && (0u16 >> 8) as u8 == 0 && (0x2000u16 >> 8) as u8 == 0x20) by (bit_vector);
}

impl Ring for u32 {
    open spec fn plus(self, other: u32) -> u32 {
        self ^ other
    }

    open spec fn times(self, other: u32) -> u32 {
        gf::gf32_mul(self, other)
    }

    open spec fn zero() -> u32 {
        0
    }

    open spec fn one() -> u32 {
        1
    }

    open spec fn tau() -> u32 {
        0x2000_0000
    }

    proof fn sums(a: u32, b: u32, c: u32, d: u32, e: u32, f: u32, g: u32, h: u32) {
        assert(a ^ b == b ^ a && (a ^ b) ^ c == a ^ (b ^ c) && a ^ a == 0 && a ^ 0 == a && (a ^ b) ^ (c
            ^ d) == (a ^ c) ^ (b ^ d) && (a ^ b) ^ ((c ^ d) ^ e) == (a ^ c) ^ ((d ^ b) ^ e) && ((a ^ b)
            ^ ((c ^ d) ^ e)) ^ ((f ^ g) ^ h) == (((a ^ c) ^ f) ^ (d ^ b)) ^ ((g ^ e) ^ h) && ((a ^ b) ^ (
        c ^ d)) ^ (e ^ f) == ((a ^ c) ^ e) ^ ((b ^ d) ^ f)) by (bit_vector);
    }

    proof fn units(a: u32) {
        reveal(gf::gf32_mul);
        let (a0, a1) = (a as u16, (a >> 16) as u16);
        lemma_ext_units(a0, a1);
        lemma_halves32(a, 0, 0, 0, 0, 0);
        lemma_halves32(0, 0, 0, 0, 0, 0);
    }

    proof fn commutes(a: u32, b: u32) {
        reveal(gf::gf32_mul);
        let (a0, a1) = (a as u16, (a >> 16) as u16);
        let (b0, b1) = (b as u16, (b >> 16) as u16);
        lemma_ext_commutes(a0, a1, b0, b1);
    }

    proof fn associates(a: u32, b: u32, c: u32) {
        reveal(gf::gf32_mul);
        let (a0, a1) = (a as u16, (a >> 16) as u16);
        let (b0, b1) = (b as u16, (b >> 16) as u16);
        let (c0, c1) = (c as u16, (c >> 16) as u16);
        lemma_ext_associates(a0, a1, b0, b1, c0, c1);
        lemma_halves32(
            a,
            ext_lo(a0, a1, b0, b1),
            ext_hi(a0, a1, b0, b1),
            a,
            ext_lo(b0, b1, c0, c1),
            ext_hi(b0, b1, c0, c1),
        );
        lemma_halves32(
            a,
            ext_lo(b0, b1, c0, c1),
            ext_hi(b0, b1, c0, c1),
            a,
            0,
            0,
        );
    }

    proof fn distributes(a: u32, b: u32, c: u32) {
        reveal(gf::gf32_mul);
        let (a0, a1) = (a as u16, (a >> 16) as u16);
        let (b0, b1) = (b as u16, (b >> 16) as u16);
        let (c0, c1) = (c as u16, (c >> 16) as u16);
        lemma_ext_distributes(a0, a1, b0, b1, c0, c1);
        lemma_halves32(
            b,
            ext_lo(a0, a1, b0, b1),
            ext_hi(a0, a1, b0, b1),
            c,
            ext_lo(a0, a1, c0, c1),
            ext_hi(a0, a1, c0, c1),
        );
    }

    proof fn no_root(y: u32) {
        reveal(gf::gf32_mul);
        let (y0, y1) = (y as u16, (y >> 16) as u16);
        lemma_ext_no_root(y0, y1);
        let square = gf::gf32_mul(y, y);
        lemma_halves32(square, ext_lo(y0, y1, y0, y1), ext_hi(y0, y1, y0, y1), y, 0, 0);
    }

    proof fn inverse(a: u32) -> (b: u32) {
        reveal(gf::gf32_mul);
        let (a0, a1) = (a as u16, (a >> 16) as u16);
        lemma_halves32(a, 0, 0, 0, 0, 0);
        lemma_halves32(0, 0, 0, 0, 0, 0);
        lemma_halves32(1, 0, 0, 0, 0, 0);
        let (b0, b1) = lemma_ext_inverse(a0, a1);
        lemma_halves32(a, b0, b1, 0, 0, 0);
        (b0 as u32) | ((b1 as u32) << 16)
    }
}

/// Splitting into halves and joining them undo each other, joining weighs
/// the upper half, and both respect sums; zero, one and `τ` split as the tower has them.
pub proof fn lemma_halves32(x: u32, lo: u16, hi: u16, y: u32, lo2: u16, hi2: u16)
    ensures
        ((lo as u32) | ((hi as u32) << 16)) == lo + hi * 0x1_0000,
        ((lo as u32) | ((hi as u32) << 16)) as u16 == lo,
        (((lo as u32) | ((hi as u32) << 16)) >> 16) as u16 == hi,
        (x as u16 as u32) | (((x >> 16) as u16 as u32) << 16) == x,
        (x ^ y) as u16 == x as u16 ^ y as u16,
        ((x ^ y) >> 16) as u16 == (x >> 16) as u16 ^ (y >> 16) as u16,
        ((lo ^ lo2) as u32) | (((hi ^ hi2) as u32) << 16) == ((lo as u32) | ((hi as u32) << 16)) ^ ((
        lo2 as u32) | ((hi2 as u32) << 16)),
        1u32 as u16 == 1,
        (1u32 >> 16) as u16 == 0,
        0u32 as u16 == 0,
        (0u32 >> 16) as u16 == 0,
        (0x2000_0000u32 >> 16) as u16 == 0x2000,
{
    assert(((lo as u32) | ((hi as u32) << 16)) == lo + hi * 0x1_0000 && ((lo as u32) | ((hi as u32) << 16)) as u16 == lo && (((lo as u32) | ((hi as u32) << 16))
        >> 16) as u16 == hi && (x as u16 as u32) | (((x >> 16) as u16 as u32) << 16) == x && (x ^ y)
        as u16 == x as u16 ^ y as u16 && ((x ^ y) >> 16) as u16 == (x >> 16) as u16 ^ (y >> 16) as u16
        && ((lo ^ lo2) as u32) | (((hi ^ hi2) as u32) << 16) == ((lo as u32) | ((hi as u32) << 16)) ^ ((
    lo2 as u32) | ((hi2 as u32) << 16)) && 1u32 as u16 == 1 && (1u32 >> 16) as u16 == 0 && 0u32 as u16
        == 0 && (0u32 >> 16) as u16 == 0 && (0x2000_0000u32 >> 16) as u16 == 0x2000) by (bit_vector);
}

impl Ring for u64 {
    open spec fn plus(self, other: u64) -> u64 {
        self ^ other
    }

    open spec fn times(self, other: u64) -> u64 {
        gf::gf64_mul(self, other)
    }

    open spec fn zero() -> u64 {
        0
    }

    open spec fn one() -> u64 {
        1
    }

    open spec fn tau() -> u64 {
        0x2000_0000_0000_0000
    }

    proof fn sums(a: u64, b: u64, c: u64, d: u64, e: u64, f: u64, g: u64, h: u64) {
        assert(a ^ b == b ^ a && (a ^ b) ^ c == a ^ (b ^ c) && a ^ a == 0 && a ^ 0 == a && (a ^ b) ^ (c
            ^ d) == (a ^ c) ^ (b ^ d) && (a ^ b) ^ ((c ^ d) ^ e) == (a ^ c) ^ ((d ^ b) ^ e) && ((a ^ b)
            ^ ((c ^ d) ^ e)) ^ ((f ^ g) ^ h) == (((a ^ c) ^ f) ^ (d ^ b)) ^ ((g ^ e) ^ h) && ((a ^ b) ^ (
        c ^ d)) ^ (e ^ f) == ((a ^ c) ^ e) ^ ((b ^ d) ^ f)) by (bit_vector);
    }

    proof fn units(a: u64) {
        reveal(gf::gf64_mul);
        let (a0, a1) = (a as u32, (a >> 32) as u32);
        lemma_ext_units(a0, a1);
        lemma_halves64(a, 0, 0, 0, 0, 0);
        lemma_halves64(0, 0, 0, 0, 0, 0);
    }

    proof fn commutes(a: u64, b: u64) {
        reveal(gf::gf64_mul);
        let (a0, a1) = (a as u32, (a >> 32) as u32);
        let (b0, b1) = (b as u32, (b >> 32) as u32);
        lemma_ext_commutes(a0, a1, b0, b1);
    }

    proof fn associates(a: u64, b: u64, c: u64) {
        reveal(gf::gf64_mul);
        let (a0, a1) = (a as u32, (a >> 32) as u32);
        let (b0, b1) = (b as u32, (b >> 32) as u32);
        let (c0, c1) = (c as u32, (c >> 32) as u32);
        lemma_ext_associates(a0, a1, b0, b1, c0, c1);
        lemma_halves64(
            a,
            ext_lo(a0, a1, b0, b1),
            ext_hi(a0, a1, b0, b1),
            a,
            ext_lo(b0, b1, c0, c1),
            ext_hi(b0, b1, c0, c1),
        );
        lemma_halves64(
            a,
            ext_lo(b0, b1, c0, c1),
            ext_hi(b0, b1, c0, c1),
            a,
            0,
            0,
        );
    }

    proof fn distributes(a: u64, b: u64, c: u64) {
        reveal(gf::gf64_mul);
        let (a0, a1) = (a as u32, (a >> 32) as u32);
        let (b0, b1) = (b as u32, (b >> 32) as u32);
        let (c0, c1) = (c as u32, (c >> 32) as u32);
        lemma_ext_distributes(a0, a1, b0, b1, c0, c1);
        lemma_halves64(
            b,
            ext_lo(a0, a1, b0, b1),
            ext_hi(a0, a1, b0, b1),
            c,
            ext_lo(a0, a1, c0, c1),
            ext_hi(a0, a1, c0, c1),
        );
    }

    proof fn no_root(y: u64) {
        reveal(gf::gf64_mul);
        let (y0, y1) = (y as u32, (y >> 32) as u32);
        lemma_ext_no_root(y0, y1);
        let square = gf::gf64_mul(y, y);
        lemma_halves64(square, ext_lo(y0, y1, y0, y1), ext_hi(y0, y1, y0, y1), y, 0, 0);
    }

    proof fn inverse(a: u64) -> (b: u64) {
        reveal(gf::gf64_mul);
        let (a0, a1) = (a as u32, (a >> 32) as u32);
        lemma_halves64(a, 0, 0, 0, 0, 0);
        lemma_halves64(0, 0, 0, 0, 0, 0);
        lemma_halves64(1, 0, 0, 0, 0, 0);
        let (b0, b1) = lemma_ext_inverse(a0, a1);
        lemma_halves64(a, b0, b1, 0, 0, 0);
        (b0 as u64) | ((b1 as u64) << 32)
    }
}

/// Splitting into halves and joining them undo each other, joining weighs
/// the upper half, and both respect sums; zero, one and `τ` split as the tower has them.
pub proof fn lemma_halves64(x: u64, lo: u32, hi: u32, y: u64, lo2: u32, hi2: u32)
    ensures
        ((lo as u64) | ((hi as u64) << 32)) == lo + hi * 0x1_0000_0000,
        ((lo as u64) | ((hi as u64) << 32)) as u32 == lo,
        (((lo as u64) | ((hi as u64) << 32)) >> 32) as u32 == hi,
        (x as u32 as u64) | (((x >> 32) as u32 as u64) << 32) == x,
        (x ^ y) as u32 == x as u32 ^ y as u32,
        ((x ^ y) >> 32) as u32 == (x >> 32) as u32 ^ (y >> 32) as u32,
        ((lo ^ lo2) as u64) | (((hi ^ hi2) as u64) << 32) == ((lo as u64) | ((hi as u64) << 32)) ^ ((
        lo2 as u64) | ((hi2 as u64) << 32)),
        1u64 as u32 == 1,
        (1u64 >> 32) as u32 == 0,
        0u64 as u32 == 0,
        (0u64 >> 32) as u32 == 0,
        (0x2000_0000_0000_0000u64 >> 32) as u32 == 0x2000_0000,
{
    assert(((lo as u64) | ((hi as u64) << 32)) == lo + hi * 0x1_0000_0000 && ((lo as u64) | ((hi as u64) << 32)) as u32 == lo && (((lo as u64) | ((hi as u64) << 32))
        >> 32) as u32 == hi && (x as u32 as u64) | (((x >> 32) as u32 as u64) << 32) == x && (x ^ y)
        as u32 == x as u32 ^ y as u32 && ((x ^ y) >> 32) as u32 == (x >> 32) as u32 ^ (y >> 32) as u32
        && ((lo ^ lo2) as u64) | (((hi ^ hi2) as u64) << 32) == ((lo as u64) | ((hi as u64) << 32)) ^ ((
    lo2 as u64) | ((hi2 as u64) << 32)) && 1u64 as u32 == 1 && (1u64 >> 32) as u32 == 0 && 0u64 as u32
        == 0 && (0u64 >> 32) as u32 == 0 && (0x2000_0000_0000_0000u64 >> 32) as u32 == 0x2000_0000) by (bit_vector);
}

impl Ring for u128 {
    open spec fn plus(self, other: u128) -> u128 {
        self ^ other
    }

    open spec fn times(self, other: u128) -> u128 {
        gf::gf128_mul(self, other)
    }

    open spec fn zero() -> u128 {
        0
    }

    open spec fn one() -> u128 {
        1
    }

    open spec fn tau() -> u128 {
        0x2000_0000_0000_0000_0000_0000_0000_0000
    }

    proof fn sums(a: u128, b: u128, c: u128, d: u128, e: u128, f: u128, g: u128, h: u128) {
        assert(a ^ b == b ^ a && (a ^ b) ^ c == a ^ (b ^ c) && a ^ a == 0 && a ^ 0 == a && (a ^ b) ^ (c
            ^ d) == (a ^ c) ^ (b ^ d) && (a ^ b) ^ ((c ^ d) ^ e) == (a ^ c) ^ ((d ^ b) ^ e) && ((a ^ b)
            ^ ((c ^ d) ^ e)) ^ ((f ^ g) ^ h) == (((a ^ c) ^ f) ^ (d ^ b)) ^ ((g ^ e) ^ h) && ((a ^ b) ^ (
        c ^ d)) ^ (e ^ f) == ((a ^ c) ^ e) ^ ((b ^ d) ^ f)) by (bit_vector);
    }

    proof fn units(a: u128) {
        reveal(gf::gf128_mul);
        let (a0, a1) = (a as u64, (a >> 64) as u64);
        lemma_ext_units(a0, a1);
        lemma_halves128(a, 0, 0, 0, 0, 0);
        lemma_halves128(0, 0, 0, 0, 0, 0);
    }

    proof fn commutes(a: u128, b: u128) {
        reveal(gf::gf128_mul);
        let (a0, a1) = (a as u64, (a >> 64) as u64);
        let (b0, b1) = (b as u64, (b >> 64) as u64);
        lemma_ext_commutes(a0, a1, b0, b1);
    }

    proof fn associates(a: u128, b: u128, c: u128) {
        reveal(gf::gf128_mul);
        let (a0, a1) = (a as u64, (a >> 64) as u64);
        let (b0, b1) = (b as u64, (b >> 64) as u64);
        let (c0, c1) = (c as u64, (c >> 64) as u64);
        lemma_ext_associates(a0, a1, b0, b1, c0, c1);
        lemma_halves128(
            a,
            ext_lo(a0, a1, b0, b1),
            ext_hi(a0, a1, b0, b1),
            a,
            ext_lo(b0, b1, c0, c1),
            ext_hi(b0, b1, c0, c1),
        );
        lemma_halves128(
            a,
            ext_lo(b0, b1, c0, c1),
            ext_hi(b0, b1, c0, c1),
            a,
            0,
            0,
        );
    }

    proof fn distributes(a: u128, b: u128, c: u128) {
        reveal(gf::gf128_mul);
        let (a0, a1) = (a as u64, (a >> 64) as u64);
        let (b0, b1) = (b as u64, (b >> 64) as u64);
        let (c0, c1) = (c as u64, (c >> 64) as u64);
        lemma_ext_distributes(a0, a1, b0, b1, c0, c1);
        lemma_halves128(
            b,
            ext_lo(a0, a1, b0, b1),
            ext_hi(a0, a1, b0, b1),
            c,
            ext_lo(a0, a1, c0, c1),
            ext_hi(a0, a1, c0, c1),
        );
    }

    proof fn no_root(y: u128) {
        reveal(gf::gf128_mul);
        let (y0, y1) = (y as u64, (y >> 64) as u64);
        lemma_ext_no_root(y0, y1);
        let square = gf::gf128_mul(y, y);
        lemma_halves128(square, ext_lo(y0, y1, y0, y1), ext_hi(y0, y1, y0, y1), y, 0, 0);
    }

    proof fn inverse(a: u128) -> (b: u128) {
        reveal(gf::gf128_mul);
        let (a0, a1) = (a as u64, (a >> 64) as u64);
        lemma_halves128(a, 0, 0, 0, 0, 0);
        lemma_halves128(0, 0, 0, 0, 0, 0);
        lemma_halves128(1, 0, 0, 0, 0, 0);
        let (b0, b1) = lemma_ext_inverse(a0, a1);
        lemma_halves128(a, b0, b1, 0, 0, 0);
        (b0 as u128) | ((b1 as u128) << 64)
    }
}

/// Splitting into halves and joining them undo each other, joining weighs
/// the upper half, and both respect sums; zero, one and `τ` split as the tower has them.
pub proof fn lemma_halves128(x: u128, lo: u64, hi: u64, y: u128, lo2: u64, hi2: u64)
    ensures
        ((lo as u128) | ((hi as u128) << 64)) == lo + hi * 0x1_0000_0000_0000_0000,
        ((lo as u128) | ((hi as u128) << 64)) as u64 == lo,
        (((lo as u128) | ((hi as u128) << 64)) >> 64) as u64 == hi,
        (x as u64 as u128) | (((x >> 64) as u64 as u128) << 64) == x,
        (x ^ y) as u64 == x as u64 ^ y as u64,
        ((x ^ y) >> 64) as u64 == (x >> 64) as u64 ^ (y >> 64) as u64,
        ((lo ^ lo2) as u128) | (((hi ^ hi2) as u128) << 64) == ((lo as u128) | ((hi as u128) << 64)) ^ ((
        lo2 as u128) | ((hi2 as u128) << 64)),
        1u128 as u64 == 1,
        (1u128 >> 64) as u64 == 0,
        0u128 as u64 == 0,
        (0u128 >> 64) as u64 == 0,
        (0x2000_0000_0000_0000_0000_0000_0000_0000u128 >> 64) as u64 == 0x2000_0000_0000_0000,
{
    assert(((lo as u128) | ((hi as u128) << 64)) == lo + hi * 0x1_0000_0000_0000_0000 && ((lo as u128) | ((hi as u128) << 64)) as u64 == lo && (((lo as u128) | ((hi as u128) << 64))
        >> 64) as u64 == hi && (x as u64 as u128) | (((x >> 64) as u64 as u128) << 64) == x && (x ^ y)
        as u64 == x as u64 ^ y as u64 && ((x ^ y) >> 64) as u64 == (x >> 64) as u64 ^ (y >> 64) as u64
        && ((lo ^ lo2) as u128) | (((hi ^ hi2) as u128) << 64) == ((lo as u128) | ((hi as u128) << 64)) ^ ((
    lo2 as u128) | ((hi2 as u128) << 64)) && 1u128 as u64 == 1 && (1u128 >> 64) as u64 == 0 && 0u128 as u64
        == 0 && (0u128 >> 64) as u64 == 0 && (0x2000_0000_0000_0000_0000_0000_0000_0000u128 >> 64) as u64 == 0x2000_0000_0000_0000) by (bit_vector);
}

// ---------------------------------------------------------------
// Inverses in GF(2^128)
// ---------------------------------------------------------------

/// The inverse inverts.
pub proof fn law_inverse(a: u128)
    requires
        a != 0,
    ensures
        gf::gf128_mul(a, gf::gf128_inv(a)) == 1,
        gf::gf128_mul(gf::gf128_inv(a), a) == 1,
        gf::gf128_inv(a) != 0,
{
    let b = <u128 as Ring>::inverse(a);
    assert(gf::gf128_mul(a, b) == 1);
    let c = gf::gf128_inv(a);
    <u128 as Ring>::commutes(a, c);
    <u128 as Ring>::units(a);
}

/// There is one inverse.
pub proof fn law_inverse_is_unique(a: u128, b: u128)
    requires
        gf::gf128_mul(a, b) == 1,
    ensures
        a != 0,
        b == gf::gf128_inv(a),
{
    <u128 as Ring>::units(b);
    <u128 as Ring>::commutes(0, b);
    law_inverse(a);
    let c = gf::gf128_inv(a);
    <u128 as Ring>::units(c);
    <u128 as Ring>::associates(c, a, b);
    <u128 as Ring>::commutes(1, b);
}

/// The inverse of a product is the product of the inverses.
pub proof fn law_inverse_of_product(a: u128, b: u128)
    requires
        a != 0,
        b != 0,
    ensures
        gf::gf128_mul(a, b) != 0,
        gf::gf128_inv(gf::gf128_mul(a, b)) == gf::gf128_mul(gf::gf128_inv(a), gf::gf128_inv(b)),
{
    let (x, y) = (gf::gf128_inv(a), gf::gf128_inv(b));
    law_inverse(a);
    law_inverse(b);
    // (a·b)·(x·y) = a·((b·x)·y) = (a·x)·(b·y)
    let ab = gf::gf128_mul(a, b);
    <u128 as Ring>::associates(a, b, gf::gf128_mul(x, y));
    <u128 as Ring>::associates(b, x, y);
    <u128 as Ring>::commutes(b, x);
    <u128 as Ring>::associates(x, b, y);
    <u128 as Ring>::units(x);
    law_inverse_is_unique(ab, gf::gf128_mul(x, y));
}

} // verus!
