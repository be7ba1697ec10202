//! Integers as exponents of an element of GF(2^128).
//!
//! `x` travels as `G^x`: an integer sum is a field product, and `x · 2^j` is
//! `j` squarings. Every integer that goes through these chains must stay below
//! the group order `2^128 - 1`; past it the exponent wraps.

use vstd::arithmetic::power2::*;
use vstd::prelude::*;

use super::generator;
use super::int_laws;
use crate::bits;
use crate::errors::Error;
use crate::field::gf;
use crate::field::laws::Ring;
use crate::field::{Block128, Flat, TowerField};
use crate::program::constraint;
use crate::program::constraint::{ConstraintSystem, Env, Expr};

verus! {

pub const GROUP_BITS: usize = 128;

/// The order of the multiplicative group, `2^128 - 1`.
pub const GROUP_ORDER: u128 = 0xFFFF_FFFF_FFFF_FFFF_FFFF_FFFF_FFFF_FFFF;

/// The primes that divide the group order.
pub const GROUP_ORDER_PRIMES: [u128; 9] = [
    3,
    5,
    17,
    257,
    641,
    65537,
    274177,
    6700417,
    67280421310721,
];

/// The first candidate: lower tower elements lie in GF(2^64), whose orders
/// divide `2^64 - 1`.
pub const SEARCH_BASE: u128 = 0x1_0000_0000_0000_0000;

/// How many candidates are tried.
pub const SEARCH_WINDOW: u128 = 4096;

// ---------------------------------------------------------------
// Powers
// ---------------------------------------------------------------

/// Exponents add.
pub proof fn law_powers_add(g: u128, a: nat, b: nat)
    ensures
        gf::gf128_pow(g, a + b) == gf::gf128_mul(gf::gf128_pow(g, a), gf::gf128_pow(g, b)),
    decreases b,
{
    let x = gf::gf128_pow(g, a);
    if b == 0 {
        <u128 as Ring>::units(x);
    } else {
        law_powers_add(g, a, (b - 1) as nat);
        <u128 as Ring>::associates(x, gf::gf128_pow(g, (b - 1) as nat), g);
    }
}

/// Exponents of exponents multiply.
pub proof fn law_powers_multiply(g: u128, a: nat, b: nat)
    ensures
        gf::gf128_pow(gf::gf128_pow(g, a), b) == gf::gf128_pow(g, a * b),
    decreases b,
{
    if b == 0 {
        assert(a * 0 == 0) by (nonlinear_arith);
    } else {
        let c = (b - 1) as nat;
        law_powers_multiply(g, a, c);
        law_powers_add(g, a * c, a);
        assert(a * c + a == a * b) by (nonlinear_arith)
            requires
                c == b - 1,
        ;
    }
}

/// A square doubles the exponent.
pub proof fn law_square_doubles(g: u128, a: nat)
    ensures
        gf::gf128_mul(gf::gf128_pow(g, a), gf::gf128_pow(g, a)) == gf::gf128_pow(g, 2 * a),
{
    law_powers_add(g, a, a);
}

/// The first power is the element.
pub proof fn lemma_first_power(g: u128)
    ensures
        gf::gf128_pow(g, 1) == g,
{
    assert(gf::gf128_pow(g, 1) == gf::gf128_mul(gf::gf128_pow(g, 0), g));
    <u128 as Ring>::units(g);
    <u128 as Ring>::commutes(1, g);
}

/// `1 + bit · (p + 1)`: `p` where the bit is set, one elsewhere.
pub open spec fn gated(bit: u128, p: u128) -> u128 {
    1 ^ gf::gf128_mul(bit, p ^ 1)
}

/// What a gate gives for a bit.
pub proof fn lemma_gated(bit: u128, p: u128)
    requires
        bit <= 1,
    ensures
        gated(bit, p) == (if bit == 1 {
            p
        } else {
            1
        }),
{
    let q = p ^ 1;
    int_laws::lemma_mul_boolean(bit, q);
    int_laws::lemma_xor(1, 0);
    int_laws::lemma_xor(p, 1);
    <u128 as Ring>::sums(1, 1, p, 0, 0, 0, 0, 0);
    <u128 as Ring>::sums(p, 1, 1, 0, 0, 0, 0, 0);
    <u128 as Ring>::sums(p, 0, 0, 0, 0, 0, 0, 0);
    <u128 as Ring>::sums(0, p, 0, 0, 0, 0, 0, 0);
}

/// `base^exp`, by squaring and multiplying.
pub fn pow(base: Block128, exp: u128) -> (r: Block128)
    ensures
        r.0 == gf::gf128_pow(base.0, exp as nat),
{
    let mut acc = Block128(1);
    let mut sq = base;
    let mut rest: u128 = exp;
    proof {
        <u128 as Ring>::units(gf::gf128_pow(base.0, exp as nat));
        <u128 as Ring>::commutes(1, gf::gf128_pow(base.0, exp as nat));
    }
    while rest != 0
        invariant
            gf::gf128_mul(acc.0, gf::gf128_pow(sq.0, rest as nat)) == gf::gf128_pow(
                base.0,
                exp as nat,
            ),
        decreases rest,
    {
        let ghost half = (rest / 2) as nat;
        let ghost a = acc.0;
        let ghost s = sq.0;
        proof {
            // sq^rest = (sq²)^half · sq^(rest mod 2)
            lemma_first_power(s);
            law_square_doubles(s, 1);
            law_powers_multiply(s, 2, half);
            law_powers_add(s, 1, 2 * half);
            <u128 as Ring>::associates(a, s, gf::gf128_pow(s, 2 * half));
        }
        if rest % 2 == 1 {
            acc = acc.times(sq);
        }
        sq = sq.times(sq);
        rest = rest / 2;
    }
    proof {
        <u128 as Ring>::units(acc.0);
    }
    acc
}

// ---------------------------------------------------------------
// The generator
// ---------------------------------------------------------------

/// No power `(2^128 - 1) / p` of `g` is one, for the primes `p` that divide
/// the group order.
pub open spec fn passes_order_tests(g: u128) -> bool {
    forall|i: int|
        0 <= i < 9 ==> gf::gf128_pow(
            g,
            (GROUP_ORDER / #[trigger] GROUP_ORDER_PRIMES@[i]) as nat,
        ) != 1
}

fn passes(g: Block128) -> (r: bool)
    ensures
        r == passes_order_tests(g.0),
{
    let mut i: usize = 0;
    let primes: [u128; 9] = GROUP_ORDER_PRIMES;
    while i < 9
        invariant
            i <= 9,
            primes == GROUP_ORDER_PRIMES,
            forall|k: int|
                0 <= k < i ==> gf::gf128_pow(
                    g.0,
                    (GROUP_ORDER / #[trigger] GROUP_ORDER_PRIMES@[k]) as nat,
                ) != 1,
        decreases 9 - i,
    {
        let p: u128 = primes[i];
        assert(p == GROUP_ORDER_PRIMES@[i as int]);
        assert(p > 0);
        if pow(g, GROUP_ORDER / p).0 == 1 {
            return false;
        }
        i = i + 1;
    }
    true
}

/// `g` is the first candidate that passes the order tests.
pub open spec fn is_first_passing(g: u128) -> bool {
    &&& SEARCH_BASE <= g < SEARCH_BASE + SEARCH_WINDOW
    &&& passes_order_tests(g)
    &&& forall|h: u128| SEARCH_BASE <= h < g ==> !#[trigger] passes_order_tests(h)
}

/// The first candidate that passes the order tests, which is primitive.
pub fn primitive_element() -> (r: Option<Block128>)
    ensures
        match r {
            Some(g) => is_first_passing(g.0) && generator::primitive(g.0),
            None => forall|h: u128|
                SEARCH_BASE <= h < SEARCH_BASE + SEARCH_WINDOW ==> !#[trigger] passes_order_tests(
                    h,
                ),
        },
{
    let mut g: u128 = SEARCH_BASE;
    while g < SEARCH_BASE + SEARCH_WINDOW
        invariant
            SEARCH_BASE <= g <= SEARCH_BASE + SEARCH_WINDOW,
            forall|h: u128| SEARCH_BASE <= h < g ==> !#[trigger] passes_order_tests(h),
        decreases SEARCH_BASE + SEARCH_WINDOW - g,
    {
        if passes(Block128(g)) {
            proof {
                generator::law_search_finds_generator(g);
            }
            return Some(Block128(g));
        }
        g = g + 1;
    }
    None
}

/// A generator `G` and its powers `G^(2^i)`.
#[derive(Clone, Debug)]
pub struct ExpBasis {
    generator: Block128,
    pow2: [Flat<Block128>; 128],
}

impl ExpBasis {
    /// The generator.
    pub closed spec fn g(self) -> u128 {
        self.generator.0
    }

    /// The powers are those of the generator.
    pub closed spec fn wf(self) -> bool {
        forall|i: int|
            0 <= i < 128 ==> (#[trigger] self.pow2@[i])@ == gf::gf128_pow(
                self.generator.0,
                pow2(i as nat),
            )
    }

    /// A basis of GF(2^128).
    ///
    /// # Errors
    /// `F` is not that field, or no candidate passes the order tests.
    pub fn new<F: TowerField>() -> (r: Result<Self, Error>)
        ensures
            match r {
                Ok(b) => F::width() == 16 && b.wf() && is_first_passing(b.g())
                    && generator::primitive(b.g()),
                Err(e) => if F::width() != 16 {
                    e.is_protocol(
                        "exp_form"@,
                        "exponent form needs GF(2^128); smaller towers have a group order below the column sums a bignum AIR produces"@,
                    )
                } else {
                    &&& e.is_protocol(
                        "exp_form"@,
                        "no primitive element of GF(2^128)* in the search window"@,
                    )
                    &&& forall|h: u128|
                        SEARCH_BASE <= h < SEARCH_BASE + SEARCH_WINDOW
                            ==> !#[trigger] passes_order_tests(h)
                },
            },
    {
        if F::size() != 16 {
            return Err(
                Error::Protocol {
                    protocol: "exp_form",
                    message:
                        "exponent form needs GF(2^128); smaller towers have a group order below the column sums a bignum AIR produces",
                },
            );
        }
        let generator = match primitive_element() {
            Some(g) => g,
            None => {
                return Err(
                    Error::Protocol {
                        protocol: "exp_form",
                        message: "no primitive element of GF(2^128)* in the search window",
                    },
                );
            },
        };
        let zero = Flat::<Block128>::zero();
        let mut powers: [Flat<Block128>; 128] = [zero;128];
        let mut acc = generator;
        let mut i: usize = 0;
        proof {
            lemma2_to64();
            lemma_first_power(generator.0);
        }
        while i < GROUP_BITS
            invariant
                i <= 128,
                acc.0 == gf::gf128_pow(generator.0, pow2(i as nat)),
                forall|k: int|
                    0 <= k < i ==> (#[trigger] powers@[k])@ == gf::gf128_pow(
                        generator.0,
                        pow2(k as nat),
                    ),
            decreases 128 - i,
        {
            powers[i] = acc.to_hardware();
            proof {
                law_square_doubles(generator.0, pow2(i as nat));
                lemma_pow2_unfold(i as nat + 1);
            }
            acc = acc.times(acc);
            i = i + 1;
        }
        Ok(ExpBasis { generator, pow2: powers })
    }

    pub fn generator(&self) -> (r: Block128)
        ensures
            r.0 == self.g(),
    {
        self.generator
    }

    /// `G^(2^i)`, in the flat basis.
    pub fn pow2(&self) -> (r: &[Flat<Block128>; 128])
        requires
            self.wf(),
        ensures
            forall|i: int|
                0 <= i < 128 ==> (#[trigger] r@[i])@ == gf::gf128_pow(self.g(), pow2(i as nat)),
    {
        &self.pow2
    }

    /// `G^(2^i)`, in the tower basis.
    pub fn tower_pow2(&self) -> (r: [Block128; 128])
        requires
            self.wf(),
        ensures
            forall|i: int|
                0 <= i < 128 ==> (#[trigger] r@[i]).0 == gf::gf128_pow(self.g(), pow2(i as nat)),
    {
        let mut out: [Block128; 128] = [Block128(0);128];
        let mut i: usize = 0;
        while i < GROUP_BITS
            invariant
                i <= 128,
                self.wf(),
                forall|k: int|
                    0 <= k < i ==> (#[trigger] out@[k]).0 == gf::gf128_pow(
                        self.g(),
                        pow2(k as nat),
                    ),
            decreases 128 - i,
        {
            assert(self.pow2@[i as int]@ == gf::gf128_pow(self.generator.0, pow2(i as nat)));
            out[i] = self.pow2[i].to_tower();
            i = i + 1;
        }
        out
    }

    /// `out[t] = G^(x mod 2^(2t+2))`, with the same operations for every `x`.
    pub fn chain2(&self, x: u128, out: &mut [Flat<Block128>])
        requires
            self.wf(),
            2 * old(out)@.len() <= 128,
        ensures
            final(out)@.len() == old(out)@.len(),
            is_chain(self.g(), x as nat, final(out)@),
    {
        let one = Flat::<Block128>::one();
        let mut acc = one;
        let mut rest: u128 = x;
        let ghost g = self.g();
        let mut t: usize = 0;
        proof {
            lemma2_to64();
            assert(x as nat % 1 == 0);
            assert(x as nat / 1 == x);
        }
        while t < out.len()
            invariant
                t <= out@.len(),
                out@.len() == old(out)@.len(),
                2 * out@.len() <= 128,
                self.wf(),
                g == self.g(),
                one@ == 1,
                rest as nat == x as nat / pow2((2 * t) as nat),
                acc@ == gf::gf128_pow(g, x as nat % pow2((2 * t) as nat)),
                forall|k: int|
                    0 <= k < t ==> (#[trigger] out@[k])@ == gf::gf128_pow(
                        g,
                        x as nat % pow2((2 * k + 2) as nat),
                    ),
            decreases out@.len() - t,
        {
            let low: Flat<Block128> = Block128(rest % 2).to_hardware();
            let p0 = self.pow2[2 * t];
            acc = acc.times(one.plus(low.times(p0.plus(one))));
            rest = rest / 2;
            proof {
                lemma_chain_step(g, x as nat, (2 * t) as nat);
            }
            let high: Flat<Block128> = Block128(rest % 2).to_hardware();
            let p1 = self.pow2[2 * t + 1];
            acc = acc.times(one.plus(high.times(p1.plus(one))));
            rest = rest / 2;
            proof {
                lemma_chain_step(g, x as nat, (2 * t + 1) as nat);
            }
            out[t] = acc;
            t = t + 1;
        }
    }
}

/// `cols[t] = G^(x mod 2^(2t+2))`.
pub open spec fn is_chain(g: u128, x: nat, cols: Seq<Flat<Block128>>) -> bool {
    forall|t: int|
        0 <= t < cols.len() ==> (#[trigger] cols[t])@ == gf::gf128_pow(
            g,
            x % pow2((2 * t + 2) as nat),
        )
}

/// One more bit of the exponent.
pub proof fn lemma_chain_step(g: u128, x: nat, i: nat)
    ensures
        gf::gf128_mul(
            gf::gf128_pow(g, x % pow2(i)),
            gated(bits::bit(x, i) as u128, gf::gf128_pow(g, pow2(i))),
        ) == gf::gf128_pow(g, x % pow2(i + 1)),
        (x / pow2(i)) / 2 == x / pow2(i + 1),
        bits::bit(x, i) == (x / pow2(i)) % 2,
        bits::bit(x, i) <= 1,
{
    let b = bits::bit(x, i);
    bits::lemma_mod_pow2_step(x, i);
    lemma_gated(b as u128, gf::gf128_pow(g, pow2(i)));
    lemma_pow2_unfold(i + 1);
    lemma_pow2_pos(i);
    vstd::arithmetic::div_mod::lemma_div_denominator(x as int, pow2(i) as int, 2);
    let lo = x % pow2(i);
    assert(1 * pow2(i) == pow2(i) && 0 * pow2(i) == 0) by (nonlinear_arith);
    if b == 1 {
        law_powers_add(g, lo, pow2(i));
    } else {
        <u128 as Ring>::units(gf::gf128_pow(g, lo));
    }
}

// ---------------------------------------------------------------
// Constraints
// ---------------------------------------------------------------

/// The values of field elements.
pub open spec fn element_values(s: Seq<Block128>) -> Seq<u128> {
    s.map_values(|x: Block128| x.0)
}

/// The cell before cell `t` of a chain; one before the first.
pub open spec fn before(cols: Seq<u128>, t: int) -> u128 {
    if t == 0 {
        1
    } else {
        cols[t - 1]
    }
}

/// What cell `t` of a chain must be, two bits after the cell before it.
pub open spec fn chain_cell(bs: Seq<u128>, cols: Seq<u128>, pow2s: Seq<u128>, t: int) -> u128 {
    gf::gf128_mul(
        gf::gf128_mul(before(cols, t), gated(bs[2 * t], pow2s[2 * t])),
        gated(bs[2 * t + 1], pow2s[2 * t + 1]),
    )
}

/// What a chain imposes: every cell is what it must be.
pub open spec fn chain_roots(bs: Seq<u128>, cols: Seq<u128>, pow2s: Seq<u128>) -> Seq<u128> {
    Seq::new(cols.len(), |t: int| cols[t] ^ chain_cell(bs, cols, pow2s, t))
}

/// `1 + bit · step`.
fn gate(cs: &mut ConstraintSystem, one: Expr, bit: Expr, step: Expr) -> (r: Expr)
    requires
        old(cs).wf(),
        old(cs).has(one),
        old(cs).has(bit),
        old(cs).has(step),
    ensures
        final(cs).wf(),
        final(cs).has(r),
        final(cs).extends(*old(cs)),
        final(cs).degree(r) == constraint::larger(
            old(cs).degree(one),
            old(cs).degree(bit) + old(cs).degree(step),
        ),
        final(cs).root_degrees() == old(cs).root_degrees(),
        forall|env: Env|
            #[trigger] final(cs).value(r, env) == old(cs).value(one, env) ^ gf::gf128_mul(
                old(cs).value(bit, env),
                old(cs).value(step, env),
            ),
        forall|env: Env| (#[trigger] final(cs).root_values(env)) == old(cs).root_values(env),
{
    let gated = cs.times(bit, step);
    cs.plus(one, gated)
}

/// Imposes a chain, two bits per step: `cols[t]` is `cols[t-1]` times the
/// powers that bits `2t` and `2t + 1` select. The last cell is then `G^x` for
/// the number `x` that the bits write.
pub fn constrain_exp_chain2(
    cs: &mut ConstraintSystem,
    bs: &[Expr],
    cols: &[Expr],
    pow2s: &[Block128],
)
    requires
        old(cs).wf(),
        old(cs).has_all(bs@),
        old(cs).has_all(cols@),
        bs@.len() == 2 * cols@.len(),
        bs@.len() == pow2s@.len(),
    ensures
        final(cs).wf(),
        final(cs).extends(*old(cs)),
        forall|d: nat| #[trigger]
            final(cs).within(d) <== old(cs).linear(bs@) && old(cs).linear(cols@) && 3 <= d && old(cs).within(d),
        forall|env: Env|
            (#[trigger] final(cs).root_values(env)) == old(cs).root_values(env) + chain_roots(
                old(cs).values(bs@, env),
                old(cs).values(cols@, env),
                element_values(pow2s@),
            ),
{
    let one = cs.one();
    let mut prev = one;
    let mut t: usize = 0;
    let ghost start = *old(cs);
    proof {
        assert forall|env: Env| (#[trigger] cs.root_values(env)) == start.root_values(env)
            + chain_roots(
            start.values(bs@, env),
            start.values(cols@, env),
            element_values(pow2s@),
        ).take(0) by {
            assert(cs.root_values(env) =~= start.root_values(env) + chain_roots(
                start.values(bs@, env),
                start.values(cols@, env),
                element_values(pow2s@),
            ).take(0));
        }
    }
    while t < cols.len()
        invariant
            t <= cols@.len(),
            bs@.len() == 2 * cols@.len(),
            bs@.len() == pow2s@.len(),
            bs@.len() == bs.len(),
            start == *old(cs),
            start.has_all(bs@),
            start.has_all(cols@),
            cs.wf(),
            cs.extends(start),
            cs.degree(one) == 0,
            start.linear(cols@) ==> cs.degree(prev) <= 1,
            forall|d: nat| #[trigger]
                cs.within(d) <== start.linear(bs@) && start.linear(cols@) && 3 <= d && start.within(d),
            cs.has(one),
            forall|env: Env| #[trigger] cs.value(one, env) == 1,
            cs.has(prev),
            forall|env: Env| #[trigger]
                cs.value(prev, env) == before(start.values(cols@, env), t as int),
            forall|env: Env|
                (#[trigger] cs.root_values(env)) == start.root_values(env) + chain_roots(
                    start.values(bs@, env),
                    start.values(cols@, env),
                    element_values(pow2s@),
                ).take(t as int),
        decreases cols@.len() - t,
    {
        let ghost s0 = *cs;
        let (b0, b1, col) = (bs[2 * t], bs[2 * t + 1], cols[t]);
        let (p0, p1) = (pow2s[2 * t], pow2s[2 * t + 1]);
        proof {
            assert(start.has(bs@[2 * t as int]));
            assert(start.has(bs@[2 * t as int + 1]));
            assert(start.has(cols@[t as int]));
        }
        let step0 = cs.constant(p0.plus(Block128(1)));
        let step1 = cs.constant(p1.plus(Block128(1)));
        let gate0 = gate(cs, one, b0, step0);
        let gate1 = gate(cs, one, b1, step1);
        let half = cs.times(prev, gate0);
        let want = cs.times(half, gate1);
        let residue = cs.plus(col, want);
        cs.constrain(residue);
        prev = col;
        proof {
            assert forall|env: Env| (#[trigger] cs.root_values(env)) == start.root_values(env)
                + chain_roots(
                start.values(bs@, env),
                start.values(cols@, env),
                element_values(pow2s@),
            ).take(t + 1) by {
                let all = chain_roots(
                    start.values(bs@, env),
                    start.values(cols@, env),
                    element_values(pow2s@),
                );
                assert(s0.root_values(env) == start.root_values(env) + all.take(t as int));
                assert(start.value(b0, env) == start.values(bs@, env)[2 * t as int]);
                assert(start.value(b1, env) == start.values(bs@, env)[2 * t as int + 1]);
                assert(start.value(col, env) == start.values(cols@, env)[t as int]);
                assert(all[t as int] == start.value(col, env) ^ chain_cell(
                    start.values(bs@, env),
                    start.values(cols@, env),
                    element_values(pow2s@),
                    t as int,
                ));
                assert(s0.value(prev, env) == s0.value(prev, env));
                assert(cs.root_values(env) =~= start.root_values(env) + all.take(t + 1));
            }
        }
        t = t + 1;
    }
    proof {
        assert forall|env: Env| (#[trigger] cs.root_values(env)) == old(cs).root_values(env)
            + chain_roots(
            old(cs).values(bs@, env),
            old(cs).values(cols@, env),
            element_values(pow2s@),
        ) by {
            let all = chain_roots(
                start.values(bs@, env),
                start.values(cols@, env),
                element_values(pow2s@),
            );
            assert(all.take(cols@.len() as int) =~= all);
        }
    }
}

/// The cell before cell `t` of squarings; the base before the first.
pub open spec fn from_base(base: u128, cols: Seq<u128>, t: int) -> u128 {
    if t == 0 {
        base
    } else {
        cols[t - 1]
    }
}

/// What squarings impose: every cell is the square of the one before.
pub open spec fn squaring_roots(base: u128, cols: Seq<u128>) -> Seq<u128> {
    Seq::new(
        cols.len(),
        |t: int|
            cols[t] ^ gf::gf128_mul(from_base(base, cols, t), from_base(base, cols, t)),
    )
}

/// `x^4`, as two squarings.
pub open spec fn fourth(x: u128) -> u128 {
    gf::gf128_mul(gf::gf128_mul(x, x), gf::gf128_mul(x, x))
}

/// What fourth powers impose: every cell is the fourth power of the one
/// before.
pub open spec fn fourth_roots(base: u128, cols: Seq<u128>) -> Seq<u128> {
    Seq::new(cols.len(), |t: int| cols[t] ^ fourth(from_base(base, cols, t)))
}

/// Imposes squarings.
pub fn constrain_squarings(cs: &mut ConstraintSystem, base: Expr, cols: &[Expr])
    requires
        old(cs).wf(),
        old(cs).has(base),
        old(cs).has_all(cols@),
    ensures
        final(cs).wf(),
        final(cs).extends(*old(cs)),
        forall|d: nat| #[trigger]
            final(cs).within(d) <== old(cs).degree(base) == 1 && old(cs).linear(cols@) && 2 <= d && old(cs).within(d),
        forall|env: Env|
            (#[trigger] final(cs).root_values(env)) == old(cs).root_values(env) + squaring_roots(
                old(cs).value(base, env),
                old(cs).values(cols@, env),
            ),
{
    let mut prev = base;
    let mut t: usize = 0;
    let ghost start = *old(cs);
    proof {
        assert forall|env: Env| (#[trigger] cs.root_values(env)) == start.root_values(env)
            + squaring_roots(start.value(base, env), start.values(cols@, env)).take(0) by {
            assert(cs.root_values(env) =~= start.root_values(env) + squaring_roots(
                start.value(base, env),
                start.values(cols@, env),
            ).take(0));
        }
    }
    while t < cols.len()
        invariant
            t <= cols@.len(),
            start == *old(cs),
            start.has_all(cols@),
            start.has(base),
            cs.wf(),
            cs.extends(start),
            start.degree(base) == 1 && start.linear(cols@) ==> cs.degree(prev) == 1,
            forall|d: nat| #[trigger]
                cs.within(d) <== start.degree(base) == 1 && start.linear(cols@) && 2 <= d && start.within(d),
            cs.has(prev),
            forall|env: Env| #[trigger]
                cs.value(prev, env) == from_base(
                    start.value(base, env),
                    start.values(cols@, env),
                    t as int,
                ),
            forall|env: Env|
                (#[trigger] cs.root_values(env)) == start.root_values(env) + squaring_roots(
                    start.value(base, env),
                    start.values(cols@, env),
                ).take(t as int),
        decreases cols@.len() - t,
    {
        let ghost s0 = *cs;
        let col = cols[t];
        proof {
            assert(start.has(cols@[t as int]));
        }
        let sq = cs.times(prev, prev);
        let residue = cs.plus(col, sq);
        cs.constrain(residue);
        prev = col;
        proof {
            assert forall|env: Env| (#[trigger] cs.root_values(env)) == start.root_values(env)
                + squaring_roots(start.value(base, env), start.values(cols@, env)).take(
                t + 1,
            ) by {
                let all = squaring_roots(start.value(base, env), start.values(cols@, env));
                assert(s0.root_values(env) == start.root_values(env) + all.take(t as int));
                assert(start.value(col, env) == start.values(cols@, env)[t as int]);
                assert(cs.root_values(env) =~= start.root_values(env) + all.take(t + 1));
            }
        }
        t = t + 1;
    }
    proof {
        assert forall|env: Env| (#[trigger] cs.root_values(env)) == old(cs).root_values(env)
            + squaring_roots(old(cs).value(base, env), old(cs).values(cols@, env)) by {
            let all = squaring_roots(start.value(base, env), start.values(cols@, env));
            assert(all.take(cols@.len() as int) =~= all);
        }
    }
}

/// Imposes fourth powers.
pub fn constrain_fourth_powers(cs: &mut ConstraintSystem, base: Expr, cols: &[Expr])
    requires
        old(cs).wf(),
        old(cs).has(base),
        old(cs).has_all(cols@),
    ensures
        final(cs).wf(),
        final(cs).extends(*old(cs)),
        forall|d: nat| #[trigger]
            final(cs).within(d) <== old(cs).degree(base) == 1 && old(cs).linear(cols@) && 4 <= d && old(cs).within(d),
        forall|env: Env|
            (#[trigger] final(cs).root_values(env)) == old(cs).root_values(env) + fourth_roots(
                old(cs).value(base, env),
                old(cs).values(cols@, env),
            ),
{
    let mut prev = base;
    let mut t: usize = 0;
    let ghost start = *old(cs);
    proof {
        assert forall|env: Env| (#[trigger] cs.root_values(env)) == start.root_values(env)
            + fourth_roots(start.value(base, env), start.values(cols@, env)).take(0) by {
            assert(cs.root_values(env) =~= start.root_values(env) + fourth_roots(
                start.value(base, env),
                start.values(cols@, env),
            ).take(0));
        }
    }
    while t < cols.len()
        invariant
            t <= cols@.len(),
            start == *old(cs),
            start.has_all(cols@),
            start.has(base),
            cs.wf(),
            cs.extends(start),
            start.degree(base) == 1 && start.linear(cols@) ==> cs.degree(prev) == 1,
            forall|d: nat| #[trigger]
                cs.within(d) <== start.degree(base) == 1 && start.linear(cols@) && 4 <= d && start.within(d),
            cs.has(prev),
            forall|env: Env| #[trigger]
                cs.value(prev, env) == from_base(
                    start.value(base, env),
                    start.values(cols@, env),
                    t as int,
                ),
            forall|env: Env|
                (#[trigger] cs.root_values(env)) == start.root_values(env) + fourth_roots(
                    start.value(base, env),
                    start.values(cols@, env),
                ).take(t as int),
        decreases cols@.len() - t,
    {
        let ghost s0 = *cs;
        let col = cols[t];
        proof {
            assert(start.has(cols@[t as int]));
        }
        let sq = cs.times(prev, prev);
        let fourth_power = cs.times(sq, sq);
        let residue = cs.plus(col, fourth_power);
        cs.constrain(residue);
        prev = col;
        proof {
            assert forall|env: Env| (#[trigger] cs.root_values(env)) == start.root_values(env)
                + fourth_roots(start.value(base, env), start.values(cols@, env)).take(t + 1) by {
                let all = fourth_roots(start.value(base, env), start.values(cols@, env));
                assert(s0.root_values(env) == start.root_values(env) + all.take(t as int));
                assert(start.value(col, env) == start.values(cols@, env)[t as int]);
                assert(cs.root_values(env) =~= start.root_values(env) + all.take(t + 1));
            }
        }
        t = t + 1;
    }
    proof {
        assert forall|env: Env| (#[trigger] cs.root_values(env)) == old(cs).root_values(env)
            + fourth_roots(old(cs).value(base, env), old(cs).values(cols@, env)) by {
            let all = fourth_roots(start.value(base, env), start.values(cols@, env));
            assert(all.take(cols@.len() as int) =~= all);
        }
    }
}

// ---------------------------------------------------------------
// What the constraints prove
// ---------------------------------------------------------------

/// The powers `g^(2^i)`.
pub open spec fn generator_powers(g: u128, n: nat) -> Seq<u128> {
    Seq::new(n, |i: int| gf::gf128_pow(g, pow2(i as nat)))
}

/// `g^(x mod 2^(2t+2))`.
pub open spec fn chain_power(g: u128, x: nat, t: int) -> u128 {
    gf::gf128_pow(g, x % pow2((2 * t + 2) as nat))
}

/// What a chain's cells are, for the number that the bits write.
pub open spec fn chain_of(g: u128, x: nat, n: nat) -> Seq<u128> {
    Seq::new(n, |t: int| chain_power(g, x, t))
}

proof fn lemma_chain_cell(g: u128, x: nat, n: nat, t: int)
    requires
        0 <= t < n,
    ensures
        chain_cell(
            int_laws::bits_of(x, 2 * n),
            chain_of(g, x, n),
            generator_powers(g, 2 * n),
            t,
        ) == chain_of(g, x, n)[t],
{
    let i = (2 * t) as nat;
    lemma2_to64();
    if t == 0 {
        assert(x % 1 == 0);
    }
    lemma_chain_step(g, x, i);
    lemma_chain_step(g, x, i + 1);
    let bs = int_laws::bits_of(x, 2 * n);
    assert(bs[2 * t] == bits::bit(x, i) && bs[2 * t + 1] == bits::bit(x, i + 1));
}

/// A chain over the bits of a number is met by the powers `g^(x mod 2^(2t+2))`
/// and by nothing else.
pub proof fn law_chain_proves_power(g: u128, x: nat, cols: Seq<u128>)
    ensures
        int_laws::all_zero(
            chain_roots(
                int_laws::bits_of(x, 2 * cols.len()),
                cols,
                generator_powers(g, 2 * cols.len()),
            ),
        ) <==> cols == chain_of(g, x, cols.len()),
{
    let n = cols.len();
    let bs = int_laws::bits_of(x, 2 * n);
    let ps = generator_powers(g, 2 * n);
    let want = chain_of(g, x, n);
    let roots = chain_roots(bs, cols, ps);
    if cols == want {
        assert forall|t: int| 0 <= t < roots.len() implies #[trigger] roots[t] == 0 by {
            lemma_chain_cell(g, x, n, t);
            int_laws::lemma_xor(cols[t], want[t]);
        }
    }
    if int_laws::all_zero(roots) {
        lemma_chain_forced(g, x, cols, n);
        assert(cols =~= want);
    }
}

proof fn lemma_chain_forced(g: u128, x: nat, cols: Seq<u128>, k: nat)
    requires
        k <= cols.len(),
        int_laws::all_zero(
            chain_roots(
                int_laws::bits_of(x, 2 * cols.len()),
                cols,
                generator_powers(g, 2 * cols.len()),
            ),
        ),
    ensures
        forall|t: int| 0 <= t < k ==> #[trigger] cols[t] == chain_of(g, x, cols.len())[t],
    decreases k,
{
    if k > 0 {
        let n = cols.len();
        let t = k - 1;
        lemma_chain_forced(g, x, cols, t as nat);
        let bs = int_laws::bits_of(x, 2 * n);
        let ps = generator_powers(g, 2 * n);
        let want = chain_of(g, x, n);
        let roots = chain_roots(bs, cols, ps);
        assert(roots[t] == 0);
        lemma_chain_cell(g, x, n, t);
        assert(before(cols, t) == before(want, t));
        int_laws::lemma_xor(cols[t], chain_cell(bs, cols, ps, t));
    }
}

/// The last cell of a chain is `g^x` where the bits write all of `x`.
pub proof fn law_chain_ends_in_power(g: u128, x: nat, n: nat)
    requires
        n > 0,
        x < pow2(2 * n),
    ensures
        chain_of(g, x, n)[n - 1] == gf::gf128_pow(g, x),
{
    let all = chain_of(g, x, n);
    assert(all.len() == n);
    assert(all[n - 1] == gf::gf128_pow(g, x % pow2((2 * (n - 1) + 2) as nat)));
    assert((2 * (n - 1) + 2) as nat == 2 * n);
    vstd::arithmetic::div_mod::lemma_small_mod(x, pow2(2 * n));
}

/// Squarings double an exponent again and again.
pub proof fn law_squarings_double(g: u128, e: nat, cols: Seq<u128>)
    ensures
        int_laws::all_zero(squaring_roots(gf::gf128_pow(g, e), cols)) <==> cols == Seq::new(
            cols.len(),
            |t: int| gf::gf128_pow(g, e * pow2((t + 1) as nat)),
        ),
{
    let base = gf::gf128_pow(g, e);
    let want = Seq::new(cols.len(), |t: int| gf::gf128_pow(g, e * pow2((t + 1) as nat)));
    let roots = squaring_roots(base, cols);
    lemma2_to64();
    assert(e * 1 == e) by (nonlinear_arith);
    assert forall|t: int| 0 <= t < cols.len() implies gf::gf128_mul(
        from_base(base, want, t),
        from_base(base, want, t),
    ) == #[trigger] want[t] by {
        lemma_pow2_unfold((t + 1) as nat);
        law_square_doubles(g, e * pow2(t as nat));
        assert(2 * (e * pow2(t as nat)) == e * (2 * pow2(t as nat))) by (nonlinear_arith);
    }
    if cols == want {
        assert forall|t: int| 0 <= t < roots.len() implies #[trigger] roots[t] == 0 by {
            assert(gf::gf128_mul(from_base(base, want, t), from_base(base, want, t)) == want[t]);
            int_laws::lemma_xor(cols[t], want[t]);
        }
    }
    if int_laws::all_zero(roots) {
        lemma_squarings_forced(base, cols, want, cols.len());
        assert(cols =~= want);
    }
}

proof fn lemma_squarings_forced(base: u128, cols: Seq<u128>, want: Seq<u128>, k: nat)
    requires
        k <= cols.len(),
        want.len() == cols.len(),
        int_laws::all_zero(squaring_roots(base, cols)),
        forall|t: int|
            0 <= t < cols.len() ==> gf::gf128_mul(
                from_base(base, want, t),
                from_base(base, want, t),
            ) == #[trigger] want[t],
    ensures
        forall|t: int| 0 <= t < k ==> #[trigger] cols[t] == want[t],
    decreases k,
{
    if k > 0 {
        let t = k - 1;
        lemma_squarings_forced(base, cols, want, t as nat);
        let roots = squaring_roots(base, cols);
        assert(roots[t] == 0);
        assert(from_base(base, cols, t) == from_base(base, want, t));
        assert(gf::gf128_mul(from_base(base, want, t), from_base(base, want, t)) == want[t]);
        int_laws::lemma_xor(cols[t], want[t]);
    }
}

/// Fourth powers multiply an exponent by four again and again.
pub proof fn law_fourth_powers_quadruple(g: u128, e: nat, cols: Seq<u128>)
    ensures
        int_laws::all_zero(fourth_roots(gf::gf128_pow(g, e), cols)) <==> cols == Seq::new(
            cols.len(),
            |t: int| gf::gf128_pow(g, e * pow2((2 * t + 2) as nat)),
        ),
{
    let base = gf::gf128_pow(g, e);
    let want = Seq::new(cols.len(), |t: int| gf::gf128_pow(g, e * pow2((2 * t + 2) as nat)));
    let roots = fourth_roots(base, cols);
    lemma2_to64();
    assert(e * 1 == e) by (nonlinear_arith);
    assert forall|t: int| 0 <= t < cols.len() implies fourth(from_base(base, want, t))
        == #[trigger] want[t] by {
        let i = (2 * t) as nat;
        lemma_fourth(g, e, i);
        if t > 0 {
            assert((2 * (t - 1) + 2) as nat == i);
        }
    }
    if cols == want {
        assert forall|t: int| 0 <= t < roots.len() implies #[trigger] roots[t] == 0 by {
            assert(fourth(from_base(base, want, t)) == want[t]);
            int_laws::lemma_xor(cols[t], want[t]);
        }
    }
    if int_laws::all_zero(roots) {
        lemma_fourths_forced(base, cols, want, cols.len());
        assert(cols =~= want);
    }
}

/// The fourth power of `g^(e·2^i)`.
pub proof fn lemma_fourth(g: u128, e: nat, i: nat)
    ensures
        fourth(gf::gf128_pow(g, e * pow2(i))) == gf::gf128_pow(g, e * pow2(i + 2)),
{
    lemma_pow2_unfold(i + 1);
    lemma_pow2_unfold(i + 2);
    let p = pow2(i);
    law_square_doubles(g, e * p);
    assert(2 * (e * p) == e * (2 * p)) by (nonlinear_arith);
    law_square_doubles(g, e * (2 * p));
    assert(2 * (e * (2 * p)) == e * (4 * p)) by (nonlinear_arith);
}

proof fn lemma_fourths_forced(base: u128, cols: Seq<u128>, want: Seq<u128>, k: nat)
    requires
        k <= cols.len(),
        want.len() == cols.len(),
        int_laws::all_zero(fourth_roots(base, cols)),
        forall|t: int|
            0 <= t < cols.len() ==> fourth(from_base(base, want, t)) == #[trigger] want[t],
    ensures
        forall|t: int| 0 <= t < k ==> #[trigger] cols[t] == want[t],
    decreases k,
{
    if k > 0 {
        let t = k - 1;
        lemma_fourths_forced(base, cols, want, t as nat);
        let roots = fourth_roots(base, cols);
        assert(roots[t] == 0);
        assert(from_base(base, cols, t) == from_base(base, want, t));
        assert(fourth(from_base(base, want, t)) == want[t]);
        int_laws::lemma_xor(cols[t], want[t]);
    }
}

} // verus!
