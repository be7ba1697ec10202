//! Proves `s^65537 mod N` for a 2048-bit `N`.
//!
//! # Table shape
//!
//! 32 modmul blocks of 32 rows. Blocks 0..15 square, block 16
//! multiplies by the base, blocks 17..31 keep squaring, which
//! keeps every block the same AIR. The result sits on the last
//! row of block 16 and is emitted once on the bus.

use vstd::arithmetic::div_mod::*;
use vstd::arithmetic::mul::*;
use vstd::arithmetic::power::*;
use vstd::arithmetic::power2::*;
use vstd::prelude::*;

use super::bigint::is_less;
use super::columns::{FINAL_BLOCK, NUM_MODMULS};
use super::limbs;
use super::modmul::{Modmul, LIMBS32};
use crate::errors::Error;

verus! {

/// All [`NUM_MODMULS`] blocks, the dead squarings past [`FINAL_BLOCK`]
/// included: their tails close block 0's pipelined columns.
pub struct Modexp {
    n: [u32; LIMBS32],
    s: [u32; LIMBS32],
    blocks: Vec<Modmul>,
}

impl Modexp {
    /// The limbs of the modulus.
    pub closed spec fn n_limbs(self) -> Seq<u32> {
        self.n@
    }

    /// The limbs of the base.
    pub closed spec fn s_limbs(self) -> Seq<u32> {
        self.s@
    }

    /// The blocks, in order.
    pub closed spec fn steps(self) -> Seq<Modmul> {
        self.blocks@
    }

    /// The modulus as a number.
    pub open spec fn modulus_value(self) -> nat {
        limbs::limbs_value(self.n_limbs())
    }

    /// The base as a number.
    pub open spec fn base_value(self) -> nat {
        limbs::limbs_value(self.s_limbs())
    }

    /// What block `b` leaves, as a number.
    pub open spec fn block_result(self, b: int) -> nat {
        limbs::limbs_value(self.steps()[b].r@)
    }

    /// Every block reduces the product of its inputs, the first starts from
    /// the base, each takes its left input from the one before, and only
    /// [`FINAL_BLOCK`] multiplies by the base instead of squaring.
    pub open spec fn wf(self) -> bool {
        &&& self.n_limbs().len() == LIMBS32
        &&& self.s_limbs().len() == LIMBS32
        &&& self.base_value() < self.modulus_value()
        &&& self.steps().len() == NUM_MODMULS
        &&& forall|b: int|
            0 <= b < NUM_MODMULS ==> (#[trigger] self.steps()[b]).wf(self.n_limbs())
        &&& self.steps()[0].x@ == self.s_limbs()
        &&& forall|b: int|
            0 < b < NUM_MODMULS ==> (#[trigger] self.steps()[b]).x == self.steps()[b - 1].r
        &&& forall|b: int|
            0 <= b < NUM_MODMULS ==> (#[trigger] self.steps()[b]).y@ == if b == FINAL_BLOCK {
                self.s_limbs()
            } else {
                self.steps()[b].x@
            }
    }

    /// # Errors
    /// `s >= n`.
    pub fn new(n: &[u32; LIMBS32], s: &[u32; LIMBS32]) -> (res: Result<Modexp, Error>)
        ensures
            res is Ok <==> limbs::limbs_value(s@) < limbs::limbs_value(n@),
            res matches Ok(m) ==> m.wf() && m.n_limbs() == n@ && m.s_limbs() == s@,
            res matches Err(e) ==> e.is_protocol(
                "modexp_chiplet"@,
                "base must be reduced: s < N"@,
            ),
    {
        assert(n@.take(64) =~= n@);
        if !is_less(s, n) {
            return Err(
                Error::Protocol {
                    protocol: "modexp_chiplet",
                    message: "base must be reduced: s < N",
                },
            );
        }
        let ghost m = limbs::limbs_value(n@);

        let mut blocks: Vec<Modmul> = Vec::with_capacity(NUM_MODMULS);
        let mut x: [u32; LIMBS32] = *s;

        for b in 0..NUM_MODMULS
            invariant
                m == limbs::limbs_value(n@),
                limbs::limbs_value(s@) < m,
                limbs::limbs_value(x@) < m,
                blocks@.len() == b,
                b == 0 ==> x == *s,
                b > 0 ==> x == blocks@[b - 1].r,
                b > 0 ==> blocks@[0].x == *s,
                forall|c: int| 0 <= c < b ==> (#[trigger] blocks@[c]).wf(n@),
                forall|c: int| 0 < c < b ==> (#[trigger] blocks@[c]).x == blocks@[c - 1].r,
                forall|c: int|
                    0 <= c < b ==> (#[trigger] blocks@[c]).y == if c == FINAL_BLOCK {
                        *s
                    } else {
                        blocks@[c].x
                    },
        {
            let y: [u32; LIMBS32] = if b == FINAL_BLOCK {
                *s
            } else {
                x
            };
            proof {
                reveal(Modmul::wf);
                lemma_reduced_quotient_fits(x@, y@, n@);
            }
            match Modmul::compute(x, y, n) {
                Ok(block) => {
                    x = block.r;
                    blocks.push(block);
                },
                Err(e) => {
                    return Err(e);
                },
            }
        }
        Ok(Modexp { n: *n, s: *s, blocks })
    }

    /// The limbs of `s^65537 mod N`.
    pub fn result(&self) -> (r: &[u32; LIMBS32])
        requires
            self.wf(),
        ensures
            r == self.steps()[FINAL_BLOCK as int].r,
            limbs::limbs_value(r@) == pow(self.base_value() as int, 65537)
                % (self.modulus_value() as int),
    {
        proof {
            self.lemma_block_power(FINAL_BLOCK as int);
            lemma2_to64();
            reveal(Modmul::wf);
            assert(self.steps()[FINAL_BLOCK as int].wf(self.n_limbs()));
        }
        &self.blocks[FINAL_BLOCK].r
    }

    pub fn modulus(&self) -> (r: &[u32; LIMBS32])
        ensures
            r@ == self.n_limbs(),
    {
        &self.n
    }

    pub fn base(&self) -> (r: &[u32; LIMBS32])
        ensures
            r@ == self.s_limbs(),
    {
        &self.s
    }

    /// Block `b`.
    pub fn step(&self, b: usize) -> (r: &Modmul)
        requires
            self.wf(),
            b < NUM_MODMULS,
        ensures
            *r == self.steps()[b as int],
    {
        &self.blocks[b]
    }

    /// The power of the base that block `b` leaves.
    pub open spec fn block_exponent(b: int) -> nat
        decreases b,
    {
        if b <= 0 {
            2
        } else if b == FINAL_BLOCK {
            Self::block_exponent(b - 1) + 1
        } else {
            2 * Self::block_exponent(b - 1)
        }
    }

    proof fn lemma_block_power(self, b: int)
        requires
            self.wf(),
            0 <= b < NUM_MODMULS,
        ensures
            self.block_result(b) == pow(self.base_value() as int, Self::block_exponent(b))
                % (self.modulus_value() as int),
            b < FINAL_BLOCK ==> Self::block_exponent(b) == pow2((b + 1) as nat),
            b == FINAL_BLOCK ==> Self::block_exponent(b) == pow2(FINAL_BLOCK as nat) + 1,
        decreases b,
    {
        let m = self.modulus_value() as int;
        let s = self.base_value() as int;
        let block = self.steps()[b];
        reveal(Modmul::wf);
        assert(block.wf(self.n_limbs()));
        let (x, y) = (limbs::limbs_value(block.x@) as int, limbs::limbs_value(block.y@) as int);
        lemma_remainder_is_mod(x * y, limbs::limbs_value(block.q@) as int, m, self.block_result(b) as int);
        lemma2_to64();
        if b == 0 {
            reveal(pow);
            lemma_pow1(s);
            lemma_pow_adds(s, 1, 1);
        } else {
            self.lemma_block_power(b - 1);
            let e = Self::block_exponent(b - 1);
            assert(block.x == self.steps()[b - 1].r);
            assert(x == pow(s, e) % m);
            if b == FINAL_BLOCK {
                lemma_mul_mod_noop_left(pow(s, e), s, m);
                lemma_pow1(s);
                lemma_pow_adds(s, e, 1);
            } else {
                lemma_mul_mod_noop(pow(s, e), pow(s, e), m);
                lemma_pow_adds(s, e, e);
                lemma_pow2_adds(1, b as nat);
            }
        }
    }

    /// Every block leaves a power of the base, reduced: blocks before
    /// [`FINAL_BLOCK`] the repeated squares `s^(2^(b+1))`, and
    /// [`FINAL_BLOCK`] itself `s^65537`.
    pub proof fn law_blocks_leave_powers(self, b: int)
        requires
            self.wf(),
            0 <= b < NUM_MODMULS,
        ensures
            self.block_result(b) == pow(self.base_value() as int, Self::block_exponent(b))
                % (self.modulus_value() as int),
            b < FINAL_BLOCK ==> Self::block_exponent(b) == pow2((b + 1) as nat),
            b == FINAL_BLOCK ==> Self::block_exponent(b) == 65537,
    {
        self.lemma_block_power(b);
        lemma2_to64();
    }
}

proof fn lemma_remainder_is_mod(product: int, q: int, m: int, r: int)
    requires
        product == q * m + r,
        0 <= r < m,
    ensures
        r == product % m,
{
    lemma_fundamental_div_mod_converse(product, m, q, r);
}

/// Products of reduced operands have a quotient below the modulus.
proof fn lemma_reduced_quotient_fits(x: Seq<u32>, y: Seq<u32>, n: Seq<u32>)
    requires
        n.len() == LIMBS32,
        limbs::limbs_value(x) < limbs::limbs_value(n),
        limbs::limbs_value(y) < limbs::limbs_value(n),
    ensures
        limbs::limbs_value(x) * limbs::limbs_value(y) / limbs::limbs_value(n) < limbs::radix_pow(64),
{
    let (a, b, m) = (limbs::limbs_value(x) as int, limbs::limbs_value(y) as int, limbs::limbs_value(n) as int);
    limbs::lemma_limbs_bound(n);
    assert(a * b < m * m) by (nonlinear_arith)
        requires
            0 <= a < m,
            0 <= b < m,
    ;
    lemma_multiply_divide_lt(a * b, m, m);
}

} // verus!
