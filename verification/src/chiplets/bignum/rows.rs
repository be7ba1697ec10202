//! The field elements of a row of the exponentiation table: powers of the
//! generator whose exponents are the row's integers.

use vstd::arithmetic::div_mod::*;
use vstd::arithmetic::power2::*;
use vstd::prelude::*;

use super::bigint::limb_pair;
use super::columns::{
    half, CARRY_BITS, CARRY_WORDS, DIGIT_BITS, FROB_STEPS, NUM_MODMULS, ROWS_PER_MODMUL, X_BITS,
    Y_BITS,
};
use super::exponents;
use super::modexp::Modexp;
use super::modmul::LIMBS32;
use crate::atoms::exp_form;
use crate::atoms::exp_form::ExpBasis;
use crate::errors::Error;
use crate::field::gf;
use crate::field::laws::Ring;
use crate::field::{Block128, Flat};
use crate::program::constraint;

verus! {

/// The values of one row. Those of the row before seed the running columns
/// and the carries of the next.
pub struct RowValues {
    pub xs: u64,
    pub q: u64,
    pub sel: [u32; 6],
    pub digits: [u32; 4],
    pub carries: [u128; CARRY_WORDS],
    pub rc: u8,
    pub rcm: u8,
    pub rc_next: u8,
    pub xa: [Vec<Flat<Block128>>; 2],
    pub yf: [Vec<Flat<Block128>>; 2],
    pub p: [Vec<Flat<Block128>>; 2],
    pub u: [Vec<Flat<Block128>>; 2],
    pub ut: [Vec<Flat<Block128>>; 2],
    pub c: [Flat<Block128>; 2],
    pub ct: [Flat<Block128>; 2],
    pub cm: [Flat<Block128>; 2],
    pub co: [Flat<Block128>; 2],
    pub ctm: [Flat<Block128>; 2],
    pub cto: [Flat<Block128>; 2],
    pub dg: [Vec<Flat<Block128>>; 4],
    pub ce: [Vec<Flat<Block128>>; 8],
    pub fr: [Vec<Flat<Block128>>; 8],
    pub lch: [Vec<Flat<Block128>>; 6],
}

/// The integers that a row is made of, whatever the rows before.
pub struct RowWords {
    pub xs: u64,
    pub q: u64,
    pub sel: [u32; 6],
    pub digits: [u32; 4],
    pub carries: [u128; CARRY_WORDS],
}

// ---------------------------------------------------------------
// What a row holds
// ---------------------------------------------------------------

/// Squares of squares: `h^2, h^4, ...`.
pub open spec fn squares_of(h: u128, n: nat) -> Seq<u128> {
    Seq::new(n, |t: int| gf::gf128_pow(h, pow2((t + 1) as nat)))
}

/// Fourth powers of fourth powers: `h^4, h^16, ...`.
pub open spec fn fourths_of(h: u128, n: nat) -> Seq<u128> {
    Seq::new(n, |t: int| gf::gf128_pow(h, pow2((2 * t + 2) as nat)))
}

/// For every limb the chain of its powers of `h`.
pub open spec fn products_of(h: u128, limbs: Seq<u32>) -> Seq<u128> {
    Seq::new(16 * limbs.len(), |t: int| product_cell(h, limbs, t))
}

pub open spec fn product_cell(h: u128, limbs: Seq<u32>, t: int) -> u128 {
    exp_form::chain_power(h, limbs[t / 16] as nat, t % 16)
}

/// `g^limb` for the limb that a row multiplies.
pub open spec fn limb_power(m: Modexp, g: u128, side: int, b: int, i: int) -> u128 {
    gf::gf128_pow(g, exponents::limb(m, side, b, i))
}

/// The running columns of a row.
pub open spec fn running_of(m: Modexp, g: u128, side: int, b: int, i: int) -> Seq<u128> {
    Seq::new(64, |c: int| gf::gf128_pow(g, exponents::running(m, side, b, i, c)))
}

/// The columns of the block before that a row still holds.
pub open spec fn tail_of(m: Modexp, g: u128, side: int, b: int, i: int) -> Seq<u128> {
    Seq::new(64, |c: int| gf::gf128_pow(g, exponents::tail(m, side, b, i, c)))
}

/// The limbs of `r`, `w` and `N` that a row adds.
pub open spec fn sel_of(m: Modexp, b: int, i: int) -> Seq<u32> {
    let step = m.steps()[b];
    seq![
        step.r@[2 * i],
        step.r@[2 * i + 1],
        step.w@[2 * i],
        step.w@[2 * i + 1],
        m.n_limbs()[2 * i],
        m.n_limbs()[2 * i + 1],
    ]
}

/// The digits that a row finishes.
pub open spec fn digits_of(m: Modexp, b: int, i: int) -> Seq<u32> {
    let (step, prev) = (m.steps()[b], m.steps()[exponents::block_before(b)]);
    seq![
        step.digits@[2 * i],
        step.digits@[2 * i + 1],
        prev.digits@[64 + 2 * i],
        prev.digits@[64 + 2 * i + 1],
    ]
}

/// Which side and which column carry word `k` of a row belongs to, relative
/// to the row's first column.
pub open spec fn carry_of(m: Modexp, b: int, i: int, k: int) -> nat {
    let side = (k / 2) % 2;
    if k < 4 {
        exponents::carry(m, side, b, 2 * i + 1 + k % 2)
    } else {
        exponents::carry(m, side, exponents::block_before(b), 64 + 2 * i + 1 + k % 2)
    }
}

impl RowWords {
    /// The integers are those of row `i` of block `b`.
    pub open spec fn are_of(self, m: Modexp, b: int, i: int) -> bool {
        &&& self.xs as nat == exponents::limb(m, 0, b, i)
        &&& self.q as nat == exponents::limb(m, 1, b, i)
        &&& self.sel@ == sel_of(m, b, i)
        &&& self.digits@ == digits_of(m, b, i)
        &&& forall|k: int|
            0 <= k < 8 ==> (#[trigger] self.carries@[k]) as nat == carry_of(m, b, i, k)
    }
}

impl RowValues {
    /// The vectors have their lengths.
    pub open spec fn shaped(self) -> bool {
        &&& forall|s: int| #![trigger self.u@[s]] 0 <= s < 2 ==> self.u@[s]@.len() == 64
        &&& forall|s: int| #![trigger self.ut@[s]] 0 <= s < 2 ==> self.ut@[s]@.len() == 64
    }

    /// What does not depend on the rows before.
    pub open spec fn own_part(self, m: Modexp, g: u128, b: int, i: int) -> bool {
        &&& self.shaped()
        &&& self.xs as nat == exponents::limb(m, 0, b, i)
        &&& self.q as nat == exponents::limb(m, 1, b, i)
        &&& self.sel@ == sel_of(m, b, i)
        &&& self.digits@ == digits_of(m, b, i)
        &&& forall|k: int|
            0 <= k < 8 ==> (#[trigger] self.carries@[k]) as nat == carry_of(m, b, i, k)
        &&& forall|s: int|
            0 <= s < 2 ==> {
                &&& constraint::flat_values((#[trigger] self.xa@[s])@) == exp_form::chain_of(
                    g,
                    exponents::limb(m, s, b, i),
                    32,
                )
            }
        &&& forall|s: int|
            0 <= s < 2 ==> constraint::flat_values((#[trigger] self.yf@[s])@) == squares_of(
                limb_power(m, g, s, b, i),
                31,
            )
        &&& forall|s: int|
            0 <= s < 2 ==> constraint::flat_values((#[trigger] self.p@[s])@) == products_of(
                limb_power(m, g, s, b, i),
                exponents::right(m, s, b),
            )
        &&& forall|s: int|
            0 <= s < 2 ==> (#[trigger] self.cm@[s])@ == gf::gf128_pow(
                g,
                carry_of(m, b, i, 2 * s),
            )
        &&& forall|s: int|
            0 <= s < 2 ==> (#[trigger] self.co@[s])@ == gf::gf128_pow(
                g,
                carry_of(m, b, i, 2 * s + 1),
            )
        &&& forall|s: int|
            0 <= s < 2 ==> (#[trigger] self.ctm@[s])@ == gf::gf128_pow(
                g,
                carry_of(m, b, i, 4 + 2 * s),
            )
        &&& forall|s: int|
            0 <= s < 2 ==> (#[trigger] self.cto@[s])@ == gf::gf128_pow(
                g,
                carry_of(m, b, i, 4 + 2 * s + 1),
            )
        &&& forall|k: int|
            0 <= k < 4 ==> constraint::flat_values((#[trigger] self.dg@[k])@)
                == exp_form::chain_of(g, digits_of(m, b, i)[k] as nat, 16)
        &&& forall|k: int|
            0 <= k < 8 ==> constraint::flat_values((#[trigger] self.ce@[k])@)
                == exp_form::chain_of(g, carry_of(m, b, i, k), 35)
        &&& forall|k: int|
            0 <= k < 8 ==> constraint::flat_values((#[trigger] self.fr@[k])@) == fourths_of(
                gf::gf128_pow(g, carry_of(m, b, i, k)),
                16,
            )
        &&& forall|k: int|
            0 <= k < 6 ==> constraint::flat_values((#[trigger] self.lch@[k])@)
                == exp_form::chain_of(g, sel_of(m, b, i)[k] as nat, 16)
    }

    /// What depends on the rows before of the same block.
    pub open spec fn head_part(self, m: Modexp, g: u128, b: int, i: int) -> bool {
        let (r, w) = (m.steps()[b].r@, m.steps()[b].w@);
        &&& self.rc as nat == exponents::sum_carry(r, w, 2 * i)
        &&& self.rcm as nat == exponents::sum_carry(r, w, 2 * i + 1)
        &&& self.rc_next as nat == exponents::sum_carry(r, w, 2 * i + 2)
        &&& forall|s: int|
            0 <= s < 2 ==> constraint::flat_values((#[trigger] self.u@[s])@) == running_of(
                m,
                g,
                s,
                b,
                i,
            )
        &&& forall|s: int|
            0 <= s < 2 ==> (#[trigger] self.c@[s])@ == gf::gf128_pow(
                g,
                exponents::carry(m, s, b, 2 * i),
            )
    }

    /// What depends on the block before.
    pub open spec fn tail_part(self, m: Modexp, g: u128, b: int, i: int) -> bool {
        &&& forall|s: int|
            0 <= s < 2 ==> constraint::flat_values((#[trigger] self.ut@[s])@) == tail_of(
                m,
                g,
                s,
                b,
                i,
            )
        &&& forall|s: int|
            0 <= s < 2 ==> (#[trigger] self.ct@[s])@ == gf::gf128_pow(
                g,
                exponents::carry(m, s, exponents::block_before(b), 64 + 2 * i),
            )
    }

    /// What is taken over from the row before, whatever that holds: carries,
    /// the carry of `r + w + 1`, running products and the tail. A block that
    /// starts takes its tail from what ran before.
    pub open spec fn follows(self, before: RowValues, start: bool) -> bool {
        &&& forall|s: int|
            0 <= s < 2 ==> (#[trigger] self.c@[s])@ == (if start {
                1
            } else {
                before.co@[s]@
            })
        &&& forall|s: int|
            0 <= s < 2 ==> (#[trigger] self.ct@[s])@ == (if start {
                before.co@[s]@
            } else {
                before.cto@[s]@
            })
        &&& self.rc == (if start {
            1
        } else {
            before.rc_next
        })
        &&& self.rcm as nat == (self.sel@[0] + self.sel@[2] + self.rc) / 0x1_0000_0000
        &&& self.rc_next as nat == (self.sel@[1] + self.sel@[3] + self.rcm) / 0x1_0000_0000
        &&& forall|s: int, c: int|
            0 <= s < 2 && 0 <= c < 64 ==> (#[trigger] self.u@[s]@[c])@ == gf::gf128_mul(
                (if start || c + 2 >= 64 {
                    1
                } else {
                    before.u@[s]@[c + 2]@
                }),
                self.p@[s]@[16 * c + 15]@,
            )
        &&& forall|s: int, c: int|
            0 <= s < 2 && 0 <= c < 64 ==> (#[trigger] self.ut@[s]@[c])@ == (if c + 2 >= 64 {
                1
            } else if start {
                before.u@[s]@[c + 2]@
            } else {
                before.ut@[s]@[c + 2]@
            })
    }

    /// Zero limbs, digits, carries and cells, and carries that are powers of
    /// zero.
    pub open spec fn blank(self) -> bool {
        &&& self.xs == 0 && self.q == 0
        &&& self.rc == 0 && self.rcm == 0 && self.rc_next == 0
        &&& self.sel@ == Seq::new(6, |k: int| 0u32)
        &&& self.digits@ == Seq::new(4, |k: int| 0u32)
        &&& self.carries@ == Seq::new(8, |k: int| 0u128)
        &&& forall|s: int| 0 <= s < 2 ==> zero_cells((#[trigger] self.xa@[s])@, 32)
        &&& forall|s: int| 0 <= s < 2 ==> zero_cells((#[trigger] self.yf@[s])@, 31)
        &&& forall|s: int| 0 <= s < 2 ==> zero_cells((#[trigger] self.p@[s])@, 1024)
        &&& forall|s: int| 0 <= s < 2 ==> zero_cells((#[trigger] self.u@[s])@, 64)
        &&& forall|s: int| 0 <= s < 2 ==> zero_cells((#[trigger] self.ut@[s])@, 64)
        &&& forall|s: int| 0 <= s < 2 ==> (#[trigger] self.c@[s])@ == 1
        &&& forall|s: int| 0 <= s < 2 ==> (#[trigger] self.ct@[s])@ == 1
        &&& forall|s: int| 0 <= s < 2 ==> (#[trigger] self.cm@[s])@ == 1
        &&& forall|s: int| 0 <= s < 2 ==> (#[trigger] self.co@[s])@ == 1
        &&& forall|s: int| 0 <= s < 2 ==> (#[trigger] self.ctm@[s])@ == 1
        &&& forall|s: int| 0 <= s < 2 ==> (#[trigger] self.cto@[s])@ == 1
        &&& forall|k: int| 0 <= k < 4 ==> zero_cells((#[trigger] self.dg@[k])@, 16)
        &&& forall|k: int| 0 <= k < 8 ==> zero_cells((#[trigger] self.ce@[k])@, 35)
        &&& forall|k: int| 0 <= k < 8 ==> zero_cells((#[trigger] self.fr@[k])@, 16)
        &&& forall|k: int| 0 <= k < 6 ==> zero_cells((#[trigger] self.lch@[k])@, 16)
    }
}

/// `n` cells of zero.
pub open spec fn zero_cells(cells: Seq<Flat<Block128>>, n: nat) -> bool {
    &&& cells.len() == n
    &&& forall|i: int| 0 <= i < n ==> (#[trigger] cells[i])@ == 0
}

fn zeros(n: usize) -> (r: Vec<Flat<Block128>>)
    ensures
        zero_cells(r@, n as nat),
{
    let mut out: Vec<Flat<Block128>> = Vec::with_capacity(n);
    let mut i: usize = 0;
    while i < n
        invariant
            i <= n,
            zero_cells(out@, i as nat),
        decreases n - i,
    {
        out.push(Flat::<Block128>::zero());
        i = i + 1;
    }
    out
}

// ---------------------------------------------------------------
// Chains
// ---------------------------------------------------------------

/// `n` cells of the chain of `G^x`.
fn chain(basis: &ExpBasis, x: u128, n: usize) -> (r: Vec<Flat<Block128>>)
    requires
        basis.wf(),
        n <= 64,
    ensures
        constraint::flat_values(r@) == exp_form::chain_of(basis.g(), x as nat, n as nat),
{
    let zero = Flat::<Block128>::zero();
    let mut out: Vec<Flat<Block128>> = vec![zero;n];
    basis.chain2(x, out.as_mut_slice());
    proof {
        let want = exp_form::chain_of(basis.g(), x as nat, n as nat);
        assert forall|t: int| 0 <= t < n implies #[trigger] constraint::flat_values(out@)[t]
            == want[t] by {
            assert(out@[t]@ == gf::gf128_pow(basis.g(), x as nat % pow2((2 * t + 2) as nat)));
        }
        assert(constraint::flat_values(out@) =~= want);
    }
    out
}

/// `n` squarings of `h`.
fn squares(h: Flat<Block128>, n: usize) -> (r: Vec<Flat<Block128>>)
    ensures
        constraint::flat_values(r@) == squares_of(h@, n as nat),
{
    let mut out: Vec<Flat<Block128>> = Vec::new();
    let mut acc = h;
    let mut t: usize = 0;
    proof {
        lemma2_to64();
        exp_form::lemma_first_power(h@);
        assert(constraint::flat_values(out@) =~= squares_of(h@, 0));
    }
    while t < n
        invariant
            t <= n,
            out@.len() == t,
            acc@ == gf::gf128_pow(h@, pow2(t as nat)),
            constraint::flat_values(out@) == squares_of(h@, t as nat),
        decreases n - t,
    {
        proof {
            exp_form::law_square_doubles(h@, pow2(t as nat));
            lemma_pow2_unfold((t + 1) as nat);
        }
        let ghost before = out@;
        acc = acc.times(acc);
        out.push(acc);
        t = t + 1;
        proof {
            let (a, b) = (constraint::flat_values(out@), squares_of(h@, t as nat));
            assert forall|k: int| 0 <= k < t implies #[trigger] a[k] == b[k] by {
                if k < t - 1 {
                    assert(a[k] == constraint::flat_values(before)[k]);
                }
            }
            assert(a =~= b);
        }
    }
    out
}

/// `n` fourth powers from `h` on.
fn fourths(h: Flat<Block128>, n: usize) -> (r: Vec<Flat<Block128>>)
    ensures
        constraint::flat_values(r@) == fourths_of(h@, n as nat),
{
    let mut out: Vec<Flat<Block128>> = Vec::new();
    let mut acc = h;
    let mut t: usize = 0;
    proof {
        lemma2_to64();
        exp_form::lemma_first_power(h@);
        assert(constraint::flat_values(out@) =~= fourths_of(h@, 0));
    }
    while t < n
        invariant
            t <= n,
            out@.len() == t,
            acc@ == gf::gf128_pow(h@, pow2((2 * t) as nat)),
            constraint::flat_values(out@) == fourths_of(h@, t as nat),
        decreases n - t,
    {
        proof {
            let i = (2 * t) as nat;
            exp_form::law_square_doubles(h@, pow2(i));
            lemma_pow2_unfold(i + 1);
            exp_form::law_square_doubles(h@, pow2(i + 1));
            lemma_pow2_unfold(i + 2);
            assert((2 * (t + 1)) as nat == i + 2);
        }
        let ghost before = out@;
        acc = acc.times(acc);
        acc = acc.times(acc);
        out.push(acc);
        t = t + 1;
        proof {
            let (a, b) = (constraint::flat_values(out@), fourths_of(h@, t as nat));
            assert forall|k: int| 0 <= k < t implies #[trigger] a[k] == b[k] by {
                if k < t - 1 {
                    assert(a[k] == constraint::flat_values(before)[k]);
                } else {
                    assert((2 * k + 2) as nat == (2 * t) as nat);
                }
            }
            assert(a =~= b);
        }
    }
    out
}

/// The accumulator times the step, where the bit selects it.
fn gate_in(
    acc: Flat<Block128>,
    frob: Flat<Block128>,
    bit: u32,
    Ghost(h): Ghost<u128>,
    Ghost(x): Ghost<nat>,
    Ghost(i): Ghost<nat>,
) -> (r: Flat<Block128>)
    requires
        acc@ == gf::gf128_pow(h, x % pow2(i)),
        frob@ == gf::gf128_pow(h, pow2(i)),
        bit as nat == (x / pow2(i)) % 2,
    ensures
        r@ == gf::gf128_pow(h, x % pow2(i + 1)),
{
    proof {
        exp_form::lemma_chain_step(h, x, i);
        exp_form::lemma_gated(bit as u128, frob@);
        <u128 as Ring>::units(acc@);
    }
    if bit == 1 {
        acc.times(frob)
    } else {
        acc
    }
}

/// The chain of `h^limb` from `h` and its squares.
fn product_chain(h: Flat<Block128>, yf: &Vec<Flat<Block128>>, limb: u32, out: &mut Vec<
    Flat<Block128>,
>)
    requires
        constraint::flat_values(yf@) == squares_of(h@, 31),
    ensures
        final(out)@.len() == old(out)@.len() + 16,
        forall|k: int|
            0 <= k < old(out)@.len() ==> (#[trigger] final(out)@[k]) == old(out)@[k],
        forall|t: int|
            0 <= t < 16 ==> (#[trigger] final(out)@[old(out)@.len() + t])@
                == exp_form::chain_power(h@, limb as nat, t),
{
    let mut acc = Flat::<Block128>::one();
    let mut rest: u32 = limb;
    let mut t: usize = 0;
    let ghost x = limb as nat;
    let ghost n = out@.len();
    proof {
        lemma2_to64();
        assert(x % 1 == 0 && x / 1 == x);
        exp_form::lemma_first_power(h@);
        assert(yf@.len() == constraint::flat_values(yf@).len());
    }
    while t < 16
        invariant
            t <= 16,
            x == limb as nat,
            n == old(out)@.len(),
            out@.len() == n + t,
            yf@.len() == 31,
            constraint::flat_values(yf@) == squares_of(h@, 31),
            h@ == gf::gf128_pow(h@, pow2(0)),
            rest as nat == x / pow2((2 * t) as nat),
            acc@ == gf::gf128_pow(h@, x % pow2((2 * t) as nat)),
            forall|k: int| 0 <= k < n ==> (#[trigger] out@[k]) == old(out)@[k],
            forall|k: int|
                0 <= k < t ==> (#[trigger] out@[n + k])@ == exp_form::chain_power(h@, x, k),
        decreases 16 - t,
    {
        let ghost i = (2 * t) as nat;
        let frob0 = if t == 0 {
            h
        } else {
            yf[2 * t - 1]
        };
        proof {
            if t > 0 {
                assert(constraint::flat_values(yf@)[2 * t - 1] == squares_of(h@, 31)[2 * t - 1]);
            }
            assert(constraint::flat_values(yf@)[2 * t as int] == squares_of(h@, 31)[2 * t as int]);
            exp_form::lemma_chain_step(h@, x, i);
            exp_form::lemma_chain_step(h@, x, i + 1);
        }
        acc = gate_in(acc, frob0, rest % 2, Ghost(h@), Ghost(x), Ghost(i));
        rest = rest / 2;
        acc = gate_in(acc, yf[2 * t], rest % 2, Ghost(h@), Ghost(x), Ghost(i + 1));
        rest = rest / 2;
        out.push(acc);
        t = t + 1;
        assert((2 * t) as nat == i + 2);
    }
}

/// The chains of `h^limb` for every limb.
fn products(h: Flat<Block128>, yf: &Vec<Flat<Block128>>, limbs: &[u32; LIMBS32]) -> (r: Vec<
    Flat<Block128>,
>)
    requires
        constraint::flat_values(yf@) == squares_of(h@, 31),
    ensures
        constraint::flat_values(r@) == products_of(h@, limbs@),
{
    let mut out: Vec<Flat<Block128>> = Vec::new();
    let mut j: usize = 0;
    while j < LIMBS32
        invariant
            j <= 64,
            constraint::flat_values(yf@) == squares_of(h@, 31),
            out@.len() == 16 * j,
            forall|t: int|
                0 <= t < 16 * j ==> (#[trigger] out@[t])@ == product_cell(h@, limbs@, t),
        decreases 64 - j,
    {
        let ghost before = out@;
        product_chain(h, yf, limbs[j], &mut out);
        proof {
            assert forall|t: int| 0 <= t < 16 * (j + 1) implies (#[trigger] out@[t])@
                == product_cell(h@, limbs@, t) by {
                if t < 16 * j {
                    assert(out@[t] == before[t]);
                } else {
                    let k = t - 16 * j;
                    assert(t / 16 == j && t % 16 == k);
                    assert(out@[before.len() + k]@ == exp_form::chain_power(
                        h@,
                        limbs@[j as int] as nat,
                        k,
                    ));
                }
            }
        }
        j = j + 1;
    }
    proof {
        assert(constraint::flat_values(out@) =~= products_of(h@, limbs@));
    }
    out
}

/// The running columns of a row from those of the row before.
fn next_running(before: &Vec<Flat<Block128>>, start: bool, p: &Vec<Flat<Block128>>) -> (r: Vec<
    Flat<Block128>,
>)
    requires
        before@.len() == 64,
        p@.len() == 1024,
    ensures
        r@.len() == 64,
        forall|c: int|
            0 <= c < 64 ==> (#[trigger] r@[c])@ == gf::gf128_mul(
                (if start || c + 2 >= 64 {
                    1
                } else {
                    before@[c + 2]@
                }),
                p@[16 * c + 15]@,
            ),
{
    let one = Flat::<Block128>::one();
    let mut out: Vec<Flat<Block128>> = Vec::new();
    let mut c: usize = 0;
    while c < LIMBS32
        invariant
            c <= 64,
            before@.len() == 64,
            p@.len() == 1024,
            one@ == 1,
            out@.len() == c,
            forall|k: int|
                0 <= k < c ==> (#[trigger] out@[k])@ == gf::gf128_mul(
                    (if start || k + 2 >= 64 {
                        1
                    } else {
                        before@[k + 2]@
                    }),
                    p@[16 * k + 15]@,
                ),
        decreases 64 - c,
    {
        let prior = if start || c + 2 >= LIMBS32 {
            one
        } else {
            before[c + 2]
        };
        out.push(prior.times(p[16 * c + 15]));
        c = c + 1;
    }
    out
}

/// The tail of a row from the row before: a block's first row takes over what
/// the block before left running.
fn next_tail(u: &Vec<Flat<Block128>>, ut: &Vec<Flat<Block128>>, start: bool) -> (r: Vec<
    Flat<Block128>,
>)
    requires
        u@.len() == 64,
        ut@.len() == 64,
    ensures
        r@.len() == 64,
        forall|c: int|
            0 <= c < 64 ==> (#[trigger] r@[c])@ == (if c + 2 >= 64 {
                1
            } else if start {
                u@[c + 2]@
            } else {
                ut@[c + 2]@
            }),
{
    let one = Flat::<Block128>::one();
    let mut out: Vec<Flat<Block128>> = Vec::new();
    let mut c: usize = 0;
    while c < LIMBS32
        invariant
            c <= 64,
            u@.len() == 64,
            ut@.len() == 64,
            one@ == 1,
            out@.len() == c,
            forall|k: int|
                0 <= k < c ==> (#[trigger] out@[k])@ == (if k + 2 >= 64 {
                    1
                } else if start {
                    u@[k + 2]@
                } else {
                    ut@[k + 2]@
                }),
        decreases 64 - c,
    {
        let cell = if c + 2 >= LIMBS32 {
            one
        } else if start {
            u[c + 2]
        } else {
            ut[c + 2]
        };
        out.push(cell);
        c = c + 1;
    }
    out
}

/// The high limb of `a + b + carry`, as a bit.
fn carry_bit(a: u32, b: u32, carry: u8) -> (r: u8)
    requires
        carry <= 1,
    ensures
        r as nat == (a + b + carry) / 0x1_0000_0000,
{
    ((a as u64 + b as u64 + carry as u64) / 0x1_0000_0000) as u8
}

// ---------------------------------------------------------------
// Rows
// ---------------------------------------------------------------

pub proof fn lemma_product_end(h: u128, limbs: Seq<u32>, c: int)
    requires
        0 <= c < limbs.len(),
    ensures
        products_of(h, limbs)[16 * c + 15] == gf::gf128_pow(h, limbs[c] as nat),
{
    let t = 16 * c + 15;
    assert(t / 16 == c && t % 16 == 15);
    lemma2_to64();
    assert((2 * 15 + 2) as nat == 32);
    lemma_small_mod(limbs[c] as nat, pow2(32));
}

/// The running columns follow from those of the row before.
proof fn lemma_running(
    m: Modexp,
    g: u128,
    side: int,
    b: int,
    i: int,
    before: Seq<Flat<Block128>>,
    p: Seq<Flat<Block128>>,
    r: Seq<Flat<Block128>>,
)
    requires
        m.wf(),
        0 <= side < 2,
        0 <= b < 32,
        0 <= i < 32,
        before.len() == 64,
        r.len() == 64,
        i > 0 ==> constraint::flat_values(before) == running_of(m, g, side, b, i - 1),
        constraint::flat_values(p) == products_of(
            limb_power(m, g, side, b, i),
            exponents::right(m, side, b),
        ),
        forall|c: int|
            0 <= c < 64 ==> (#[trigger] r[c])@ == gf::gf128_mul(
                (if i == 0 || c + 2 >= 64 {
                    1
                } else {
                    before[c + 2]@
                }),
                p[16 * c + 15]@,
            ),
    ensures
        constraint::flat_values(r) == running_of(m, g, side, b, i),
{
    let h = limb_power(m, g, side, b, i);
    let y = exponents::right(m, side, b);
    assert(y.len() == 64);
    assert(constraint::flat_values(p).len() == p.len());
    assert forall|c: int| 0 <= c < 64 implies #[trigger] constraint::flat_values(r)[c]
        == running_of(m, g, side, b, i)[c] by {
        exponents::lemma_running_step(m, side, b, i, c);
        lemma_product_end(h, y, c);
        assert(constraint::flat_values(p)[16 * c + 15] == p[16 * c + 15]@);
        let (l, v) = (exponents::limb(m, side, b, i), y[c] as nat);
        exp_form::law_powers_multiply(g, l, v);
        assert(r[c]@ == constraint::flat_values(r)[c]);
        if i == 0 || c + 2 >= 64 {
            exp_form::law_powers_add(g, 0, l * v);
        } else {
            assert(constraint::flat_values(before)[c + 2] == before[c + 2]@);
            exp_form::law_powers_add(g, exponents::running(m, side, b, i - 1, c + 2), l * v);
        }
    }
    assert(constraint::flat_values(r) =~= running_of(m, g, side, b, i));
}

/// The tail follows from the row before.
proof fn lemma_tail(
    m: Modexp,
    g: u128,
    side: int,
    b: int,
    i: int,
    u: Seq<Flat<Block128>>,
    ut: Seq<Flat<Block128>>,
    r: Seq<Flat<Block128>>,
)
    requires
        m.wf(),
        0 <= side < 2,
        0 <= b < 32,
        0 <= i < 32,
        u.len() == 64,
        ut.len() == 64,
        r.len() == 64,
        i == 0 ==> constraint::flat_values(u) == running_of(
            m,
            g,
            side,
            exponents::block_before(b),
            31,
        ),
        i > 0 ==> constraint::flat_values(ut) == tail_of(m, g, side, b, i - 1),
        forall|c: int|
            0 <= c < 64 ==> (#[trigger] r[c])@ == (if c + 2 >= 64 {
                1
            } else if i == 0 {
                u[c + 2]@
            } else {
                ut[c + 2]@
            }),
    ensures
        constraint::flat_values(r) == tail_of(m, g, side, b, i),
{
    assert forall|c: int| 0 <= c < 64 implies #[trigger] constraint::flat_values(r)[c] == tail_of(
        m,
        g,
        side,
        b,
        i,
    )[c] by {
        exponents::lemma_tail_step(m, side, b, i, c);
        assert(r[c]@ == constraint::flat_values(r)[c]);
        if c + 2 < 64 {
            assert(constraint::flat_values(u)[c + 2] == u[c + 2]@);
            assert(constraint::flat_values(ut)[c + 2] == ut[c + 2]@);
        }
    }
    assert(constraint::flat_values(r) =~= tail_of(m, g, side, b, i));
}

impl RowValues {
    /// Values that no row holds, to walk from.
    pub fn zeroed() -> (r: Self)
        ensures
            r.blank(),
            r.shaped(),
    {
        let one = Flat::<Block128>::one();
        let r = RowValues {
            xs: 0,
            q: 0,
            sel: [0u32;6],
            digits: [0u32;4],
            carries: [0u128;8],
            rc: 0,
            rcm: 0,
            rc_next: 0,
            xa: [zeros(half(X_BITS)), zeros(half(X_BITS))],
            yf: [zeros(Y_BITS - 1), zeros(Y_BITS - 1)],
            p: [zeros(LIMBS32 * half(Y_BITS)), zeros(LIMBS32 * half(Y_BITS))],
            u: [zeros(LIMBS32), zeros(LIMBS32)],
            ut: [zeros(LIMBS32), zeros(LIMBS32)],
            c: [one, one],
            ct: [one, one],
            cm: [one, one],
            co: [one, one],
            ctm: [one, one],
            cto: [one, one],
            dg: [
                zeros(half(DIGIT_BITS)),
                zeros(half(DIGIT_BITS)),
                zeros(half(DIGIT_BITS)),
                zeros(half(DIGIT_BITS)),
            ],
            ce: [
                zeros(half(CARRY_BITS)),
                zeros(half(CARRY_BITS)),
                zeros(half(CARRY_BITS)),
                zeros(half(CARRY_BITS)),
                zeros(half(CARRY_BITS)),
                zeros(half(CARRY_BITS)),
                zeros(half(CARRY_BITS)),
                zeros(half(CARRY_BITS)),
            ],
            fr: [
                zeros(FROB_STEPS),
                zeros(FROB_STEPS),
                zeros(FROB_STEPS),
                zeros(FROB_STEPS),
                zeros(FROB_STEPS),
                zeros(FROB_STEPS),
                zeros(FROB_STEPS),
                zeros(FROB_STEPS),
            ],
            lch: [
                zeros(half(Y_BITS)),
                zeros(half(Y_BITS)),
                zeros(half(Y_BITS)),
                zeros(half(Y_BITS)),
                zeros(half(Y_BITS)),
                zeros(half(Y_BITS)),
            ],
        };
        assert(r.sel@ =~= Seq::new(6, |k: int| 0u32));
        assert(r.digits@ =~= Seq::new(4, |k: int| 0u32));
        assert(r.carries@ =~= Seq::new(8, |k: int| 0u128));
        r
    }
}

/// The end of a carry's chain is the power of the carry.
proof fn lemma_carry_end(m: Modexp, g: u128, b: int, i: int, k: int, ce: Seq<Flat<Block128>>)
    requires
        m.wf(),
        0 <= b < 32,
        0 <= i < 32,
        0 <= k < 8,
        constraint::flat_values(ce) == exp_form::chain_of(g, carry_of(m, b, i, k), 35),
    ensures
        ce.len() == 35,
        ce[34]@ == gf::gf128_pow(g, carry_of(m, b, i, k)),
{
    let side = (k / 2) % 2;
    if k < 4 {
        exponents::lemma_carry_small(m, side, b, 2 * i + 1 + k % 2);
    } else {
        exponents::lemma_carry_small(
            m,
            side,
            exponents::block_before(b),
            64 + 2 * i + 1 + k % 2,
        );
    }
    exp_form::law_chain_ends_in_power(g, carry_of(m, b, i, k), 35);
    assert(constraint::flat_values(ce).len() == ce.len());
    assert(constraint::flat_values(ce)[34] == ce[34]@);
}

/// The end of a limb's chain is the power of the limb.
proof fn lemma_limb_end(m: Modexp, g: u128, side: int, b: int, i: int, xa: Seq<Flat<Block128>>)
    requires
        constraint::flat_values(xa) == exp_form::chain_of(g, exponents::limb(m, side, b, i), 32),
        exponents::limb(m, side, b, i) <= u64::MAX,
    ensures
        xa.len() == 32,
        xa[31]@ == limb_power(m, g, side, b, i),
{
    lemma2_to64();
    lemma2_to64_rest();
    exp_form::law_chain_ends_in_power(g, exponents::limb(m, side, b, i), 32);
    assert(constraint::flat_values(xa).len() == xa.len());
    assert(constraint::flat_values(xa)[31] == xa[31]@);
}

impl Modexp {
    /// `v` are the values of `row` where `before` are those of the row before.
    pub open spec fn steps_to(self, g: u128, row: int, before: RowValues, v: RowValues) -> bool {
        v.own_part(self, g, row / 32, row % 32) && v.follows(before, row % 32 == 0)
    }

    /// The values of a row are the powers that they should be where those of
    /// the rows before are.
    #[verifier::rlimit(40)]
    pub proof fn lemma_step(self, g: u128, row: int, before: RowValues, r: RowValues)
        requires
            self.wf(),
            0 <= row < 1024,
            before.shaped(),
            self.steps_to(g, row, before, r),
        ensures
            row % 32 == 0 || (before.own_part(self, g, row / 32, row % 32 - 1)
                && before.head_part(self, g, row / 32, row % 32 - 1)) ==> r.head_part(
                self,
                g,
                row / 32,
                row % 32,
            ),
            (if row % 32 == 0 {
                let p = exponents::block_before(row / 32);
                before.own_part(self, g, p, 31) && before.head_part(self, g, p, 31)
            } else {
                before.own_part(self, g, row / 32, row % 32 - 1) && before.tail_part(
                    self,
                    g,
                    row / 32,
                    row % 32 - 1,
                )
            }) ==> r.tail_part(self, g, row / 32, row % 32),
    {
        let start = row % 32 == 0;
        let (bb, ii) = (row / 32, row % 32);
        if start || (before.own_part(self, g, bb, ii - 1) && before.head_part(
            self,
            g,
            bb,
            ii - 1,
        )) {
            lemma_running(self, g, 0, bb, ii, before.u@[0]@, r.p@[0]@, r.u@[0]@);
            lemma_running(self, g, 1, bb, ii, before.u@[1]@, r.p@[1]@, r.u@[1]@);
            exponents::lemma_no_carry_in(self, 0, bb);
            exponents::lemma_no_carry_in(self, 1, bb);
            assert(2 * ii == 2 * (ii - 1) + 2);
            let (rl, wl) = (self.steps()[bb].r@, self.steps()[bb].w@);
            assert(r.rc as nat == exponents::sum_carry(rl, wl, 2 * ii));
            assert(r.rcm as nat == exponents::sum_carry(rl, wl, 2 * ii + 1));
            assert(r.rc_next as nat == exponents::sum_carry(rl, wl, 2 * ii + 2));
            assert(r.head_part(self, g, bb, ii));
        }
        let p = exponents::block_before(bb);
        if (start && before.own_part(self, g, p, 31) && before.head_part(self, g, p, 31)) || (
        !start && before.own_part(self, g, bb, ii - 1) && before.tail_part(self, g, bb, ii - 1)) {
            lemma_tail(self, g, 0, bb, ii, before.u@[0]@, before.ut@[0]@, r.ut@[0]@);
            lemma_tail(self, g, 1, bb, ii, before.u@[1]@, before.ut@[1]@, r.ut@[1]@);
            assert(r.tail_part(self, g, bb, ii));
        }
    }
}

impl Modexp {
    /// The integers of `row`.
    pub fn words(&self, row: usize) -> (r: RowWords)
        requires
            self.wf(),
            row < 1024,
        ensures
            r.are_of(*self, (row / 32) as int, (row % 32) as int),
    {
        let b: usize = row / ROWS_PER_MODMUL;
        let i: usize = row % ROWS_PER_MODMUL;
        let block = self.step(b);
        let prev = self.step(if b == 0 {
            NUM_MODMULS - 1
        } else {
            b - 1
        });
        let n = self.modulus();

        let xs: u64 = limb_pair(&block.x, i);
        let q: u64 = limb_pair(&block.q, i);
        let sel: [u32; 6] = [
            block.r[2 * i],
            block.r[2 * i + 1],
            block.w[2 * i],
            block.w[2 * i + 1],
            n[2 * i],
            n[2 * i + 1],
        ];
        let digits: [u32; 4] = [
            block.digits[2 * i],
            block.digits[2 * i + 1],
            prev.digits[LIMBS32 + 2 * i],
            prev.digits[LIMBS32 + 2 * i + 1],
        ];
        let carries: [u128; 8] = [
            block.carries[0][2 * i + 1],
            block.carries[0][2 * i + 2],
            block.carries[1][2 * i + 1],
            block.carries[1][2 * i + 2],
            prev.carries[0][LIMBS32 + 2 * i + 1],
            prev.carries[0][LIMBS32 + 2 * i + 2],
            prev.carries[1][LIMBS32 + 2 * i + 1],
            prev.carries[1][LIMBS32 + 2 * i + 2],
        ];

        proof {
            assert(sel@ =~= sel_of(*self, b as int, i as int));
            assert(digits@ =~= digits_of(*self, b as int, i as int));
        }
        RowWords { xs, q, sel, digits, carries }
    }

    /// The values of `row`, from those of the row before.
    #[verifier::rlimit(60)]
    pub fn row(&self, basis: &ExpBasis, row: usize, before: &RowValues) -> (r: RowValues)
        requires
            self.wf(),
            basis.wf(),
            row < 1024,
            before.shaped(),
            before.rc_next <= 1,
        ensures
            r.rc_next <= 1,
            r.own_part(*self, basis.g(), (row / 32) as int, (row % 32) as int),
            r.follows(*before, row % 32 == 0),
    {
        let b: usize = row / ROWS_PER_MODMUL;
        let i: usize = row % ROWS_PER_MODMUL;
        let start: bool = i == 0;
        let one = Flat::<Block128>::one();
        let ghost g = basis.g();

        let block = self.step(b);
        let n = self.modulus();

        let (c, ct) = if start {
            ([one, one], before.co)
        } else {
            (before.co, before.cto)
        };
        let rc: u8 = if start {
            1
        } else {
            before.rc_next
        };

        let words = self.words(row);
        let (xs, q): (u64, u64) = (words.xs, words.q);
        let (sel, digits, carries) = (words.sel, words.digits, words.carries);

        let xa0 = chain(basis, xs as u128, half(X_BITS));
        let xa1 = chain(basis, q as u128, half(X_BITS));
        proof {
            lemma_limb_end(*self, g, 0, b as int, i as int, xa0@);
            lemma_limb_end(*self, g, 1, b as int, i as int, xa1@);
        }
        let g0 = xa0[31];
        let g1 = xa1[31];
        let yf0 = squares(g0, Y_BITS - 1);
        let yf1 = squares(g1, Y_BITS - 1);
        let p0 = products(g0, &yf0, &block.y);
        let p1 = products(g1, &yf1, n);
        proof {
            assert(constraint::flat_values(p0@).len() == p0@.len());
            assert(constraint::flat_values(p1@).len() == p1@.len());
        }
        let u0 = next_running(&before.u[0], start, &p0);
        let u1 = next_running(&before.u[1], start, &p1);
        let ut0 = next_tail(&before.u[0], &before.ut[0], start);
        let ut1 = next_tail(&before.u[1], &before.ut[1], start);

        let ce0 = chain(basis, carries[0], half(CARRY_BITS));
        let ce1 = chain(basis, carries[1], half(CARRY_BITS));
        let ce2 = chain(basis, carries[2], half(CARRY_BITS));
        let ce3 = chain(basis, carries[3], half(CARRY_BITS));
        let ce4 = chain(basis, carries[4], half(CARRY_BITS));
        let ce5 = chain(basis, carries[5], half(CARRY_BITS));
        let ce6 = chain(basis, carries[6], half(CARRY_BITS));
        let ce7 = chain(basis, carries[7], half(CARRY_BITS));
        proof {
            let (bb, ii) = (b as int, i as int);
            lemma_carry_end(*self, g, bb, ii, 0, ce0@);
            lemma_carry_end(*self, g, bb, ii, 1, ce1@);
            lemma_carry_end(*self, g, bb, ii, 2, ce2@);
            lemma_carry_end(*self, g, bb, ii, 3, ce3@);
            lemma_carry_end(*self, g, bb, ii, 4, ce4@);
            lemma_carry_end(*self, g, bb, ii, 5, ce5@);
            lemma_carry_end(*self, g, bb, ii, 6, ce6@);
            lemma_carry_end(*self, g, bb, ii, 7, ce7@);
        }
        let fr0 = fourths(ce0[34], FROB_STEPS);
        let fr1 = fourths(ce1[34], FROB_STEPS);
        let fr2 = fourths(ce2[34], FROB_STEPS);
        let fr3 = fourths(ce3[34], FROB_STEPS);
        let fr4 = fourths(ce4[34], FROB_STEPS);
        let fr5 = fourths(ce5[34], FROB_STEPS);
        let fr6 = fourths(ce6[34], FROB_STEPS);
        let fr7 = fourths(ce7[34], FROB_STEPS);

        let rcm: u8 = carry_bit(sel[0], sel[2], rc);
        let rc_next: u8 = carry_bit(sel[1], sel[3], rcm);

        let r = RowValues {
            xs,
            q,
            sel,
            digits,
            carries,
            rc,
            rcm,
            rc_next,
            cm: [ce0[34], ce2[34]],
            co: [ce1[34], ce3[34]],
            ctm: [ce4[34], ce6[34]],
            cto: [ce5[34], ce7[34]],
            xa: [xa0, xa1],
            yf: [yf0, yf1],
            p: [p0, p1],
            u: [u0, u1],
            ut: [ut0, ut1],
            c,
            ct,
            dg: [
                chain(basis, digits[0] as u128, half(DIGIT_BITS)),
                chain(basis, digits[1] as u128, half(DIGIT_BITS)),
                chain(basis, digits[2] as u128, half(DIGIT_BITS)),
                chain(basis, digits[3] as u128, half(DIGIT_BITS)),
            ],
            ce: [ce0, ce1, ce2, ce3, ce4, ce5, ce6, ce7],
            fr: [fr0, fr1, fr2, fr3, fr4, fr5, fr6, fr7],
            lch: [
                chain(basis, sel[0] as u128, half(Y_BITS)),
                chain(basis, sel[1] as u128, half(Y_BITS)),
                chain(basis, sel[2] as u128, half(Y_BITS)),
                chain(basis, sel[3] as u128, half(Y_BITS)),
                chain(basis, sel[4] as u128, half(Y_BITS)),
                chain(basis, sel[5] as u128, half(Y_BITS)),
            ],
        };
        proof {
            let (bb, ii) = (b as int, i as int);
            assert(r.own_part(*self, g, bb, ii));
            assert(r.follows(*before, start));
        }
        r
    }
}

// ---------------------------------------------------------------
// What a row's values must satisfy
// ---------------------------------------------------------------

impl RowValues {
    /// The vectors that a check reads have their lengths.
    pub open spec fn sized(self) -> bool {
        &&& self.shaped()
        &&& forall|k: int| 0 <= k < 4 ==> (#[trigger] self.dg@[k])@.len() == 16
        &&& forall|k: int| 0 <= k < 8 ==> (#[trigger] self.fr@[k])@.len() == 16
        &&& forall|k: int| 0 <= k < 6 ==> (#[trigger] self.lch@[k])@.len() == 16
        &&& self.rc <= 1
        &&& self.rcm <= 1
    }

    /// The power of digit `d`.
    pub open spec fn digit_end(self, d: int) -> u128 {
        self.dg@[d]@[15]@
    }

    /// The power of carry `k`, shifted by one digit.
    pub open spec fn frob_end(self, k: int) -> u128 {
        self.fr@[k]@[15]@
    }

    /// The power of selected limb `w`.
    pub open spec fn limb_end(self, w: int) -> u128 {
        self.lch@[w]@[15]@
    }

    /// The columns that the row finishes split into digits and carries, and
    /// `r + w` plus the carry gives the limbs of `N`.
    pub open spec fn balanced(self) -> bool {
        &&& gf::gf128_mul(self.u@[0]@[0]@, self.c@[0]@) == gf::gf128_mul(
            self.digit_end(0),
            self.frob_end(0),
        )
        &&& gf::gf128_mul(self.u@[0]@[1]@, self.cm@[0]@) == gf::gf128_mul(
            self.digit_end(1),
            self.frob_end(1),
        )
        &&& gf::gf128_mul(gf::gf128_mul(self.u@[1]@[0]@, self.c@[1]@), self.limb_end(0))
            == gf::gf128_mul(self.digit_end(0), self.frob_end(2))
        &&& gf::gf128_mul(gf::gf128_mul(self.u@[1]@[1]@, self.cm@[1]@), self.limb_end(1))
            == gf::gf128_mul(self.digit_end(1), self.frob_end(3))
        &&& gf::gf128_mul(self.ut@[0]@[0]@, self.ct@[0]@) == gf::gf128_mul(
            self.digit_end(2),
            self.frob_end(4),
        )
        &&& gf::gf128_mul(self.ut@[0]@[1]@, self.ctm@[0]@) == gf::gf128_mul(
            self.digit_end(3),
            self.frob_end(5),
        )
        &&& gf::gf128_mul(self.ut@[1]@[0]@, self.ct@[1]@) == gf::gf128_mul(
            self.digit_end(2),
            self.frob_end(6),
        )
        &&& gf::gf128_mul(self.ut@[1]@[1]@, self.ctm@[1]@) == gf::gf128_mul(
            self.digit_end(3),
            self.frob_end(7),
        )
        &&& (self.sel@[0] + self.sel@[2] + self.rc) % 0x1_0000_0000 == self.sel@[4]
        &&& (self.sel@[1] + self.sel@[3] + self.rcm) % 0x1_0000_0000 == self.sel@[5]
    }

    /// # Errors
    /// The row does not balance.
    pub fn check(&self) -> (r: Result<(), Error>)
        requires
            self.sized(),
        ensures
            r is Ok <==> self.balanced(),
            r matches Err(e) ==> e.is_protocol(
                "modexp_chiplet"@,
                "row bookkeeping does not satisfy the carry splits"@,
            ),
    {
        let ok: bool = same_products(self.u[0][0], self.c[0], self.dg[0][15], self.fr[0][15])
            && same_products(self.u[0][1], self.cm[0], self.dg[1][15], self.fr[1][15])
            && same_products(
            self.u[1][0].times(self.c[1]),
            self.lch[0][15],
            self.dg[0][15],
            self.fr[2][15],
        ) && same_products(
            self.u[1][1].times(self.cm[1]),
            self.lch[1][15],
            self.dg[1][15],
            self.fr[3][15],
        ) && same_products(self.ut[0][0], self.ct[0], self.dg[2][15], self.fr[4][15])
            && same_products(self.ut[0][1], self.ctm[0], self.dg[3][15], self.fr[5][15])
            && same_products(self.ut[1][0], self.ct[1], self.dg[2][15], self.fr[6][15])
            && same_products(self.ut[1][1], self.ctm[1], self.dg[3][15], self.fr[7][15])
            && low_limb(self.sel[0], self.sel[2], self.rc) == self.sel[4]
            && low_limb(self.sel[1], self.sel[3], self.rcm) == self.sel[5];
        if ok {
            Ok(())
        } else {
            Err(
                Error::Protocol {
                    protocol: "modexp_chiplet",
                    message: "row bookkeeping does not satisfy the carry splits",
                },
            )
        }
    }
}

/// `a · b` is `c · d`.
fn same_products(
    a: Flat<Block128>,
    b: Flat<Block128>,
    c: Flat<Block128>,
    d: Flat<Block128>,
) -> (r: bool)
    ensures
        r == (gf::gf128_mul(a@, b@) == gf::gf128_mul(c@, d@)),
{
    let (x, y) = (a.times(b), c.times(d));
    x.0.0 == y.0.0
}

/// The low limb of `a + b + carry`.
fn low_limb(a: u32, b: u32, carry: u8) -> (r: u32)
    ensures
        r == (a + b + carry) % 0x1_0000_0000,
{
    ((a as u64 + b as u64 + carry as u64) % 0x1_0000_0000) as u32
}

pub proof fn lemma_shifted_power(g: u128, e: nat)
    ensures
        fourths_of(gf::gf128_pow(g, e), 16)[15] == gf::gf128_pow(g, e * pow2(32)),
{
    assert((2 * 15 + 2) as nat == 32);
    exp_form::law_powers_multiply(g, e, pow2(32));
}

/// Equal integers give equal products of powers.
pub proof fn lemma_balance(g: u128, a: nat, b: nat, d: nat, c: nat)
    requires
        a + b == d + c * pow2(32),
    ensures
        gf::gf128_mul(gf::gf128_pow(g, a), gf::gf128_pow(g, b)) == gf::gf128_mul(
            gf::gf128_pow(g, d),
            fourths_of(gf::gf128_pow(g, c), 16)[15],
        ),
{
    lemma_shifted_power(g, c);
    exp_form::law_powers_add(g, a, b);
    exp_form::law_powers_add(g, d, c * pow2(32));
}

proof fn lemma_end(g: u128, x: nat, cells: Seq<Flat<Block128>>)
    requires
        x < pow2(32),
        constraint::flat_values(cells) == exp_form::chain_of(g, x, 16),
    ensures
        cells.len() == 16,
        cells[15]@ == gf::gf128_pow(g, x),
{
    exp_form::law_chain_ends_in_power(g, x, 16);
    assert(constraint::flat_values(cells).len() == cells.len());
    assert(constraint::flat_values(cells)[15] == cells[15]@);
}

proof fn lemma_first_cells(cells: Seq<Flat<Block128>>, want: Seq<u128>, k: int)
    requires
        constraint::flat_values(cells) == want,
        0 <= k < want.len(),
    ensures
        cells.len() == want.len(),
        cells[k]@ == want[k],
{
    assert(constraint::flat_values(cells).len() == cells.len());
    assert(constraint::flat_values(cells)[k] == cells[k]@);
}

impl Modexp {
    /// The values of every row balance.
    #[verifier::rlimit(40)]
    pub proof fn lemma_rows_balance(self, v: RowValues, g: u128, b: int, i: int)
        requires
            self.wf(),
            0 <= b < 32,
            0 <= i < 32,
            v.own_part(self, g, b, i),
            v.head_part(self, g, b, i),
            v.tail_part(self, g, b, i),
        ensures
            v.sized(),
            v.balanced(),
    {
        let p = exponents::block_before(b);
        let step = self.steps()[b];
        exponents::lemma_sum_carry_bit(step.r@, step.w@, 2 * i);
        exponents::lemma_sum_carry_bit(step.r@, step.w@, 2 * i + 1);
        lemma2_to64();
        assert forall|k: int| 0 <= k < 4 implies (#[trigger] v.dg@[k])@.len() == 16
            && v.digit_end(k) == gf::gf128_pow(g, digits_of(self, b, i)[k] as nat) by {
            lemma_end(g, digits_of(self, b, i)[k] as nat, v.dg@[k]@);
        }
        assert forall|k: int| 0 <= k < 6 implies (#[trigger] v.lch@[k])@.len() == 16
            && v.limb_end(k) == gf::gf128_pow(g, sel_of(self, b, i)[k] as nat) by {
            lemma_end(g, sel_of(self, b, i)[k] as nat, v.lch@[k]@);
        }
        assert forall|k: int| 0 <= k < 8 implies (#[trigger] v.fr@[k])@.len() == 16
            && v.frob_end(k) == fourths_of(gf::gf128_pow(g, carry_of(self, b, i, k)), 16)[15] by {
            lemma_first_cells(
                v.fr@[k]@,
                fourths_of(gf::gf128_pow(g, carry_of(self, b, i, k)), 16),
                15,
            );
        }
        self.lemma_heads_balance(v, g, b, i);
        self.lemma_tails_balance(v, g, b, i);
        exponents::lemma_remainder_limbs(self, b, 2 * i);
        exponents::lemma_remainder_limbs(self, b, 2 * i + 1);
    }

    proof fn lemma_heads_balance(self, v: RowValues, g: u128, b: int, i: int)
        requires
            self.wf(),
            0 <= b < 32,
            0 <= i < 32,
            v.own_part(self, g, b, i),
            v.head_part(self, g, b, i),
            forall|k: int|
                0 <= k < 4 ==> #[trigger] v.digit_end(k) == gf::gf128_pow(
                    g,
                    digits_of(self, b, i)[k] as nat,
                ),
            forall|k: int|
                0 <= k < 6 ==> #[trigger] v.limb_end(k) == gf::gf128_pow(
                    g,
                    sel_of(self, b, i)[k] as nat,
                ),
            forall|k: int|
                0 <= k < 8 ==> #[trigger] v.frob_end(k) == fourths_of(
                    gf::gf128_pow(g, carry_of(self, b, i, k)),
                    16,
                )[15],
        ensures
            gf::gf128_mul(v.u@[0]@[0]@, v.c@[0]@) == gf::gf128_mul(v.digit_end(0), v.frob_end(0)),
            gf::gf128_mul(v.u@[0]@[1]@, v.cm@[0]@) == gf::gf128_mul(
                v.digit_end(1),
                v.frob_end(1),
            ),
            gf::gf128_mul(gf::gf128_mul(v.u@[1]@[0]@, v.c@[1]@), v.limb_end(0))
                == gf::gf128_mul(v.digit_end(0), v.frob_end(2)),
            gf::gf128_mul(gf::gf128_mul(v.u@[1]@[1]@, v.cm@[1]@), v.limb_end(1))
                == gf::gf128_mul(v.digit_end(1), v.frob_end(3)),
    {
        let step = self.steps()[b];
        assert forall|s: int, c: int| 0 <= s < 2 && 0 <= c < 2 implies #[trigger] v.u@[s]@[c]@
            == gf::gf128_pow(g, exponents::running(self, s, b, i, c)) by {
            lemma_first_cells(v.u@[s]@, running_of(self, g, s, b, i), c);
        }
        let run = |s: int, c: int| exponents::running(self, s, b, i, c);
        let car = |s: int, k: int| exponents::carry(self, s, b, 2 * i + k);
        exponents::lemma_head_split(self, 0, b, i, 0);
        exponents::lemma_head_split(self, 0, b, i, 1);
        exponents::lemma_head_split(self, 1, b, i, 0);
        exponents::lemma_head_split(self, 1, b, i, 1);
        lemma_balance(g, run(0, 0), car(0, 0), step.digits@[2 * i] as nat, car(0, 1));
        lemma_balance(g, run(0, 1), car(0, 1), step.digits@[2 * i + 1] as nat, car(0, 2));
        exp_form::law_powers_add(g, run(1, 0), car(1, 0));
        exp_form::law_powers_add(g, run(1, 1), car(1, 1));
        lemma_balance(
            g,
            run(1, 0) + car(1, 0),
            step.r@[2 * i] as nat,
            step.digits@[2 * i] as nat,
            car(1, 1),
        );
        lemma_balance(
            g,
            run(1, 1) + car(1, 1),
            step.r@[2 * i + 1] as nat,
            step.digits@[2 * i + 1] as nat,
            car(1, 2),
        );
        assert(v.c@[0]@ == gf::gf128_pow(g, car(0, 0)));
        assert(v.c@[1]@ == gf::gf128_pow(g, car(1, 0)));
        assert(v.cm@[0]@ == gf::gf128_pow(g, car(0, 1)));
        assert(v.cm@[1]@ == gf::gf128_pow(g, car(1, 1)));
        assert(v.u@[0]@[0]@ == gf::gf128_pow(g, run(0, 0)));
        assert(v.u@[0]@[1]@ == gf::gf128_pow(g, run(0, 1)));
        assert(v.u@[1]@[0]@ == gf::gf128_pow(g, run(1, 0)));
        assert(v.u@[1]@[1]@ == gf::gf128_pow(g, run(1, 1)));
        assert(carry_of(self, b, i, 0) == car(0, 1) && carry_of(self, b, i, 1) == car(0, 2));
        assert(carry_of(self, b, i, 2) == car(1, 1) && carry_of(self, b, i, 3) == car(1, 2));
    }

    proof fn lemma_tails_balance(self, v: RowValues, g: u128, b: int, i: int)
        requires
            self.wf(),
            0 <= b < 32,
            0 <= i < 32,
            v.own_part(self, g, b, i),
            v.tail_part(self, g, b, i),
            forall|k: int|
                0 <= k < 4 ==> #[trigger] v.digit_end(k) == gf::gf128_pow(
                    g,
                    digits_of(self, b, i)[k] as nat,
                ),
            forall|k: int|
                0 <= k < 8 ==> #[trigger] v.frob_end(k) == fourths_of(
                    gf::gf128_pow(g, carry_of(self, b, i, k)),
                    16,
                )[15],
        ensures
            gf::gf128_mul(v.ut@[0]@[0]@, v.ct@[0]@) == gf::gf128_mul(
                v.digit_end(2),
                v.frob_end(4),
            ),
            gf::gf128_mul(v.ut@[0]@[1]@, v.ctm@[0]@) == gf::gf128_mul(
                v.digit_end(3),
                v.frob_end(5),
            ),
            gf::gf128_mul(v.ut@[1]@[0]@, v.ct@[1]@) == gf::gf128_mul(
                v.digit_end(2),
                v.frob_end(6),
            ),
            gf::gf128_mul(v.ut@[1]@[1]@, v.ctm@[1]@) == gf::gf128_mul(
                v.digit_end(3),
                v.frob_end(7),
            ),
    {
        let p = exponents::block_before(b);
        let digits = self.steps()[p].digits@;
        assert forall|s: int, c: int| 0 <= s < 2 && 0 <= c < 2 implies #[trigger] v.ut@[s]@[c]@
            == gf::gf128_pow(g, exponents::tail(self, s, b, i, c)) by {
            lemma_first_cells(v.ut@[s]@, tail_of(self, g, s, b, i), c);
        }
        let run = |s: int, c: int| exponents::tail(self, s, b, i, c);
        let car = |s: int, k: int| exponents::carry(self, s, p, 64 + 2 * i + k);
        exponents::lemma_tail_split(self, 0, b, i, 0);
        exponents::lemma_tail_split(self, 0, b, i, 1);
        exponents::lemma_tail_split(self, 1, b, i, 0);
        exponents::lemma_tail_split(self, 1, b, i, 1);
        lemma_balance(g, run(0, 0), car(0, 0), digits[64 + 2 * i] as nat, car(0, 1));
        lemma_balance(g, run(0, 1), car(0, 1), digits[64 + 2 * i + 1] as nat, car(0, 2));
        lemma_balance(g, run(1, 0), car(1, 0), digits[64 + 2 * i] as nat, car(1, 1));
        lemma_balance(g, run(1, 1), car(1, 1), digits[64 + 2 * i + 1] as nat, car(1, 2));
        assert(v.ct@[0]@ == gf::gf128_pow(g, car(0, 0)));
        assert(v.ct@[1]@ == gf::gf128_pow(g, car(1, 0)));
        assert(v.ctm@[0]@ == gf::gf128_pow(g, car(0, 1)));
        assert(v.ctm@[1]@ == gf::gf128_pow(g, car(1, 1)));
        assert(v.ut@[0]@[0]@ == gf::gf128_pow(g, run(0, 0)));
        assert(v.ut@[0]@[1]@ == gf::gf128_pow(g, run(0, 1)));
        assert(v.ut@[1]@[0]@ == gf::gf128_pow(g, run(1, 0)));
        assert(v.ut@[1]@[1]@ == gf::gf128_pow(g, run(1, 1)));
        assert(carry_of(self, b, i, 4) == car(0, 1) && carry_of(self, b, i, 5) == car(0, 2));
        assert(carry_of(self, b, i, 6) == car(1, 1) && carry_of(self, b, i, 7) == car(1, 2));
    }
}

/// The row that step `t` of a walk computes: the last block first, then the
/// table from its first row on.
pub open spec fn walk_row(t: int) -> int {
    if t < 32 {
        992 + t
    } else {
        t - 32
    }
}

/// Each of these values but the first are those of the walk's next row, where
/// the ones in front of them are those of the row before.
pub open spec fn is_walk(m: Modexp, g: u128, walk: Seq<RowValues>) -> bool {
    &&& walk.len() >= 1
    &&& walk[0].shaped()
    &&& forall|t: int|
        0 <= t < walk.len() - 1 ==> m.steps_to(g, #[trigger] walk_row(t), walk[t], walk[t + 1])
}

/// Whatever a walk starts from, its own block comes out as it should, and
/// after that every row.
proof fn lemma_walk(m: Modexp, g: u128, walk: Seq<RowValues>, t: int)
    requires
        m.wf(),
        is_walk(m, g, walk),
        walk.len() <= 1057,
        1 <= t < walk.len(),
    ensures
        ({
            let row = walk_row(t - 1);
            &&& walk[t].own_part(m, g, row / 32, row % 32)
            &&& walk[t].head_part(m, g, row / 32, row % 32)
            &&& t > 32 ==> walk[t].tail_part(m, g, row / 32, row % 32)
        }),
    decreases t,
{
    let row = walk_row(t - 1);
    assert(m.steps_to(g, walk_row(t - 1), walk[t - 1], walk[t]));
    if t > 1 {
        lemma_walk(m, g, walk, t - 1);
        let last = walk_row(t - 2);
        if row % 32 == 0 {
            assert(last / 32 == exponents::block_before(row / 32) && last % 32 == 31);
        } else {
            assert(last / 32 == row / 32 && last % 32 == row % 32 - 1);
        }
    }
    assert(walk[t - 1].shaped());
    m.lemma_step(g, row, walk[t - 1], walk[t]);
}

/// Walked from the last block on, every row of the table passes its check,
/// and at the end of a block the chains close: no carry leaves the top limb of
/// `r + w + 1`, and none the top column.
pub proof fn law_walk_balances(m: Modexp, g: u128, walk: Seq<RowValues>, row: int)
    requires
        m.wf(),
        is_walk(m, g, walk),
        0 <= row < 1024,
        walk.len() == row + 34,
    ensures
        walk.last().sized(),
        walk.last().balanced(),
        row % 32 == 31 ==> walk.last().rc_next == 0 && walk.last().cto@[0]@ == 1
            && walk.last().cto@[1]@ == 1,
{
    let v = walk.last();
    let (b, i) = (row / 32, row % 32);
    assert(walk_row(row + 32) == row);
    lemma_walk(m, g, walk, row + 33);
    m.lemma_rows_balance(v, g, b, i);
    if i == 31 {
        let p = exponents::block_before(b);
        exponents::lemma_remainder_limbs(m, b, 63);
        exponents::lemma_no_carry_out(m, 0, p);
        exponents::lemma_no_carry_out(m, 1, p);
        assert(carry_of(m, b, i, 5) == 0 && carry_of(m, b, i, 7) == 0);
        assert(v.cto@[0]@ == gf::gf128_pow(g, 0));
        assert(v.cto@[1]@ == gf::gf128_pow(g, 0));
    }
}

} // verus!
