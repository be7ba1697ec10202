//! The AES S-box as a table: `S(x) = A(x^-1) + 0x63`.
//!
//! A row holds sixteen evaluations. The inverse is given by its bits, and
//! the affine map of FIPS 197 by its columns.

use vstd::arithmetic::power2::*;
use vstd::prelude::*;

use super::rounds;
use crate::bits;
use crate::bytes;
use crate::errors::Error;
use crate::field::gf;
use crate::field::laws;
use crate::field::{Bit, Block128, Block64, Block8};
use crate::program::constraint;
use crate::program::constraint::{ConstraintAst, ConstraintSystem, Env, Expr};
use crate::program::expander;
use crate::program::expander::VirtualExpander;
use crate::program::permutation::{BusKind, PermutationCheckSpec, Source};
use crate::trace;
use crate::trace::{ColumnTrace, ColumnType, TraceBuilder};

verus! {

/// Why the key of the S-box bus needs no clock of its own.
pub const SBOX_BUS_WAIVER: &'static str = "see hekate-chiplets/src/aes/sbox_rom.rs: AES<>SboxRom internal; phantom blocks caught at link+key v3";

// ---------------------------------------------------------------
// The S-box
// ---------------------------------------------------------------

/// `b` rotated left by `n` bits.
pub open spec fn rotated(b: u8, n: u8) -> u8 {
    (b << n) | (b >> ((8 - n) as u8))
}

/// The affine map of SubBytes (FIPS 197, 5.1.1).
pub open spec fn affine(b: u8) -> u8 {
    b ^ rotated(b, 1) ^ rotated(b, 2) ^ rotated(b, 3) ^ rotated(b, 4) ^ 0x63
}

/// The inverse in GF(2^8), zero for zero: `x^254`.
#[verifier::opaque]
pub open spec fn inverse(x: u8) -> u8 {
    laws::gf8_power_254(x)
}

/// The AES S-box.
#[verifier::opaque]
pub open spec fn sbox(x: u8) -> u8 {
    affine(inverse(x))
}

/// The columns of the affine map's matrix.
pub fn affine_cols() -> (r: [u8; 8])
    ensures
        r@ == affine_col_seq(),
{
    [0x1F, 0x3E, 0x7C, 0xF8, 0xF1, 0xE3, 0xC7, 0x8F]
}

pub open spec fn affine_col_seq() -> Seq<u8> {
    seq![0x1F, 0x3E, 0x7C, 0xF8, 0xF1, 0xE3, 0xC7, 0x8F]
}

/// `x^-1` in GF(2^8) as `x^254`, in constant time. Zero gives zero without
/// a case of its own.
pub fn gf256_inv(x: u8) -> (r: u8)
    ensures
        r == inverse(x),
        x == 0 ==> r == 0,
        x != 0 ==> gf::gf8_mul(x, r) == 1,
{
    let b = Block8(x);
    let b2 = b.times(b);
    let b4 = b2.times(b2);
    let b8 = b4.times(b4);
    let b16 = b8.times(b8);
    let b32 = b16.times(b16);
    let b64 = b32.times(b32);
    let b128 = b64.times(b64);
    proof {
        reveal(inverse);
        laws::lemma_gf8_inverse(x);
    }
    b2.times(b4).times(b8).times(b16).times(b32).times(b64).times(b128).0
}

/// The S-box in constant time; a table lookup would leak the key through
/// the cache.
pub fn ct_sbox(x: u8) -> (r: u8)
    ensures
        r == sbox(x),
{
    proof {
        reveal(sbox);
    }
    aes_affine(gf256_inv(x))
}

/// The affine map of SubBytes.
pub fn aes_affine(b: u8) -> (r: u8)
    ensures
        r == affine(b),
{
    b ^ rotate(b, 1) ^ rotate(b, 2) ^ rotate(b, 3) ^ rotate(b, 4) ^ 0x63
}

fn rotate(b: u8, n: u8) -> (r: u8)
    requires
        0 < n < 8,
    ensures
        r == rotated(b, n),
{
    (b << n) | (b >> (8 - n))
}

// ---------------------------------------------------------------
// Columns
// ---------------------------------------------------------------

pub const PHYS_INV: usize = 0;

pub const PHYS_INPUT: usize = 2;

pub const PHYS_OUTPUT: usize = 18;

pub const PHYS_Z: usize = 34;

pub const PHYS_SELECTOR: usize = 50;

pub const PHYS_NUM_COLS: usize = 51;

/// The virtual columns constraints refer to.
pub struct SboxRomColumns;

impl SboxRomColumns {
    pub const INV_BITS: usize = 0;

    pub const INPUT: usize = 128;

    pub const OUTPUT: usize = 144;

    /// Marks zero inputs.
    pub const Z: usize = 160;

    pub const SELECTOR: usize = 176;

    pub const NUM_COLUMNS: usize = 177;
}

/// The committed columns' types.
pub open spec fn rom_layout() -> Seq<ColumnType> {
    expander::repeated(ColumnType::B64, 2) + expander::repeated(ColumnType::B8, 32)
        + expander::repeated(ColumnType::Bit, 17)
}

/// The virtual columns: the bits of the packed inverses, then the other
/// committed columns.
pub open spec fn rom_virtuals() -> Seq<expander::VirtualColumn> {
    expander::bit_columns(0, 64, 128) + expander::whole_columns(2, 49)
}

/// The bus key: input and output of each evaluation, in turn.
pub open spec fn sbox_sources(n: nat) -> Seq<(Source, &'static str)>
    decreases n,
{
    if n == 0 {
        Seq::empty()
    } else {
        let i = n - 1;
        sbox_sources(i as nat) + seq![
            (Source::Column((128 + i) as usize), rounds::sbox_in_label_seq()[i]),
            (Source::Column((144 + i) as usize), rounds::sbox_out_label_seq()[i]),
        ]
    }
}

// ---------------------------------------------------------------
// Constraints
// ---------------------------------------------------------------

/// `Σ col_k · bit_k`, the linear part of the affine map.
pub open spec fn affine_sum(bs: Seq<u128>) -> u128 {
    constraint::xor_all(
        Seq::new(8, |k: int| gf::gf128_mul(affine_col_seq()[k] as u128, bs[k])),
    )
}

/// What one evaluation is held to: the flag and the bits are boolean; where
/// the selector is on, the bits write the inverse or the flag says that there
/// is none, and the output is the affine map of the bits.
pub open spec fn byte_roots(
    gate: u128,
    input: u128,
    output: u128,
    z: u128,
    bs: Seq<u128>,
) -> Seq<u128> {
    let inv = constraint::weighted(bs);
    seq![constraint::boolean_residue(z)] + constraint::boolean_residues(bs) + seq![
        gf::gf128_mul(gate, (gf::gf128_mul(input, inv) ^ z) ^ 1),
        gf::gf128_mul(z, input),
        gf::gf128_mul(z, inv),
        gf::gf128_mul(gate, (output ^ 0x63) ^ affine_sum(bs)),
    ]
}

/// What the first `n` evaluations of a row are held to.
pub open spec fn evaluation_roots(cur: Seq<u128>, n: nat) -> Seq<u128>
    decreases n,
{
    if n == 0 {
        Seq::empty()
    } else {
        let j = n - 1;
        evaluation_roots(cur, j as nat) + byte_roots(
            cur[176],
            cur[128 + j],
            cur[144 + j],
            cur[160 + j],
            constraint::cells(cur, 8 * j, 8),
        )
    }
}

/// In an unselected row, the first `n` flags and inverses are zero.
pub open spec fn idle_roots(cur: Seq<u128>, n: nat) -> Seq<u128>
    decreases n,
{
    if n == 0 {
        Seq::empty()
    } else {
        let j = n - 1;
        idle_roots(cur, j as nat) + seq![
            gf::gf128_mul(1 ^ cur[176], cur[160 + j]),
            gf::gf128_mul(1 ^ cur[176], constraint::weighted(constraint::cells(cur, 8 * j, 8))),
        ]
    }
}

/// Everything imposed of a row.
pub open spec fn rom_roots(cur: Seq<u128>) -> Seq<u128> {
    seq![constraint::boolean_residue(cur[176])] + evaluation_roots(cur, 16) + idle_roots(cur, 16)
}

/// `Σ col_k · bit_k`.
fn affine_expr(cs: &mut ConstraintSystem, bs: &Vec<Expr>) -> (r: Expr)
    requires
        old(cs).wf(),
        old(cs).has_all(bs@),
        bs@.len() == 8,
    ensures
        final(cs).wf(),
        final(cs).has(r),
        final(cs).extends(*old(cs)),
        forall|env: Env|
            #[trigger] final(cs).value(r, env) == affine_sum(old(cs).values(bs@, env)),
        forall|env: Env| (#[trigger] final(cs).root_values(env)) == old(cs).root_values(env),
{
    let cols = affine_cols();
    let mut terms: Vec<Expr> = Vec::with_capacity(8);
    for k in 0..8usize
        invariant
            cs.wf(),
            cs.extends(*old(cs)),
            old(cs).has_all(bs@),
            bs@.len() == 8,
            cols@ == affine_col_seq(),
            terms@.len() == k,
            cs.has_all(terms@),
            forall|env: Env, i: int|
                0 <= i < k ==> #[trigger] cs.value(terms@[i], env) == gf::gf128_mul(
                    affine_col_seq()[i] as u128,
                    old(cs).value(bs@[i], env),
                ),
            forall|env: Env| (#[trigger] cs.root_values(env)) == old(cs).root_values(env),
    {
        let ghost before = *cs;
        let ghost prev = terms@;
        proof {
            assert(old(cs).has(bs@[k as int]));
        }
        let t = cs.scale(Block128(cols[k] as u128), bs[k]);
        terms.push(t);
        proof {
            cs.lemma_has_stable(before, prev);
            assert forall|env: Env, i: int| 0 <= i < k + 1 implies #[trigger] cs.value(
                terms@[i],
                env,
            ) == gf::gf128_mul(affine_col_seq()[i] as u128, old(cs).value(bs@[i], env)) by {
                if i < k {
                    assert(before.has(prev[i]));
                    assert(before.value(prev[i], env) == gf::gf128_mul(
                        affine_col_seq()[i] as u128,
                        old(cs).value(bs@[i], env),
                    ));
                } else {
                    assert(before.value(bs@[k as int], env) == old(cs).value(bs@[k as int], env));
                }
            }
        }
    }
    let ghost mid = *cs;
    let r = cs.sum(terms.as_slice());
    proof {
        assert forall|env: Env| #[trigger] cs.value(r, env) == affine_sum(
            old(cs).values(bs@, env),
        ) by {
            let vs = old(cs).values(bs@, env);
            let ws = Seq::new(8, |k: int| gf::gf128_mul(affine_col_seq()[k] as u128, vs[k]));
            assert forall|i: int| 0 <= i < 8 implies mid.values(terms@, env)[i] == ws[i] by {
                assert(mid.value(terms@[i], env) == gf::gf128_mul(
                    affine_col_seq()[i] as u128,
                    old(cs).value(bs@[i], env),
                ));
            }
            assert(mid.values(terms@, env) =~= ws);
        }
    }
    r
}

/// Imposes one evaluation, its columns being given.
pub(crate) fn byte_constraints(
    cs: &mut ConstraintSystem,
    gate_col: usize,
    input_col: usize,
    output_col: usize,
    z_col: usize,
    bits_col: usize,
)
    requires
        old(cs).wf(),
        bits_col + 8 <= usize::MAX,
    ensures
        final(cs).wf(),
        forall|env: Env|
            (#[trigger] final(cs).root_values(env)) == old(cs).root_values(env) + byte_roots(
                env.cur[gate_col as int],
                env.cur[input_col as int],
                env.cur[output_col as int],
                env.cur[z_col as int],
                constraint::cells(env.cur, bits_col as int, 8),
            ),
{
    let gate = cs.col(gate_col);
    let one = cs.one();
    let affine_const = cs.constant(Block128(0x63));
    let input = cs.col(input_col);
    let output = cs.col(output_col);
    let z = cs.col(z_col);
    cs.assert_boolean(z);
    let ghost s1 = *cs;
    let bs = cs.cols(bits_col, 8);
    let ghost s2 = *cs;
    cs.assert_booleans(bs.as_slice());
    let ghost s3 = *cs;
    proof {
        s3.lemma_has_stable(s2, bs@);
    }
    let inv = cs.weigh(bs.as_slice());
    let product = cs.times(input, inv);
    let flagged = cs.plus(product, z);
    let off = cs.plus(flagged, one);
    cs.assert_zero_when(gate, off);
    let zi = cs.times(z, input);
    cs.constrain(zi);
    let zv = cs.times(z, inv);
    cs.constrain(zv);
    let ghost s4 = *cs;
    proof {
        s4.lemma_has_stable(s3, bs@);
    }
    let affine = affine_expr(cs, &bs);
    let shifted = cs.plus(output, affine_const);
    let wrong = cs.plus(shifted, affine);
    cs.assert_zero_when(gate, wrong);
    proof {
        assert forall|env: Env| (#[trigger] cs.root_values(env)) == old(cs).root_values(env)
            + byte_roots(
            env.cur[gate_col as int],
            env.cur[input_col as int],
            env.cur[output_col as int],
            env.cur[z_col as int],
            constraint::cells(env.cur, bits_col as int, 8),
        ) by {
            let vs = constraint::cells(env.cur, bits_col as int, 8);
            assert(s2.values(bs@, env) == vs);
            s3.lemma_values_stable(s2, bs@, env);
            s4.lemma_values_stable(s3, bs@, env);
            assert(cs.root_values(env) =~= old(cs).root_values(env) + byte_roots(
                env.cur[gate_col as int],
                env.cur[input_col as int],
                env.cur[output_col as int],
                env.cur[z_col as int],
                vs,
            ));
        }
    }
}

fn idle_constraints(cs: &mut ConstraintSystem)
    requires
        old(cs).wf(),
    ensures
        final(cs).wf(),
        forall|env: Env|
            (#[trigger] final(cs).root_values(env)) == old(cs).root_values(env) + idle_roots(
                env.cur,
                16,
            ),
{
    let one = cs.one();
    let sel = cs.col(SboxRomColumns::SELECTOR);
    let not_sel = cs.plus(one, sel);
    proof {
        assert forall|env: Env| (#[trigger] cs.root_values(env)) == old(cs).root_values(env)
            + idle_roots(env.cur, 0) by {
            assert(cs.root_values(env) =~= old(cs).root_values(env) + idle_roots(env.cur, 0));
        }
    }
    for j in 0..16usize
        invariant
            cs.wf(),
            cs.has(not_sel),
            forall|env: Env| #[trigger] cs.value(not_sel, env) == 1 ^ env.cur[176],
            forall|env: Env|
                (#[trigger] cs.root_values(env)) == old(cs).root_values(env) + idle_roots(
                    env.cur,
                    j as nat,
                ),
    {
        let ghost before = *cs;
        let z = cs.col(SboxRomColumns::Z + j);
        cs.assert_zero_when(not_sel, z);
        let bs = cs.cols(SboxRomColumns::INV_BITS + j * 8, 8);
        let inv_byte = cs.weigh(bs.as_slice());
        cs.assert_zero_when(not_sel, inv_byte);
        proof {
            assert forall|env: Env| (#[trigger] cs.root_values(env)) == old(cs).root_values(env)
                + idle_roots(env.cur, (j + 1) as nat) by {
                assert(before.root_values(env) == old(cs).root_values(env) + idle_roots(
                    env.cur,
                    j as nat,
                ));
                assert(cs.root_values(env) =~= old(cs).root_values(env) + idle_roots(
                    env.cur,
                    (j + 1) as nat,
                ));
            }
        }
    }
}

/// The S-box table.
#[derive(Clone, Debug)]
pub struct SboxRomChiplet {
    pub num_rows: usize,
}

impl SboxRomChiplet {
    pub const BUS_ID: &'static str = "aes_sbox";

    pub fn new(num_rows: usize) -> (res: Result<Self, Error>)
        ensures
            res is Ok <==> bits::is_power_of_two(num_rows as nat),
            res matches Ok(x) ==> x.num_rows == num_rows,
            res matches Err(e) ==> e.is_protocol("aes_sbox_rom"@, "ROM size must be power of 2"@),
    {
        match trace::exact_log2(num_rows) {
            Some(_) => Ok(SboxRomChiplet { num_rows }),
            None => Err(
                Error::Protocol {
                    protocol: "aes_sbox_rom",
                    message: "ROM size must be power of 2",
                },
            ),
        }
    }

    /// The table's side of the bus.
    pub fn linking_spec() -> (r: PermutationCheckSpec)
        ensures
            r.kind == BusKind::Permutation,
            r.sources@ == sbox_sources(16),
            r.sources@.len() == 32,
            r.selector == Some(176usize),
            r.clock_waiver == Some(SBOX_BUS_WAIVER),
    {
        let in_labels = rounds::sbox_in_labels();
        let out_labels = rounds::sbox_out_labels();
        let mut sources: Vec<(Source, &'static str)> = Vec::with_capacity(32);
        for i in 0..16usize
            invariant
                in_labels@ == rounds::sbox_in_label_seq(),
                out_labels@ == rounds::sbox_out_label_seq(),
                sources@ == sbox_sources(i as nat),
                sources@.len() == 2 * i,
        {
            sources.push((Source::Column(SboxRomColumns::INPUT + i), in_labels[i]));
            sources.push((Source::Column(SboxRomColumns::OUTPUT + i), out_labels[i]));
            assert(sources@ =~= sbox_sources((i + 1) as nat));
        }
        PermutationCheckSpec::new(sources, Some(SboxRomColumns::SELECTOR)).with_clock_waiver(
            SBOX_BUS_WAIVER,
        )
    }

    pub fn name(&self) -> (r: String)
        ensures
            r@ == "SboxRomChiplet"@,
    {
        "SboxRomChiplet".to_owned()
    }

    pub fn column_layout(&self) -> (r: Vec<ColumnType>)
        ensures
            r@ == rom_layout(),
    {
        let mut cols: Vec<ColumnType> = Vec::with_capacity(PHYS_NUM_COLS);
        for k in 0..2
            invariant
                cols@ =~= expander::repeated(ColumnType::B64, k as nat),
        {
            cols.push(ColumnType::B64);
        }
        for k in 0..32
            invariant
                cols@ =~= expander::repeated(ColumnType::B64, 2) + expander::repeated(
                    ColumnType::B8,
                    k as nat,
                ),
        {
            cols.push(ColumnType::B8);
        }
        for k in 0..17
            invariant
                cols@ =~= expander::repeated(ColumnType::B64, 2) + expander::repeated(
                    ColumnType::B8,
                    32,
                ) + expander::repeated(ColumnType::Bit, k as nat),
        {
            cols.push(ColumnType::Bit);
        }
        cols
    }

    pub fn permutation_checks(&self) -> (r: Vec<(String, PermutationCheckSpec)>)
        ensures
            r@.len() == 1,
            r@[0].0@ == "aes_sbox"@,
            r@[0].1.kind == BusKind::Permutation,
            r@[0].1.sources@ == sbox_sources(16),
            r@[0].1.selector == Some(176usize),
            r@[0].1.clock_waiver == Some(SBOX_BUS_WAIVER),
    {
        vec![("aes_sbox".to_owned(), SboxRomChiplet::linking_spec())]
    }

    pub fn virtual_expander(&self) -> (r: Option<VirtualExpander>)
        ensures
            r matches Some(x) && x.wf() && x.layout() == rom_layout() && x.virtuals()
                == rom_virtuals(),
    {
        let x = VirtualExpander::new().expand_bits(2, ColumnType::B64).pass_through(
            16,
            ColumnType::B8,
        ).pass_through(16, ColumnType::B8).control_bits(17);
        assert(x.layout() =~= rom_layout());
        assert(x.virtuals() =~= rom_virtuals());
        Some(x)
    }

    pub fn constraint_ast(&self) -> (r: ConstraintAst)
        ensures
            r.wf(),
            forall|env: Env| (#[trigger] r.root_values(env)) == rom_roots(env.cur),
    {
        let mut cs = ConstraintSystem::new();
        let sel = cs.col(SboxRomColumns::SELECTOR);
        cs.assert_boolean(sel);
        let ghost start = cs;
        proof {
            assert forall|env: Env| (#[trigger] cs.root_values(env)) == start.root_values(env)
                + evaluation_roots(env.cur, 0) by {
                assert(cs.root_values(env) =~= start.root_values(env) + evaluation_roots(
                    env.cur,
                    0,
                ));
            }
        }
        for j in 0..16usize
            invariant
                cs.wf(),
                forall|env: Env|
                    (#[trigger] cs.root_values(env)) == start.root_values(env) + evaluation_roots(
                        env.cur,
                        j as nat,
                    ),
        {
            let ghost before = cs;
            byte_constraints(
                &mut cs,
                SboxRomColumns::SELECTOR,
                SboxRomColumns::INPUT + j,
                SboxRomColumns::OUTPUT + j,
                SboxRomColumns::Z + j,
                SboxRomColumns::INV_BITS + 8 * j,
            );
            proof {
                assert forall|env: Env| (#[trigger] cs.root_values(env)) == start.root_values(env)
                    + evaluation_roots(env.cur, (j + 1) as nat) by {
                    assert(before.root_values(env) == start.root_values(env) + evaluation_roots(
                        env.cur,
                        j as nat,
                    ));
                    assert(cs.root_values(env) =~= start.root_values(env) + evaluation_roots(
                        env.cur,
                        (j + 1) as nat,
                    ));
                }
            }
        }
        idle_constraints(&mut cs);
        proof {
            assert forall|env: Env| (#[trigger] cs.root_values(env)) == rom_roots(env.cur) by {
                assert(start.root_values(env) =~= seq![
                    constraint::boolean_residue(env.cur[176]),
                ]);
                assert(cs.root_values(env) =~= rom_roots(env.cur));
            }
        }
        cs.build()
    }
}

// ---------------------------------------------------------------
// Trace generation
// ---------------------------------------------------------------

/// The sixteen evaluations of one round.
#[derive(Clone, Copy, Debug)]
pub struct SboxRound {
    pub inputs: [u8; 16],
    pub outputs: [u8; 16],
}

impl SboxRound {
    /// Every output is the S-box value of its input.
    pub open spec fn valid(self) -> bool {
        forall|j: int| 0 <= j < 16 ==> #[trigger] self.outputs@[j] == sbox(self.inputs@[j])
    }
}

/// The inverses of eight inputs from `from` on, one byte each.
pub open spec fn packed_inverses(inputs: Seq<u8>, from: int) -> nat {
    bytes::le_value(Seq::new(8, |k: int| inverse(inputs[from + k])))
}

/// A cell of a row that holds a round.
pub open spec fn round_cell(round: SboxRound, c: int) -> u128 {
    if c < 2 {
        packed_inverses(round.inputs@, 8 * c) as u128
    } else if c < 18 {
        round.inputs@[c - 2] as u128
    } else if c < 34 {
        round.outputs@[c - 18] as u128
    } else if c < 50 {
        if round.inputs@[c - 34] == 0 {
            1
        } else {
            0
        }
    } else {
        1
    }
}

/// The trace with one row per round, and zero rows after them.
pub fn generate_sbox_rom_trace(rounds: &[SboxRound], num_rows: usize) -> (res: Result<
    ColumnTrace,
    Error,
>)
    ensures
        res is Ok <==> bits::is_power_of_two(num_rows as nat) && rounds@.len() <= num_rows && (
        forall|i: int| 0 <= i < rounds@.len() ==> (#[trigger] rounds@[i]).valid()),
        res matches Ok(t) ==> {
            &&& t.wf()
            &&& pow2(t.num_vars as nat) == num_rows
            &&& t.layout() == rom_layout()
            &&& forall|c: int, r: int|
                0 <= c < 51 && 0 <= r < num_rows ==> #[trigger] t.at(c, r) == (if r
                    < rounds@.len() {
                    round_cell(rounds@[r], c)
                } else {
                    0
                })
        },
        res matches Err(e) ==> e.is_protocol(
            "aes_sbox_rom"@,
            if !bits::is_power_of_two(num_rows as nat) {
                "trace size must be power of 2"@
            } else if rounds@.len() > num_rows {
                "too many rounds for trace size"@
            } else {
                "entry does not match FIPS 197 S-box"@
            },
        ),
{
    let num_vars: usize = match trace::exact_log2(num_rows) {
        Some(k) => k,
        None => {
            return Err(
                Error::Protocol {
                    protocol: "aes_sbox_rom",
                    message: "trace size must be power of 2",
                },
            );
        },
    };
    if rounds.len() > num_rows {
        return Err(
            Error::Protocol {
                protocol: "aes_sbox_rom",
                message: "too many rounds for trace size",
            },
        );
    }
    for i in 0..rounds.len()
        invariant
            bits::is_power_of_two(num_rows as nat),
            rounds@.len() <= num_rows,
            forall|k: int| 0 <= k < i ==> (#[trigger] rounds@[k]).valid(),
    {
        let round = rounds[i];
        for j in 0..16usize
            invariant
                bits::is_power_of_two(num_rows as nat),
                rounds@.len() <= num_rows,
                i < rounds@.len(),
                round == rounds@[i as int],
                forall|k: int|
                    0 <= k < j ==> #[trigger] round.outputs@[k] == sbox(round.inputs@[k]),
        {
            if round.outputs[j] != ct_sbox(round.inputs[j]) {
                proof {
                    assert(!(round.outputs@[j as int] == sbox(round.inputs@[j as int])));
                    assert(!round.valid());
                    assert(!rounds@[i as int].valid());
                }
                return Err(
                    Error::Protocol {
                        protocol: "aes_sbox_rom",
                        message: "entry does not match FIPS 197 S-box",
                    },
                );
            }
        }
    }
    let chiplet = SboxRomChiplet { num_rows };
    let layout = chiplet.column_layout();
    let mut tb = TraceBuilder::new(layout.as_slice(), num_vars)?;
    for row in 0..rounds.len()
        invariant
            rounds@.len() <= num_rows,
            num_rows as nat == pow2(num_vars as nat),
            tb.wf(),
            tb.layout() == rom_layout(),
            tb.vars() == num_vars,
            forall|c: int, r: int|
                0 <= c < 50 && 0 <= r < row ==> #[trigger] tb.at(c, r) == round_cell(rounds@[r], c),
            forall|c: int, r: int|
                0 <= c < 51 && row <= r < num_rows ==> #[trigger] tb.at(c, r) == 0,
            forall|r: int| 0 <= r < num_rows ==> #[trigger] tb.at(50, r) == 0,
    {
        write_round(&mut tb, row, &rounds[row])?;
    }
    tb.fill_selector(PHYS_SELECTOR, rounds.len())?;
    Ok(tb.build())
}

/// Writes one round into a zero row, but for the selector.
fn write_round(tb: &mut TraceBuilder, row: usize, round: &SboxRound) -> (res: Result<(), Error>)
    requires
        old(tb).wf(),
        old(tb).layout() == rom_layout(),
        row < old(tb).height(),
    ensures
        res is Ok,
        final(tb).same_shape(old(tb)),
        forall|c: int, r: int|
            #![trigger final(tb).at(c, r)]
            old(tb).in_range(c, r) ==> final(tb).at(c, r) == (if r == row && c < 50 {
                round_cell(*round, c)
            } else {
                old(tb).at(c, r)
            }),
{
    let ghost start = *tb;
    let mut lo: Vec<u8> = Vec::with_capacity(8);
    let mut hi: Vec<u8> = Vec::with_capacity(8);
    for j in 0..16usize
        invariant
            tb.wf(),
            start.wf(),
            tb.same_shape(&start),
            start.layout() == rom_layout(),
            row < start.height(),
            lo@ =~= Seq::new(
                (if j < 8 {
                    j as nat
                } else {
                    8
                }),
                |k: int| inverse(round.inputs@[k]),
            ),
            hi@ =~= Seq::new(
                (if j < 8 {
                    0
                } else {
                    (j - 8) as nat
                }),
                |k: int| inverse(round.inputs@[8 + k]),
            ),
            forall|c: int, r: int|
                #![trigger tb.at(c, r)]
                start.in_range(c, r) ==> tb.at(c, r) == (if r == row && (2 <= c < 2 + j || 18 <= c
                    < 18 + j || 34 <= c < 34 + j) {
                    round_cell(*round, c)
                } else {
                    start.at(c, r)
                }),
    {
        let input: u8 = round.inputs[j];
        tb.set_b8(PHYS_INPUT + j, row, Block8(input))?;
        tb.set_b8(PHYS_OUTPUT + j, row, Block8(round.outputs[j]))?;
        let z = if input == 0 {
            Bit(1)
        } else {
            Bit(0)
        };
        tb.set_bit(PHYS_Z + j, row, z)?;
        if j < 8 {
            lo.push(gf256_inv(input));
        } else {
            hi.push(gf256_inv(input));
        }
    }
    let lo_word: u128 = bytes::read_le(lo.as_slice());
    let hi_word: u128 = bytes::read_le(hi.as_slice());
    proof {
        bytes::lemma_byte_pow_values();
        bytes::lemma_le_value_bound(lo@);
        bytes::lemma_le_value_bound(hi@);
        assert(lo@ =~= Seq::new(8, |k: int| inverse(round.inputs@[0 + k])));
        assert(hi@ =~= Seq::new(8, |k: int| inverse(round.inputs@[8 + k])));
    }
    tb.set_b64(PHYS_INV, row, Block64(lo_word as u64))?;
    tb.set_b64(PHYS_INV + 1, row, Block64(hi_word as u64))?;
    Ok(())
}

} // verus!
