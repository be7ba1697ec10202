//! The constraints of an AES round.

use vstd::prelude::*;

use super::sbox_rom;
use crate::field::gf;
use crate::field::Block128;
use crate::program::constraint;
use crate::program::constraint::{ConstraintSystem, Env, Expr};

verus! {

/// The byte ShiftRows moves to place `j`. The state is column-major: byte
/// `i` is in row `i mod 4` of column `i / 4`.
pub open spec fn shift_source(j: int) -> int {
    (5 * j) % 16
}

/// The coefficient of MixColumns in row `r`, column `c`.
pub open spec fn mix_coefficient(r: int, c: int) -> u128 {
    let d = (c - r) % 4;
    if d == 0 {
        2
    } else if d == 1 {
        3
    } else {
        1
    }
}

/// The byte of the key that RotWord moves to place `j`.
pub open spec fn rot_source(j: int) -> int {
    12 + (j + 1) % 4
}

/// FIPS 197, ShiftRows: the source byte of every place.
pub fn shift_map() -> (r: [usize; 16])
    ensures
        forall|j: int| 0 <= j < 16 ==> #[trigger] r@[j] == shift_source(j),
{
    [0, 5, 10, 15, 4, 9, 14, 3, 8, 13, 2, 7, 12, 1, 6, 11]
}

/// FIPS 197, MixColumns: the coefficient matrix.
pub fn mix_columns() -> (r: [[u8; 4]; 4])
    ensures
        forall|i: int, k: int|
            0 <= i < 4 && 0 <= k < 4 ==> #[trigger] r@[i]@[k] == mix_coefficient(i, k),
{
    [[2, 3, 1, 1], [1, 2, 3, 1], [1, 1, 2, 3], [3, 1, 1, 2]]
}

/// FIPS 197, RotWord: the source byte in the key's last word of every place.
pub fn rot_map() -> (r: [usize; 4])
    ensures
        forall|j: int| 0 <= j < 4 ==> #[trigger] r@[j] == 12 + (j + 1) % 4,
        forall|j: int| 0 <= j < 4 ==> #[trigger] r@[j] == rot_source(j),
{
    [13, 14, 15, 12]
}

/// The bus labels of the state's bytes.
pub fn aes_byte_labels() -> (r: [&'static str; 16])
    ensures
        r@ == seq![
        "aes_byte_0",
        "aes_byte_1",
        "aes_byte_2",
        "aes_byte_3",
        "aes_byte_4",
        "aes_byte_5",
        "aes_byte_6",
        "aes_byte_7",
        "aes_byte_8",
        "aes_byte_9",
        "aes_byte_10",
        "aes_byte_11",
        "aes_byte_12",
        "aes_byte_13",
        "aes_byte_14",
        "aes_byte_15",
    ],
{
    [
        "aes_byte_0",
        "aes_byte_1",
        "aes_byte_2",
        "aes_byte_3",
        "aes_byte_4",
        "aes_byte_5",
        "aes_byte_6",
        "aes_byte_7",
        "aes_byte_8",
        "aes_byte_9",
        "aes_byte_10",
        "aes_byte_11",
        "aes_byte_12",
        "aes_byte_13",
        "aes_byte_14",
        "aes_byte_15",
    ]
}

/// The bus labels of the S-box inputs.
pub fn sbox_in_labels() -> (r: [&'static str; 16])
    ensures
        r@ == sbox_in_label_seq(),
{
    [
        "aes_sbox_in_0",
        "aes_sbox_in_1",
        "aes_sbox_in_2",
        "aes_sbox_in_3",
        "aes_sbox_in_4",
        "aes_sbox_in_5",
        "aes_sbox_in_6",
        "aes_sbox_in_7",
        "aes_sbox_in_8",
        "aes_sbox_in_9",
        "aes_sbox_in_10",
        "aes_sbox_in_11",
        "aes_sbox_in_12",
        "aes_sbox_in_13",
        "aes_sbox_in_14",
        "aes_sbox_in_15",
    ]
}

/// The bus labels of the S-box outputs.
pub fn sbox_out_labels() -> (r: [&'static str; 16])
    ensures
        r@ == sbox_out_label_seq(),
{
    [
        "aes_sbox_out_0",
        "aes_sbox_out_1",
        "aes_sbox_out_2",
        "aes_sbox_out_3",
        "aes_sbox_out_4",
        "aes_sbox_out_5",
        "aes_sbox_out_6",
        "aes_sbox_out_7",
        "aes_sbox_out_8",
        "aes_sbox_out_9",
        "aes_sbox_out_10",
        "aes_sbox_out_11",
        "aes_sbox_out_12",
        "aes_sbox_out_13",
        "aes_sbox_out_14",
        "aes_sbox_out_15",
    ]
}

pub open spec fn sbox_in_label_seq() -> Seq<&'static str> {
    seq![
        "aes_sbox_in_0",
        "aes_sbox_in_1",
        "aes_sbox_in_2",
        "aes_sbox_in_3",
        "aes_sbox_in_4",
        "aes_sbox_in_5",
        "aes_sbox_in_6",
        "aes_sbox_in_7",
        "aes_sbox_in_8",
        "aes_sbox_in_9",
        "aes_sbox_in_10",
        "aes_sbox_in_11",
        "aes_sbox_in_12",
        "aes_sbox_in_13",
        "aes_sbox_in_14",
        "aes_sbox_in_15",
    ]
}

pub open spec fn sbox_out_label_seq() -> Seq<&'static str> {
    seq![
        "aes_sbox_out_0",
        "aes_sbox_out_1",
        "aes_sbox_out_2",
        "aes_sbox_out_3",
        "aes_sbox_out_4",
        "aes_sbox_out_5",
        "aes_sbox_out_6",
        "aes_sbox_out_7",
        "aes_sbox_out_8",
        "aes_sbox_out_9",
        "aes_sbox_out_10",
        "aes_sbox_out_11",
        "aes_sbox_out_12",
        "aes_sbox_out_13",
        "aes_sbox_out_14",
        "aes_sbox_out_15",
    ]
}

// ---------------------------------------------------------------
// Round function
// ---------------------------------------------------------------

/// The bytes of a column after ShiftRows, weighted by MixColumns for place
/// `j`.
pub open spec fn mixed_terms(sub: Seq<u128>, j: int) -> Seq<u128> {
    Seq::new(
        4,
        |k: int|
            gf::gf128_mul(mix_coefficient(j % 4, k), sub[shift_source(4 * (j / 4) + k)]),
    )
}

/// Byte `j` of a full round: MixColumns of ShiftRows, plus the round key.
pub open spec fn full_round_residue(
    next: u128,
    key: u128,
    sub: Seq<u128>,
    j: int,
) -> u128 {
    (next ^ key) ^ constraint::xor_all(mixed_terms(sub, j))
}

/// What the first `n` bytes of a full round are held to.
pub open spec fn full_round_roots(
    s: u128,
    next: Seq<u128>,
    key: Seq<u128>,
    sub: Seq<u128>,
    n: nat,
) -> Seq<u128> {
    Seq::new(n, |j: int| gf::gf128_mul(s, full_round_residue(next[j], key[j], sub, j)))
}

/// What the first `n` bytes of the last round are held to: no MixColumns.
pub open spec fn last_round_roots(
    s: u128,
    next: Seq<u128>,
    key: Seq<u128>,
    sub: Seq<u128>,
    n: nat,
) -> Seq<u128> {
    Seq::new(n, |j: int| gf::gf128_mul(s, (next[j] ^ key[j]) ^ sub[shift_source(j)]))
}

/// Everything [`build_round_constraints`] imposes.
pub open spec fn round_roots(
    env: Env,
    state_in: int,
    sbox_out: int,
    round_key: int,
    s_round: int,
    s_final: int,
) -> Seq<u128> {
    let next = constraint::cells(env.next, state_in, 16);
    let key = constraint::cells(env.cur, round_key, 16);
    let sub = constraint::cells(env.cur, sbox_out, 16);
    full_round_roots(env.cur[s_round], next, key, sub, 16) + last_round_roots(
        env.cur[s_final],
        next,
        key,
        sub,
        16,
    )
}

/// Imposes one AES round after the S-box. Where the round selector is set,
/// the next state is MixColumns of ShiftRows of the S-box outputs, plus the
/// round key; where the final selector is set, the same without MixColumns.
pub fn build_round_constraints(
    cs: &mut ConstraintSystem,
    state_in: usize,
    sbox_out: usize,
    round_key: usize,
    s_round_col: usize,
    s_final_col: usize,
)
    requires
        old(cs).wf(),
        state_in + 16 <= usize::MAX,
        sbox_out + 16 <= usize::MAX,
        round_key + 16 <= usize::MAX,
    ensures
        final(cs).wf(),
        final(cs).extends(*old(cs)),
        forall|env: Env|
            (#[trigger] final(cs).root_values(env)) == old(cs).root_values(env) + round_roots(
                env,
                state_in as int,
                sbox_out as int,
                round_key as int,
                s_round_col as int,
                s_final_col as int,
            ),
{
    let shift = shift_map();
    let mix = mix_columns();
    let s_round = cs.col(s_round_col);
    let s_final = cs.col(s_final_col);
    let ghost start = *cs;
    proof {
        assert forall|env: Env| (#[trigger] cs.root_values(env)) == start.root_values(env)
            + full_round_roots(
            env.cur[s_round_col as int],
            constraint::cells(env.next, state_in as int, 16),
            constraint::cells(env.cur, round_key as int, 16),
            constraint::cells(env.cur, sbox_out as int, 16),
            0,
        ) by {
            assert(cs.root_values(env) =~= start.root_values(env) + full_round_roots(
                env.cur[s_round_col as int],
                constraint::cells(env.next, state_in as int, 16),
                constraint::cells(env.cur, round_key as int, 16),
                constraint::cells(env.cur, sbox_out as int, 16),
                0,
            ));
        }
    }
    for j in 0..16usize
        invariant
            state_in + 16 <= usize::MAX,
            sbox_out + 16 <= usize::MAX,
            round_key + 16 <= usize::MAX,
            cs.wf(),
            cs.extends(start),
            cs.has(s_round),
            cs.has(s_final),
            forall|k: int| 0 <= k < 16 ==> #[trigger] shift@[k] == shift_source(k),
            forall|i: int, k: int|
                0 <= i < 4 && 0 <= k < 4 ==> #[trigger] mix@[i]@[k] == mix_coefficient(i, k),
            forall|env: Env| #[trigger] cs.value(s_round, env) == env.cur[s_round_col as int],
            forall|env: Env| #[trigger] cs.value(s_final, env) == env.cur[s_final_col as int],
            forall|env: Env|
                (#[trigger] cs.root_values(env)) == start.root_values(env) + full_round_roots(
                    env.cur[s_round_col as int],
                    constraint::cells(env.next, state_in as int, 16),
                    constraint::cells(env.cur, round_key as int, 16),
                    constraint::cells(env.cur, sbox_out as int, 16),
                    j as nat,
                ),
    {
        let ghost before = *cs;
        let mixed = mixed_byte(cs, sbox_out, j);
        let next = cs.next(state_in + j);
        let key = cs.col(round_key + j);
        let keyed = cs.plus(next, key);
        let body = cs.plus(keyed, mixed);
        cs.assert_zero_when(s_round, body);
        proof {
            assert forall|env: Env| (#[trigger] cs.root_values(env)) == start.root_values(env)
                + full_round_roots(
                env.cur[s_round_col as int],
                constraint::cells(env.next, state_in as int, 16),
                constraint::cells(env.cur, round_key as int, 16),
                constraint::cells(env.cur, sbox_out as int, 16),
                (j + 1) as nat,
            ) by {
                assert(before.root_values(env) == start.root_values(env) + full_round_roots(
                    env.cur[s_round_col as int],
                    constraint::cells(env.next, state_in as int, 16),
                    constraint::cells(env.cur, round_key as int, 16),
                    constraint::cells(env.cur, sbox_out as int, 16),
                    j as nat,
                ));
                assert(cs.root_values(env) =~= start.root_values(env) + full_round_roots(
                    env.cur[s_round_col as int],
                    constraint::cells(env.next, state_in as int, 16),
                    constraint::cells(env.cur, round_key as int, 16),
                    constraint::cells(env.cur, sbox_out as int, 16),
                    (j + 1) as nat,
                ));
            }
        }
    }
    let ghost mid = *cs;
    proof {
        assert forall|env: Env| (#[trigger] cs.root_values(env)) == mid.root_values(env)
            + last_round_roots(
            env.cur[s_final_col as int],
            constraint::cells(env.next, state_in as int, 16),
            constraint::cells(env.cur, round_key as int, 16),
            constraint::cells(env.cur, sbox_out as int, 16),
            0,
        ) by {
            assert(cs.root_values(env) =~= mid.root_values(env) + last_round_roots(
                env.cur[s_final_col as int],
                constraint::cells(env.next, state_in as int, 16),
                constraint::cells(env.cur, round_key as int, 16),
                constraint::cells(env.cur, sbox_out as int, 16),
                0,
            ));
        }
    }
    for j in 0..16usize
        invariant
            state_in + 16 <= usize::MAX,
            sbox_out + 16 <= usize::MAX,
            round_key + 16 <= usize::MAX,
            cs.wf(),
            cs.extends(start),
            cs.has(s_final),
            forall|k: int| 0 <= k < 16 ==> #[trigger] shift@[k] == shift_source(k),
            forall|env: Env| #[trigger] cs.value(s_final, env) == env.cur[s_final_col as int],
            forall|env: Env|
                (#[trigger] cs.root_values(env)) == mid.root_values(env) + last_round_roots(
                    env.cur[s_final_col as int],
                    constraint::cells(env.next, state_in as int, 16),
                    constraint::cells(env.cur, round_key as int, 16),
                    constraint::cells(env.cur, sbox_out as int, 16),
                    j as nat,
                ),
    {
        let ghost before = *cs;
        let src: usize = shift[j];
        let shifted = cs.col(sbox_out + src);
        let next = cs.next(state_in + j);
        let key = cs.col(round_key + j);
        let keyed = cs.plus(next, key);
        let body = cs.plus(keyed, shifted);
        cs.assert_zero_when(s_final, body);
        proof {
            assert forall|env: Env| (#[trigger] cs.root_values(env)) == mid.root_values(env)
                + last_round_roots(
                env.cur[s_final_col as int],
                constraint::cells(env.next, state_in as int, 16),
                constraint::cells(env.cur, round_key as int, 16),
                constraint::cells(env.cur, sbox_out as int, 16),
                (j + 1) as nat,
            ) by {
                assert(before.root_values(env) == mid.root_values(env) + last_round_roots(
                    env.cur[s_final_col as int],
                    constraint::cells(env.next, state_in as int, 16),
                    constraint::cells(env.cur, round_key as int, 16),
                    constraint::cells(env.cur, sbox_out as int, 16),
                    j as nat,
                ));
                assert(cs.root_values(env) =~= mid.root_values(env) + last_round_roots(
                    env.cur[s_final_col as int],
                    constraint::cells(env.next, state_in as int, 16),
                    constraint::cells(env.cur, round_key as int, 16),
                    constraint::cells(env.cur, sbox_out as int, 16),
                    (j + 1) as nat,
                ));
            }
        }
    }
    proof {
        assert forall|env: Env| (#[trigger] cs.root_values(env)) == old(cs).root_values(env)
            + round_roots(
            env,
            state_in as int,
            sbox_out as int,
            round_key as int,
            s_round_col as int,
            s_final_col as int,
        ) by {
            assert(cs.root_values(env) =~= old(cs).root_values(env) + round_roots(
                env,
                state_in as int,
                sbox_out as int,
                round_key as int,
                s_round_col as int,
                s_final_col as int,
            ));
        }
    }
}

/// The MixColumns sum of place `j`.
fn mixed_byte(cs: &mut ConstraintSystem, sbox_out: usize, j: usize) -> (r: Expr)
    requires
        old(cs).wf(),
        sbox_out + 16 <= usize::MAX,
        j < 16,
    ensures
        final(cs).wf(),
        final(cs).has(r),
        final(cs).extends(*old(cs)),
        forall|env: Env|
            #[trigger] final(cs).value(r, env) == constraint::xor_all(
                mixed_terms(constraint::cells(env.cur, sbox_out as int, 16), j as int),
            ),
        forall|env: Env| (#[trigger] final(cs).root_values(env)) == old(cs).root_values(env),
{
    let shift = shift_map();
    let mix = mix_columns();
    let (column, row): (usize, usize) = (j / 4, j % 4);
    let mut terms: Vec<Expr> = Vec::with_capacity(4);
    for k in 0..4usize
        invariant
            sbox_out + 16 <= usize::MAX,
            j < 16,
            column == j / 4,
            row == j % 4,
            cs.wf(),
            cs.extends(*old(cs)),
            terms@.len() == k,
            cs.has_all(terms@),
            forall|i: int| 0 <= i < 16 ==> #[trigger] shift@[i] == shift_source(i),
            forall|i: int, c: int|
                0 <= i < 4 && 0 <= c < 4 ==> #[trigger] mix@[i]@[c] == mix_coefficient(i, c),
            forall|env: Env, i: int|
                0 <= i < k ==> #[trigger] cs.value(terms@[i], env) == mixed_terms(
                    constraint::cells(env.cur, sbox_out as int, 16),
                    j as int,
                )[i],
            forall|env: Env| (#[trigger] cs.root_values(env)) == old(cs).root_values(env),
    {
        let ghost before = *cs;
        let ghost prev = terms@;
        let place: usize = 4 * column + k;
        let source: usize = shift[place];
        let src = cs.col(sbox_out + source);
        let row_coefficients: [u8; 4] = mix[row];
        let coefficient: u8 = row_coefficients[k];
        let term = if coefficient == 1 {
            src
        } else {
            cs.scale(Block128(coefficient as u128), src)
        };
        terms.push(term);
        proof {
            cs.lemma_has_stable(before, prev);
            assert(coefficient == mix_coefficient(row as int, k as int));
            assert forall|env: Env, i: int| 0 <= i < k + 1 implies #[trigger] cs.value(
                terms@[i],
                env,
            ) == mixed_terms(constraint::cells(env.cur, sbox_out as int, 16), j as int)[i] by {
                if i < k {
                    assert(before.has(prev[i]));
                    assert(before.value(prev[i], env) == mixed_terms(
                        constraint::cells(env.cur, sbox_out as int, 16),
                        j as int,
                    )[i]);
                } else {
                    crate::atoms::int_laws::lemma_mul_boolean(1, env.cur[sbox_out + source]);
                    assert(source == shift_source(place as int));
                }
            }
        }
    }
    let ghost mid = *cs;
    let r = cs.sum(terms.as_slice());
    proof {
        assert forall|env: Env| #[trigger] cs.value(r, env) == constraint::xor_all(
            mixed_terms(constraint::cells(env.cur, sbox_out as int, 16), j as int),
        ) by {
            let ts = mixed_terms(constraint::cells(env.cur, sbox_out as int, 16), j as int);
            assert forall|i: int| 0 <= i < 4 implies mid.values(terms@, env)[i] == ts[i] by {
                assert(mid.value(terms@[i], env) == ts[i]);
            }
            assert(mid.values(terms@, env) =~= ts);
        }
    }
    r
}

// ---------------------------------------------------------------
// S-box inversion
// ---------------------------------------------------------------

/// What the first `n` bytes of an inversion witness are held to.
pub open spec fn inversion_roots(
    cur: Seq<u128>,
    inputs: Seq<usize>,
    sub: int,
    inv_bits: int,
    z: int,
    gate: int,
    n: nat,
) -> Seq<u128>
    decreases n,
{
    if n == 0 {
        Seq::empty()
    } else {
        let j = n - 1;
        inversion_roots(cur, inputs, sub, inv_bits, z, gate, j as nat) + sbox_rom::byte_roots(
            cur[gate],
            cur[inputs[j] as int],
            cur[sub + j],
            cur[z + j],
            constraint::cells(cur, inv_bits + 8 * j, 8),
        )
    }
}

/// Imposes that four bytes are the S-box values of four others, by the bits
/// of the inverses: thirteen constraints a byte.
pub fn build_sbox_inversion_constraints(
    cs: &mut ConstraintSystem,
    input_cols: [usize; 4],
    sub_col: usize,
    inv_bits_col: usize,
    z_col: usize,
    gate_col: usize,
)
    requires
        old(cs).wf(),
        sub_col + 4 <= usize::MAX,
        inv_bits_col + 32 <= usize::MAX,
        z_col + 4 <= usize::MAX,
    ensures
        final(cs).wf(),
        forall|env: Env|
            (#[trigger] final(cs).root_values(env)) == old(cs).root_values(env) + inversion_roots(
                env.cur,
                input_cols@,
                sub_col as int,
                inv_bits_col as int,
                z_col as int,
                gate_col as int,
                4,
            ),
{
    proof {
        assert forall|env: Env| (#[trigger] cs.root_values(env)) == old(cs).root_values(env)
            + inversion_roots(
            env.cur,
            input_cols@,
            sub_col as int,
            inv_bits_col as int,
            z_col as int,
            gate_col as int,
            0,
        ) by {
            assert(cs.root_values(env) =~= old(cs).root_values(env) + Seq::<u128>::empty());
        }
    }
    for j in 0..4usize
        invariant
            sub_col + 4 <= usize::MAX,
            inv_bits_col + 32 <= usize::MAX,
            z_col + 4 <= usize::MAX,
            cs.wf(),
            forall|env: Env|
                (#[trigger] cs.root_values(env)) == old(cs).root_values(env) + inversion_roots(
                    env.cur,
                    input_cols@,
                    sub_col as int,
                    inv_bits_col as int,
                    z_col as int,
                    gate_col as int,
                    j as nat,
                ),
    {
        let ghost before = *cs;
        sbox_rom::byte_constraints(
            cs,
            gate_col,
            input_cols[j],
            sub_col + j,
            z_col + j,
            inv_bits_col + 8 * j,
        );
        proof {
            assert forall|env: Env| (#[trigger] cs.root_values(env)) == old(cs).root_values(env)
                + inversion_roots(
                env.cur,
                input_cols@,
                sub_col as int,
                inv_bits_col as int,
                z_col as int,
                gate_col as int,
                (j + 1) as nat,
            ) by {
                assert(before.root_values(env) == old(cs).root_values(env) + inversion_roots(
                    env.cur,
                    input_cols@,
                    sub_col as int,
                    inv_bits_col as int,
                    z_col as int,
                    gate_col as int,
                    j as nat,
                ));
                assert(cs.root_values(env) =~= old(cs).root_values(env) + inversion_roots(
                    env.cur,
                    input_cols@,
                    sub_col as int,
                    inv_bits_col as int,
                    z_col as int,
                    gate_col as int,
                    (j + 1) as nat,
                ));
            }
        }
    }
}

} // verus!
