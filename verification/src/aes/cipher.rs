//! The round constraints and the S-box against the cipher that they are for.

use vstd::prelude::*;

use super::laws;
use super::rounds;
use super::sbox_rom;
use crate::atoms::int_laws;
use crate::field::gf;
use crate::field::laws::Ring;
use crate::program::constraint;
use crate::program::constraint::Env;
use crate::program::permutation::{PermutationCheckSpec, Source};

verus! {

// ---------------------------------------------------------------
// The round function
// ---------------------------------------------------------------

/// Twice a byte: shifted up by a bit, and where that bit falls out, less the
/// polynomial `x^8 + x^4 + x^3 + x + 1`.
pub open spec fn twice(b: u8) -> u8 {
    if b < 128 {
        (2 * b) as u8
    } else {
        ((2 * b - 256) as u8) ^ 0x1b
    }
}

/// Three times a byte.
pub open spec fn thrice(b: u8) -> u8 {
    twice(b) ^ b
}

/// The column `t` is MixColumns of the column `s`.
pub open spec fn is_mixed(s: Seq<u8>, t: Seq<u128>) -> bool {
    &&& t[0] == twice(s[0]) ^ thrice(s[1]) ^ s[2] ^ s[3]
    &&& t[1] == s[0] ^ twice(s[1]) ^ thrice(s[2]) ^ s[3]
    &&& t[2] == s[0] ^ s[1] ^ twice(s[2]) ^ thrice(s[3])
    &&& t[3] == thrice(s[0]) ^ s[1] ^ s[2] ^ twice(s[3])
}

/// Column `c` of a state after ShiftRows: row `r` moves by `r` columns. Byte
/// `4 c + r` of a state is in row `r` of column `c`.
pub open spec fn shifted_column(state: Seq<u8>, c: int) -> Seq<u8> {
    seq![
        state[4 * c],
        state[4 * ((c + 1) % 4) + 1],
        state[4 * ((c + 2) % 4) + 2],
        state[4 * ((c + 3) % 4) + 3],
    ]
}

/// Column `c` of the next state, with the round key taken off again.
pub open spec fn unkeyed_column(env: Env, state_in: int, round_key: int, c: int) -> Seq<u128> {
    Seq::new(4, |r: int| env.next[state_in + 4 * c + r] ^ env.cur[round_key + 4 * c + r])
}

/// A full round: every column is MixColumns of ShiftRows of `sub`, plus the
/// round key.
pub open spec fn is_full_round(env: Env, state_in: int, round_key: int, sub: Seq<u8>) -> bool {
    forall|c: int|
        0 <= c < 4 ==> is_mixed(
            shifted_column(sub, c),
            #[trigger] unkeyed_column(env, state_in, round_key, c),
        )
}

/// The last round: every column is ShiftRows of `sub`, plus the round key.
pub open spec fn is_last_round(env: Env, state_in: int, round_key: int, sub: Seq<u8>) -> bool {
    forall|c: int, r: int|
        0 <= c < 4 && 0 <= r < 4 ==> #[trigger] unkeyed_column(env, state_in, round_key, c)[r]
            == shifted_column(sub, c)[r]
}

/// Multiplying by the number 2 doubles, by 3 triples, by 1 does nothing.
pub proof fn law_small_products(b: u8)
    ensures
        gf::gf8_mul(1, b) == b,
        gf::gf8_mul(2, b) == twice(b),
        gf::gf8_mul(3, b) == thrice(b),
{
    <u8 as Ring>::units(b);
    assert(gf::gf8_mul(b, 2) == (if b < 128 {
        (2 * b) as u8
    } else {
        ((2 * b - 256) as u8) ^ 0x1b
    }) && gf::gf8_mul(b, 3) == gf::gf8_mul(b, 2) ^ b) by (bit_vector);
    <u8 as Ring>::commutes(b, 1);
    <u8 as Ring>::commutes(b, 2);
    <u8 as Ring>::commutes(b, 3);
}

/// What one place of the state is held to.
proof fn lemma_place(
    env: Env,
    state_in: int,
    sbox_out: int,
    round_key: int,
    s_round: int,
    s_final: int,
    sub: Seq<u8>,
    j: int,
)
    requires
        sub.len() == 16,
        forall|k: int| 0 <= k < 16 ==> env.cur[sbox_out + k] == #[trigger] sub[k],
        env.cur[s_round] <= 1,
        env.cur[s_final] <= 1,
        0 <= j < 16,
    ensures
        ({
            let roots = rounds::round_roots(env, state_in, sbox_out, round_key, s_round, s_final);
            let x = env.next[state_in + j] ^ env.cur[round_key + j];
            &&& roots.len() == 32
            &&& roots[j] == 0 <==> (env.cur[s_round] == 1 ==> x == laws::mixed(sub, j))
            &&& roots[16 + j] == 0 <==> (env.cur[s_final] == 1 ==> x
                == sub[rounds::shift_source(j)])
        }),
{
    let next = constraint::cells(env.next, state_in, 16);
    let key = constraint::cells(env.cur, round_key, 16);
    let cells = constraint::cells(env.cur, sbox_out, 16);
    assert(next[j] == env.next[state_in + j] && key[j] == env.cur[round_key + j]);
    let x = next[j] ^ key[j];
    laws::lemma_mixed_terms(cells, sub, j);
    let sum = constraint::xor_all(rounds::mixed_terms(cells, j));
    int_laws::lemma_mul_boolean(env.cur[s_round], x ^ sum);
    int_laws::lemma_xor(x, sum);
    let place = rounds::shift_source(j);
    assert(cells[place] == sub[place]);
    int_laws::lemma_mul_boolean(env.cur[s_final], x ^ cells[place]);
    int_laws::lemma_xor(x, cells[place]);
}

/// The sum for place `4 c + r` is the one of MixColumns.
proof fn lemma_mixed_column(sub: Seq<u8>, c: int)
    requires
        sub.len() == 16,
        0 <= c < 4,
    ensures
        is_mixed(shifted_column(sub, c), Seq::new(4, |r: int| laws::mixed(sub, 4 * c + r) as u128)),
        forall|r: int|
            0 <= r < 4 ==> sub[rounds::shift_source(4 * c + r)] == #[trigger] shifted_column(
                sub,
                c,
            )[r],
{
    let s = shifted_column(sub, c);
    assert forall|r: int| 0 <= r < 4 implies sub[rounds::shift_source(4 * c + r)]
        == #[trigger] s[r] by {
        laws::law_shift_rows_by_row(4 * c + r);
        assert((4 * c + r) / 4 == c && (4 * c + r) % 4 == r);
        let place = rounds::shift_source(4 * c + r);
        assert(place == 4 * (place / 4) + place % 4);
    }
    let t = Seq::new(4, |r: int| laws::mixed(sub, 4 * c + r) as u128);
    assert(t[0] == laws::mixed(sub, 4 * c) && t[1] == laws::mixed(sub, 4 * c + 1) && t[2]
        == laws::mixed(sub, 4 * c + 2) && t[3] == laws::mixed(sub, 4 * c + 3));
    assert((4 * c) / 4 == c && (4 * c + 1) / 4 == c && (4 * c + 2) / 4 == c && (4 * c + 3) / 4
        == c);
    assert((4 * c) % 4 == 0 && (4 * c + 1) % 4 == 1 && (4 * c + 2) % 4 == 2 && (4 * c + 3) % 4
        == 3);
    law_small_products(s[0]);
    law_small_products(s[1]);
    law_small_products(s[2]);
    law_small_products(s[3]);
    assert(sub[rounds::shift_source(4 * c + 0)] == s[0]);
    assert(sub[rounds::shift_source(4 * c + 1)] == s[1]);
    assert(sub[rounds::shift_source(4 * c + 2)] == s[2]);
    assert(sub[rounds::shift_source(4 * c + 3)] == s[3]);
}

/// What one place of the state is held to, by column and row.
proof fn lemma_column_place(
    env: Env,
    state_in: int,
    sbox_out: int,
    round_key: int,
    s_round: int,
    s_final: int,
    sub: Seq<u8>,
    c: int,
    r: int,
)
    requires
        sub.len() == 16,
        forall|k: int| 0 <= k < 16 ==> env.cur[sbox_out + k] == #[trigger] sub[k],
        env.cur[s_round] <= 1,
        env.cur[s_final] <= 1,
        0 <= c < 4,
        0 <= r < 4,
    ensures
        ({
            let roots = rounds::round_roots(env, state_in, sbox_out, round_key, s_round, s_final);
            let t = unkeyed_column(env, state_in, round_key, c);
            let j = 4 * c + r;
            &&& roots.len() == 32
            &&& roots[j] == 0 <==> (env.cur[s_round] == 1 ==> t[r] == laws::mixed(sub, j))
            &&& roots[16 + j] == 0 <==> (env.cur[s_final] == 1 ==> t[r]
                == shifted_column(sub, c)[r])
        }),
{
    let j = 4 * c + r;
    lemma_place(env, state_in, sbox_out, round_key, s_round, s_final, sub, j);
    lemma_mixed_column(sub, c);
    assert(state_in + 4 * c + r == state_in + j && round_key + 4 * c + r == round_key + j);
    assert(sub[rounds::shift_source(4 * c + r)] == shifted_column(sub, c)[r]);
}

/// What the places of one column are held to.
proof fn lemma_column(
    env: Env,
    state_in: int,
    sbox_out: int,
    round_key: int,
    s_round: int,
    s_final: int,
    sub: Seq<u8>,
    c: int,
)
    requires
        sub.len() == 16,
        forall|k: int| 0 <= k < 16 ==> env.cur[sbox_out + k] == #[trigger] sub[k],
        env.cur[s_round] <= 1,
        env.cur[s_final] <= 1,
        0 <= c < 4,
    ensures
        ({
            let roots = rounds::round_roots(env, state_in, sbox_out, round_key, s_round, s_final);
            let t = unkeyed_column(env, state_in, round_key, c);
            let s = shifted_column(sub, c);
            &&& roots.len() == 32
            &&& roots[4 * c] == 0 && roots[4 * c + 1] == 0 && roots[4 * c + 2] == 0 && roots[4 * c
                + 3] == 0 <==> (env.cur[s_round] == 1 ==> is_mixed(s, t))
            &&& roots[16 + 4 * c] == 0 && roots[17 + 4 * c] == 0 && roots[18 + 4 * c] == 0
                && roots[19 + 4 * c] == 0 <==> (env.cur[s_final] == 1 ==> t[0] == s[0] && t[1]
                == s[1] && t[2] == s[2] && t[3] == s[3])
        }),
{
    lemma_column_place(env, state_in, sbox_out, round_key, s_round, s_final, sub, c, 0);
    lemma_column_place(env, state_in, sbox_out, round_key, s_round, s_final, sub, c, 1);
    lemma_column_place(env, state_in, sbox_out, round_key, s_round, s_final, sub, c, 2);
    lemma_column_place(env, state_in, sbox_out, round_key, s_round, s_final, sub, c, 3);
    lemma_mixed_column(sub, c);
    let m = Seq::new(4, |r: int| laws::mixed(sub, 4 * c + r) as u128);
    assert(m[0] == laws::mixed(sub, 4 * c) && m[1] == laws::mixed(sub, 4 * c + 1) && m[2]
        == laws::mixed(sub, 4 * c + 2) && m[3] == laws::mixed(sub, 4 * c + 3));
    let roots = rounds::round_roots(env, state_in, sbox_out, round_key, s_round, s_final);
    assert(roots[16 + (4 * c + 0)] == roots[16 + 4 * c]);
    assert(roots[16 + (4 * c + 1)] == roots[17 + 4 * c]);
    assert(roots[16 + (4 * c + 2)] == roots[18 + 4 * c]);
    assert(roots[16 + (4 * c + 3)] == roots[19 + 4 * c]);
}

/// The round constraints hold exactly of AES rounds. Where the round selector
/// is set, every column of the next state is, plus the round key, `2 3 1 1`,
/// `1 2 3 1`, `1 1 2 3` and `3 1 1 2` times the shifted column of S-box
/// outputs; where the final selector is set, it is that column itself.
pub proof fn law_rounds_are_aes(
    env: Env,
    state_in: int,
    sbox_out: int,
    round_key: int,
    s_round: int,
    s_final: int,
    sub: Seq<u8>,
)
    requires
        sub.len() == 16,
        forall|k: int| 0 <= k < 16 ==> env.cur[sbox_out + k] == #[trigger] sub[k],
        env.cur[s_round] <= 1,
        env.cur[s_final] <= 1,
    ensures
        int_laws::all_zero(
            rounds::round_roots(env, state_in, sbox_out, round_key, s_round, s_final),
        ) <==> {
            &&& env.cur[s_round] == 1 ==> is_full_round(env, state_in, round_key, sub)
            &&& env.cur[s_final] == 1 ==> is_last_round(env, state_in, round_key, sub)
        },
{
    let roots = rounds::round_roots(env, state_in, sbox_out, round_key, s_round, s_final);
    let column = |c: int| unkeyed_column(env, state_in, round_key, c);
    lemma_column(env, state_in, sbox_out, round_key, s_round, s_final, sub, 0);
    lemma_column(env, state_in, sbox_out, round_key, s_round, s_final, sub, 1);
    lemma_column(env, state_in, sbox_out, round_key, s_round, s_final, sub, 2);
    lemma_column(env, state_in, sbox_out, round_key, s_round, s_final, sub, 3);
    let (full, last) = (
        is_full_round(env, state_in, round_key, sub),
        is_last_round(env, state_in, round_key, sub),
    );
    assert(full <==> is_mixed(shifted_column(sub, 0), column(0)) && is_mixed(
        shifted_column(sub, 1),
        column(1),
    ) && is_mixed(shifted_column(sub, 2), column(2)) && is_mixed(
        shifted_column(sub, 3),
        column(3),
    ));
    assert(last <==> same_four(shifted_column(sub, 0), column(0)) && same_four(
        shifted_column(sub, 1),
        column(1),
    ) && same_four(shifted_column(sub, 2), column(2)) && same_four(
        shifted_column(sub, 3),
        column(3),
    )) by {
        if last {
            assert forall|c: int| 0 <= c < 4 implies same_four(
                shifted_column(sub, c),
                #[trigger] unkeyed_column(env, state_in, round_key, c),
            ) by {
                let t = unkeyed_column(env, state_in, round_key, c);
                assert(t[0] == shifted_column(sub, c)[0] && t[1] == shifted_column(sub, c)[1]
                    && t[2] == shifted_column(sub, c)[2] && t[3] == shifted_column(sub, c)[3]);
            }
        }
    }
    if int_laws::all_zero(roots) {
        assert(roots[0] == 0 && roots[1] == 0 && roots[2] == 0 && roots[3] == 0 && roots[4] == 0
            && roots[5] == 0 && roots[6] == 0 && roots[7] == 0 && roots[8] == 0 && roots[9] == 0
            && roots[10] == 0 && roots[11] == 0 && roots[12] == 0 && roots[13] == 0 && roots[14]
            == 0 && roots[15] == 0);
        assert(roots[16] == 0 && roots[17] == 0 && roots[18] == 0 && roots[19] == 0 && roots[20]
            == 0 && roots[21] == 0 && roots[22] == 0 && roots[23] == 0 && roots[24] == 0
            && roots[25] == 0 && roots[26] == 0 && roots[27] == 0 && roots[28] == 0 && roots[29]
            == 0 && roots[30] == 0 && roots[31] == 0);
    }
}

/// Four bytes and four cells that hold the same.
spec fn same_four(s: Seq<u8>, t: Seq<u128>) -> bool {
    t[0] == s[0] && t[1] == s[1] && t[2] == s[2] && t[3] == s[3]
}

/// RotWord takes the word `a b c d`, the last of a key, to `b c d a`.
pub proof fn law_rot_word(key: Seq<u8>)
    requires
        key.len() == 16,
    ensures
        Seq::new(4, |j: int| key[rounds::rot_source(j)]) == seq![key[13], key[14], key[15], key[12]],
{
    assert(Seq::new(4, |j: int| key[rounds::rot_source(j)]) =~= seq![
        key[13],
        key[14],
        key[15],
        key[12],
    ]);
}

// ---------------------------------------------------------------
// The S-box
// ---------------------------------------------------------------

/// Bit `i` of a byte, from the lowest on; places wrap around.
pub open spec fn bit_at(b: u8, i: u8) -> u8 {
    (b >> (i % 8)) & 1
}

/// Bit `i` of an S-box value, from the inverse `y` of the input (zero has
/// none, and zero stands for it): bits `i`, `i + 4`, `i + 5`, `i + 6` and
/// `i + 7` of the inverse, and bit `i` of `01100011`.
pub proof fn law_sbox_bits(x: u8, y: u8, i: u8)
    requires
        x == 0 ==> y == 0,
        x != 0 ==> gf::gf8_mul(x, y) == 1,
        i < 8,
    ensures
        bit_at(sbox_rom::sbox(x), i) == bit_at(y, i) ^ bit_at(y, (i + 4) as u8) ^ bit_at(
            y,
            (i + 5) as u8,
        ) ^ bit_at(y, (i + 6) as u8) ^ bit_at(y, (i + 7) as u8) ^ bit_at(0b0110_0011, i),
{
    reveal(sbox_rom::sbox);
    if x == 0 {
        reveal(sbox_rom::inverse);
        crate::field::laws::lemma_gf8_inverse(x);
    } else {
        laws::lemma_inverse_unique(x, y);
    }
    assert(bit_at(sbox_rom::affine(y), i) == bit_at(y, i) ^ bit_at(y, (i + 4) as u8) ^ bit_at(
        y,
        (i + 5) as u8,
    ) ^ bit_at(y, (i + 6) as u8) ^ bit_at(y, (i + 7) as u8) ^ bit_at(0b0110_0011, i))
        by (bit_vector)
        requires
            i < 8,
    ;
}

proof fn lemma_sbox_sources(n: nat, j: int)
    requires
        0 <= j < n <= 16,
    ensures
        sbox_rom::sbox_sources(n).len() == 2 * n,
        sbox_rom::sbox_sources(n)[2 * j].0 == Source::Column((128 + j) as usize),
        sbox_rom::sbox_sources(n)[2 * j + 1].0 == Source::Column((144 + j) as usize),
        sbox_rom::sbox_sources(n)[2 * j].1 == rounds::sbox_in_label_seq()[j],
        sbox_rom::sbox_sources(n)[2 * j + 1].1 == rounds::sbox_out_label_seq()[j],
    decreases n,
{
    if n == 1 {
        assert(sbox_rom::sbox_sources(0).len() == 0);
    } else {
        lemma_sbox_sources((n - 1) as nat, if j < n - 1 {
            j
        } else {
            0
        });
    }
}

/// A row of the table puts on its bus, for each of its sixteen places in turn,
/// the byte that goes into the S-box and the byte that comes out.
pub proof fn law_sbox_pairs(bus: PermutationCheckSpec, row: Seq<u128>, index: nat, j: int)
    requires
        bus.sources@ == sbox_rom::sbox_sources(16),
        laws::is_row(row),
        0 <= j < 16,
    ensures
        bus.key(laws::virtual_row(row), index).len() == 32,
        bus.key(laws::virtual_row(row), index)[2 * j] == row[2 + j],
        bus.key(laws::virtual_row(row), index)[2 * j + 1] == row[18 + j],
{
    lemma_sbox_sources(16, j);
    laws::lemma_virtual(row, j);
}

} // verus!
