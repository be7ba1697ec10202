//! What the AES constraints prove, and that the S-box table meets them.

use vstd::arithmetic::div_mod::*;
use vstd::arithmetic::mul::*;
use vstd::arithmetic::power2::*;
use vstd::prelude::*;

use super::rounds;
use super::sbox_rom;
use super::sbox_rom::SboxRound;
use crate::atoms::int_laws;
use crate::bits;
use crate::bytes;
use crate::field::gf;
use crate::field::laws;
use crate::field::laws::Ring;
use crate::field::subfields;
use crate::program::constraint;
use crate::program::constraint::Env;
use crate::program::expander;

verus! {

// ---------------------------------------------------------------
// The affine map
// ---------------------------------------------------------------

/// Column `k` of the affine map where bit `k` is set, zero elsewhere.
spec fn selected(b: u8, k: u8, col: u8) -> u8 {
    if (b >> k) & 1 == 1 {
        col
    } else {
        0
    }
}

proof fn lemma_affine_bits(b: u8)
    ensures
        sbox_rom::affine(b) == selected(b, 0, 0x1F) ^ selected(b, 1, 0x3E) ^ selected(b, 2, 0x7C)
            ^ selected(b, 3, 0xF8) ^ selected(b, 4, 0xF1) ^ selected(b, 5, 0xE3) ^ selected(
            b,
            6,
            0xC7,
        ) ^ selected(b, 7, 0x8F) ^ 0x63,
{
    assert(sbox_rom::affine(b) == selected(b, 0, 0x1F) ^ selected(b, 1, 0x3E) ^ selected(b, 2, 0x7C)
        ^ selected(b, 3, 0xF8) ^ selected(b, 4, 0xF1) ^ selected(b, 5, 0xE3) ^ selected(b, 6, 0xC7)
        ^ selected(b, 7, 0x8F) ^ 0x63) by (bit_vector);
}

proof fn lemma_xor_eight(t: Seq<u128>)
    requires
        t.len() == 8,
    ensures
        constraint::xor_all(t) == ((((((((0u128 ^ t[0]) ^ t[1]) ^ t[2]) ^ t[3]) ^ t[4]) ^ t[5])
            ^ t[6]) ^ t[7]),
{
    assert(t.take(8) =~= t);
    lemma_xor_take(t, 0);
    lemma_xor_take(t, 1);
    lemma_xor_take(t, 2);
    lemma_xor_take(t, 3);
    lemma_xor_take(t, 4);
    lemma_xor_take(t, 5);
    lemma_xor_take(t, 6);
    lemma_xor_take(t, 7);
    assert(t.take(0) =~= Seq::<u128>::empty());
    assert(constraint::xor_all(t.take(0)) == 0);
}

proof fn lemma_xor_take(t: Seq<u128>, n: int)
    requires
        0 <= n < t.len(),
    ensures
        constraint::xor_all(t.take(n + 1)) == constraint::xor_all(t.take(n)) ^ t[n],
{
    assert(t.take(n + 1).drop_last() =~= t.take(n));
}

/// The columns of the affine map, weighted by the bits of a byte, add up to
/// the affine map without its constant.
pub proof fn law_affine_columns(b: u8)
    ensures
        sbox_rom::affine_sum(int_laws::bits_of(b as nat, 8)) ^ 0x63 == sbox_rom::affine(b),
        sbox_rom::affine_sum(int_laws::bits_of(b as nat, 8)) < 256,
{
    let bs = int_laws::bits_of(b as nat, 8);
    let cols = sbox_rom::affine_col_seq();
    let t = Seq::new(8, |k: int| gf::gf128_mul(cols[k] as u128, bs[k]));
    assert forall|k: int| 0 <= k < 8 implies #[trigger] t[k] == selected(b, k as u8, cols[k]) by {
        lemma_byte_bit(b, k as nat);
        bits::lemma_mod_pow2_step(b as nat, k as nat);
        int_laws::lemma_mul_boolean(cols[k] as u128, bs[k]);
    }
    lemma_xor_eight(t);
    lemma_affine_bits(b);
    let (t0, t1, t2, t3, t4, t5, t6, t7) = (
        selected(b, 0, 0x1F),
        selected(b, 1, 0x3E),
        selected(b, 2, 0x7C),
        selected(b, 3, 0xF8),
        selected(b, 4, 0xF1),
        selected(b, 5, 0xE3),
        selected(b, 6, 0xC7),
        selected(b, 7, 0x8F),
    );
    assert(t[0] == t0 && t[1] == t1 && t[2] == t2 && t[3] == t3 && t[4] == t4 && t[5] == t5 && t[6]
        == t6 && t[7] == t7);
    int_laws::lemma_xor(0, t0 as u128);
    let sum = t0 ^ t1 ^ t2 ^ t3 ^ t4 ^ t5 ^ t6 ^ t7;
    assert(constraint::xor_all(t) == sum);
}

/// Bit `k` of a byte, by shifting.
proof fn lemma_byte_bit(b: u8, k: nat)
    requires
        k < 8,
    ensures
        (b >> (k as u8)) & 1 == bits::bit(b as nat, k),
{
    bits::lemma_bit_u32(b as u32, k);
    assert((b >> (k as u8)) & 1 == ((b as u32) >> (k as u32)) & 1);
}

// ---------------------------------------------------------------
// One evaluation
// ---------------------------------------------------------------

/// There is one inverse.
pub proof fn lemma_inverse_unique(x: u8, y: u8)
    requires
        gf::gf8_mul(x, y) == 1,
    ensures
        x != 0,
        y == sbox_rom::inverse(x),
{
    reveal(sbox_rom::inverse);
    laws::lemma_gf8_inverse(x);
    let i = sbox_rom::inverse(x);
    <u8 as Ring>::units(y);
    <u8 as Ring>::units(i);
    <u8 as Ring>::units(x);
    <u8 as Ring>::commutes(x, y);
    if x == 0 {
        <u8 as Ring>::units(y);
        <u8 as Ring>::commutes(0, y);
    }
    <u8 as Ring>::associates(y, x, i);
    <u8 as Ring>::commutes(1, i);
}

/// What an evaluation's constraints ask, on bytes and boolean bits.
spec fn evaluation_ok(gate: u128, input: u8, output: u8, z: u128, inv: u8) -> bool {
    &&& z <= 1
    &&& gate == 1 ==> {
        &&& inv == sbox_rom::inverse(input)
        &&& z == (if input == 0 {
            1u128
        } else {
            0u128
        })
        &&& output == sbox_rom::sbox(input)
    }
    &&& z == 1 ==> input == 0 && inv == 0
}

proof fn lemma_evaluation(gate: u128, input: u8, output: u8, z: u128, inv: u8)
    requires
        gate <= 1,
    ensures
        int_laws::all_zero(
            sbox_rom::byte_roots(
                gate,
                input as u128,
                output as u128,
                z,
                int_laws::bits_of(inv as nat, 8),
            ),
        ) <==> evaluation_ok(gate, input, output, z, inv),
{
    let bs = int_laws::bits_of(inv as nat, 8);
    lemma2_to64();
    int_laws::lemma_bits_of(inv as nat, 8);
    int_laws::law_weighted(bs);
    int_laws::law_booleans(bs);
    int_laws::law_boolean_residue(z);
    let w = constraint::weighted(bs);
    assert(w == inv);
    let p1 = seq![constraint::boolean_residue(z)];
    let p2 = constraint::boolean_residues(bs);
    let product = gf::gf128_mul(input as u128, w);
    let p3 = seq![
        gf::gf128_mul(gate, (product ^ z) ^ 1),
        gf::gf128_mul(z, input as u128),
        gf::gf128_mul(z, w),
        gf::gf128_mul(gate, (output as u128 ^ 0x63) ^ sbox_rom::affine_sum(bs)),
    ];
    int_laws::lemma_all_zero_append(p1 + p2, p3);
    int_laws::lemma_all_zero_append(p1, p2);
    if int_laws::all_zero(p1) {
        assert(p1[0] == 0);
    }
    if z <= 1 {
        subfields::law_bytes_are_a_subfield(input, inv);
        int_laws::lemma_mul_boolean(gate, (product ^ z) ^ 1);
        int_laws::lemma_mul_boolean(z, input as u128);
        int_laws::lemma_mul_boolean(z, w);
        int_laws::lemma_mul_boolean(
            gate,
            (output as u128 ^ 0x63) ^ sbox_rom::affine_sum(bs),
        );
        int_laws::lemma_xor(product, z);
        int_laws::lemma_xor(product ^ z, 1);
        law_affine_columns(inv);
        lemma_output(output as u128, sbox_rom::affine_sum(bs));
        reveal(sbox_rom::sbox);
        if gf::gf8_mul(input, inv) == 1 {
            lemma_inverse_unique(input, inv);
        }
        reveal(sbox_rom::inverse);
        laws::lemma_gf8_inverse(input);
        <u8 as Ring>::units(input);
        <u8 as Ring>::commutes(0, inv);
        <u8 as Ring>::units(inv);
        if int_laws::all_zero(p3) {
            assert(p3[0] == 0 && p3[1] == 0 && p3[2] == 0 && p3[3] == 0);
            int_laws::lemma_xor(z, 1);
        }
        if evaluation_ok(gate, input, output, z, inv) {
            assert forall|i: int| 0 <= i < p3.len() implies #[trigger] p3[i] == 0 by {
                assert(i == 0 || i == 1 || i == 2 || i == 3);
                int_laws::lemma_xor(z, 1);
            }
        }
    }
}

proof fn lemma_output(output: u128, sum: u128)
    ensures
        (output ^ 0x63) ^ sum == 0 <==> output == sum ^ 0x63,
{
    let c = 0x63u128;
    <u128 as Ring>::sums(output, c, sum, 0, 0, 0, 0, 0);
    <u128 as Ring>::sums(c, sum, 0, 0, 0, 0, 0, 0);
    int_laws::lemma_xor(output ^ c, sum);
    int_laws::lemma_xor(output, c ^ sum);
    int_laws::lemma_xor(sum, c);
}

// ---------------------------------------------------------------
// Rows
// ---------------------------------------------------------------

/// A committed row: the packed inverses fit 64 bits, inputs and outputs are
/// bytes.
pub open spec fn is_row(row: Seq<u128>) -> bool {
    &&& row.len() == 51
    &&& row[0] <= u64::MAX
    &&& row[1] <= u64::MAX
    &&& forall|c: int| 2 <= c < 34 ==> #[trigger] row[c] < 256
}

/// The virtual row of a committed row.
pub open spec fn virtual_row(row: Seq<u128>) -> Seq<u128> {
    expander::expanded(sbox_rom::rom_virtuals(), row)
}

/// The byte of inverses that belongs to evaluation `j`.
pub open spec fn inverse_byte(row: Seq<u128>, j: int) -> u8 {
    ((row[j / 8] as nat / pow2((8 * (j % 8)) as nat)) % 256) as u8
}

/// Where the cells of evaluation `j` stand.
pub proof fn lemma_virtual(row: Seq<u128>, j: int)
    requires
        is_row(row),
        0 <= j < 16,
    ensures
        ({
            let v = virtual_row(row);
            &&& v[176] == row[50]
            &&& v[128 + j] == row[2 + j]
            &&& v[144 + j] == row[18 + j]
            &&& v[160 + j] == row[34 + j]
            &&& constraint::cells(v, 8 * j, 8) == int_laws::bits_of(
                inverse_byte(row, j) as nat,
                8,
            )
        }),
{
    let v = virtual_row(row);
    assert forall|c: int| 2 <= c < 51 implies #[trigger] v[126 + c] == row[c] by {
        assert(sbox_rom::rom_virtuals()[126 + c] == expander::whole_columns(2, 49)[c - 2]);
    }
    assert(v[126 + 50int] == row[50]);
    assert(v[126 + (2 + j)] == row[2 + j]);
    assert(v[126 + (18 + j)] == row[18 + j]);
    assert(v[126 + (34 + j)] == row[34 + j]);
    let bs = constraint::cells(v, 8 * j, 8);
    let word = row[j / 8] as nat;
    let low = (8 * (j % 8)) as nat;
    let y = word / pow2(low);
    lemma2_to64();
    assert forall|k: int| 0 <= k < 8 implies #[trigger] bs[k] == int_laws::bits_of(
        inverse_byte(row, j) as nat,
        8,
    )[k] by {
        let i = 8 * j + k;
        assert(bs[k] == v[i]);
        assert(i / 64 == j / 8 && i % 64 == low + k);
        assert(sbox_rom::rom_virtuals()[i] == expander::bit_columns(0, 64, 128)[i]);
        lemma_pow2_pos(low);
        lemma_pow2_pos(k as nat);
        lemma_pow2_adds(low, k as nat);
        lemma_div_denominator(word as int, pow2(low) as int, pow2(k as nat) as int);
        int_laws::lemma_bits_of(y, 8);
        int_laws::lemma_bits_unique(int_laws::bits_of(y, 8));
        assert(int_laws::bits_of(y % 256, 8)[k] == int_laws::bits_of(y, 8)[k]);
        bits::lemma_mod_pow2_step(word, low + k as nat);
    }
    assert(bs =~= int_laws::bits_of(inverse_byte(row, j) as nat, 8));
}

/// What a row's constraints ask of evaluation `j`.
spec fn row_ok(row: Seq<u128>, j: int) -> bool {
    &&& evaluation_ok(
        row[50],
        row[2 + j] as u8,
        row[18 + j] as u8,
        row[34 + j],
        inverse_byte(row, j),
    )
    &&& row[50] == 0 ==> row[34 + j] == 0 && inverse_byte(row, j) == 0
}

proof fn lemma_evaluations(row: Seq<u128>, n: nat)
    requires
        is_row(row),
        row[50] <= 1,
        n <= 16,
    ensures
        int_laws::all_zero(sbox_rom::evaluation_roots(virtual_row(row), n)) <==> forall|j: int|
            0 <= j < n ==> #[trigger] evaluation_ok(
                row[50],
                row[2 + j] as u8,
                row[18 + j] as u8,
                row[34 + j],
                inverse_byte(row, j),
            ),
    decreases n,
{
    if n > 0 {
        let j = n - 1;
        let v = virtual_row(row);
        lemma_evaluations(row, j as nat);
        lemma_virtual(row, j);
        assert(row[2 + j] < 256 && row[18 + j] < 256);
        lemma_evaluation(
            row[50],
            row[2 + j] as u8,
            row[18 + j] as u8,
            row[34 + j],
            inverse_byte(row, j),
        );
        int_laws::lemma_all_zero_append(
            sbox_rom::evaluation_roots(v, j as nat),
            sbox_rom::byte_roots(
                v[176],
                v[128 + j],
                v[144 + j],
                v[160 + j],
                constraint::cells(v, 8 * j, 8),
            ),
        );
    }
}

/// What an unselected row leaves empty.
spec fn idle_ok(row: Seq<u128>, j: int) -> bool {
    row[50] == 0 ==> row[34 + j] == 0 && inverse_byte(row, j) == 0
}

proof fn lemma_idle(row: Seq<u128>, n: nat)
    requires
        is_row(row),
        row[50] <= 1,
        n <= 16,
    ensures
        int_laws::all_zero(sbox_rom::idle_roots(virtual_row(row), n)) <==> forall|j: int|
            0 <= j < n ==> #[trigger] idle_ok(row, j),
    decreases n,
{
    if n > 0 {
        let j = n - 1;
        let v = virtual_row(row);
        lemma_idle(row, j as nat);
        lemma_virtual(row, j);
        let bs = constraint::cells(v, 8 * j, 8);
        lemma2_to64();
        int_laws::lemma_bits_of(inverse_byte(row, j) as nat, 8);
        int_laws::law_weighted(bs);
        let w = constraint::weighted(bs);
        assert(w == inverse_byte(row, j));
        int_laws::lemma_xor(1, row[50]);
        int_laws::lemma_mul_boolean(1 ^ row[50], row[34 + j]);
        int_laws::lemma_mul_boolean(1 ^ row[50], w);
        let step = seq![
            gf::gf128_mul(1 ^ v[176], v[160 + j]),
            gf::gf128_mul(1 ^ v[176], w),
        ];
        int_laws::lemma_all_zero_append(sbox_rom::idle_roots(v, j as nat), step);
        if int_laws::all_zero(step) {
            assert(step[0] == 0 && step[1] == 0);
        }
        assert(int_laws::all_zero(step) <==> idle_ok(row, j));
    }
}

proof fn lemma_row(row: Seq<u128>)
    requires
        is_row(row),
    ensures
        int_laws::all_zero(sbox_rom::rom_roots(virtual_row(row))) <==> row[50] <= 1 && forall|
            j: int,
        |
            0 <= j < 16 ==> #[trigger] row_ok(row, j),
{
    let v = virtual_row(row);
    lemma_virtual(row, 0);
    let p1 = seq![constraint::boolean_residue(v[176])];
    let p2 = sbox_rom::evaluation_roots(v, 16);
    let p3 = sbox_rom::idle_roots(v, 16);
    int_laws::lemma_all_zero_append(p1 + p2, p3);
    int_laws::lemma_all_zero_append(p1, p2);
    int_laws::law_boolean_residue(row[50]);
    if int_laws::all_zero(p1) {
        assert(p1[0] == 0);
    }
    if row[50] <= 1 {
        lemma_evaluations(row, 16);
        lemma_idle(row, 16);
        if int_laws::all_zero(p2) && int_laws::all_zero(p3) {
            assert forall|j: int| 0 <= j < 16 implies #[trigger] row_ok(row, j) by {
                assert(evaluation_ok(
                    row[50],
                    row[2 + j] as u8,
                    row[18 + j] as u8,
                    row[34 + j],
                    inverse_byte(row, j),
                ));
                assert(idle_ok(row, j));
            }
        }
        if forall|j: int| 0 <= j < 16 ==> #[trigger] row_ok(row, j) {
            assert forall|j: int| 0 <= j < 16 implies #[trigger] evaluation_ok(
                row[50],
                row[2 + j] as u8,
                row[18 + j] as u8,
                row[34 + j],
                inverse_byte(row, j),
            ) by {
                assert(row_ok(row, j));
            }
            assert forall|j: int| 0 <= j < 16 implies #[trigger] idle_ok(row, j) by {
                assert(row_ok(row, j));
            }
        }
    }
}

/// A selected row that meets the constraints evaluates the S-box sixteen
/// times.
pub proof fn law_rows_sound(row: Seq<u128>, j: int)
    requires
        is_row(row),
        int_laws::all_zero(sbox_rom::rom_roots(virtual_row(row))),
        0 <= j < 16,
    ensures
        row[50] <= 1,
        row[50] == 1 ==> row[18 + j] == sbox_rom::sbox(row[2 + j] as u8),
{
    lemma_row(row);
    assert(row_ok(row, j));
    assert(row[2 + j] < 256 && row[18 + j] < 256);
}

/// Byte `i` of the number eight bytes write.
proof fn lemma_le_byte(s: Seq<u8>, i: nat)
    requires
        i < s.len(),
    ensures
        (bytes::le_value(s) / pow2(8 * i)) % 256 == s[i as int],
    decreases i,
{
    lemma2_to64();
    let rest = bytes::le_value(s.skip(1));
    assert(bytes::le_value(s) == s[0] + 256 * rest);
    if i > 0 {
        lemma_le_byte(s.skip(1), (i - 1) as nat);
        lemma_pow2_adds(8, (8 * (i - 1)) as nat);
        lemma_pow2_pos((8 * (i - 1)) as nat);
        lemma_div_denominator(
            bytes::le_value(s) as int,
            256,
            pow2((8 * (i - 1)) as nat) as int,
        );
        assert(bytes::le_value(s) / 256 == rest);
    } else {
        assert(bytes::le_value(s) / 1 == bytes::le_value(s));
    }
}

/// The rows of a generated table meet the constraints: those that hold a
/// valid round, and the zero rows after them.
pub proof fn law_rows_complete(row: Seq<u128>, round: SboxRound)
    requires
        row.len() == 51,
        round.valid(),
        (forall|c: int| 0 <= c < 51 ==> #[trigger] row[c] == sbox_rom::round_cell(round, c)) || (
        forall|c: int| 0 <= c < 51 ==> #[trigger] row[c] == 0),
    ensures
        int_laws::all_zero(sbox_rom::rom_roots(virtual_row(row))),
{
    lemma2_to64();
    let held = forall|c: int| 0 <= c < 51 ==> #[trigger] row[c] == sbox_rom::round_cell(round, c);
    bytes::lemma_byte_pow_values();
    let lo = Seq::new(8, |k: int| sbox_rom::inverse(round.inputs@[0 + k]));
    let hi = Seq::new(8, |k: int| sbox_rom::inverse(round.inputs@[8 + k]));
    bytes::lemma_le_value_bound(lo);
    bytes::lemma_le_value_bound(hi);
    assert(row[0] <= u64::MAX && row[1] <= u64::MAX && row[50] <= 1);
    assert(is_row(row));
    lemma_row(row);
    assert forall|j: int| 0 <= j < 16 implies #[trigger] row_ok(row, j) by {
        if held {
            assert(row[2 + j] == round.inputs@[j]);
            assert(row[18 + j] == round.outputs@[j]);
            assert(row[34 + j] == sbox_rom::round_cell(round, 34 + j));
            assert(round.outputs@[j] == sbox_rom::sbox(round.inputs@[j]));
            if j < 8 {
                lemma_le_byte(lo, j as nat);
                assert(row[0] == bytes::le_value(lo));
            } else {
                lemma_le_byte(hi, (j - 8) as nat);
                assert(row[1] == bytes::le_value(hi));
            }
            assert(inverse_byte(row, j) == sbox_rom::inverse(round.inputs@[j]));
            reveal(sbox_rom::inverse);
            laws::lemma_gf8_inverse(round.inputs@[j]);
        } else {
            assert(row[34 + j] == 0 && row[2 + j] == 0 && row[j / 8] == 0);
            lemma_pow2_pos((8 * (j % 8)) as nat);
        }
    }
}

// ---------------------------------------------------------------
// Rounds
// ---------------------------------------------------------------

/// ShiftRows permutes the state.
pub proof fn law_shift_rows_is_a_permutation(i: int, j: int)
    requires
        0 <= i < 16,
        0 <= j < 16,
        rounds::shift_source(i) == rounds::shift_source(j),
    ensures
        i == j,
{
}

/// ShiftRows keeps every byte in its row, and moves row `r` by `r` columns.
pub proof fn law_shift_rows_by_row(j: int)
    requires
        0 <= j < 16,
    ensures
        0 <= rounds::shift_source(j) < 16,
        rounds::shift_source(j) % 4 == j % 4,
        rounds::shift_source(j) / 4 == (j / 4 + j % 4) % 4,
{
}

/// Byte `j` of MixColumns of ShiftRows, in GF(2^8).
pub open spec fn mixed(sub: Seq<u8>, j: int) -> u8 {
    let c = |k: int|
        gf::gf8_mul(
            rounds::mix_coefficient(j % 4, k) as u8,
            sub[rounds::shift_source(4 * (j / 4) + k)],
        );
    c(0) ^ c(1) ^ c(2) ^ c(3)
}

/// Where the round selector is set, the constraints say that the next state
/// is MixColumns of ShiftRows of the S-box outputs, plus the round key; where
/// the final selector is set, that it is ShiftRows plus the round key.
pub proof fn law_round(
    env: Env,
    state_in: int,
    sbox_out: int,
    round_key: int,
    s_round: int,
    s_final: int,
    sub: Seq<u8>,
    j: int,
)
    requires
        int_laws::all_zero(
            rounds::round_roots(env, state_in, sbox_out, round_key, s_round, s_final),
        ),
        sub.len() == 16,
        forall|k: int| 0 <= k < 16 ==> env.cur[sbox_out + k] == #[trigger] sub[k],
        0 <= j < 16,
    ensures
        env.cur[s_round] == 1 ==> env.next[state_in + j] ^ env.cur[round_key + j] == mixed(sub, j),
        env.cur[s_final] == 1 ==> env.next[state_in + j] ^ env.cur[round_key + j]
            == sub[rounds::shift_source(j)],
{
    let next = constraint::cells(env.next, state_in, 16);
    let key = constraint::cells(env.cur, round_key, 16);
    let cells = constraint::cells(env.cur, sbox_out, 16);
    let p1 = rounds::full_round_roots(env.cur[s_round], next, key, cells, 16);
    let p2 = rounds::last_round_roots(env.cur[s_final], next, key, cells, 16);
    int_laws::lemma_all_zero_append(p1, p2);
    assert(p1[j] == 0 && p2[j] == 0);
    assert(next[j] == env.next[state_in + j] && key[j] == env.cur[round_key + j]);
    let terms = rounds::mixed_terms(cells, j);
    let x = next[j] ^ key[j];
    lemma_mixed_terms(cells, sub, j);
    int_laws::lemma_mul_boolean(env.cur[s_round], x ^ constraint::xor_all(terms));
    int_laws::lemma_xor(x, constraint::xor_all(terms));
    let place = rounds::shift_source(j);
    assert(cells[place] == sub[place]);
    int_laws::lemma_mul_boolean(env.cur[s_final], x ^ cells[place]);
    int_laws::lemma_xor(x, cells[place]);
}

/// The MixColumns sum of place `j`, in GF(2^8).
pub proof fn lemma_mixed_terms(cells: Seq<u128>, sub: Seq<u8>, j: int)
    requires
        cells.len() == 16,
        sub.len() == 16,
        forall|k: int| 0 <= k < 16 ==> cells[k] == #[trigger] sub[k],
        0 <= j < 16,
    ensures
        constraint::xor_all(rounds::mixed_terms(cells, j)) == mixed(sub, j),
{
    let terms = rounds::mixed_terms(cells, j);
    assert forall|k: int| 0 <= k < 4 implies #[trigger] terms[k] == gf::gf8_mul(
        rounds::mix_coefficient(j % 4, k) as u8,
        sub[rounds::shift_source(4 * (j / 4) + k)],
    ) by {
        let place = rounds::shift_source(4 * (j / 4) + k);
        assert(cells[place] == sub[place]);
        subfields::law_bytes_are_a_subfield(
            rounds::mix_coefficient(j % 4, k) as u8,
            sub[place],
        );
    }
    lemma_xor_four(terms);
    int_laws::lemma_xor(0, terms[0]);
    let c = |k: int|
        gf::gf8_mul(
            rounds::mix_coefficient(j % 4, k) as u8,
            sub[rounds::shift_source(4 * (j / 4) + k)],
        );
    assert(terms[0] == c(0) && terms[1] == c(1) && terms[2] == c(2) && terms[3] == c(3));
}

proof fn lemma_xor_four(t: Seq<u128>)
    requires
        t.len() == 4,
    ensures
        constraint::xor_all(t) == (((0u128 ^ t[0]) ^ t[1]) ^ t[2]) ^ t[3],
{
    assert(t.take(4) =~= t);
    lemma_xor_take(t, 0);
    lemma_xor_take(t, 1);
    lemma_xor_take(t, 2);
    lemma_xor_take(t, 3);
    assert(t.take(0) =~= Seq::<u128>::empty());
    assert(constraint::xor_all(t.take(0)) == 0);
}

/// Where the selector is on, the inversion witness proves that the four bytes
/// are the S-box values of the four others.
pub proof fn law_inversion_sound(
    cur: Seq<u128>,
    inputs: Seq<usize>,
    sub: int,
    inv_bits: int,
    z: int,
    gate: int,
    n: nat,
    j: int,
)
    requires
        inputs.len() == 4,
        n <= 4,
        0 <= j < n,
        cur[gate] == 1,
        cur[inputs[j] as int] < 256,
        cur[sub + j] < 256,
        int_laws::all_zero(rounds::inversion_roots(cur, inputs, sub, inv_bits, z, gate, n)),
    ensures
        cur[sub + j] == sbox_rom::sbox(cur[inputs[j] as int] as u8),
    decreases n,
{
    let i = n - 1;
    let bs = constraint::cells(cur, inv_bits + 8 * i, 8);
    let here = sbox_rom::byte_roots(
        cur[gate],
        cur[inputs[i] as int],
        cur[sub + i],
        cur[z + i],
        bs,
    );
    let head = rounds::inversion_roots(cur, inputs, sub, inv_bits, z, gate, i as nat);
    int_laws::lemma_all_zero_append(head, here);
    if j < i {
        law_inversion_sound(cur, inputs, sub, inv_bits, z, gate, i as nat, j);
    } else {
        lemma2_to64();
        let p1 = seq![constraint::boolean_residue(cur[z + i])];
        let p2 = constraint::boolean_residues(bs);
        int_laws::lemma_all_zero_append(p1 + p2, here.skip(9));
        assert(here =~= (p1 + p2) + here.skip(9));
        int_laws::lemma_all_zero_append(p1, p2);
        int_laws::law_booleans(bs);
        int_laws::lemma_bits_bound(bs);
        int_laws::lemma_bits_unique(bs);
        let inv = int_laws::bits_value(bs) as u8;
        lemma_evaluation(
            cur[gate],
            cur[inputs[i] as int] as u8,
            cur[sub + i] as u8,
            cur[z + i],
            inv,
        );
    }
}

/// The witness of an inversion is accepted: where four bytes are the S-box
/// values of four others, the bits write the inverses and the flags mark the
/// zeros, every constraint holds, with the selector on or off.
pub proof fn law_inversion_complete(
    cur: Seq<u128>,
    inputs: Seq<usize>,
    sub: int,
    inv_bits: int,
    z: int,
    gate: int,
    n: nat,
)
    requires
        inputs.len() == 4,
        n <= 4,
        cur[gate] <= 1,
        forall|j: int|
            0 <= j < n ==> {
                let x = cur[#[trigger] inputs[j] as int];
                &&& x < 256
                &&& cur[sub + j] == sbox_rom::sbox(x as u8)
                &&& constraint::cells(cur, inv_bits + 8 * j, 8) == int_laws::bits_of(
                    sbox_rom::inverse(x as u8) as nat,
                    8,
                )
                &&& cur[z + j] == (if x == 0 {
                    1u128
                } else {
                    0u128
                })
            },
    ensures
        int_laws::all_zero(rounds::inversion_roots(cur, inputs, sub, inv_bits, z, gate, n)),
    decreases n,
{
    if n > 0 {
        let i = n - 1;
        let x = cur[inputs[i] as int] as u8;
        let here = sbox_rom::byte_roots(
            cur[gate],
            cur[inputs[i] as int],
            cur[sub + i],
            cur[z + i],
            constraint::cells(cur, inv_bits + 8 * i, 8),
        );
        let head = rounds::inversion_roots(cur, inputs, sub, inv_bits, z, gate, i as nat);
        law_inversion_complete(cur, inputs, sub, inv_bits, z, gate, i as nat);
        reveal(sbox_rom::inverse);
        laws::lemma_gf8_inverse(x);
        lemma_evaluation(cur[gate], x, cur[sub + i] as u8, cur[z + i], sbox_rom::inverse(x));
        int_laws::lemma_all_zero_append(head, here);
    }
}

} // verus!
