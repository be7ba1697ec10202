//! The table of an exponentiation meets its constraints.

use vstd::arithmetic::div_mod::*;
use vstd::arithmetic::mul::*;
use vstd::arithmetic::power2::*;
use vstd::prelude::*;

use super::air;
use super::columns;
use super::columns::{ModexpCols, V32};
use super::exponents;
use super::limbs;
use super::modexp::Modexp;
use super::reading;
use super::rows;
use super::table;
use crate::atoms::exp_form;
use crate::atoms::int_laws;
use crate::bits;
use crate::field::gf;
use crate::field::laws;
use crate::field::laws::Ring;
use crate::field::subfields;
use crate::program::constraint;

verus! {

/// The place of the next row.
proof fn lemma_row_after(row: int)
    requires
        0 <= row < 1024,
    ensures
        0 <= reading::row_after(row) < 1024,
        row % 32 < 31 ==> reading::row_after(row) / 32 == row / 32 && reading::row_after(row) % 32
            == row % 32 + 1,
        row % 32 == 31 ==> reading::row_after(row) % 32 == 0,
        row % 32 == 31 && row / 32 < 31 ==> reading::row_after(row) / 32 == row / 32 + 1,
        row % 32 == 31 && row / 32 == 31 ==> reading::row_after(row) / 32 == 0,
        exponents::block_before(reading::row_after(row) / 32) == (if row % 32 == 31 {
            row / 32
        } else {
            exponents::block_before(row / 32)
        }),
{
}

// ---------------------------------------------------------------
// Flags
// ---------------------------------------------------------------

proof fn lemma_flags_complete(m: Modexp, k: ModexpCols, g: u128, request: u32, row: int)
    requires
        m.wf(),
        k.wf(),
        0 <= row < 1024,
    ensures
        int_laws::all_zero(air::flag_roots(k, reading::pair_at(m, g, request, row))),
{
    let env = reading::pair_at(m, g, request, row);
    let t = table::table_row(m, g, request, row);
    let (b, i) = (row / 32, row % 32);
    let step = m.steps()[b];
    let all = air::flag_roots(k, env);
    reading::lemma_whole(m, g, request, row, 5513, 406);
    reading::lemma_whole(m, g, request, row, 5514, 407);
    reading::lemma_bits(m, g, request, row, 5312, 404, 64);
    reading::lemma_flag_cells(m, g, request, row);
    exponents::lemma_sum_carry_bit(step.r@, step.w@, 2 * i);
    exponents::lemma_sum_carry_bit(step.r@, step.w@, 2 * i + 1);
    int_laws::law_boolean_residue(t[406]);
    int_laws::law_boolean_residue(t[407]);
    table::lemma_tops_bound(m, b, i, 8);
    assert forall|j: int| 0 <= j < all.len() implies #[trigger] all[j] == 0 by {
        if j >= 2 {
            let hi = constraint::cells(env.cur, 5312, 64);
            assert(all[j] == hi[48 + (j - 2)]);
            assert(hi[48 + (j - 2)] == int_laws::bits_of(t[404] as nat, 64)[48 + (j - 2)]);
            bits::lemma_pow2_monotone(48, (48 + (j - 2)) as nat);
            lemma_basic_div(t[404] as int, pow2((48 + (j - 2)) as nat) as int);
        }
    }
}

// ---------------------------------------------------------------
// The six numbers
// ---------------------------------------------------------------

/// A gate that is closed or that guards zero.
proof fn lemma_gate(gate: u128, x: u128)
    requires
        gate == 0 || x == 0,
    ensures
        gf::gf128_mul(gate, x) == 0,
{
    int_laws::lemma_mul_boolean(gate, x);
}

#[verifier::rlimit(40)]
proof fn lemma_array_complete(
    m: Modexp,
    k: ModexpCols,
    g: u128,
    request: u32,
    row: int,
    j: int,
)
    requires
        m.wf(),
        k.wf(),
        0 <= row < 1024,
        0 <= j < 64,
    ensures
        int_laws::all_zero(air::array_row(k, reading::pair_at(m, g, request, row), j)),
{
    let env = reading::pair_at(m, g, request, row);
    let q = reading::row_after(row);
    let (t, u) = (table::table_row(m, g, request, row), table::table_row(m, g, request, q));
    let (b, i) = (row / 32, row % 32);
    lemma_row_after(row);
    let step = m.steps()[b];
    let succ = m.steps()[q / 32];
    reading::lemma_limb_cells(m, g, request, row, j);
    reading::lemma_limb_cells(m, g, request, q, j);
    reading::lemma_flag_cells(m, g, request, row);
    reading::lemma_whole(m, g, request, row, 128 + j, 2 + j);
    reading::lemma_whole(m, g, request, q, 128 + j, 2 + j);
    reading::lemma_whole(m, g, request, row, 192 + j, 66 + j);
    reading::lemma_whole(m, g, request, q, 192 + j, 66 + j);
    reading::lemma_whole(m, g, request, row, 5378 + j, 130 + j);
    reading::lemma_whole(m, g, request, q, 5378 + j, 130 + j);
    reading::lemma_whole(m, g, request, row, 5442 + j, 194 + j);
    reading::lemma_whole(m, g, request, q, 5442 + j, 194 + j);
    reading::lemma_whole(m, g, request, row, 4352 + j, 258 + j);
    reading::lemma_whole(m, g, request, q, 4352 + j, 258 + j);
    reading::lemma_whole(m, g, request, row, 4416 + j, 322 + j);
    reading::lemma_whole(m, g, request, q, 4416 + j, 322 + j);
    reading::lemma_whole(m, g, request, row, 5515, 408);
    reading::lemma_whole(m, g, request, row, 5516, 409);
    reading::lemma_whole(m, g, request, row, 5517, 410);
    reading::lemma_whole(m, g, request, row, 5518, 411);
    let (s, x, y, n, r, w) = (
        air::nth(k.arrays@[0], j),
        air::nth(k.arrays@[1], j),
        air::nth(k.arrays@[2], j),
        air::nth(k.arrays@[3], j),
        air::nth(k.arrays@[4], j),
        air::nth(k.arrays@[5], j),
    );
    assert(air::here(env, s) == t[2 + j] && air::after(env, s) == u[2 + j]);
    assert(air::here(env, x) == t[66 + j] && air::after(env, x) == u[66 + j]);
    assert(air::here(env, y) == t[130 + j] && air::after(env, y) == u[130 + j]);
    assert(air::here(env, n) == t[194 + j] && air::after(env, n) == u[194 + j]);
    assert(air::here(env, r) == t[258 + j] && air::after(env, r) == u[258 + j]);
    assert(air::here(env, w) == t[322 + j] && air::after(env, w) == u[322 + j]);
    let (be, adv, first, into) = (
        air::here(env, k.block_end),
        air::here(env, k.advance),
        air::here(env, k.first),
        air::here(env, k.into_final),
    );
    assert(be == table::flag(i == 31) && adv == table::flag(i == 31 && b < 31));
    assert(first == table::flag(row == 0) && into == table::flag(row == 511));
    let (vs, vx, vy, vn, vr, vw) = (
        t[2 + j],
        t[66 + j],
        t[130 + j],
        t[194 + j],
        t[258 + j],
        t[322 + j],
    );
    int_laws::lemma_xor(1, be);
    int_laws::lemma_xor(u[2 + j], vs);
    int_laws::lemma_xor(u[194 + j], vn);
    int_laws::lemma_xor(u[66 + j], vx);
    int_laws::lemma_xor(u[130 + j], vy);
    int_laws::lemma_xor(u[258 + j], vr);
    int_laws::lemma_xor(u[322 + j], vw);
    let stay = 1 ^ be;
    assert(succ.x@[j] == u[66 + j]);
    lemma_gate(stay, u[66 + j] ^ vx);
    lemma_gate(stay, u[130 + j] ^ vy);
    lemma_gate(stay, u[258 + j] ^ vr);
    lemma_gate(stay, u[322 + j] ^ vw);
    // the step into the next block
    int_laws::lemma_xor(u[66 + j], vr);
    lemma_gate(adv, u[66 + j] ^ vr);
    let swap = gf::gf128_mul(into, vr ^ vs);
    int_laws::lemma_mul_boolean(into, vr ^ vs);
    int_laws::lemma_xor(u[130 + j], vr);
    if adv == 1 {
        assert(q / 32 == b + 1);
        assert(succ.x == step.r);
        if into == 1 {
            assert(b == 15);
            assert(u[130 + j] == vs);
            int_laws::lemma_xor(vs, vr);
            int_laws::lemma_xor(vs ^ vr, vr ^ vs);
        } else {
            assert(q / 32 != 16);
            assert(u[130 + j] == vr);
            int_laws::lemma_xor(0, swap);
        }
    }
    lemma_gate(adv, (u[130 + j] ^ vr) ^ swap);
    // the first row
    int_laws::lemma_xor(vx, vs);
    int_laws::lemma_xor(vy, vs);
    lemma_gate(first, vx ^ vs);
    lemma_gate(first, vy ^ vs);
}

proof fn lemma_arrays_complete(
    m: Modexp,
    k: ModexpCols,
    g: u128,
    request: u32,
    row: int,
    n: nat,
)
    requires
        m.wf(),
        k.wf(),
        0 <= row < 1024,
        n <= 64,
    ensures
        int_laws::all_zero(air::array_roots(k, reading::pair_at(m, g, request, row), n)),
    decreases n,
{
    if n > 0 {
        let env = reading::pair_at(m, g, request, row);
        lemma_arrays_complete(m, k, g, request, row, (n - 1) as nat);
        lemma_array_complete(m, k, g, request, row, n - 1);
        int_laws::lemma_all_zero_append(
            air::array_roots(k, env, (n - 1) as nat),
            air::array_row(k, env, n - 1),
        );
    }
}

// ---------------------------------------------------------------
// Selected limbs
// ---------------------------------------------------------------

/// A one-hot row selects one value.
pub proof fn lemma_dot(oh: Seq<u128>, vals: Seq<u128>, i: int, n: nat)
    requires
        0 <= i < 32,
        1 <= n <= 32,
        oh.len() == 32,
        vals.len() == 32,
        forall|j: int| 0 <= j < 32 ==> #[trigger] oh[j] == table::flag(j == i),
    ensures
        air::dot(oh, vals, n) == (if i < n {
            vals[i]
        } else {
            0
        }),
    decreases n,
{
    int_laws::lemma_mul_boolean(oh[n - 1], vals[n - 1]);
    if n == 1 {
        int_laws::lemma_mul_boolean(oh[0], vals[0]);
    } else {
        lemma_dot(oh, vals, i, (n - 1) as nat);
        let (x, y) = (air::dot(oh, vals, (n - 1) as nat), gf::gf128_mul(oh[n - 1], vals[n - 1]));
        int_laws::lemma_xor(x, y);
    }
}

/// Two limbs packed into one cell.
pub proof fn lemma_packed(lo: u32, hi: u32)
    ensures
        lo as u128 ^ gf::gf128_mul(V32, hi as u128) == lo + hi * 0x1_0000_0000,
{
    subfields::law_gf64_raises(1, hi);
    <u32 as Ring>::units(hi);
    <u32 as Ring>::commutes(1, hi);
    assert(gf::gf32_mul(1, hi) == hi);
    assert((1u32 * 0x1_0000_0000) as u64 == 0x1_0000_0000u64);
    subfields::law_gf128_extends(0x1_0000_0000, hi as u64);
    laws::lemma_halves64(0, lo, 0, 0, 0, hi);
    laws::lemma_halves64(0, 0, hi, 0, 0, 0);
    laws::lemma_halves64(0, lo, hi, 0, 0, 0);
    let (a, b) = (lo as u64, (hi * 0x1_0000_0000) as u64);
    <u32 as Ring>::sums(lo, 0, hi, 0, 0, 0, 0, 0);
    assert(lo ^ 0 == lo && 0 ^ hi == hi) by (bit_vector);
    assert(a ^ b == lo + hi * 0x1_0000_0000);
    assert(a as u128 ^ b as u128 == (a ^ b) as u128);
    assert(gf::gf64_mul(0x1_0000_0000, hi as u64) == b);
    assert(gf::gf128_mul(0x1_0000_0000u64 as u128, hi as u64 as u128) == b);
    assert(V32 == 0x1_0000_0000u64 as u128 && hi as u128 == hi as u64 as u128);
    assert(lo as u128 == a as u128);
}

proof fn lemma_selects_complete(m: Modexp, k: ModexpCols, g: u128, request: u32, row: int)
    requires
        m.wf(),
        k.wf(),
        0 <= row < 1024,
    ensures
        int_laws::all_zero(air::select_roots(k, reading::pair_at(m, g, request, row))),
{
    let env = reading::pair_at(m, g, request, row);
    let t = table::table_row(m, g, request, row);
    let (b, i) = (row / 32, row % 32);
    let oh = air::run(env, k.onehot);
    assert forall|j: int| 0 <= j < 32 implies #[trigger] oh[j] == table::flag(j == i) by {
        reading::lemma_whole(m, g, request, row, 5520 + j, 413 + j);
        reading::lemma_onehot_cell(m, g, request, row, j);
    }
    let step = m.steps()[b];
    // the 64-bit limb
    let pairs = air::paired(k, env);
    lemma_dot(oh, pairs, i, 32);
    reading::lemma_whole(m, g, request, row, 5376, 0);
    reading::lemma_whole(m, g, request, row, 192 + 2 * i, 66 + 2 * i);
    reading::lemma_whole(m, g, request, row, 192 + (2 * i + 1), 66 + (2 * i + 1));
    reading::lemma_limb_cells(m, g, request, row, 2 * i);
    reading::lemma_limb_cells(m, g, request, row, 2 * i + 1);
    reading::lemma_pair_cells(m, g, request, row);
    lemma_packed(step.x@[2 * i], step.x@[2 * i + 1]);
    assert(pairs[i] == t[0]);
    int_laws::lemma_xor(t[0], pairs[i]);
    // the limbs of r, w and N
    lemma_select_complete(m, k, g, request, row, 0, 4, 0, oh);
    lemma_select_complete(m, k, g, request, row, 1, 4, 1, oh);
    lemma_select_complete(m, k, g, request, row, 2, 5, 0, oh);
    lemma_select_complete(m, k, g, request, row, 3, 5, 1, oh);
    lemma_select_complete(m, k, g, request, row, 4, 3, 0, oh);
    lemma_select_complete(m, k, g, request, row, 5, 3, 1, oh);
}

proof fn lemma_select_complete(
    m: Modexp,
    k: ModexpCols,
    g: u128,
    request: u32,
    row: int,
    w: int,
    which: int,
    parity: int,
    oh: Seq<u128>,
)
    requires
        m.wf(),
        k.wf(),
        0 <= row < 1024,
        oh.len() == 32,
        forall|j: int| 0 <= j < 32 ==> #[trigger] oh[j] == table::flag(j == row % 32),
        (w == 0 && which == 4 && parity == 0) || (w == 1 && which == 4 && parity == 1) || (w == 2
            && which == 5 && parity == 0) || (w == 3 && which == 5 && parity == 1) || (w == 4
            && which == 3 && parity == 0) || (w == 5 && which == 3 && parity == 1),
    ensures
        ({
            let env = reading::pair_at(m, g, request, row);
            air::here(env, air::nth(k.sel_packed, w)) ^ air::dot(
                oh,
                air::alternate(k, env, which, parity),
                32,
            ) == 0
        }),
{
    let env = reading::pair_at(m, g, request, row);
    let t = table::table_row(m, g, request, row);
    let (b, i) = (row / 32, row % 32);
    let step = m.steps()[b];
    let e = 2 * i + parity;
    reading::lemma_limb_cells(m, g, request, row, e);
    reading::lemma_sel_cell(m, g, request, row, w);
    let vals = air::alternate(k, env, which, parity);
    lemma_dot(oh, vals, i, 32);
    reading::lemma_whole(m, g, request, row, 5506 + w, 386 + w);
    if which == 4 {
        reading::lemma_whole(m, g, request, row, 4352 + e, 258 + e);
    } else if which == 5 {
        reading::lemma_whole(m, g, request, row, 4416 + e, 322 + e);
    } else {
        reading::lemma_whole(m, g, request, row, 5442 + e, 194 + e);
    }
    int_laws::lemma_xor(t[386 + w], vals[i]);
}

// ---------------------------------------------------------------
// The two products
// ---------------------------------------------------------------

/// The powers of a row that belong to one side.
proof fn lemma_side_seen(m: Modexp, g: u128, request: u32, row: int, side: int)
    requires
        m.wf(),
        0 <= row < 1024,
        0 <= side < 2,
    ensures
        ({
            let v = reading::seen(m, g, request, row);
            let (b, i) = (row / 32, row % 32);
            &&& constraint::cells(v, 5552 + 32 * side, 32) == table::left_chain(m, g, side, b, i)
            &&& constraint::cells(v, 5616 + 31 * side, 31) == table::left_squares(m, g, side, b, i)
            &&& constraint::cells(v, 5678 + 1024 * side, 1024) == table::limb_products(
                m,
                g,
                side,
                b,
                i,
            )
            &&& constraint::cells(v, 7726 + 64 * side, 64) == rows::running_of(m, g, side, b, i)
            &&& constraint::cells(v, 7854 + 64 * side, 64) == rows::tail_of(m, g, side, b, i)
            &&& constraint::cells(v, 7982, 12) == table::carry_powers(m, g, b, i)
        }),
{
    reading::lemma_side_cells(m, g, request, row);
    if side == 0 {
        reading::lemma_range(m, g, request, row, 40, 32);
        reading::lemma_range(m, g, request, row, 104, 31);
        reading::lemma_range(m, g, request, row, 166, 1024);
        reading::lemma_range(m, g, request, row, 2214, 64);
        reading::lemma_range(m, g, request, row, 2342, 64);
    } else {
        reading::lemma_range(m, g, request, row, 72, 32);
        reading::lemma_range(m, g, request, row, 135, 31);
        reading::lemma_range(m, g, request, row, 1190, 1024);
        reading::lemma_range(m, g, request, row, 2278, 64);
        reading::lemma_range(m, g, request, row, 2406, 64);
    }
    reading::lemma_range(m, g, request, row, 2470, 12);
}

/// The power of the limb that a row multiplies.
proof fn lemma_limb_power_seen(m: Modexp, g: u128, request: u32, row: int, side: int)
    requires
        m.wf(),
        0 <= row < 1024,
        0 <= side < 2,
    ensures
        reading::seen(m, g, request, row)[5552 + 32 * side + 31] == rows::limb_power(
            m,
            g,
            side,
            row / 32,
            row % 32,
        ),
{
    let v = reading::seen(m, g, request, row);
    let (b, i) = (row / 32, row % 32);
    lemma_side_seen(m, g, request, row, side);
    reading::lemma_limb_fits(m, side, b, i);
    lemma2_to64();
    lemma2_to64_rest();
    exp_form::law_chain_ends_in_power(g, exponents::limb(m, side, b, i), 32);
    assert(constraint::cells(v, 5552 + 32 * side, 32)[31] == v[5552 + 32 * side + 31]);
}

proof fn lemma_squares_met(h: u128, n: nat)
    ensures
        int_laws::all_zero(exp_form::squaring_roots(h, rows::squares_of(h, n))),
{
    let cols = rows::squares_of(h, n);
    exp_form::lemma_first_power(h);
    exp_form::law_squarings_double(h, 1, cols);
    assert forall|t: int| 0 <= t < n implies #[trigger] cols[t] == gf::gf128_pow(
        h,
        1 * pow2((t + 1) as nat),
    ) by {
        lemma_mul_basics(pow2((t + 1) as nat) as int);
    }
    assert(cols =~= Seq::new(cols.len(), |t: int| gf::gf128_pow(h, 1 * pow2((t + 1) as nat))));
}

proof fn lemma_fourths_met(h: u128, n: nat)
    ensures
        int_laws::all_zero(exp_form::fourth_roots(h, rows::fourths_of(h, n))),
{
    let cols = rows::fourths_of(h, n);
    exp_form::lemma_first_power(h);
    exp_form::law_fourth_powers_quadruple(h, 1, cols);
    assert forall|t: int| 0 <= t < n implies #[trigger] cols[t] == gf::gf128_pow(
        h,
        1 * pow2((2 * t + 2) as nat),
    ) by {
        lemma_mul_basics(pow2((2 * t + 2) as nat) as int);
    }
    assert(cols =~= Seq::new(
        cols.len(),
        |t: int| gf::gf128_pow(h, 1 * pow2((2 * t + 2) as nat)),
    ));
}

proof fn lemma_limb_complete(
    m: Modexp,
    k: ModexpCols,
    g: u128,
    request: u32,
    row: int,
    side: int,
)
    requires
        m.wf(),
        k.wf(),
        0 <= row < 1024,
        0 <= side < 2,
    ensures
        int_laws::all_zero(air::limb_roots(k, g, reading::pair_at(m, g, request, row), side)),
{
    let env = reading::pair_at(m, g, request, row);
    let (b, i) = (row / 32, row % 32);
    let x = exponents::limb(m, side, b, i);
    lemma_side_seen(m, g, request, row, side);
    lemma_limb_power_seen(m, g, request, row, side);
    reading::lemma_bits(m, g, request, row, 64 * side, side, 64);
    reading::lemma_pair_cells(m, g, request, row);
    let cols = table::left_chain(m, g, side, b, i);
    exp_form::law_chain_proves_power(g, x, cols);
    let h = rows::limb_power(m, g, side, b, i);
    lemma_squares_met(h, 31);
    assert(air::run(env, air::limb_bits(k, side)) == int_laws::bits_of(x, 64));
    assert(air::run(env, k.xa@[side]) == cols);
    assert(air::run(env, k.yf@[side]) == rows::squares_of(h, 31));
    assert(air::here(env, air::nth(k.xa@[side], 31)) == h);
    int_laws::lemma_all_zero_append(
        exp_form::chain_roots(
            air::run(env, air::limb_bits(k, side)),
            air::run(env, k.xa@[side]),
            exp_form::generator_powers(g, 64),
        ),
        exp_form::squaring_roots(
            air::here(env, air::nth(k.xa@[side], 31)),
            air::run(env, k.yf@[side]),
        ),
    );
}

/// The limb's power and its squares are the powers that a chain over the
/// other limb needs.
proof fn lemma_frobs(m: Modexp, k: ModexpCols, g: u128, request: u32, row: int, side: int)
    requires
        m.wf(),
        k.wf(),
        0 <= row < 1024,
        0 <= side < 2,
    ensures
        air::frobs(k, reading::pair_at(m, g, request, row), side) == exp_form::generator_powers(
            rows::limb_power(m, g, side, row / 32, row % 32),
            32,
        ),
{
    let env = reading::pair_at(m, g, request, row);
    let h = rows::limb_power(m, g, side, row / 32, row % 32);
    lemma_side_seen(m, g, request, row, side);
    lemma_limb_power_seen(m, g, request, row, side);
    exp_form::lemma_first_power(h);
    lemma2_to64();
    let (have, want) = (air::frobs(k, env, side), exp_form::generator_powers(h, 32));
    assert(air::run(env, k.yf@[side]) == rows::squares_of(h, 31));
    assert forall|t: int| 0 <= t < 32 implies #[trigger] have[t] == want[t] by {
        if t > 0 {
            assert(have[t] == rows::squares_of(h, 31)[t - 1]);
        }
    }
    assert(have =~= want);
}

proof fn lemma_product_complete(
    m: Modexp,
    k: ModexpCols,
    g: u128,
    request: u32,
    row: int,
    side: int,
    j: int,
)
    requires
        m.wf(),
        k.wf(),
        0 <= row < 1024,
        0 <= side < 2,
        0 <= j < 64,
    ensures
        ({
            let env = reading::pair_at(m, g, request, row);
            int_laws::all_zero(
                exp_form::chain_roots(
                    air::run(env, air::other_bits(k, side, j)),
                    air::run(env, air::product_range(k, side, j)),
                    air::frobs(k, env, side),
                ),
            )
        }),
{
    let env = reading::pair_at(m, g, request, row);
    let (b, i) = (row / 32, row % 32);
    let h = rows::limb_power(m, g, side, b, i);
    let y = exponents::right(m, side, b);
    assert(y.len() == 64);
    lemma_frobs(m, k, g, request, row, side);
    lemma_side_seen(m, g, request, row, side);
    reading::lemma_limb_cells(m, g, request, row, j);
    if side == 0 {
        reading::lemma_bits(m, g, request, row, 256 + 32 * j, 130 + j, 32);
    } else {
        reading::lemma_bits(m, g, request, row, 2304 + 32 * j, 194 + j, 32);
    }
    assert(air::run(env, air::other_bits(k, side, j)) == int_laws::bits_of(y[j] as nat, 32));
    let all = constraint::cells(env.cur, 5678 + 1024 * side, 1024);
    assert(all == rows::products_of(h, y));
    let have = air::run(env, air::product_range(k, side, j));
    let want = exp_form::chain_of(h, y[j] as nat, 16);
    assert forall|t: int| 0 <= t < 16 implies #[trigger] have[t] == want[t] by {
        assert(have[t] == all[16 * j + t]);
        assert((16 * j + t) / 16 == j && (16 * j + t) % 16 == t);
    }
    assert(have =~= want);
    exp_form::law_chain_proves_power(h, y[j] as nat, have);
}

proof fn lemma_products_complete(
    m: Modexp,
    k: ModexpCols,
    g: u128,
    request: u32,
    row: int,
    side: int,
    n: nat,
)
    requires
        m.wf(),
        k.wf(),
        0 <= row < 1024,
        0 <= side < 2,
        n <= 64,
    ensures
        int_laws::all_zero(air::product_roots(k, reading::pair_at(m, g, request, row), side, n)),
    decreases n,
{
    if n > 0 {
        let env = reading::pair_at(m, g, request, row);
        lemma_products_complete(m, k, g, request, row, side, (n - 1) as nat);
        lemma_product_complete(m, k, g, request, row, side, n - 1);
        int_laws::lemma_all_zero_append(
            air::product_roots(k, env, side, (n - 1) as nat),
            exp_form::chain_roots(
                air::run(env, air::other_bits(k, side, n - 1)),
                air::run(env, air::product_range(k, side, n - 1)),
                air::frobs(k, env, side),
            ),
        );
    }
}

/// What a one-bit gate leaves of two values.
proof fn lemma_choose(be: u128, a: u128, b: u128)
    requires
        be <= 1,
    ensures
        gf::gf128_mul(1 ^ be, a) ^ gf::gf128_mul(be, b) == (if be == 1 {
            b
        } else {
            a
        }),
        gf::gf128_mul(be, 1) == be,
{
    int_laws::lemma_xor(1, be);
    int_laws::lemma_mul_boolean(1 ^ be, a);
    int_laws::lemma_mul_boolean(be, b);
    int_laws::lemma_mul_boolean(be, 1);
    int_laws::lemma_xor(gf::gf128_mul(1 ^ be, a), gf::gf128_mul(be, b));
}

proof fn lemma_running_complete_at(
    m: Modexp,
    k: ModexpCols,
    g: u128,
    request: u32,
    row: int,
    side: int,
    c: int,
)
    requires
        m.wf(),
        k.wf(),
        0 <= row < 1024,
        0 <= side < 2,
        0 <= c < 64,
    ensures
        int_laws::all_zero(air::running_row(k, reading::pair_at(m, g, request, row), side, c)),
{
    let env = reading::pair_at(m, g, request, row);
    let q = reading::row_after(row);
    let (b, i) = (row / 32, row % 32);
    let (b2, i2) = (q / 32, q % 32);
    lemma_row_after(row);
    lemma_side_seen(m, g, request, row, side);
    lemma_side_seen(m, g, request, q, side);
    reading::lemma_flag_cells(m, g, request, row);
    reading::lemma_whole(m, g, request, row, 5516, 409);
    let be = air::here(env, k.block_end);
    assert(be == table::flag(i == 31));
    let (cur_u, cur_ut) = (
        constraint::cells(env.cur, 7726 + 64 * side, 64),
        constraint::cells(env.cur, 7854 + 64 * side, 64),
    );
    let (nx_u, nx_ut, nx_p) = (
        constraint::cells(env.next, 7726 + 64 * side, 64),
        constraint::cells(env.next, 7854 + 64 * side, 64),
        constraint::cells(env.next, 5678 + 1024 * side, 1024),
    );
    assert(nx_u[c] == air::after(env, air::nth(k.u@[side], c)));
    assert(nx_ut[c] == air::after(env, air::nth(k.ut@[side], c)));
    assert(nx_p[16 * c + 15] == air::after(env, air::nth(k.p@[side], 16 * c + 15)));
    let h = rows::limb_power(m, g, side, b2, i2);
    let y = exponents::right(m, side, b2);
    assert(y.len() == 64);
    rows::lemma_product_end(h, y, c);
    let (l, v) = (exponents::limb(m, side, b2, i2), y[c] as nat);
    exp_form::law_powers_multiply(g, l, v);
    exponents::lemma_running_step(m, side, b2, i2, c);
    exponents::lemma_tail_step(m, side, b2, i2, c);
    let prod = gf::gf128_pow(g, l * v);
    if c + 2 < 64 {
        let (u, ut) = (cur_u[c + 2], cur_ut[c + 2]);
        assert(u == air::here(env, air::nth(k.u@[side], c + 2)));
        assert(ut == air::here(env, air::nth(k.ut@[side], c + 2)));
        assert(u == gf::gf128_pow(g, exponents::running(m, side, b, i, c + 2)));
        lemma_choose(be, u, 1);
        lemma_choose(be, ut, u);
        if i == 31 {
            assert(i2 == 0);
            exp_form::law_powers_add(g, 0, l * v);
        } else {
            assert(b2 == b && i2 - 1 == i);
            exp_form::law_powers_add(g, exponents::running(m, side, b, i, c + 2), l * v);
            assert(ut == gf::gf128_pow(g, exponents::tail(m, side, b, i, c + 2)));
        }
        let prior_u = gf::gf128_mul(1 ^ be, u) ^ be;
        let prior_ut = gf::gf128_mul(1 ^ be, ut) ^ gf::gf128_mul(be, u);
        int_laws::lemma_xor(nx_u[c], gf::gf128_mul(prior_u, prod));
        int_laws::lemma_xor(nx_ut[c], prior_ut);
    } else {
        exp_form::law_powers_add(g, 0, l * v);
        int_laws::lemma_xor(nx_u[c], gf::gf128_mul(1, prod));
        int_laws::lemma_xor(nx_ut[c], 1);
    }
}

proof fn lemma_running_complete(
    m: Modexp,
    k: ModexpCols,
    g: u128,
    request: u32,
    row: int,
    side: int,
    n: nat,
)
    requires
        m.wf(),
        k.wf(),
        0 <= row < 1024,
        0 <= side < 2,
        n <= 64,
    ensures
        int_laws::all_zero(air::running_roots(k, reading::pair_at(m, g, request, row), side, n)),
    decreases n,
{
    if n > 0 {
        let env = reading::pair_at(m, g, request, row);
        lemma_running_complete(m, k, g, request, row, side, (n - 1) as nat);
        lemma_running_complete_at(m, k, g, request, row, side, n - 1);
        int_laws::lemma_all_zero_append(
            air::running_roots(k, env, side, (n - 1) as nat),
            air::running_row(k, env, side, n - 1),
        );
    }
}

// ---------------------------------------------------------------
// Carries
// ---------------------------------------------------------------

/// The powers of a row's carries.
proof fn lemma_carry_seen(m: Modexp, g: u128, request: u32, row: int, side: int)
    requires
        m.wf(),
        0 <= row < 1024,
        0 <= side < 2,
    ensures
        ({
            let v = reading::seen(m, g, request, row);
            let (b, i) = (row / 32, row % 32);
            let p = exponents::block_before(b);
            &&& v[7982 + side] == gf::gf128_pow(g, exponents::carry(m, side, b, 2 * i))
            &&& v[7984 + side] == gf::gf128_pow(g, exponents::carry(m, side, p, 64 + 2 * i))
            &&& v[7986 + side] == gf::gf128_pow(g, exponents::carry(m, side, b, 2 * i + 1))
            &&& v[7988 + side] == gf::gf128_pow(g, exponents::carry(m, side, b, 2 * i + 2))
            &&& v[7990 + side] == gf::gf128_pow(g, exponents::carry(m, side, p, 64 + 2 * i + 1))
            &&& v[7992 + side] == gf::gf128_pow(g, exponents::carry(m, side, p, 64 + 2 * i + 2))
        }),
{
    let v = reading::seen(m, g, request, row);
    lemma_side_seen(m, g, request, row, side);
    let cells = constraint::cells(v, 7982, 12);
    assert(cells[side] == v[7982 + side]);
    assert(cells[2 + side] == v[7984 + side]);
    assert(cells[4 + side] == v[7986 + side]);
    assert(cells[6 + side] == v[7988 + side]);
    assert(cells[8 + side] == v[7990 + side]);
    assert(cells[10 + side] == v[7992 + side]);
}

proof fn lemma_links_complete(
    m: Modexp,
    k: ModexpCols,
    g: u128,
    request: u32,
    row: int,
    side: int,
)
    requires
        m.wf(),
        k.wf(),
        0 <= row < 1024,
        0 <= side < 2,
    ensures
        int_laws::all_zero(air::link_roots(k, reading::pair_at(m, g, request, row), side)),
{
    let env = reading::pair_at(m, g, request, row);
    let q = reading::row_after(row);
    let (b, i) = (row / 32, row % 32);
    lemma_row_after(row);
    lemma_carry_seen(m, g, request, row, side);
    lemma_carry_seen(m, g, request, q, side);
    reading::lemma_flag_cells(m, g, request, row);
    reading::lemma_whole(m, g, request, row, 5516, 409);
    let be = air::here(env, k.block_end);
    assert(be == table::flag(i == 31));
    let (co, cto) = (air::here(env, k.co@[side]), air::here(env, k.cto@[side]));
    let (c2, ct2) = (air::after(env, k.c@[side]), air::after(env, k.ct@[side]));
    assert(co == env.cur[7988 + side] && cto == env.cur[7992 + side]);
    assert(c2 == env.next[7982 + side] && ct2 == env.next[7984 + side]);
    int_laws::lemma_xor(1, be);
    int_laws::lemma_xor(c2, co);
    int_laws::lemma_xor(ct2, co);
    int_laws::lemma_xor(c2, 1);
    int_laws::lemma_xor(ct2, cto);
    int_laws::lemma_xor(cto, 1);
    if i == 31 {
        exponents::lemma_no_carry_in(m, side, q / 32);
        exponents::lemma_no_carry_out(m, side, exponents::block_before(b));
        assert(64 + 2 * i + 2 == 128 && 2 * i + 2 == 64);
    }
    lemma_gate(1 ^ be, c2 ^ co);
    lemma_gate(be, ct2 ^ co);
    lemma_gate(be, c2 ^ 1);
    lemma_gate(1 ^ be, ct2 ^ cto);
    lemma_gate(be, cto ^ 1);
}

/// Bit `6w + j` of the packed tops is bit `64 + j` of carry `w`.
proof fn lemma_packed_bit(m: Modexp, b: int, i: int, n: nat, w: int, j: int)
    requires
        0 <= w < n <= 8,
        0 <= j < 6,
    ensures
        bits::bit(table::packed_tops(m, b, i, n), (6 * w + j) as nat) == bits::bit(
            table::carry_top(m, b, i, w),
            j as nat,
        ),
    decreases n,
{
    let k = (n - 1) as nat;
    let (low, top) = (table::packed_tops(m, b, i, k), table::carry_top(m, b, i, k as int));
    assert((6 * (n - 1)) as nat == 6 * k);
    if w < k {
        int_laws::lemma_bit_of_sum(low, top, (6 * w + j) as nat, 6 * k);
        lemma_packed_bit(m, b, i, k, w, j);
    } else {
        table::lemma_tops_bound(m, b, i, k);
        lemma_bit_above(low, top, 6 * k, j as nat);
    }
}

/// Bits of `low + top · 2^k` from `k` on, where `low` is below `2^k`.
pub proof fn lemma_bit_above(low: nat, top: nat, k: nat, j: nat)
    requires
        low < pow2(k),
    ensures
        bits::bit(low + top * pow2(k), k + j) == bits::bit(top, j),
{
    lemma_pow2_pos(k);
    lemma_pow2_pos(j);
    lemma_pow2_adds(k, j);
    let x = low + top * pow2(k);
    lemma_fundamental_div_mod_converse(x as int, pow2(k) as int, top as int, low as int);
    lemma_div_denominator(x as int, pow2(k) as int, pow2(j) as int);
}

/// The bits of a carry: those of its low word, and six above.
proof fn lemma_carry_bits_seen(
    m: Modexp,
    k: ModexpCols,
    g: u128,
    request: u32,
    row: int,
    word: int,
)
    requires
        m.wf(),
        k.wf(),
        0 <= row < 1024,
        0 <= word < 8,
    ensures
        air::carry_bits(k, reading::pair_at(m, g, request, row), word) == int_laws::bits_of(
            rows::carry_of(m, row / 32, row % 32, word),
            70,
        ),
{
    let env = reading::pair_at(m, g, request, row);
    let (b, i) = (row / 32, row % 32);
    let t = table::table_row(m, g, request, row);
    let x = rows::carry_of(m, b, i, word);
    reading::lemma_bits(m, g, request, row, 4800 + 64 * word, 396 + word, 64);
    reading::lemma_bits(m, g, request, row, 5312, 404, 64);
    reading::lemma_carry_cell(m, g, request, row, word);
    reading::lemma_flag_cells(m, g, request, row);
    let two64: nat = 0x1_0000_0000_0000_0000;
    lemma2_to64();
    lemma2_to64_rest();
    lemma_fundamental_div_mod(x as int, two64 as int);
    let (lo, hi) = (x % two64, x / two64);
    lemma_carry_word_small(m, b, i, word);
    assert(hi < 64) by {
        lemma_pow2_adds(64, 6);
        assert(x < 64 * two64);
    }
    assert(table::carry_top(m, b, i, word) == hi);
    let (have, want) = (air::carry_bits(k, env, word), int_laws::bits_of(x, 70));
    let low_cells = constraint::cells(env.cur, 4800 + 64 * word, 64);
    let high_cells = constraint::cells(env.cur, 5312, 64);
    assert(x == lo + hi * two64);
    assert forall|j: int| 0 <= j < 70 implies #[trigger] have[j] == want[j] by {
        if j < 64 {
            assert(have[j] == low_cells[j]);
            int_laws::lemma_bit_of_sum(lo, hi, j as nat, 64);
        } else {
            assert(have[j] == high_cells[6 * word + (j - 64)]);
            lemma_packed_bit(m, b, i, 8, word, j - 64);
            lemma_bit_above(lo, hi, 64, (j - 64) as nat);
        }
    }
    assert(have =~= want);
}

proof fn lemma_carry_word_small(m: Modexp, b: int, i: int, word: int)
    requires
        m.wf(),
        0 <= b < 32,
        0 <= i < 32,
        0 <= word < 8,
    ensures
        rows::carry_of(m, b, i, word) < pow2(70),
{
    let side = (word / 2) % 2;
    if word < 4 {
        exponents::lemma_carry_small(m, side, b, 2 * i + 1 + word % 2);
    } else {
        exponents::lemma_carry_small(
            m,
            side,
            exponents::block_before(b),
            64 + 2 * i + 1 + word % 2,
        );
    }
}

proof fn lemma_word_complete(
    m: Modexp,
    k: ModexpCols,
    g: u128,
    request: u32,
    row: int,
    word: int,
    end: int,
)
    requires
        m.wf(),
        k.wf(),
        0 <= row < 1024,
        0 <= word < 8,
        0 <= end < 8554,
        reading::seen(m, g, request, row)[end] == gf::gf128_pow(
            g,
            rows::carry_of(m, row / 32, row % 32, word),
        ),
    ensures
        int_laws::all_zero(
            air::word_roots(
                k,
                g,
                reading::pair_at(m, g, request, row),
                word,
                crate::program::circuit::Col(end as usize),
            ),
        ),
{
    let env = reading::pair_at(m, g, request, row);
    let (b, i) = (row / 32, row % 32);
    let x = rows::carry_of(m, b, i, word);
    let h = gf::gf128_pow(g, x);
    let col = crate::program::circuit::Col(end as usize);
    lemma_carry_bits_seen(m, k, g, request, row, word);
    reading::lemma_range(m, g, request, row, 2546 + 34 * word, 34);
    reading::lemma_carry_cells(m, g, request, row, word);
    reading::lemma_range(m, g, request, row, 2818 + 16 * word, 16);
    reading::lemma_fourth_cells(m, g, request, row, word);
    let open = air::run(env, k.ce@[word]);
    assert(open == exp_form::chain_of(g, x, 34));
    let cols = open.push(air::here(env, col));
    lemma_carry_word_small(m, b, i, word);
    exp_form::law_chain_ends_in_power(g, x, 35);
    assert(cols =~= exp_form::chain_of(g, x, 35));
    exp_form::law_chain_proves_power(g, x, cols);
    let fr = air::run(env, k.fr@[word]);
    assert(fr == rows::fourths_of(h, 16));
    lemma_fourths_met(h, 16);
    int_laws::lemma_all_zero_append(
        exp_form::chain_roots(
            air::carry_bits(k, env, word),
            cols,
            exp_form::generator_powers(g, 70),
        ),
        exp_form::fourth_roots(air::here(env, col), fr),
    );
}

// ---------------------------------------------------------------
// Digits, limbs and splits
// ---------------------------------------------------------------

/// A short chain over the bits of a word.
proof fn lemma_short_complete(
    m: Modexp,
    g: u128,
    request: u32,
    row: int,
    bits_at: int,
    col: int,
    cells_at: int,
    x: nat,
)
    requires
        m.wf(),
        0 <= row < 1024,
        0 <= bits_at < 8554,
        bits_at == 4480 + 32 * (col - 386) && 386 <= col < 396,
        5512 <= cells_at,
        cells_at + 16 <= 8554,
        table::table_row(m, g, request, row)[col] == x,
        table::table_row(m, g, request, row).subrange(cells_at - 5107, cells_at - 5107 + 16)
            == exp_form::chain_of(g, x, 16),
    ensures
        int_laws::all_zero(
            air::short_roots(
                g,
                reading::pair_at(m, g, request, row),
                columns::range(bits_at, 32),
                columns::range(cells_at, 16),
            ),
        ),
{
    let env = reading::pair_at(m, g, request, row);
    reading::lemma_bits(m, g, request, row, bits_at, col, 32);
    reading::lemma_range(m, g, request, row, cells_at - 5512, 16);
    let cols = exp_form::chain_of(g, x, 16);
    assert(air::run(env, columns::range(cells_at, 16)) == cols);
    exp_form::law_chain_proves_power(g, x, cols);
}

proof fn lemma_digits_complete(
    m: Modexp,
    k: ModexpCols,
    g: u128,
    request: u32,
    row: int,
    n: nat,
)
    requires
        m.wf(),
        k.wf(),
        0 <= row < 1024,
        n <= 4,
    ensures
        int_laws::all_zero(air::digit_roots(k, g, reading::pair_at(m, g, request, row), n)),
    decreases n,
{
    if n > 0 {
        let env = reading::pair_at(m, g, request, row);
        let d = n - 1;
        lemma_digits_complete(m, k, g, request, row, d as nat);
        reading::lemma_digit_cells(m, g, request, row, d);
        reading::lemma_digit_cell(m, g, request, row, d);
        lemma_short_complete(
            m,
            g,
            request,
            row,
            4672 + 32 * d,
            392 + d,
            7994 + 16 * d,
            rows::digits_of(m, row / 32, row % 32)[d] as nat,
        );
        int_laws::lemma_all_zero_append(
            air::digit_roots(k, g, env, d as nat),
            air::short_roots(
                g,
                env,
                columns::range(k.digit_bits.start + 32 * d, 32),
                k.dg@[d],
            ),
        );
    }
}

proof fn lemma_sels_complete(m: Modexp, k: ModexpCols, g: u128, request: u32, row: int, n: nat)
    requires
        m.wf(),
        k.wf(),
        0 <= row < 1024,
        n <= 6,
    ensures
        int_laws::all_zero(air::sel_roots(k, g, reading::pair_at(m, g, request, row), n)),
    decreases n,
{
    if n > 0 {
        let env = reading::pair_at(m, g, request, row);
        let w = n - 1;
        lemma_sels_complete(m, k, g, request, row, w as nat);
        reading::lemma_limb_chain_cells(m, g, request, row, w);
        reading::lemma_sel_cell(m, g, request, row, w);
        lemma_short_complete(
            m,
            g,
            request,
            row,
            4480 + 32 * w,
            386 + w,
            8458 + 16 * w,
            rows::sel_of(m, row / 32, row % 32)[w] as nat,
        );
        int_laws::lemma_all_zero_append(
            air::sel_roots(k, g, env, w as nat),
            air::short_roots(g, env, columns::range(k.sel_bits.start + 32 * w, 32), k.lch@[w]),
        );
    }
}

/// The ends of a row's chains.
proof fn lemma_ends_seen(m: Modexp, k: ModexpCols, g: u128, request: u32, row: int)
    requires
        m.wf(),
        k.wf(),
        0 <= row < 1024,
    ensures
        ({
            let env = reading::pair_at(m, g, request, row);
            let (b, i) = (row / 32, row % 32);
            &&& forall|d: int|
                0 <= d < 4 ==> #[trigger] air::digit_at(k, env, d) == gf::gf128_pow(
                    g,
                    rows::digits_of(m, b, i)[d] as nat,
                )
            &&& forall|w: int|
                0 <= w < 6 ==> #[trigger] air::limb_at(k, env, w) == gf::gf128_pow(
                    g,
                    rows::sel_of(m, b, i)[w] as nat,
                )
            &&& forall|w: int|
                0 <= w < 8 ==> #[trigger] air::shifted_at(k, env, w) == rows::fourths_of(
                    gf::gf128_pow(g, rows::carry_of(m, b, i, w)),
                    16,
                )[15]
        }),
{
    let env = reading::pair_at(m, g, request, row);
    let (b, i) = (row / 32, row % 32);
    lemma2_to64();
    assert forall|d: int| 0 <= d < 4 implies #[trigger] air::digit_at(k, env, d) == gf::gf128_pow(
        g,
        rows::digits_of(m, b, i)[d] as nat,
    ) by {
        reading::lemma_range(m, g, request, row, 2482 + 16 * d, 16);
        reading::lemma_digit_cells(m, g, request, row, d);
        exp_form::law_chain_ends_in_power(g, rows::digits_of(m, b, i)[d] as nat, 16);
        assert(constraint::cells(env.cur, 7994 + 16 * d, 16)[15] == air::digit_at(k, env, d));
    }
    assert forall|w: int| 0 <= w < 6 implies #[trigger] air::limb_at(k, env, w) == gf::gf128_pow(
        g,
        rows::sel_of(m, b, i)[w] as nat,
    ) by {
        reading::lemma_range(m, g, request, row, 2946 + 16 * w, 16);
        reading::lemma_limb_chain_cells(m, g, request, row, w);
        exp_form::law_chain_ends_in_power(g, rows::sel_of(m, b, i)[w] as nat, 16);
        assert(constraint::cells(env.cur, 8458 + 16 * w, 16)[15] == air::limb_at(k, env, w));
    }
    assert forall|w: int| 0 <= w < 8 implies #[trigger] air::shifted_at(k, env, w)
        == rows::fourths_of(gf::gf128_pow(g, rows::carry_of(m, b, i, w)), 16)[15] by {
        reading::lemma_range(m, g, request, row, 2818 + 16 * w, 16);
        reading::lemma_fourth_cells(m, g, request, row, w);
        assert(constraint::cells(env.cur, 8330 + 16 * w, 16)[15] == air::shifted_at(k, env, w));
    }
}

proof fn lemma_splits_complete(
    m: Modexp,
    k: ModexpCols,
    g: u128,
    request: u32,
    row: int,
    side: int,
)
    requires
        m.wf(),
        k.wf(),
        0 <= row < 1024,
        0 <= side < 2,
    ensures
        int_laws::all_zero(air::split_roots(k, reading::pair_at(m, g, request, row), side)),
{
    let env = reading::pair_at(m, g, request, row);
    let (b, i) = (row / 32, row % 32);
    let p = exponents::block_before(b);
    let (step, prev) = (m.steps()[b], m.steps()[p]);
    lemma_side_seen(m, g, request, row, side);
    lemma_carry_seen(m, g, request, row, side);
    lemma_ends_seen(m, k, g, request, row);
    let (us, uts) = (
        constraint::cells(env.cur, 7726 + 64 * side, 64),
        constraint::cells(env.cur, 7854 + 64 * side, 64),
    );
    assert(us[0] == air::here(env, air::nth(k.u@[side], 0)));
    assert(us[1] == air::here(env, air::nth(k.u@[side], 1)));
    assert(uts[0] == air::here(env, air::nth(k.ut@[side], 0)));
    assert(uts[1] == air::here(env, air::nth(k.ut@[side], 1)));
    lemma_head_complete(m, k, g, request, row, side, 0);
    lemma_head_complete(m, k, g, request, row, side, 1);
    exponents::lemma_tail_split(m, side, b, i, 0);
    exponents::lemma_tail_split(m, side, b, i, 1);
    rows::lemma_balance(
        g,
        exponents::tail(m, side, b, i, 0),
        exponents::carry(m, side, p, 64 + 2 * i),
        prev.digits@[64 + 2 * i] as nat,
        exponents::carry(m, side, p, 64 + 2 * i + 1),
    );
    rows::lemma_balance(
        g,
        exponents::tail(m, side, b, i, 1),
        exponents::carry(m, side, p, 64 + 2 * i + 1),
        prev.digits@[64 + 2 * i + 1] as nat,
        exponents::carry(m, side, p, 64 + 2 * i + 2),
    );
    let digits = rows::digits_of(m, b, i);
    assert(digits[2] == prev.digits@[64 + 2 * i] && digits[3] == prev.digits@[64 + 2 * i + 1]);
    let (w2, w3) = (4 + 2 * side, 4 + 2 * side + 1);
    assert(w2 / 2 % 2 == side && w3 / 2 % 2 == side && w2 % 2 == 0 && w3 % 2 == 1);
    assert(rows::carry_of(m, b, i, w2) == exponents::carry(m, side, p, 64 + 2 * i + 1));
    assert(rows::carry_of(m, b, i, w3) == exponents::carry(m, side, p, 64 + 2 * i + 2));
    let (l2, r2) = (
        gf::gf128_mul(uts[0], air::here(env, k.ct@[side])),
        gf::gf128_mul(air::digit_at(k, env, 2), air::shifted_at(k, env, w2)),
    );
    let (l3, r3) = (
        gf::gf128_mul(uts[1], air::here(env, k.ctm@[side])),
        gf::gf128_mul(air::digit_at(k, env, 3), air::shifted_at(k, env, w3)),
    );
    assert(air::here(env, k.ct@[side]) == env.cur[7984 + side]);
    assert(air::here(env, k.ctm@[side]) == env.cur[7990 + side]);
    assert(uts[0] == gf::gf128_pow(g, exponents::tail(m, side, b, i, 0)));
    assert(uts[1] == gf::gf128_pow(g, exponents::tail(m, side, b, i, 1)));
    assert(l2 == r2);
    assert(l3 == r3);
    int_laws::lemma_xor(l2, r2);
    int_laws::lemma_xor(l3, r3);
}

/// One of the two columns that a row finishes of its own block.
proof fn lemma_head_complete(
    m: Modexp,
    k: ModexpCols,
    g: u128,
    request: u32,
    row: int,
    side: int,
    c: int,
)
    requires
        m.wf(),
        k.wf(),
        0 <= row < 1024,
        0 <= side < 2,
        0 <= c < 2,
    ensures
        air::split_roots(k, reading::pair_at(m, g, request, row), side)[c] == 0,
{
    let env = reading::pair_at(m, g, request, row);
    let (b, i) = (row / 32, row % 32);
    let step = m.steps()[b];
    lemma_side_seen(m, g, request, row, side);
    lemma_carry_seen(m, g, request, row, side);
    lemma_ends_seen(m, k, g, request, row);
    let us = constraint::cells(env.cur, 7726 + 64 * side, 64);
    assert(us[c] == air::here(env, air::nth(k.u@[side], c)));
    let run = exponents::running(m, side, b, i, c);
    let car = exponents::carry(m, side, b, 2 * i + c);
    let out = exponents::carry(m, side, b, 2 * i + c + 1);
    let digit = step.digits@[2 * i + c] as nat;
    assert(us[c] == gf::gf128_pow(g, run));
    exponents::lemma_head_split(m, side, b, i, c);
    let w = 2 * side + c;
    assert(w / 2 % 2 == side && w % 2 == c);
    assert(rows::carry_of(m, b, i, w) == out);
    assert(rows::digits_of(m, b, i)[c] == step.digits@[2 * i + c]);
    let mid = if c == 0 {
        air::here(env, k.c@[side])
    } else {
        air::here(env, k.cm@[side])
    };
    assert(mid == gf::gf128_pow(g, car));
    let left = gf::gf128_mul(us[c], mid);
    let right = gf::gf128_mul(air::digit_at(k, env, c), air::shifted_at(k, env, w));
    exp_form::law_powers_add(g, run, car);
    if side == 0 {
        rows::lemma_balance(g, run, car, digit, out);
        int_laws::lemma_mul_boolean(left, 1);
        int_laws::lemma_xor(left, right);
    } else {
        let r = step.r@[2 * i + c] as nat;
        rows::lemma_balance(g, run + car, r, digit, out);
        assert(rows::sel_of(m, b, i)[c] == step.r@[2 * i + c]);
        assert(air::limb_at(k, env, c) == gf::gf128_pow(g, r));
        int_laws::lemma_xor(gf::gf128_mul(left, air::limb_at(k, env, c)), right);
    }
}

// ---------------------------------------------------------------
// r + w + 1 = N
// ---------------------------------------------------------------

/// A gate over a bit is the power of the bit.
proof fn lemma_bit_power(g: u128, bit: u128, e: nat)
    requires
        bit <= 1,
    ensures
        1 ^ gf::gf128_mul(bit, gf::gf128_pow(g, e) ^ 1) == gf::gf128_pow(g, bit as nat * e),
{
    exp_form::lemma_gated(bit, gf::gf128_pow(g, e));
    lemma_mul_basics(e as int);
}

/// Equal sums of limbs and carries give equal products of powers.
proof fn lemma_sum_powers(g: u128, r: nat, w: nat, c: u128, n: nat, d: u128)
    requires
        c <= 1,
        d <= 1,
        r + w + c == n + 0x1_0000_0000 * d,
    ensures
        gf::gf128_mul(
            gf::gf128_mul(gf::gf128_pow(g, r), gf::gf128_pow(g, w)),
            1 ^ gf::gf128_mul(c, g ^ 1),
        ) ^ gf::gf128_mul(
            gf::gf128_pow(g, n),
            1 ^ gf::gf128_mul(d, gf::gf128_pow(g, pow2(32)) ^ 1),
        ) == 0,
{
    lemma2_to64();
    exp_form::lemma_first_power(g);
    lemma_bit_power(g, c, 1);
    lemma_bit_power(g, d, pow2(32));
    lemma_mul_basics(c as int);
    exp_form::law_powers_add(g, r, w);
    exp_form::law_powers_add(g, r + w, c as nat);
    exp_form::law_powers_add(g, n, d as nat * pow2(32));
    let x = gf::gf128_pow(g, r + w + c as nat);
    int_laws::lemma_xor(x, x);
}

proof fn lemma_sums_complete(m: Modexp, k: ModexpCols, g: u128, request: u32, row: int)
    requires
        m.wf(),
        k.wf(),
        0 <= row < 1024,
    ensures
        int_laws::all_zero(air::sum_roots(k, g, reading::pair_at(m, g, request, row))),
{
    let env = reading::pair_at(m, g, request, row);
    let q = reading::row_after(row);
    let (b, i) = (row / 32, row % 32);
    let step = m.steps()[b];
    let (r, w, n) = (step.r@, step.w@, m.n_limbs());
    lemma_row_after(row);
    lemma_ends_seen(m, k, g, request, row);
    reading::lemma_flag_cells(m, g, request, row);
    reading::lemma_flag_cells(m, g, request, q);
    reading::lemma_whole(m, g, request, row, 5513, 406);
    reading::lemma_whole(m, g, request, row, 5514, 407);
    reading::lemma_whole(m, g, request, row, 5516, 409);
    reading::lemma_whole(m, g, request, q, 5513, 406);
    let (rc, rcm) = (air::here(env, k.rc), air::here(env, k.rcm));
    let be = air::here(env, k.block_end);
    let next = air::after(env, k.rc);
    assert(rc == exponents::sum_carry(r, w, 2 * i));
    assert(rcm == exponents::sum_carry(r, w, 2 * i + 1));
    assert(be == table::flag(i == 31));
    exponents::lemma_sum_carry_bit(r, w, 2 * i);
    exponents::lemma_sum_carry_bit(r, w, 2 * i + 1);
    exponents::lemma_sum_carry_bit(r, w, 2 * i + 2);
    exponents::lemma_remainder_limbs(m, b, 2 * i);
    exponents::lemma_remainder_limbs(m, b, 2 * i + 1);
    int_laws::lemma_xor(1, be);
    let out = gf::gf128_mul(1 ^ be, next);
    int_laws::lemma_mul_boolean(1 ^ be, next);
    assert(out == exponents::sum_carry(r, w, 2 * i + 2)) by {
        if i == 31 {
            assert(2 * i + 2 == 64);
        } else {
            assert(2 * (q % 32) == 2 * i + 2);
        }
    }
    let sel = rows::sel_of(m, b, i);
    assert(sel[0] == r[2 * i] && sel[2] == w[2 * i] && sel[4] == n[2 * i]);
    assert(sel[1] == r[2 * i + 1] && sel[3] == w[2 * i + 1] && sel[5] == n[2 * i + 1]);
    let roots = air::sum_roots(k, g, env);
    assert(roots[0] == 0) by {
        lemma_sum_powers(g, r[2 * i] as nat, w[2 * i] as nat, rc, n[2 * i] as nat, rcm);
        let _ = (air::limb_at(k, env, 0), air::limb_at(k, env, 2), air::limb_at(k, env, 4));
    }
    assert(roots[1] == 0) by {
        lemma_sum_powers(
            g,
            r[2 * i + 1] as nat,
            w[2 * i + 1] as nat,
            rcm,
            n[2 * i + 1] as nat,
            out,
        );
        let _ = (air::limb_at(k, env, 1), air::limb_at(k, env, 3), air::limb_at(k, env, 5));
    }
    assert(roots[2] == 0) by {
        int_laws::lemma_xor(next, 1);
        lemma_gate(be, next ^ 1);
    }
}

// ---------------------------------------------------------------
// The table
// ---------------------------------------------------------------

proof fn lemma_side_complete(
    m: Modexp,
    k: ModexpCols,
    g: u128,
    request: u32,
    row: int,
    side: int,
)
    requires
        m.wf(),
        k.wf(),
        0 <= row < 1024,
        0 <= side < 2,
    ensures
        int_laws::all_zero(air::side_roots(k, g, reading::pair_at(m, g, request, row), side)),
{
    let env = reading::pair_at(m, g, request, row);
    lemma_limb_complete(m, k, g, request, row, side);
    lemma_products_complete(m, k, g, request, row, side, 64);
    lemma_running_complete(m, k, g, request, row, side, 64);
    lemma_links_complete(m, k, g, request, row, side);
    lemma_carry_seen(m, g, request, row, side);
    let (w0, w1, w2, w3) = (2 * side, 2 * side + 1, 4 + 2 * side, 4 + 2 * side + 1);
    assert(w0 / 2 % 2 == side && w1 / 2 % 2 == side && w2 / 2 % 2 == side && w3 / 2 % 2 == side);
    assert(w0 % 2 == 0 && w1 % 2 == 1 && w2 % 2 == 0 && w3 % 2 == 1);
    lemma_word_complete(m, k, g, request, row, w0, 7986 + side);
    lemma_word_complete(m, k, g, request, row, w1, 7988 + side);
    lemma_word_complete(m, k, g, request, row, w2, 7990 + side);
    lemma_word_complete(m, k, g, request, row, w3, 7992 + side);
    lemma_splits_complete(m, k, g, request, row, side);
    let (a, b, c, d) = (
        air::limb_roots(k, g, env, side),
        air::product_roots(k, env, side, 64),
        air::running_roots(k, env, side, 64),
        air::link_roots(k, env, side),
    );
    let (e, f, h, i) = (
        air::word_roots(k, g, env, w0, k.cm@[side]),
        air::word_roots(k, g, env, w1, k.co@[side]),
        air::word_roots(k, g, env, w2, k.ctm@[side]),
        air::word_roots(k, g, env, w3, k.cto@[side]),
    );
    let j = air::split_roots(k, env, side);
    int_laws::lemma_all_zero_append(a, b);
    int_laws::lemma_all_zero_append(a + b, c);
    int_laws::lemma_all_zero_append(a + b + c, d);
    int_laws::lemma_all_zero_append(a + b + c + d, e);
    int_laws::lemma_all_zero_append(a + b + c + d + e, f);
    int_laws::lemma_all_zero_append(a + b + c + d + e + f, h);
    int_laws::lemma_all_zero_append(a + b + c + d + e + f + h, i);
    int_laws::lemma_all_zero_append(a + b + c + d + e + f + h + i, j);
}

/// The table of an exponentiation meets every constraint in every row, the
/// last row followed by the first.
pub proof fn law_table_complete(m: Modexp, k: ModexpCols, g: u128, request: u32, row: int)
    requires
        m.wf(),
        k.wf(),
        0 <= row < 1024,
    ensures
        int_laws::all_zero(air::modexp_roots(k, g, reading::pair_at(m, g, request, row))),
{
    let env = reading::pair_at(m, g, request, row);
    lemma_flags_complete(m, k, g, request, row);
    lemma_arrays_complete(m, k, g, request, row, 64);
    lemma_selects_complete(m, k, g, request, row);
    lemma_side_complete(m, k, g, request, row, 0);
    lemma_side_complete(m, k, g, request, row, 1);
    lemma_digits_complete(m, k, g, request, row, 4);
    lemma_sels_complete(m, k, g, request, row, 6);
    lemma_sums_complete(m, k, g, request, row);
    let (a, b, c, d) = (
        air::flag_roots(k, env),
        air::array_roots(k, env, 64),
        air::select_roots(k, env),
        air::side_roots(k, g, env, 0),
    );
    let (e, f, h, i) = (
        air::side_roots(k, g, env, 1),
        air::digit_roots(k, g, env, 4),
        air::sel_roots(k, g, env, 6),
        air::sum_roots(k, g, env),
    );
    int_laws::lemma_all_zero_append(a, b);
    int_laws::lemma_all_zero_append(a + b, c);
    int_laws::lemma_all_zero_append(a + b + c, d);
    int_laws::lemma_all_zero_append(a + b + c + d, e);
    int_laws::lemma_all_zero_append(a + b + c + d + e, f);
    int_laws::lemma_all_zero_append(a + b + c + d + e + f, h);
    int_laws::lemma_all_zero_append(a + b + c + d + e + f + h, i);
}

/// The row of the result, and it alone, is put on the bus; there the result's
/// cells write `s^65537 mod N`, beside the base, the modulus and the index of
/// the request.
pub proof fn law_result_row(m: Modexp, g: u128, request: u32, row: int, j: int)
    requires
        m.wf(),
        0 <= row < 1024,
        0 <= j < 64,
    ensures
        ({
            let t = table::table_row(m, g, request, row);
            &&& t[412] == table::flag(row == 543)
            &&& t[2 + j] == m.s_limbs()[j]
            &&& t[194 + j] == m.n_limbs()[j]
            &&& row == 543 ==> t[258 + j] == m.steps()[16].r@[j]
            &&& row == 543 ==> t[405] == request
            &&& m.block_result(16) == vstd::arithmetic::power::pow(m.base_value() as int, 65537) % (
            m.modulus_value() as int)
        }),
{
    reading::lemma_flag_cells(m, g, request, row);
    reading::lemma_limb_cells(m, g, request, row, j);
    m.law_blocks_leave_powers(16);
}

} // verus!
