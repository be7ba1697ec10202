//! What the memory table's constraints prove of adjacent rows, and which
//! tables meet them.

use vstd::arithmetic::div_mod::*;
use vstd::arithmetic::mul::*;
use vstd::arithmetic::power2::*;
use vstd::prelude::*;

use super::air;
use super::comparator;
use super::event;
use super::event::MemoryEvent;
use super::table;
use crate::atoms::int_laws;
use crate::bits;
use crate::bytes;
use crate::field::gf;
use crate::field::laws;
use crate::field::laws::Ring;
use crate::field::subfields;
use crate::program::constraint;
use crate::program::constraint::Env;
use crate::program::expander;

verus! {

// ---------------------------------------------------------------
// Rows
// ---------------------------------------------------------------

/// The constraints see a row and the next as their virtual columns.
pub open spec fn row_pair(row: Seq<u128>, next: Seq<u128>) -> Env {
    Env {
        cur: expander::expanded(air::ram_virtuals(), row),
        next: expander::expanded(air::ram_virtuals(), next),
    }
}

/// A committed row: the packed words fit 32 bits, and the address, clock
/// and value cells hold bytes, as the event bus hands them over.
pub open spec fn is_row(row: Seq<u128>) -> bool {
    &&& row.len() == 21
    &&& row[0] <= u32::MAX
    &&& row[1] <= u32::MAX
    &&& forall|c: int| 2 <= c < 14 ==> #[trigger] row[c] < 256
}

/// The number four byte cells write, least significant first.
pub open spec fn cell_number(row: Seq<u128>, start: int) -> nat {
    (row[start] + 0x100 * row[start + 1] + 0x1_0000 * row[start + 2] + 0x100_0000 * row[start
        + 3]) as nat
}

/// The key of a row: address above clock.
pub open spec fn row_key(row: Seq<u128>) -> nat {
    cell_number(row, 2) * 0x1_0000_0000 + cell_number(row, 6)
}

proof fn lemma_virtual(row: Seq<u128>)
    requires
        row.len() == 21,
    ensures
        ({
            let v = expander::expanded(air::ram_virtuals(), row);
            &&& v.len() == 83
            &&& forall|j: int| 0 <= j < 32 ==> #[trigger] v[j] == bits::bit(row[0] as nat, j as nat)
            &&& forall|j: int|
                32 <= j < 64 ==> #[trigger] v[j] == bits::bit(row[1] as nat, (j - 32) as nat)
            &&& forall|j: int| 64 <= j < 83 ==> #[trigger] v[j] == row[j - 62]
            &&& forall|j: int| 0 <= j < 64 ==> #[trigger] v[j] <= 1
        }),
{
    let v = expander::expanded(air::ram_virtuals(), row);
    assert forall|j: int| 0 <= j < 32 implies #[trigger] v[j] == bits::bit(row[0] as nat, j as nat)
        && v[j] <= 1 by {
        assert(air::ram_virtuals()[j] == expander::bit_columns(0, 32, 64)[j]);
        bits::lemma_mod_pow2_step(row[0] as nat, j as nat);
    }
    assert forall|j: int| 32 <= j < 64 implies #[trigger] v[j] == bits::bit(
        row[1] as nat,
        (j - 32) as nat,
    ) && v[j] <= 1 by {
        assert(air::ram_virtuals()[j] == expander::bit_columns(0, 32, 64)[j]);
        bits::lemma_mod_pow2_step(row[1] as nat, (j - 32) as nat);
    }
    assert forall|j: int| 64 <= j < 83 implies #[trigger] v[j] == row[j - 62] by {
        assert(air::ram_virtuals()[j] == expander::whole_columns(2, 19)[j - 64]);
    }
}

// ---------------------------------------------------------------
// Weighted sums
// ---------------------------------------------------------------

proof fn lemma_byte_xor(
    n0: u128,
    n1: u128,
    n2: u128,
    n3: u128,
    c0: u128,
    c1: u128,
    c2: u128,
    c3: u128,
)
    requires
        n0 < 256,
        n1 < 256,
        n2 < 256,
        n3 < 256,
        c0 < 256,
        c1 < 256,
        c2 < 256,
        c3 < 256,
    ensures
        n0 ^ c0 < 256,
        n1 ^ c1 < 256,
        n2 ^ c2 < 256,
        n3 ^ c3 < 256,
        (((0u128 ^ (n0 ^ c0)) ^ ((n1 ^ c1) * 256) as u128) ^ ((n2 ^ c2) * 65536) as u128) ^ ((n3
            ^ c3) * 16777216) as u128 == ((n0 + n1 * 256 + n2 * 65536 + n3 * 16777216) as u128) ^ ((
        c0 + c1 * 256 + c2 * 65536 + c3 * 16777216) as u128),
{
    assert(n0 ^ c0 < 256 && n1 ^ c1 < 256 && n2 ^ c2 < 256 && n3 ^ c3 < 256 && (((0u128 ^ (n0 ^ c0))
        ^ ((n1 ^ c1) * 256) as u128) ^ ((n2 ^ c2) * 65536) as u128) ^ ((n3 ^ c3) * 16777216) as u128
        == ((n0 + n1 * 256 + n2 * 65536 + n3 * 16777216) as u128) ^ ((c0 + c1 * 256 + c2 * 65536
        + c3 * 16777216) as u128)) by (bit_vector)
        requires
            n0 < 256,
            n1 < 256,
            n2 < 256,
            n3 < 256,
            c0 < 256,
            c1 < 256,
            c2 < 256,
            c3 < 256,
    ;
}

/// The difference of four bytes, weighted by the tower's powers of 256, is
/// the XOR of the numbers they write.
proof fn lemma_difference(env: Env, start: int)
    requires
        env.cur[start] < 256,
        env.cur[start + 1] < 256,
        env.cur[start + 2] < 256,
        env.cur[start + 3] < 256,
        env.next[start] < 256,
        env.next[start + 1] < 256,
        env.next[start + 2] < 256,
        env.next[start + 3] < 256,
    ensures
        air::byte_difference(env, start) == (cell_number(env.next, start) as u128) ^ (cell_number(
            env.cur,
            start,
        ) as u128),
        air::byte_difference(env, start) == 0 <==> env.cur[start] == env.next[start]
            && env.cur[start + 1] == env.next[start + 1] && env.cur[start + 2] == env.next[start
            + 2] && env.cur[start + 3] == env.next[start + 3],
        cell_number(env.cur, start) <= u32::MAX,
        cell_number(env.next, start) <= u32::MAX,
{
    let (n0, n1, n2, n3) = (
        env.next[start],
        env.next[start + 1],
        env.next[start + 2],
        env.next[start + 3],
    );
    let (c0, c1, c2, c3) = (
        env.cur[start],
        env.cur[start + 1],
        env.cur[start + 2],
        env.cur[start + 3],
    );
    lemma_byte_xor(n0, n1, n2, n3, c0, c1, c2, c3);
    subfields::law_byte_weights_shift((n0 ^ c0) as u8);
    subfields::law_byte_weights_shift((n1 ^ c1) as u8);
    subfields::law_byte_weights_shift((n2 ^ c2) as u8);
    subfields::law_byte_weights_shift((n3 ^ c3) as u8);
    lemma_xor_four(
        gf::gf128_mul(1, n0 ^ c0),
        gf::gf128_mul(256, n1 ^ c1),
        gf::gf128_mul(65536, n2 ^ c2),
        gf::gf128_mul(16777216, n3 ^ c3),
    );
    int_laws::lemma_xor(
        cell_number(env.next, start) as u128,
        cell_number(env.cur, start) as u128,
    );
}

proof fn lemma_xor_four(a: u128, b: u128, c: u128, d: u128)
    ensures
        constraint::xor_all(seq![a, b, c, d]) == (((0u128 ^ a) ^ b) ^ c) ^ d,
{
    let s4 = seq![a, b, c, d];
    let s3 = seq![a, b, c];
    let s2 = seq![a, b];
    let s1 = seq![a];
    assert(s4.drop_last() =~= s3);
    assert(s3.drop_last() =~= s2);
    assert(s2.drop_last() =~= s1);
    assert(s1.drop_last() =~= Seq::<u128>::empty());
    assert(constraint::xor_all(Seq::<u128>::empty()) == 0);
    assert(constraint::xor_all(s1) == 0u128 ^ a);
    assert(constraint::xor_all(s2) == (0u128 ^ a) ^ b);
    assert(constraint::xor_all(s3) == ((0u128 ^ a) ^ b) ^ c);
}

/// An address as a field element is the address.
proof fn lemma_addr_field(addr: u32)
    ensures
        table::addr_field(addr) == addr,
{
    let b = bytes::le_bytes(addr as nat, 4);
    lemma_le4(addr);
    lemma_byte_xor(b[0] as u128, b[1] as u128, b[2] as u128, b[3] as u128, 0, 0, 0, 0);
    subfields::law_byte_weights_shift(b[0]);
    subfields::law_byte_weights_shift(b[1]);
    subfields::law_byte_weights_shift(b[2]);
    subfields::law_byte_weights_shift(b[3]);
    <u128 as Ring>::commutes(b[0] as u128, 1);
    <u128 as Ring>::commutes(b[1] as u128, 256);
    <u128 as Ring>::commutes(b[2] as u128, 65536);
    <u128 as Ring>::commutes(b[3] as u128, 16777216);
    int_laws::lemma_xor(b[0] as u128, 0);
    int_laws::lemma_xor(b[1] as u128, 0);
    int_laws::lemma_xor(b[2] as u128, 0);
    int_laws::lemma_xor(b[3] as u128, 0);
    int_laws::lemma_xor(addr as u128, 0);
}

/// A word is what its four bytes write.
pub proof fn lemma_le4(x: u32)
    ensures
        bytes::le_bytes(x as nat, 4).len() == 4,
        ({
            let b = bytes::le_bytes(x as nat, 4);
            x == b[0] + 0x100 * b[1] + 0x1_0000 * b[2] + 0x100_0000 * b[3]
        }),
{
    bytes::lemma_byte_pow_values();
    bytes::lemma_le_bytes_len(x as nat, 4);
    bytes::law_le_round_trip(x as nat, 4);
    let b = bytes::le_bytes(x as nat, 4);
    reveal_with_fuel(bytes::le_value, 5);
    assert(b.skip(1).skip(1) =~= b.skip(2));
    assert(b.skip(2).skip(1) =~= b.skip(3));
    assert(b.skip(3).skip(1) =~= b.skip(4));
    assert(bytes::le_value(b) == b[0] + 256 * (b[1] + 256 * (b[2] + 256 * b[3])));
}

// ---------------------------------------------------------------
// Order of bits and bytes
// ---------------------------------------------------------------

/// Numbers compare by the highest bit in which they differ.
proof fn lemma_bits_greater(a: Seq<u128>, b: Seq<u128>, k: int, n: int)
    requires
        a.len() == b.len(),
        int_laws::boolean(a),
        int_laws::boolean(b),
        0 <= k < n <= a.len(),
        a[k] == 1,
        b[k] == 0,
        forall|j: int| k < j < a.len() ==> #[trigger] a[j] == b[j],
    ensures
        int_laws::bits_value(a.take(n)) > int_laws::bits_value(b.take(n)),
    decreases n,
{
    let (x, y) = (a.take(n), b.take(n));
    assert(x.drop_last() =~= a.take(n - 1));
    assert(y.drop_last() =~= b.take(n - 1));
    let p = pow2((n - 1) as nat);
    lemma_mul_basics(p as int);
    if n == k + 1 {
        assert(int_laws::boolean(b.take(k))) by {
            assert forall|i: int| 0 <= i < k implies #[trigger] b.take(k)[i] <= 1 by {
                assert(b[i] <= 1);
            }
        }
        int_laws::lemma_bits_bound(b.take(k));
    } else {
        lemma_bits_greater(a, b, k, n - 1);
        assert(a[n - 1] == b[n - 1]);
    }
}

/// Somewhere in a list of booleans whose sum is one, there is a one.
proof fn lemma_some_one(vs: Seq<u128>) -> (i: int)
    requires
        int_laws::boolean(vs),
        constraint::xor_all(vs) != 0,
    ensures
        0 <= i < vs.len(),
        vs[i] == 1,
    decreases vs.len(),
{
    if vs.len() == 0 {
        0
    } else if vs.last() != 0 {
        assert(vs.last() <= 1);
        vs.len() - 1
    } else {
        int_laws::lemma_xor(constraint::xor_all(vs.drop_last()), vs.last());
        let t = vs.drop_last();
        assert forall|i: int| 0 <= i < t.len() implies #[trigger] t[i] <= 1 by {
            assert(vs[i] <= 1);
        }
        lemma_some_one(t)
    }
}

/// A list with a single one adds up to one.
proof fn lemma_one_hot(vs: Seq<u128>, at: int, n: int)
    requires
        0 <= n <= vs.len(),
        forall|i: int| 0 <= i < vs.len() ==> #[trigger] vs[i] == (if i == at {
            1u128
        } else {
            0u128
        }),
    ensures
        constraint::xor_all(vs.take(n)) == if 0 <= at < n {
            1u128
        } else {
            0u128
        },
    decreases n,
{
    let t = vs.take(n);
    if n > 0 {
        lemma_one_hot(vs, at, n - 1);
        assert(t.drop_last() =~= vs.take(n - 1));
        assert(t.last() == vs[n - 1]);
        int_laws::lemma_xor(constraint::xor_all(vs.take(n - 1)), vs[n - 1]);
    }
}

/// Keys compare by the first byte in which they differ.
proof fn lemma_key_less(row: Seq<u128>, next: Seq<u128>, i: int)
    requires
        is_row(row),
        is_row(next),
        0 <= i < 8,
        row[air::key_column(i) - 62] < next[air::key_column(i) - 62],
        forall|h: int|
            0 <= h < i ==> #[trigger] row[air::key_column(h) - 62] == next[air::key_column(h) - 62],
    ensures
        row_key(row) < row_key(next),
{
    assert(row[2] < 256 && row[3] < 256 && row[4] < 256 && row[5] < 256 && row[6] < 256 && row[7]
        < 256 && row[8] < 256 && row[9] < 256);
    assert(next[2] < 256 && next[3] < 256 && next[4] < 256 && next[5] < 256 && next[6] < 256
        && next[7] < 256 && next[8] < 256 && next[9] < 256);
    assert(0 < i ==> row[air::key_column(0) - 62] == next[air::key_column(0) - 62]);
    assert(1 < i ==> row[air::key_column(1) - 62] == next[air::key_column(1) - 62]);
    assert(2 < i ==> row[air::key_column(2) - 62] == next[air::key_column(2) - 62]);
    assert(3 < i ==> row[air::key_column(3) - 62] == next[air::key_column(3) - 62]);
    assert(4 < i ==> row[air::key_column(4) - 62] == next[air::key_column(4) - 62]);
    assert(5 < i ==> row[air::key_column(5) - 62] == next[air::key_column(5) - 62]);
    assert(6 < i ==> row[air::key_column(6) - 62] == next[air::key_column(6) - 62]);
}

// ---------------------------------------------------------------
// What the constraints ask, gadget by gadget
// ---------------------------------------------------------------

proof fn lemma_mul01(a: u128, b: u128)
    requires
        a <= 1,
    ensures
        gf::gf128_mul(a, b) == (if a == 1 {
            b
        } else {
            0
        }),
        gf::gf128_mul(b, a) == (if a == 1 {
            b
        } else {
            0
        }),
{
    int_laws::lemma_mul_boolean(a, b);
    int_laws::lemma_mul_boolean(b, a);
}

proof fn lemma_push_zero(vs: Seq<u128>, x: u128)
    ensures
        int_laws::all_zero(vs.push(x)) <==> int_laws::all_zero(vs) && x == 0,
{
    assert(vs.push(x) =~= vs + seq![x]);
    int_laws::lemma_all_zero_append(vs, seq![x]);
    if int_laws::all_zero(seq![x]) {
        assert(seq![x][0] == 0);
    }
}

spec fn helper_bits(cur: Seq<u128>) -> bool {
    forall|j: int| 0 <= j < 64 ==> #[trigger] cur[j] <= 1
}

proof fn lemma_marks(env: Env, n: nat)
    requires
        helper_bits(env.cur),
        n <= 8,
    ensures
        int_laws::all_zero(air::mark_roots(env, n)) <==> constraint::xor_all(
            constraint::cells(env.cur, 0, 8),
        ) == 1,
    decreases n,
{
    if n == 0 {
        let x = constraint::xor_all(constraint::cells(env.cur, 0, 8));
        let head = seq![x ^ 1];
        int_laws::lemma_xor(x, 1);
        if int_laws::all_zero(head) {
            assert(head[0] == 0);
        }
    } else {
        let i = n - 1;
        lemma_marks(env, i as nat);
        let step = seq![
            constraint::boolean_residue(env.cur[8 + i]),
            constraint::boolean_residue(env.cur[16 + i]),
            constraint::boolean_residue(env.cur[24 + i]),
            constraint::boolean_residue(env.cur[i]),
        ];
        int_laws::lemma_all_zero_append(air::mark_roots(env, i as nat), step);
        assert(env.cur[8 + i] <= 1 && env.cur[16 + i] <= 1 && env.cur[24 + i] <= 1 && env.cur[i]
            <= 1);
        int_laws::law_boolean_residue(env.cur[8 + i]);
        int_laws::law_boolean_residue(env.cur[16 + i]);
        int_laws::law_boolean_residue(env.cur[24 + i]);
        int_laws::law_boolean_residue(env.cur[i]);
    }
}

proof fn lemma_agree(env: Env, i: int, h: nat)
    requires
        env.cur[80] <= 1,
        env.cur[i] <= 1,
    ensures
        int_laws::all_zero(air::agree_roots(env, i, h)) <==> (env.cur[80] == 1 && env.cur[i] == 1
            ==> forall|k: int|
            0 <= k < h ==> env.next[#[trigger] air::key_column(k)] == env.cur[air::key_column(k)]),
    decreases h,
{
    if h > 0 {
        let k = h - 1;
        lemma_agree(env, i, k as nat);
        let g = gf::gf128_mul(env.cur[80], env.cur[i]);
        let x = env.next[air::key_column(k)] ^ env.cur[air::key_column(k)];
        lemma_push_zero(air::agree_roots(env, i, k as nat), gf::gf128_mul(g, x));
        lemma_mul01(env.cur[80], env.cur[i]);
        lemma_mul01(g, x);
        int_laws::lemma_xor(env.next[air::key_column(k)], env.cur[air::key_column(k)]);
    }
}

/// Where key byte `i` is marked, it is the byte whose bits are given, and
/// the bytes above it agree with those of the next row.
spec fn key_ok(env: Env, i: int) -> bool {
    env.cur[i] == 1 ==> {
        &&& env.cur[air::key_column(i)] == constraint::weighted(constraint::cells(env.cur, 24, 8))
        &&& env.cur[80] == 1 ==> {
            &&& env.next[air::key_column(i)] == constraint::weighted(constraint::cells(env.cur, 16, 8))
            &&& forall|k: int|
                0 <= k < i ==> env.next[#[trigger] air::key_column(k)] == env.cur[air::key_column(
                    k,
                )]
        }
    }
}

proof fn lemma_keys(env: Env, n: nat)
    requires
        helper_bits(env.cur),
        env.cur[80] <= 1,
        n <= 8,
    ensures
        int_laws::all_zero(air::key_roots(env, n)) <==> forall|i: int|
            0 <= i < n ==> #[trigger] key_ok(env, i),
    decreases n,
{
    if n > 0 {
        let i = n - 1;
        lemma_keys(env, i as nat);
        let (a, b) = (
            constraint::weighted(constraint::cells(env.cur, 16, 8)),
            constraint::weighted(constraint::cells(env.cur, 24, 8)),
        );
        let g = gf::gf128_mul(env.cur[80], env.cur[i]);
        let x = env.next[air::key_column(i)] ^ a;
        let y = env.cur[air::key_column(i)] ^ b;
        let step = seq![gf::gf128_mul(g, x), gf::gf128_mul(env.cur[i], y)];
        let head = air::key_roots(env, i as nat);
        let tail = air::agree_roots(env, i, i as nat);
        int_laws::lemma_all_zero_append(head + step, tail);
        int_laws::lemma_all_zero_append(head, step);
        assert(env.cur[i] <= 1);
        lemma_mul01(env.cur[80], env.cur[i]);
        lemma_mul01(g, x);
        lemma_mul01(env.cur[i], y);
        int_laws::lemma_xor(env.next[air::key_column(i)], a);
        int_laws::lemma_xor(env.cur[air::key_column(i)], b);
        lemma_agree(env, i, i as nat);
        if int_laws::all_zero(step) {
            assert(step[0] == 0 && step[1] == 0);
        }
        assert(int_laws::all_zero(step) && int_laws::all_zero(tail) <==> key_ok(env, i));
    }
}

/// Where bit `i` is marked, the next byte has a one there, this byte a zero,
/// and the bits above agree.
spec fn bit_ok(env: Env, i: int) -> bool {
    env.cur[8 + i] == 1 ==> {
        &&& env.cur[16 + i] == 1
        &&& env.cur[24 + i] == 0
        &&& forall|j: int| i < j < 8 ==> #[trigger] env.cur[16 + j] == env.cur[24 + j]
    }
}

proof fn lemma_gated_booleans(env: Env, n: nat)
    requires
        helper_bits(env.cur),
        n <= 8,
    ensures
        int_laws::all_zero(air::gated_boolean_roots(env, n)),
    decreases n,
{
    if n > 0 {
        let i = n - 1;
        lemma_gated_booleans(env, i as nat);
        let g = air::compare_gate(env);
        let (a, b, d) = (env.cur[16 + i], env.cur[24 + i], env.cur[8 + i]);
        assert(a <= 1 && b <= 1 && d <= 1);
        lemma_mul01(a, a);
        lemma_mul01(b, b);
        lemma_mul01(d, d);
        int_laws::lemma_xor(a, a);
        int_laws::lemma_xor(b, b);
        int_laws::lemma_xor(d, d);
        int_laws::lemma_mul_boolean(g, 0);
        let step = seq![
            gf::gf128_mul(g, gf::gf128_mul(a, a) ^ a),
            gf::gf128_mul(g, gf::gf128_mul(b, b) ^ b),
            gf::gf128_mul(g, gf::gf128_mul(d, d) ^ d),
        ];
        int_laws::lemma_all_zero_append(air::gated_boolean_roots(env, i as nat), step);
    }
}

proof fn lemma_greater(env: Env, n: nat)
    requires
        helper_bits(env.cur),
        air::compare_gate(env) <= 1,
        n <= 8,
    ensures
        int_laws::all_zero(air::greater_roots(env, n)) <==> (air::compare_gate(env) == 1
            ==> forall|i: int|
            0 <= i < n && #[trigger] env.cur[8 + i] == 1 ==> env.cur[16 + i] == 1 && env.cur[24 + i]
                == 0),
    decreases n,
{
    if n > 0 {
        let i = n - 1;
        lemma_greater(env, i as nat);
        let g = air::compare_gate(env);
        let (a, b, d) = (env.cur[16 + i], env.cur[24 + i], env.cur[8 + i]);
        assert(a <= 1 && b <= 1 && d <= 1);
        int_laws::lemma_xor(b, 1);
        lemma_mul01(a, b ^ 1);
        let ab = gf::gf128_mul(a, b ^ 1);
        int_laws::lemma_xor(ab, 1);
        lemma_mul01(d, ab ^ 1);
        let body = gf::gf128_mul(d, ab ^ 1);
        lemma_mul01(g, body);
        lemma_push_zero(air::greater_roots(env, i as nat), gf::gf128_mul(g, body));
    }
}

proof fn lemma_higher(env: Env, i: int, n: nat)
    requires
        helper_bits(env.cur),
        air::compare_gate(env) <= 1,
        0 <= i < 8,
        n <= 8,
    ensures
        int_laws::all_zero(air::higher_roots(env, i, n)) <==> (air::compare_gate(env) == 1
            && env.cur[8 + i] == 1 ==> forall|j: int|
            i < j < n ==> #[trigger] env.cur[16 + j] == env.cur[24 + j]),
    decreases n,
{
    if n > i + 1 {
        let j = n - 1;
        lemma_higher(env, i, j as nat);
        let g = air::compare_gate(env);
        let d = env.cur[8 + i];
        let x = env.cur[16 + j] ^ env.cur[24 + j];
        assert(d <= 1);
        assert(16 + n - 1 == 16 + j && 24 + n - 1 == 24 + j);
        int_laws::lemma_xor(env.cur[16 + j], env.cur[24 + j]);
        lemma_mul01(d, x);
        lemma_mul01(g, gf::gf128_mul(d, x));
        lemma_push_zero(
            air::higher_roots(env, i, j as nat),
            gf::gf128_mul(g, gf::gf128_mul(d, x)),
        );
    }
}

proof fn lemma_equal_above(env: Env, n: nat)
    requires
        helper_bits(env.cur),
        air::compare_gate(env) <= 1,
        n <= 8,
    ensures
        int_laws::all_zero(air::equal_above_roots(env, n)) <==> (air::compare_gate(env) == 1
            ==> forall|i: int, j: int|
            0 <= i < n && #[trigger] env.cur[8 + i] == 1 && i < j < 8 ==> #[trigger] env.cur[16 + j]
                == env.cur[24 + j]),
    decreases n,
{
    if n > 0 {
        let k = n - 1;
        lemma_equal_above(env, k as nat);
        lemma_higher(env, k, 8);
        int_laws::lemma_all_zero_append(
            air::equal_above_roots(env, k as nat),
            air::higher_roots(env, k, 8),
        );
    }
}

/// The order constraints: some bit is marked, and every marked bit shows
/// that the next byte is greater.
proof fn lemma_order(env: Env)
    requires
        helper_bits(env.cur),
        env.cur[80] <= 1,
        env.next[79] <= 1,
    ensures
        int_laws::all_zero(air::order_roots(env)) <==> (env.cur[80] == 1 && env.next[79] == 1 ==> {
            &&& constraint::xor_all(constraint::cells(env.cur, 8, 8)) == 1
            &&& forall|i: int| 0 <= i < 8 ==> #[trigger] bit_ok(env, i)
        }),
{
    let g = air::compare_gate(env);
    lemma_mul01(env.cur[80], env.next[79]);
    let x = constraint::xor_all(constraint::cells(env.cur, 8, 8));
    let p1 = seq![gf::gf128_mul(g, x ^ 1)];
    let p2 = air::gated_boolean_roots(env, 8);
    let p3 = air::greater_roots(env, 8);
    let p4 = air::equal_above_roots(env, 8);
    int_laws::lemma_all_zero_append(p1 + p2 + p3, p4);
    int_laws::lemma_all_zero_append(p1 + p2, p3);
    int_laws::lemma_all_zero_append(p1, p2);
    lemma_mul01(g, x ^ 1);
    int_laws::lemma_xor(x, 1);
    lemma_gated_booleans(env, 8);
    lemma_greater(env, 8);
    lemma_equal_above(env, 8);
    if int_laws::all_zero(p1) {
        assert(p1[0] == 0);
    }
    if g == 1 {
        if int_laws::all_zero(p3) && int_laws::all_zero(p4) {
            assert forall|i: int| 0 <= i < 8 implies #[trigger] bit_ok(env, i) by {
                if env.cur[8 + i] == 1 {
                    assert forall|j: int| i < j < 8 implies #[trigger] env.cur[16 + j] == env.cur[24
                        + j] by {
                        assert(env.cur[8 + i] == 1);
                    }
                }
            }
        }
        if forall|i: int| 0 <= i < 8 ==> #[trigger] bit_ok(env, i) {
            assert forall|i: int| 0 <= i < 8 && #[trigger] env.cur[8 + i] == 1 implies env.cur[16
                + i] == 1 && env.cur[24 + i] == 0 by {
                assert(bit_ok(env, i));
            }
            assert forall|i: int, j: int|
                0 <= i < 8 && #[trigger] env.cur[8 + i] == 1 && i < j < 8 implies #[trigger] env.cur[16
                + j] == env.cur[24 + j] by {
                assert(bit_ok(env, i));
            }
        }
    }
}

// ---------------------------------------------------------------
// Values
// ---------------------------------------------------------------

/// Bit `a + b` of a number is bit `b` of the number without its low `a` bits.
proof fn lemma_bit_shift(x: nat, a: nat, b: nat)
    ensures
        bits::bit(x, a + b) == bits::bit(x / pow2(a), b),
{
    lemma_pow2_pos(a);
    lemma_pow2_pos(b);
    lemma_pow2_adds(a, b);
    lemma_div_denominator(x as int, pow2(a) as int, pow2(b) as int);
}

/// Byte `k` of a number.
pub open spec fn byte_at(x: nat, k: nat) -> nat {
    (x / pow2(8 * k)) % 256
}

proof fn lemma_value_byte(row: Seq<u128>, cur: Seq<u128>, k: int)
    requires
        0 <= k < 4,
        row.len() == 21,
        cur == expander::expanded(air::ram_virtuals(), row),
    ensures
        constraint::weighted(constraint::cells(cur, 32 + 8 * k, 8)) == byte_at(row[1] as nat, k as nat),
{
    lemma_virtual(row);
    lemma2_to64();
    let x = row[1] as nat;
    let vs = constraint::cells(cur, 32 + 8 * k, 8);
    let y = x / pow2(8 * k as nat);
    assert forall|j: int| 0 <= j < 8 implies #[trigger] vs[j] == int_laws::bits_of(y, 8)[j] by {
        assert(vs[j] == cur[32 + 8 * k + j]);
        lemma_bit_shift(x, 8 * k as nat, j as nat);
    }
    assert(vs =~= int_laws::bits_of(y, 8));
    int_laws::lemma_bits_of(y, 8);
    int_laws::law_weighted(vs);
}

proof fn lemma_value_word(row: Seq<u128>, cur: Seq<u128>)
    requires
        is_row(row),
        cur == expander::expanded(air::ram_virtuals(), row),
    ensures
        constraint::weighted(constraint::cells(cur, 32, 32)) == row[1],
{
    lemma_virtual(row);
    lemma2_to64();
    let vs = constraint::cells(cur, 32, 32);
    assert forall|j: int| 0 <= j < 32 implies #[trigger] vs[j] == int_laws::bits_of(
        row[1] as nat,
        32,
    )[j] by {
        assert(vs[j] == cur[32 + j]);
    }
    assert(vs =~= int_laws::bits_of(row[1] as nat, 32));
    int_laws::lemma_bits_of(row[1] as nat, 32);
    lemma_small_mod(row[1] as nat, pow2(32));
    int_laws::law_weighted(vs);
}

proof fn lemma_bindings(row: Seq<u128>, cur: Seq<u128>, n: nat)
    requires
        is_row(row),
        cur == expander::expanded(air::ram_virtuals(), row),
        n <= 4,
    ensures
        int_laws::all_zero(air::byte_binding_roots(cur, n)) <==> forall|c: int|
            10 <= c < 10 + n ==> #[trigger] row[c] == byte_at(row[1] as nat, (c - 10) as nat),
    decreases n,
{
    if n > 0 {
        let k = n - 1;
        lemma_bindings(row, cur, k as nat);
        lemma_value_byte(row, cur, k);
        lemma_virtual(row);
        assert(cur[72 + k] == row[10 + k]);
        let w = constraint::weighted(constraint::cells(cur, 32 + 8 * k, 8));
        assert(72 + n - 1 == 72 + k && 32 + 8 * (n - 1) == 32 + 8 * k);
        lemma_push_zero(air::byte_binding_roots(cur, k as nat), cur[72 + k] ^ w);
        int_laws::lemma_xor(cur[72 + k], w);
    }
}

/// The value cells hold the word and its bytes.
pub open spec fn value_ok(row: Seq<u128>) -> bool {
    &&& row[14] == row[1]
    &&& forall|c: int|
        10 <= c < 14 ==> #[trigger] row[c] == byte_at(row[1] as nat, (c - 10) as nat)
}

proof fn lemma_values(row: Seq<u128>, env: Env)
    requires
        is_row(row),
        env.cur == expander::expanded(air::ram_virtuals(), row),
    ensures
        int_laws::all_zero(air::value_roots(env)) <==> value_ok(row),
{
    lemma_virtual(row);
    let vs = constraint::cells(env.cur, 32, 32);
    let p1 = constraint::boolean_residues(vs);
    let p2 = air::byte_binding_roots(env.cur, 4);
    let p3 = seq![env.cur[76] ^ constraint::weighted(vs)];
    int_laws::lemma_all_zero_append(p1 + p2, p3);
    int_laws::lemma_all_zero_append(p1, p2);
    int_laws::law_booleans(vs);
    assert forall|j: int| 0 <= j < 32 implies #[trigger] vs[j] <= 1 by {
        assert(env.cur[32 + j] <= 1);
    }
    lemma_bindings(row, env.cur, 4);
    lemma_value_word(row, env.cur);
    assert(env.cur[76] == row[14]);
    int_laws::lemma_xor(row[14], row[1]);
    if int_laws::all_zero(p3) {
        assert(p3[0] == 0);
    }
}

// ---------------------------------------------------------------
// Access rules
// ---------------------------------------------------------------

/// The rules between an access and the next. The inverse cell inverts the
/// address difference; a read repeats the value at its address, or gives
/// zero at a new address; and a read in the first row gives zero.
pub open spec fn access_ok(row: Seq<u128>, next: Seq<u128>) -> bool {
    let d = (cell_number(next, 2) as u128) ^ (cell_number(row, 2) as u128);
    &&& row[18] == 1 ==> {
        &&& d != 0 ==> gf::gf128_mul(d, row[15]) == 1
        &&& next[16] == 0 ==> forall|c: int|
            10 <= c < 14 ==> #[trigger] next[c] == (if cell_number(next, 2) == cell_number(row, 2) {
                row[c]
            } else {
                0
            })
    }
    &&& row[19] == 1 && row[16] == 0 ==> forall|c: int| 10 <= c < 14 ==> #[trigger] row[c] == 0
}

/// In the field, `d + d · d · x` vanishes where `d` does or `x` inverts it.
proof fn lemma_inverse(d: u128, x: u128)
    ensures
        d ^ gf::gf128_mul(d, gf::gf128_mul(d, x)) == 0 <==> (d == 0 || gf::gf128_mul(d, x) == 1),
        d == 0 ==> gf::gf128_mul(d, x) == 0,
{
    let t = gf::gf128_mul(d, x);
    int_laws::lemma_mul_boolean(d, x);
    int_laws::lemma_mul_boolean(d, t);
    int_laws::lemma_xor(d, gf::gf128_mul(d, t));
    if d != 0 && gf::gf128_mul(d, t) == d {
        // d · (1 + t) = 0
        <u128 as Ring>::distributes(d, 1, t);
        <u128 as Ring>::units(d);
        int_laws::lemma_xor(d, d);
        laws::law_no_zero_divisors::<u128>(d, 1u128 ^ t);
        int_laws::lemma_xor(1, t);
    }
}

proof fn lemma_access(row: Seq<u128>, next: Seq<u128>)
    requires
        is_row(row),
        is_row(next),
        row[16] <= 1,
        row[18] <= 1,
        row[19] <= 1,
        next[16] <= 1,
    ensures
        int_laws::all_zero(air::access_roots(row_pair(row, next))) <==> access_ok(row, next),
{
    let env = row_pair(row, next);
    lemma_virtual(row);
    lemma_virtual(next);
    let roots = air::access_roots(env);
    assert(env.cur[64] == row[2] && env.cur[65] == row[3] && env.cur[66] == row[4] && env.cur[67] == row[5]);
    assert(env.next[64] == next[2] && env.next[65] == next[3] && env.next[66] == next[4] && env.next[67] == next[5]);
    assert(env.cur[72] == row[10] && env.cur[73] == row[11] && env.cur[74] == row[12] && env.cur[75] == row[13]);
    assert(env.next[72] == next[10] && env.next[73] == next[11] && env.next[74] == next[12] && env.next[75] == next[13]);
    assert(row[2] < 256 && row[3] < 256 && row[4] < 256 && row[5] < 256);
    assert(next[2] < 256 && next[3] < 256 && next[4] < 256 && next[5] < 256);
    assert(row[10] < 256 && row[11] < 256 && row[12] < 256 && row[13] < 256);
    assert(next[10] < 256 && next[11] < 256 && next[12] < 256 && next[13] < 256);
    lemma_difference(env, 64);
    lemma_difference(env, 72);
    assert(cell_number(env.cur, 64) == cell_number(row, 2));
    assert(cell_number(env.next, 64) == cell_number(next, 2));
    let d = air::byte_difference(env, 64);
    let v = air::byte_difference(env, 72);
    let t = gf::gf128_mul(d, row[15]);
    assert(env.cur[77] == row[15] && env.cur[80] == row[18] && env.cur[81] == row[19] && env.cur[78]
        == row[16] && env.next[78] == next[16]);
    let step = row[18];
    let read = 1 ^ next[16];
    int_laws::lemma_xor(1, next[16]);
    int_laws::lemma_xor(1, row[16]);
    int_laws::lemma_xor(cell_number(next, 2) as u128, cell_number(row, 2) as u128);
    lemma_inverse(d, row[15]);
    lemma_mul01(step, d ^ gf::gf128_mul(d, t));
    let fresh = gf::gf128_mul(t, read);
    let first_read = gf::gf128_mul(row[19], 1 ^ row[16]);
    lemma_mul01(row[19], 1 ^ row[16]);
    let kept = gf::gf128_mul(gf::gf128_mul(1 ^ t, read), v);
    lemma_mul01(step, kept);
    lemma_mul01(step, gf::gf128_mul(fresh, next[10]));
    lemma_mul01(step, gf::gf128_mul(fresh, next[11]));
    lemma_mul01(step, gf::gf128_mul(fresh, next[12]));
    lemma_mul01(step, gf::gf128_mul(fresh, next[13]));
    lemma_mul01(first_read, row[10]);
    lemma_mul01(first_read, row[11]);
    lemma_mul01(first_read, row[12]);
    lemma_mul01(first_read, row[13]);
    lemma_mul01(read, t);
    lemma_mul01(read, 1 ^ t);
    int_laws::lemma_xor(1, t);
    assert(roots[0] == gf::gf128_mul(step, d ^ gf::gf128_mul(d, t)));
    assert(roots[1] == gf::gf128_mul(step, kept));
    assert(roots[2] == gf::gf128_mul(step, gf::gf128_mul(fresh, next[10])));
    assert(roots[3] == gf::gf128_mul(step, gf::gf128_mul(fresh, next[11])));
    assert(roots[4] == gf::gf128_mul(step, gf::gf128_mul(fresh, next[12])));
    assert(roots[5] == gf::gf128_mul(step, gf::gf128_mul(fresh, next[13])));
    assert(roots[6] == gf::gf128_mul(first_read, row[10]));
    assert(roots[7] == gf::gf128_mul(first_read, row[11]));
    assert(roots[8] == gf::gf128_mul(first_read, row[12]));
    assert(roots[9] == gf::gf128_mul(first_read, row[13]));
    let same = cell_number(next, 2) == cell_number(row, 2);
    if t <= 1 {
        lemma_mul01(fresh, next[10]);
        lemma_mul01(fresh, next[11]);
        lemma_mul01(fresh, next[12]);
        lemma_mul01(fresh, next[13]);
        lemma_mul01(gf::gf128_mul(1 ^ t, read), v);
    }
    if access_ok(row, next) {
        if step == 1 && next[16] == 0 {
            assert(next[10] == (if same {
                row[10]
            } else {
                0
            }) && next[11] == (if same {
                row[11]
            } else {
                0
            }) && next[12] == (if same {
                row[12]
            } else {
                0
            }) && next[13] == (if same {
                row[13]
            } else {
                0
            }));
        }
        if row[19] == 1 && row[16] == 0 {
            assert(row[10] == 0 && row[11] == 0 && row[12] == 0 && row[13] == 0);
        }
        assert forall|i: int| 0 <= i < roots.len() implies #[trigger] roots[i] == 0 by {
            assert(i == 0 || i == 1 || i == 2 || i == 3 || i == 4 || i == 5 || i == 6 || i == 7 || i
                == 8 || i == 9);
        }
    }
}

// ---------------------------------------------------------------
// A row and the next
// ---------------------------------------------------------------

/// The flags of a row: booleans, exactly one of step and last, and no
/// write without an event.
pub open spec fn flags_ok(row: Seq<u128>) -> bool {
    &&& row[16] <= 1
    &&& row[17] <= 1
    &&& row[18] <= 1
    &&& row[19] <= 1
    &&& row[20] == 1 - row[18]
    &&& row[17] == 0 ==> row[16] == 0
}

/// What the constraints of a row and the next ask.
spec fn pair_ok(row: Seq<u128>, next: Seq<u128>) -> bool {
    let env = row_pair(row, next);
    &&& flags_ok(row)
    &&& !(row[20] == 1 && next[20] == 1)
    &&& access_ok(row, next)
    &&& constraint::xor_all(constraint::cells(env.cur, 0, 8)) == 1
    &&& forall|i: int| 0 <= i < 8 ==> #[trigger] key_ok(env, i)
    &&& row[18] == 1 && next[17] == 1 ==> {
        &&& constraint::xor_all(constraint::cells(env.cur, 8, 8)) == 1
        &&& forall|i: int| 0 <= i < 8 ==> #[trigger] bit_ok(env, i)
    }
    &&& value_ok(row)
}

proof fn lemma_pair(row: Seq<u128>, next: Seq<u128>)
    requires
        is_row(row),
        is_row(next),
        next[16] <= 1,
        next[17] <= 1,
        next[20] <= 1,
    ensures
        int_laws::all_zero(air::ram_roots(row_pair(row, next))) <==> pair_ok(row, next),
{
    let env = row_pair(row, next);
    lemma_virtual(row);
    lemma_virtual(next);
    let (p1, p2, p3, p4, p5, p6, p7) = (
        air::flag_roots(env),
        air::access_roots(env),
        air::mark_roots(env, 8),
        air::key_roots(env, 8),
        air::order_roots(env),
        air::value_roots(env),
        air::frame_roots(env),
    );
    int_laws::lemma_all_zero_append(p1 + p2 + p3 + p4 + p5 + p6, p7);
    int_laws::lemma_all_zero_append(p1 + p2 + p3 + p4 + p5, p6);
    int_laws::lemma_all_zero_append(p1 + p2 + p3 + p4, p5);
    int_laws::lemma_all_zero_append(p1 + p2 + p3, p4);
    int_laws::lemma_all_zero_append(p1 + p2, p3);
    int_laws::lemma_all_zero_append(p1, p2);
    let (w, sel, step, first, last) = (row[16], row[17], row[18], row[19], row[20]);
    assert(env.cur[78] == w && env.cur[79] == sel && env.cur[80] == step && env.cur[81] == first
        && env.cur[82] == last);
    assert(env.next[78] == next[16] && env.next[79] == next[17] && env.next[82] == next[20]);
    int_laws::law_boolean_residue(sel);
    int_laws::law_boolean_residue(step);
    int_laws::law_boolean_residue(first);
    int_laws::law_boolean_residue(w);
    int_laws::law_boolean_residue(last);
    assert(p1[0] == constraint::boolean_residue(sel) && p1[1] == constraint::boolean_residue(step)
        && p1[2] == constraint::boolean_residue(first) && p1[3] == constraint::boolean_residue(w));
    if int_laws::all_zero(p1) {
        assert(p1[0] == 0 && p1[1] == 0 && p1[2] == 0 && p1[3] == 0);
    }
    if w <= 1 && sel <= 1 && step <= 1 && first <= 1 {
        assert(int_laws::all_zero(p1)) by {
            assert forall|i: int| 0 <= i < p1.len() implies #[trigger] p1[i] == 0 by {
                assert(i == 0 || i == 1 || i == 2 || i == 3);
            }
        }
        lemma_access(row, next);
        lemma_marks(env, 8);
        lemma_keys(env, 8);
        lemma_order(env);
        lemma_values(row, env);
        int_laws::lemma_xor(1, sel);
        lemma_mul01(1 ^ sel, w);
        int_laws::lemma_xor(step, last);
        int_laws::lemma_xor(step ^ last, 1);
        assert(p7[0] == gf::gf128_mul(1 ^ sel, w) && p7[1] == constraint::boolean_residue(last)
            && p7[2] == (step ^ last) ^ 1 && p7[3] == gf::gf128_mul(last, next[20]));
        if last <= 1 {
            lemma_mul01(last, next[20]);
        }
        if int_laws::all_zero(p7) {
            assert(p7[0] == 0 && p7[1] == 0 && p7[2] == 0 && p7[3] == 0);
        }
        if flags_ok(row) && !(last == 1 && next[20] == 1) {
            assert forall|i: int| 0 <= i < p7.len() implies #[trigger] p7[i] == 0 by {
                assert(i == 0 || i == 1 || i == 2 || i == 3);
            }
        }
    }
}

/// What the constraints prove of a row and the next: the flags are flags,
/// the value cells agree, the access rules hold, and where the next row
/// holds an event, its key is greater.
pub proof fn law_rows_sound(row: Seq<u128>, next: Seq<u128>)
    requires
        is_row(row),
        is_row(next),
        next[16] <= 1,
        next[17] <= 1,
        next[20] <= 1,
        int_laws::all_zero(air::ram_roots(row_pair(row, next))),
    ensures
        flags_ok(row),
        value_ok(row),
        access_ok(row, next),
        row[18] == 1 && next[17] == 1 ==> row_key(row) < row_key(next),
{
    lemma_pair(row, next);
    let env = row_pair(row, next);
    lemma_virtual(row);
    lemma_virtual(next);
    if row[18] == 1 && next[17] == 1 {
        let marks = constraint::cells(env.cur, 0, 8);
        assert forall|i: int| 0 <= i < 8 implies #[trigger] marks[i] <= 1 by {
            assert(env.cur[0 + i] <= 1);
        }
        let i = lemma_some_one(marks);
        assert(marks[i] == env.cur[0 + i]);
        assert(key_ok(env, i));
        let bit_marks = constraint::cells(env.cur, 8, 8);
        assert forall|k: int| 0 <= k < 8 implies #[trigger] bit_marks[k] <= 1 by {
            assert(env.cur[8 + k] <= 1);
        }
        let k = lemma_some_one(bit_marks);
        assert(bit_marks[k] == env.cur[8 + k]);
        assert(bit_ok(env, k));
        let (a, b) = (constraint::cells(env.cur, 16, 8), constraint::cells(env.cur, 24, 8));
        lemma_helper_cells(env.cur);
        assert forall|j: int| k < j < a.len() implies #[trigger] a[j] == b[j] by {
            assert(env.cur[16 + j] == env.cur[24 + j]);
        }
        lemma_bits_greater(a, b, k, 8);
        assert(a.take(8) =~= a && b.take(8) =~= b);
        int_laws::law_weighted(a);
        int_laws::law_weighted(b);
        assert(env.cur[air::key_column(i)] == row[air::key_column(i) - 62]);
        assert(env.next[air::key_column(i)] == next[air::key_column(i) - 62]);
        assert forall|h: int| 0 <= h < i implies #[trigger] row[air::key_column(h) - 62]
            == next[air::key_column(h) - 62] by {
            assert(env.next[air::key_column(h)] == env.cur[air::key_column(h)]);
        }
        lemma_key_less(row, next, i);
    }
}

/// The constraints make the first `n` of each helper list bits.
proof fn lemma_marks_boolean(env: Env, n: nat)
    requires
        int_laws::all_zero(air::mark_roots(env, n)),
        n <= 8,
    ensures
        constraint::xor_all(constraint::cells(env.cur, 0, 8)) == 1,
        forall|i: int|
            0 <= i < n ==> (#[trigger] env.cur[i]) <= 1 && env.cur[8 + i] <= 1 && env.cur[16 + i]
                <= 1 && env.cur[24 + i] <= 1,
    decreases n,
{
    if n == 0 {
        let x = constraint::xor_all(constraint::cells(env.cur, 0, 8));
        assert(air::mark_roots(env, 0)[0] == x ^ 1);
        int_laws::lemma_xor(x, 1);
    } else {
        let i = n - 1;
        let step = seq![
            constraint::boolean_residue(env.cur[8 + i]),
            constraint::boolean_residue(env.cur[16 + i]),
            constraint::boolean_residue(env.cur[24 + i]),
            constraint::boolean_residue(env.cur[i]),
        ];
        int_laws::lemma_all_zero_append(air::mark_roots(env, i as nat), step);
        lemma_marks_boolean(env, i as nat);
        assert(step[0] == 0 && step[1] == 0 && step[2] == 0 && step[3] == 0);
        int_laws::law_boolean_residue(env.cur[8 + i]);
        int_laws::law_boolean_residue(env.cur[16 + i]);
        int_laws::law_boolean_residue(env.cur[24 + i]);
        int_laws::law_boolean_residue(env.cur[i]);
    }
}

/// Key byte `i` is the first in which two rows differ, and there the next row
/// has the greater one.
pub open spec fn ascends_at(env: Env, i: int) -> bool {
    &&& forall|h: int|
        0 <= h < i ==> env.next[#[trigger] air::key_column(h)] == env.cur[air::key_column(h)]
    &&& env.cur[air::key_column(i)] < env.next[air::key_column(i)] < 256
}

/// Whatever cells two rows hold that meet the constraints: where the next row
/// holds an event, the bytes of its address and clock, most significant first,
/// are greater in lexicographic order.
pub proof fn law_keys_ascend(env: Env)
    requires
        int_laws::all_zero(air::ram_roots(env)),
        env.cur[80] == 1,
        env.next[79] == 1,
    ensures
        exists|i: int| 0 <= i < 8 && #[trigger] ascends_at(env, i),
{
    let (p1, p2, p3, p4, p5, p6, p7) = (
        air::flag_roots(env),
        air::access_roots(env),
        air::mark_roots(env, 8),
        air::key_roots(env, 8),
        air::order_roots(env),
        air::value_roots(env),
        air::frame_roots(env),
    );
    int_laws::lemma_all_zero_append(p1 + p2 + p3 + p4 + p5 + p6, p7);
    int_laws::lemma_all_zero_append(p1 + p2 + p3 + p4 + p5, p6);
    int_laws::lemma_all_zero_append(p1 + p2 + p3 + p4, p5);
    int_laws::lemma_all_zero_append(p1 + p2 + p3, p4);
    int_laws::lemma_all_zero_append(p1 + p2, p3);
    lemma_marks_boolean(env, 8);
    assert(helper_bits(env.cur)) by {
        let vs = constraint::cells(env.cur, 32, 32);
        let q = constraint::boolean_residues(vs);
        let rest = seq![env.cur[76] ^ constraint::weighted(vs)];
        int_laws::lemma_all_zero_append(q + air::byte_binding_roots(env.cur, 4), rest);
        int_laws::lemma_all_zero_append(q, air::byte_binding_roots(env.cur, 4));
        assert forall|j: int| 0 <= j < 64 implies #[trigger] env.cur[j] <= 1 by {
            if j < 8 {
            } else if j < 16 {
                assert(env.cur[j - 8] <= 1);
            } else if j < 24 {
                assert(env.cur[j - 16] <= 1);
            } else if j < 32 {
                assert(env.cur[j - 24] <= 1);
            } else {
                assert(q[j - 32] == 0);
                assert(vs[j - 32] == env.cur[j]);
                int_laws::law_boolean_residue(env.cur[j]);
            }
        }
    }
    lemma_keys(env, 8);
    lemma_order(env);
    let marks = constraint::cells(env.cur, 0, 8);
    assert forall|i: int| 0 <= i < 8 implies #[trigger] marks[i] <= 1 by {
        assert(env.cur[0 + i] <= 1);
    }
    let i = lemma_some_one(marks);
    assert(marks[i] == env.cur[0 + i]);
    assert(key_ok(env, i));
    let bit_marks = constraint::cells(env.cur, 8, 8);
    assert forall|k: int| 0 <= k < 8 implies #[trigger] bit_marks[k] <= 1 by {
        assert(env.cur[8 + k] <= 1);
    }
    let k = lemma_some_one(bit_marks);
    assert(bit_marks[k] == env.cur[8 + k]);
    assert(bit_ok(env, k));
    let (a, b) = (constraint::cells(env.cur, 16, 8), constraint::cells(env.cur, 24, 8));
    lemma_helper_cells(env.cur);
    assert forall|j: int| k < j < a.len() implies #[trigger] a[j] == b[j] by {
        assert(env.cur[16 + j] == env.cur[24 + j]);
    }
    lemma_bits_greater(a, b, k, 8);
    assert(a.take(8) =~= a && b.take(8) =~= b);
    int_laws::law_weighted(a);
    int_laws::law_weighted(b);
    int_laws::lemma_bits_bound(a);
    lemma2_to64();
    assert(ascends_at(env, i));
}

proof fn lemma_helper_cells(cur: Seq<u128>)
    requires
        helper_bits(cur),
    ensures
        int_laws::boolean(constraint::cells(cur, 16, 8)),
        int_laws::boolean(constraint::cells(cur, 24, 8)),
{
    let (a, b) = (constraint::cells(cur, 16, 8), constraint::cells(cur, 24, 8));
    assert forall|j: int| 0 <= j < 8 implies #[trigger] a[j] <= 1 by {
        assert(cur[16 + j] <= 1);
    }
    assert forall|j: int| 0 <= j < 8 implies #[trigger] b[j] <= 1 by {
        assert(cur[24 + j] <= 1);
    }
}

// ---------------------------------------------------------------
// Tables
// ---------------------------------------------------------------

/// The data cells of a row hold an event.
pub open spec fn holds_event(row: Seq<u128>, e: MemoryEvent) -> bool {
    &&& is_row(row)
    &&& forall|c: int| 2 <= c < 14 ==> #[trigger] row[c] == table::data_cell(e, c)
    &&& row[16] == table::flag(e.is_write)
    &&& row[17] == 1
}

proof fn lemma_event_cells(row: Seq<u128>, e: MemoryEvent)
    requires
        row.len() == 21,
        forall|c: int| 2 <= c < 14 ==> #[trigger] row[c] == table::data_cell(e, c),
    ensures
        cell_number(row, 2) == e.addr,
        cell_number(row, 6) == e.clk,
        cell_number(row, 10) == e.val,
        row_key(row) == e.key(),
        forall|c: int| 2 <= c < 14 ==> #[trigger] row[c] < 256,
{
    lemma_le4(e.addr);
    lemma_le4(e.clk);
    lemma_le4(e.val);
    assert(row[2] == table::data_cell(e, 2) && row[3] == table::data_cell(e, 3) && row[4]
        == table::data_cell(e, 4) && row[5] == table::data_cell(e, 5));
    assert(row[6] == table::data_cell(e, 6) && row[7] == table::data_cell(e, 7) && row[8]
        == table::data_cell(e, 8) && row[9] == table::data_cell(e, 9));
    assert(row[10] == table::data_cell(e, 10) && row[11] == table::data_cell(e, 11) && row[12]
        == table::data_cell(e, 12) && row[13] == table::data_cell(e, 13));
}

/// Four byte cells write zero exactly where all are zero.
proof fn lemma_zero_cells(row: Seq<u128>, start: int)
    ensures
        cell_number(row, start) == 0 <==> row[start] == 0 && row[start + 1] == 0 && row[start + 2]
            == 0 && row[start + 3] == 0,
{
}

/// Row `r` and the row after it, `after` following the last.
pub open spec fn step_from(rows: Seq<Seq<u128>>, after: Seq<u128>, r: int) -> Env {
    row_pair(
        rows[r],
        if r + 1 < rows.len() {
            rows[r + 1]
        } else {
            after
        },
    )
}

/// A table of events that meets the constraints is memory: the events are
/// in strict order of address and time, and the values are consistent.
/// `after` is the row that follows the last event.
pub proof fn law_table_sound(rows: Seq<Seq<u128>>, events: Seq<MemoryEvent>, after: Seq<u128>)
    requires
        rows.len() == events.len(),
        rows.len() > 0,
        forall|r: int| 0 <= r < rows.len() ==> holds_event(#[trigger] rows[r], events[r]),
        forall|r: int| 0 <= r < rows.len() - 1 ==> (#[trigger] rows[r])[18] == 1,
        rows[0][19] == 1,
        is_row(after),
        after[16] <= 1,
        after[17] <= 1,
        after[20] <= 1,
        forall|r: int|
            0 <= r < rows.len() ==> int_laws::all_zero(
                air::ram_roots(#[trigger] step_from(rows, after, r)),
            ),
        forall|r: int| 0 <= r < rows.len() ==> (#[trigger] rows[r])[20] <= 1,
    ensures
        event::strictly_ascending(events),
        comparator::consistent(events),
{
    let n = rows.len();
    assert forall|r: int| 0 <= r < n - 1 implies (#[trigger] events[r]).key() < events[r + 1].key()
        && comparator::follows(events, r) by {
        let (row, next) = (rows[r], rows[r + 1]);
        assert(holds_event(row, events[r]) && holds_event(next, events[r + 1]));
        assert(int_laws::all_zero(air::ram_roots(step_from(rows, after, r))));
        law_rows_sound(row, next);
        lemma_event_cells(row, events[r]);
        lemma_event_cells(next, events[r + 1]);
        if !events[r + 1].is_write {
            lemma_zero_cells(next, 10);
            assert(next[10] == (if events[r].addr == events[r + 1].addr {
                row[10]
            } else {
                0
            }));
            assert(next[11] == (if events[r].addr == events[r + 1].addr {
                row[11]
            } else {
                0
            }));
            assert(next[12] == (if events[r].addr == events[r + 1].addr {
                row[12]
            } else {
                0
            }));
            assert(next[13] == (if events[r].addr == events[r + 1].addr {
                row[13]
            } else {
                0
            }));
        }
    }
    lemma_ascending(events, n as int);
    assert(events.take(n as int) =~= events);
    let (row, next) = (
        rows[0],
        if 1 < n {
            rows[1]
        } else {
            after
        },
    );
    assert(holds_event(rows[0], events[0]));
    if 1 < n {
        assert(holds_event(rows[1], events[1]));
        assert(rows[1][20] <= 1);
    }
    assert(int_laws::all_zero(air::ram_roots(step_from(rows, after, 0))));
    law_rows_sound(row, next);
    lemma_event_cells(row, events[0]);
    if !events[0].is_write {
        assert(row[10] == 0 && row[11] == 0 && row[12] == 0 && row[13] == 0);
        lemma_zero_cells(row, 10);
    }
}

/// Rising from each event to the next is rising throughout.
proof fn lemma_ascending(events: Seq<MemoryEvent>, n: int)
    requires
        0 <= n <= events.len(),
        forall|r: int|
            0 <= r < events.len() - 1 ==> (#[trigger] events[r]).key() < events[r + 1].key(),
    ensures
        event::strictly_ascending(events.take(n)),
    decreases n,
{
    if n > 0 {
        lemma_ascending(events, n - 1);
        let (s, t) = (events.take(n), events.take(n - 1));
        assert forall|i: int, j: int| 0 <= i < j < s.len() implies (#[trigger] s[i]).key() < (
        #[trigger] s[j]).key() by {
            if j == n - 1 {
                assert(events[n - 2].key() < events[n - 1].key());
                if i < n - 2 {
                    assert(t[i].key() < t[n - 2].key());
                }
            } else {
                assert(t[i].key() < t[j].key());
            }
        }
    }
}

// ---------------------------------------------------------------
// Generated tables
// ---------------------------------------------------------------

proof fn lemma_bit_of_power(i: nat, j: nat)
    ensures
        bits::bit(pow2(i), j) == if i == j {
            1nat
        } else {
            0nat
        },
{
    lemma2_to64();
    lemma_pow2_pos(i);
    lemma_pow2_pos(j);
    if i < j {
        lemma_pow2_strictly_increases(i, j);
        lemma_basic_div(pow2(i) as int, pow2(j) as int);
    } else {
        let d = (i - j) as nat;
        lemma_pow2_adds(d, j);
        lemma_div_multiples_vanish(pow2(d) as int, pow2(j) as int);
        lemma_mul_is_commutative(pow2(d) as int, pow2(j) as int);
        if d > 0 {
            lemma_pow2_adds(1, (d - 1) as nat);
            lemma_mod_multiples_basic(pow2((d - 1) as nat) as int, 2);
            lemma_mul_is_commutative(2, pow2((d - 1) as nat) as int);
        }
    }
}

/// The bits of the packed sorting helpers.
proof fn lemma_pack_bits(i: nat, k: nat, a: u8, b: u8)
    requires
        i < 8,
        k < 8,
    ensures
        ({
            let word = table::packed_sort(i, k, a, b);
            &&& word <= u32::MAX
            &&& forall|j: nat|
                j < 8 ==> #[trigger] bits::bit(word, j) == if j == i {
                    1nat
                } else {
                    0nat
                }
            &&& forall|j: nat|
                8 <= j < 16 ==> #[trigger] bits::bit(word, j) == if j == k + 8 {
                    1nat
                } else {
                    0nat
                }
            &&& forall|j: nat|
                16 <= j < 24 ==> #[trigger] bits::bit(word, j) == bits::bit(
                    a as nat,
                    (j - 16) as nat,
                )
            &&& forall|j: nat|
                24 <= j < 32 ==> #[trigger] bits::bit(word, j) == bits::bit(
                    b as nat,
                    (j - 24) as nat,
                )
        }),
{
    lemma2_to64();
    if i < 7 {
        lemma_pow2_strictly_increases(i, 7);
    }
    if k < 7 {
        lemma_pow2_strictly_increases(k, 7);
    }
    let word = table::packed_sort(i, k, a, b);
    let w1 = pow2(k) + 0x100 * a as nat + 0x1_0000 * b as nat;
    let w2 = a as nat + 0x100 * b as nat;
    assert(word == pow2(i) + w1 * 256);
    assert(word / 0x100 == w1);
    assert(word / 0x1_0000 == w2);
    assert(word / 0x100_0000 == b);
    assert forall|j: nat| j < 8 implies #[trigger] bits::bit(word, j) == if j == i {
        1nat
    } else {
        0nat
    } by {
        int_laws::lemma_bit_of_sum(pow2(i), w1, j, 8);
        lemma_bit_of_power(i, j);
    }
    assert forall|j: nat| 8 <= j < 16 implies #[trigger] bits::bit(word, j) == if j == k + 8 {
        1nat
    } else {
        0nat
    } by {
        lemma_bit_shift(word, 8, (j - 8) as nat);
        int_laws::lemma_bit_of_sum(pow2(k), w2, (j - 8) as nat, 8);
        lemma_bit_of_power(k, (j - 8) as nat);
    }
    assert forall|j: nat| 16 <= j < 24 implies #[trigger] bits::bit(word, j) == bits::bit(
        a as nat,
        (j - 16) as nat,
    ) by {
        lemma_bit_shift(word, 16, (j - 16) as nat);
        int_laws::lemma_bit_of_sum(a as nat, b as nat, (j - 16) as nat, 8);
    }
    assert forall|j: nat| 24 <= j < 32 implies #[trigger] bits::bit(word, j) == bits::bit(
        b as nat,
        (j - 24) as nat,
    ) by {
        lemma_bit_shift(word, 24, (j - 24) as nat);
    }
}

/// What packed sorting helpers mean to the constraints of a row.
proof fn lemma_helpers(row: Seq<u128>, next: Seq<u128>, i: nat, k: nat, a: u8, b: u8)
    requires
        row.len() == 21,
        i < 8,
        k < 8,
        row[0] == table::packed_sort(i, k, a, b),
    ensures
        ({
            let env = row_pair(row, next);
            &&& row[0] <= u32::MAX
            &&& constraint::xor_all(constraint::cells(env.cur, 0, 8)) == 1
            &&& constraint::xor_all(constraint::cells(env.cur, 8, 8)) == 1
            &&& forall|j: int|
                0 <= j < 8 ==> (#[trigger] env.cur[j] == 1 <==> j == i)
            &&& forall|j: int| 0 <= j < 8 ==> (#[trigger] env.cur[8 + j] == 1 <==> j == k)
            &&& forall|j: int|
                0 <= j < 8 ==> #[trigger] env.cur[16 + j] == bits::bit(a as nat, j as nat)
            &&& forall|j: int|
                0 <= j < 8 ==> #[trigger] env.cur[24 + j] == bits::bit(b as nat, j as nat)
            &&& constraint::weighted(constraint::cells(env.cur, 16, 8)) == a
            &&& constraint::weighted(constraint::cells(env.cur, 24, 8)) == b
        }),
{
    let env = row_pair(row, next);
    lemma_virtual(row);
    lemma_pack_bits(i, k, a, b);
    lemma2_to64();
    let word = row[0] as nat;
    let m = constraint::cells(env.cur, 0, 8);
    assert forall|j: int| 0 <= j < 8 implies #[trigger] m[j] == (if j == i as int {
        1u128
    } else {
        0u128
    }) by {
        assert(m[j] == env.cur[0 + j]);
        assert(bits::bit(word, j as nat) == if j as nat == i {
            1nat
        } else {
            0nat
        });
    }
    lemma_one_hot(m, i as int, 8);
    assert(m.take(8) =~= m);
    assert forall|j: int| 0 <= j < 8 implies (#[trigger] env.cur[j] == 1 <==> j == i) by {
        assert(m[j] == env.cur[0 + j]);
    }
    let d = constraint::cells(env.cur, 8, 8);
    assert forall|j: int| 0 <= j < 8 implies #[trigger] d[j] == (if j == k as int {
        1u128
    } else {
        0u128
    }) by {
        assert(d[j] == env.cur[8 + j]);
        assert(bits::bit(word, (8 + j) as nat) == if (8 + j) as nat == k + 8 {
            1nat
        } else {
            0nat
        });
    }
    lemma_one_hot(d, k as int, 8);
    assert(d.take(8) =~= d);
    assert forall|j: int| 0 <= j < 8 implies (#[trigger] env.cur[8 + j] == 1 <==> j == k) by {
        assert(d[j] == env.cur[8 + j]);
    }
    let (va, vb) = (constraint::cells(env.cur, 16, 8), constraint::cells(env.cur, 24, 8));
    assert forall|j: int| 0 <= j < 8 implies #[trigger] env.cur[16 + j] == bits::bit(
        a as nat,
        j as nat,
    ) by {
        assert(bits::bit(word, (16 + j) as nat) == bits::bit(a as nat, j as nat));
    }
    assert forall|j: int| 0 <= j < 8 implies #[trigger] env.cur[24 + j] == bits::bit(
        b as nat,
        j as nat,
    ) by {
        assert(bits::bit(word, (24 + j) as nat) == bits::bit(b as nat, j as nat));
    }
    assert forall|j: int| 0 <= j < 8 implies va[j] == int_laws::bits_of(a as nat, 8)[j] by {
        assert(va[j] == env.cur[16 + j]);
    }
    assert forall|j: int| 0 <= j < 8 implies vb[j] == int_laws::bits_of(b as nat, 8)[j] by {
        assert(vb[j] == env.cur[24 + j]);
    }
    assert(va =~= int_laws::bits_of(a as nat, 8));
    assert(vb =~= int_laws::bits_of(b as nat, 8));
    int_laws::lemma_bits_of(a as nat, 8);
    int_laws::lemma_bits_of(b as nat, 8);
    int_laws::law_weighted(va);
    int_laws::law_weighted(vb);
}

/// Of two different bytes, the greater has the higher of the bits in which
/// they differ.
proof fn lemma_top_bit(a: u8, b: u8, k: nat)
    requires
        a > b,
        table::is_top_difference(a, b, k),
    ensures
        bits::bit(a as nat, k) == 1,
        bits::bit(b as nat, k) == 0,
{
    lemma2_to64();
    bits::lemma_mod_pow2_step(a as nat, k);
    bits::lemma_mod_pow2_step(b as nat, k);
    if bits::bit(a as nat, k) == 0 {
        let (va, vb) = (int_laws::bits_of(a as nat, 8), int_laws::bits_of(b as nat, 8));
        int_laws::lemma_bits_of(a as nat, 8);
        int_laws::lemma_bits_of(b as nat, 8);
        assert forall|j: int| k < j < 8 implies #[trigger] vb[j] == va[j] by {
            assert(bits::bit(a as nat, j as nat) == bits::bit(b as nat, j as nat));
        }
        lemma_bits_greater(vb, va, k as int, 8);
        assert(va.take(8) =~= va && vb.take(8) =~= vb);
    }
}

/// The key cells of an event's row are the bytes of its key.
proof fn lemma_key_cells(row: Seq<u128>, e: MemoryEvent, i: int)
    requires
        row.len() == 21,
        forall|c: int| 2 <= c < 14 ==> #[trigger] row[c] == table::data_cell(e, c),
        0 <= i < 8,
    ensures
        row[air::key_column(i) - 62] == table::key_bytes(e)[i],
{
    let c = air::key_column(i) - 62;
    assert(row[c] == table::data_cell(e, c));
}

/// The bytes of a number written by four bytes.
proof fn lemma_byte_at(x: nat, b0: u8, b1: u8, b2: u8, b3: u8)
    requires
        x == b0 + 0x100 * b1 + 0x1_0000 * b2 + 0x100_0000 * b3,
    ensures
        byte_at(x, 0) == b0,
        byte_at(x, 1) == b1,
        byte_at(x, 2) == b2,
        byte_at(x, 3) == b3,
{
    lemma2_to64();
    assert(x / 1 == x);
    assert(x / 0x100 == b1 + 0x100 * b2 + 0x1_0000 * b3);
    assert(x / 0x1_0000 == b2 + 0x100 * b3);
    assert(x / 0x100_0000 == b3);
}

/// A row of a generated table.
proof fn lemma_table_row(
    row: Seq<u128>,
    events: Seq<MemoryEvent>,
    num_rows: nat,
    r: int,
) -> (w: (nat, nat, u8, u8))
    requires
        table::is_table_row(row, events, num_rows, r),
        event::strictly_ascending(events),
        0 <= r < num_rows,
        events.len() <= num_rows,
    ensures
        w.0 < 8,
        w.1 < 8,
        row[0] == table::packed_sort(w.0, w.1, w.2, w.3),
        is_row(row),
        value_ok(row),
        flags_ok(row),
        r + 1 < events.len() ==> {
            let (x, y) = (table::key_bytes(events[r]), table::key_bytes(events[r + 1]));
            &&& table::is_first_difference(x, y, w.0 as int)
            &&& table::is_top_difference(y[w.0 as int], x[w.0 as int], w.1)
            &&& w.2 == y[w.0 as int]
            &&& w.3 == x[w.0 as int]
        },
        r + 1 >= events.len() ==> w == (0nat, 0nat, 0u8, 0u8),
        r >= events.len() ==> forall|c: int| 1 <= c < 15 ==> #[trigger] row[c] == 0,
{
    lemma2_to64();
    let w = if r + 1 < events.len() {
        let (x, y) = (table::key_bytes(events[r]), table::key_bytes(events[r + 1]));
        let (i, k) = choose|i: int, k: nat| #[trigger] table::compares_at(row[0], x, y, i, k);
        assert(table::compares_at(row[0], x, y, i, k));
        (i as nat, k, y[i], x[i])
    } else {
        (0nat, 0nat, 0u8, 0u8)
    };
    lemma_pack_bits(w.0, w.1, w.2, w.3);
    if r < events.len() {
        let e = events[r];
        lemma_le4(e.val);
        lemma_event_cells(row, e);
        assert(row[1] == table::data_cell(e, 1) && row[14] == table::data_cell(e, 14));
        let b = bytes::le_bytes(e.val as nat, 4);
        assert forall|c: int| 10 <= c < 14 implies #[trigger] row[c] == byte_at(
            row[1] as nat,
            (c - 10) as nat,
        ) by {
            assert(row[c] == table::data_cell(e, c));
            lemma_byte_at(e.val as nat, b[0], b[1], b[2], b[3]);
            assert(c == 10 || c == 11 || c == 12 || c == 13);
        }
    } else {
        assert(row[1] == 0 && row[14] == 0);
        assert forall|c: int| 10 <= c < 14 implies #[trigger] row[c] == byte_at(
            row[1] as nat,
            (c - 10) as nat,
        ) by {
            lemma_pow2_pos(8 * (c - 10) as nat);
        }
    }
    w
}

/// Which generated tables meet the constraints: the last event, which is
/// compared with nothing, has a zero in the top byte of its address, and
/// where padding follows it, it is not a nonzero value at address zero.
pub open spec fn last_event_ok(events: Seq<MemoryEvent>, num_rows: nat) -> bool {
    events.len() > 0 ==> {
        &&& events.last().addr < 0x100_0000
        &&& events.len() < num_rows ==> events.last().addr != 0 || events.last().val == 0
    }
}

/// The row after `r`, the first following the last.
pub open spec fn next_row(num_rows: nat, r: int) -> int {
    if r + 1 < num_rows {
        r + 1
    } else {
        0
    }
}

/// A generated table of at least two rows meets the constraints, where its
/// last event does not stand in the way.
pub proof fn law_table_complete(
    rows: Seq<Seq<u128>>,
    events: Seq<MemoryEvent>,
    num_rows: nat,
    r: int,
)
    requires
        num_rows >= 2,
        rows.len() == num_rows,
        events.len() <= num_rows,
        event::strictly_ascending(events),
        comparator::consistent(events),
        last_event_ok(events, num_rows),
        forall|k: int|
            0 <= k < num_rows ==> table::is_table_row(#[trigger] rows[k], events, num_rows, k),
        0 <= r < num_rows,
    ensures
        int_laws::all_zero(air::ram_roots(row_pair(rows[r], rows[next_row(num_rows, r)]))),
{
    let q = next_row(num_rows, r);
    let (row, next) = (rows[r], rows[q]);
    assert(table::is_table_row(rows[r], events, num_rows, r));
    assert(table::is_table_row(rows[q], events, num_rows, q));
    let w = lemma_table_row(row, events, num_rows, r);
    let _v = lemma_table_row(next, events, num_rows, q);
    let (i, k, a, b) = (w.0, w.1, w.2, w.3);
    let env = row_pair(row, next);
    lemma_helpers(row, next, i, k, a, b);
    lemma_virtual(row);
    lemma_virtual(next);
    lemma_pair(row, next);
    if r < events.len() {
        lemma_event_cells(row, events[r]);
    }
    if q < events.len() {
        lemma_event_cells(next, events[q]);
    }
    if r >= events.len() {
        assert(row[2] == 0 && row[3] == 0 && row[4] == 0 && row[5] == 0 && row[10] == 0 && row[11]
            == 0 && row[12] == 0 && row[13] == 0);
        assert(cell_number(row, 2) == 0 && cell_number(row, 10) == 0);
    }
    if q >= events.len() {
        assert(next[2] == 0 && next[3] == 0 && next[4] == 0 && next[5] == 0 && next[10] == 0
            && next[11] == 0 && next[12] == 0 && next[13] == 0);
        assert(cell_number(next, 2) == 0 && cell_number(next, 10) == 0);
    }
    lemma_table_access(row, next, events, num_rows, r);
    assert forall|j: int| 0 <= j < 8 implies #[trigger] key_ok(env, j) by {
        if env.cur[j] == 1 {
            assert(j == i);
            if r + 1 < events.len() {
                lemma_key_cells(row, events[r], j);
                lemma_key_cells(next, events[r + 1], j);
                assert forall|h: int| 0 <= h < j implies env.next[#[trigger] air::key_column(h)]
                    == env.cur[air::key_column(h)] by {
                    lemma_key_cells(row, events[r], h);
                    lemma_key_cells(next, events[r + 1], h);
                    let (x, y) = (table::key_bytes(events[r]), table::key_bytes(events[r + 1]));
                    assert(x[h] == y[h]);
                }
            } else {
                // Compared with nothing: the top address byte is zero.
                assert(j == 0);
                assert(env.cur[67] == row[5]);
                assert(env.next[67] == next[5]);
                if r < events.len() {
                    assert(events[r] == events.last());
                    assert(row[5] == table::data_cell(events[r], 5));
                    lemma_le4(events[r].addr);
                }
            }
        }
    }
    if row[18] == 1 && next[17] == 1 {
        assert(r + 1 < events.len());
        let (x, y) = (table::key_bytes(events[r]), table::key_bytes(events[r + 1]));
        assert(events[r].key() < events[r + 1].key());
        assert forall|h: int| 0 <= h < i implies #[trigger] next[air::key_column(h) - 62]
            == row[air::key_column(h) - 62] by {
            lemma_key_cells(row, events[r], h);
            lemma_key_cells(next, events[r + 1], h);
            assert(x[h] == y[h]);
        }
        lemma_key_cells(row, events[r], i as int);
        lemma_key_cells(next, events[r + 1], i as int);
        if y[i as int] < x[i as int] {
            lemma_key_less(next, row, i as int);
        }
        lemma_top_bit(a, b, k);
        assert forall|j: int| 0 <= j < 8 implies #[trigger] bit_ok(env, j) by {
            if env.cur[8 + j] == 1 {
                assert(j == k);
                assert(env.cur[16 + j] == bits::bit(a as nat, j as nat));
                assert(env.cur[24 + j] == bits::bit(b as nat, j as nat));
                assert forall|h: int| j < h < 8 implies #[trigger] env.cur[16 + h] == env.cur[24
                    + h] by {
                    assert(env.cur[24 + h] == bits::bit(b as nat, h as nat));
                    assert(bits::bit(a as nat, h as nat) == bits::bit(b as nat, h as nat));
                }
            }
        }
    }
}

/// The condition on the last event is needed: where a generated table does
/// not meet it, the row of the last event fails the constraints, since rows
/// that are compared with nothing hold the default sort word.
pub proof fn law_last_event_decides(
    rows: Seq<Seq<u128>>,
    events: Seq<MemoryEvent>,
    num_rows: nat,
)
    requires
        num_rows >= 2,
        rows.len() == num_rows,
        events.len() <= num_rows,
        event::strictly_ascending(events),
        !last_event_ok(events, num_rows),
        forall|k: int|
            0 <= k < num_rows ==> table::is_table_row(#[trigger] rows[k], events, num_rows, k),
    ensures
        ({
            let r = events.len() - 1;
            !int_laws::all_zero(air::ram_roots(row_pair(rows[r], rows[next_row(num_rows, r)])))
        }),
{
    let r = events.len() - 1;
    let q = next_row(num_rows, r);
    let (row, next) = (rows[r], rows[q]);
    let last = events.last();
    assert(table::is_table_row(rows[r], events, num_rows, r));
    assert(table::is_table_row(rows[q], events, num_rows, q));
    let w = lemma_table_row(row, events, num_rows, r);
    let _v = lemma_table_row(next, events, num_rows, q);
    let env = row_pair(row, next);
    lemma_helpers(row, next, 0, 0, 0, 0);
    lemma_virtual(row);
    lemma_pair(row, next);
    lemma_event_cells(row, last);
    if int_laws::all_zero(air::ram_roots(env)) {
        assert(key_ok(env, 0));
        assert(env.cur[0] == 1);
        assert(env.cur[67] == row[5]);
        lemma_le4(last.addr);
        assert(row[5] == table::data_cell(last, 5));
        assert(row[2] < 256 && row[3] < 256 && row[4] < 256);
        assert(last.addr < 0x100_0000);
        assert(q == events.len());
        assert(next[2] == 0 && next[3] == 0 && next[4] == 0 && next[5] == 0 && next[10] == 0
            && next[11] == 0 && next[12] == 0 && next[13] == 0);
        lemma_zero_cells(row, 10);
        assert(access_ok(row, next));
    }
}

/// The rows of a generated table follow the access rules.
proof fn lemma_table_access(
    row: Seq<u128>,
    next: Seq<u128>,
    events: Seq<MemoryEvent>,
    num_rows: nat,
    r: int,
)
    requires
        num_rows >= 2,
        events.len() <= num_rows,
        comparator::consistent(events),
        last_event_ok(events, num_rows),
        0 <= r < num_rows,
        table::is_table_row(row, events, num_rows, r),
        table::is_table_row(next, events, num_rows, next_row(num_rows, r)),
        r < events.len() ==> cell_number(row, 2) == events[r].addr && cell_number(row, 10)
            == events[r].val,
        r >= events.len() ==> cell_number(row, 2) == 0 && cell_number(row, 10) == 0,
        ({
            let q = next_row(num_rows, r);
            &&& q < events.len() ==> cell_number(next, 2) == events[q].addr && cell_number(next, 10)
                == events[q].val
            &&& q >= events.len() ==> cell_number(next, 2) == 0 && cell_number(next, 10) == 0
        }),
        forall|c: int| 2 <= c < 14 ==> #[trigger] row[c] < 256,
        forall|c: int| 2 <= c < 14 ==> #[trigger] next[c] < 256,
    ensures
        access_ok(row, next),
{
    let q = next_row(num_rows, r);
    let d = (cell_number(next, 2) as u128) ^ (cell_number(row, 2) as u128);
    int_laws::lemma_xor(cell_number(next, 2) as u128, cell_number(row, 2) as u128);
    assert(row[10] < 256 && row[11] < 256 && row[12] < 256 && row[13] < 256);
    assert(next[10] < 256 && next[11] < 256 && next[12] < 256 && next[13] < 256);
    if row[18] == 1 {
        if r < events.len() {
            lemma_addr_field(table::next_addr(events, num_rows, r));
            lemma_addr_field(events[r].addr);
            assert(table::next_addr(events, num_rows, r) == cell_number(next, 2));
        }
        if next[16] == 0 {
            if q < events.len() {
                assert(r + 1 < events.len());
                assert(comparator::follows(events, r));
            } else if r < events.len() {
                assert(events[r] == events.last());
            }
            lemma_zero_cells(next, 10);
            let same = cell_number(next, 2) == cell_number(row, 2);
            if same {
                assert(cell_number(next, 10) == cell_number(row, 10));
                assert(next[10] == row[10] && next[11] == row[11] && next[12] == row[12] && next[13]
                    == row[13]);
            } else {
                assert(cell_number(next, 10) == 0);
            }
            assert forall|c: int| 10 <= c < 14 implies #[trigger] next[c] == (if same {
                row[c]
            } else {
                0
            }) by {
                assert(c == 10 || c == 11 || c == 12 || c == 13);
            }
        }
    }
    if row[19] == 1 && row[16] == 0 {
        assert(r == 0 && events.len() > 0);
        lemma_zero_cells(row, 10);
        assert forall|c: int| 10 <= c < 14 implies #[trigger] row[c] == 0 by {
            assert(c == 10 || c == 11 || c == 12 || c == 13);
        }
    }
}

} // verus!
