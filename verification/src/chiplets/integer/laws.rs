//! What the arithmetic chiplet's constraints prove of a row, and that the
//! rows the trace generator writes meet them.

use vstd::arithmetic::div_mod::*;
use vstd::arithmetic::mul::*;
use vstd::arithmetic::power2::*;
use vstd::prelude::*;

use super::arith;
use super::arith::{ArithmeticOpcode, IntArithmeticLayout, IntArithmeticOp};
use super::words;
use crate::atoms::int_arith;
use crate::atoms::int_laws;
use crate::bits;
use crate::field::gf;
use crate::program::constraint;
use crate::program::expander;

verus! {

// ---------------------------------------------------------------
// Words and their bits
// ---------------------------------------------------------------

/// The carries of any addition witness are the carries of the words.
proof fn lemma_adds_carries(a: u64, b: u64, n: nat, z: Seq<u128>, w: Seq<u128>)
    requires
        z.len() == n,
        w.len() == n + 1,
        w[0] == 0,
        int_laws::adds(int_laws::bits_of(a as nat, n), int_laws::bits_of(b as nat, n), z, w),
    ensures
        forall|m: int| 0 <= m <= n ==> #[trigger] w[m] == words::carry_into(a, b, m as nat),
        z == int_laws::bits_of((a as nat % pow2(n) + b as nat % pow2(n)) % pow2(n), n),
{
    let x = int_laws::bits_of(a as nat, n);
    let y = int_laws::bits_of(b as nat, n);
    assert forall|m: int| 0 <= m <= n implies #[trigger] w[m] == words::carry_into(
        a,
        b,
        m as nat,
    ) && (a as nat % pow2(m as nat) + b as nat % pow2(m as nat)) % pow2(m as nat)
        == int_laws::bits_value(z.take(m)) by {
        int_laws::law_add_prefix(x, y, z, w, m);
        assert(x.take(m) =~= int_laws::bits_of(a as nat, m as nat));
        assert(y.take(m) =~= int_laws::bits_of(b as nat, m as nat));
        int_laws::lemma_bits_of(a as nat, m as nat);
        int_laws::lemma_bits_of(b as nat, m as nat);
        int_laws::lemma_bits_bound(z.take(m));
        lemma_pow2_pos(m as nat);
        lemma_mul_is_commutative(w[m] as int, pow2(m as nat) as int);
        lemma_fundamental_div_mod_converse(
            (a as nat % pow2(m as nat) + b as nat % pow2(m as nat)) as int,
            pow2(m as nat) as int,
            w[m] as int,
            int_laws::bits_value(z.take(m)) as int,
        );
    }
    assert(w[n as int] == words::carry_into(a, b, n));
    assert(z.take(n as int) =~= z);
    int_laws::lemma_bits_unique(z);
}

/// A sum with its carry word is an addition witness.
pub proof fn law_sum_is_witness(a: u64, b: u64, word: u64, n: nat)
    requires
        words::is_carry_word(a, b, word, n),
    ensures
        int_laws::adds(
            int_laws::bits_of(a as nat, n),
            int_laws::bits_of(b as nat, n),
            int_laws::bits_of((a as nat % pow2(n) + b as nat % pow2(n)) % pow2(n), n),
            words::carry_seq(word, n),
        ),
{
    int_laws::lemma_bits_of(a as nat, n);
    int_laws::lemma_bits_of(b as nat, n);
    let (z, w) = int_laws::law_add_complete(
        int_laws::bits_of(a as nat, n),
        int_laws::bits_of(b as nat, n),
    );
    lemma_adds_carries(a, b, n, z, w);
    assert forall|m: int| 0 <= m < w.len() implies w[m] == #[trigger] words::carry_seq(word, n)[m] by {
        if m > 0 {
            assert(bits::bit(word as nat, (m - 1) as nat) == words::carry_into(a, b, m as nat));
            assert(w[m] == words::carry_into(a, b, m as nat));
        }
    }
    assert(w =~= words::carry_seq(word, n));
}

/// The borrows of any subtraction witness are the borrows of the words.
proof fn lemma_subtracts_borrows(a: u64, b: u64, n: nat, z: Seq<u128>, w: Seq<u128>)
    requires
        z.len() == n,
        w.len() == n + 1,
        int_laws::subtracts(int_laws::bits_of(a as nat, n), int_laws::bits_of(b as nat, n), z, w),
    ensures
        forall|m: int| 0 <= m <= n ==> #[trigger] w[m] == words::borrow_into(a, b, m as nat),
        z == int_laws::bits_of(words::difference(a, b, n), n),
{
    let x = int_laws::bits_of(a as nat, n);
    let y = int_laws::bits_of(b as nat, n);
    assert forall|m: int| 0 <= m <= n implies #[trigger] w[m] == words::borrow_into(
        a,
        b,
        m as nat,
    ) by {
        let (xm, ym, zm, wm) = (x.take(m), y.take(m), z.take(m), w.take(m + 1));
        assert(xm =~= int_laws::bits_of(a as nat, m as nat));
        assert(ym =~= int_laws::bits_of(b as nat, m as nat));
        int_laws::lemma_bits_of(a as nat, m as nat);
        int_laws::lemma_bits_of(b as nat, m as nat);
        assert forall|i: int| 0 <= i < m implies (#[trigger] zm[i]) + ym[i] + wm[i] == xm[i] + 2
            * wm[i + 1] by {
            assert(z[i] + y[i] + w[i] == x[i] + 2 * w[i + 1]);
        }
        int_laws::law_sub_value(xm, ym, zm, wm);
        assert(wm[m] == w[m] && w[m] <= 1);
    }
    int_laws::lemma_bits_of(a as nat, n);
    int_laws::lemma_bits_of(b as nat, n);
    int_laws::law_sub_value(x, y, z, w);
    int_laws::lemma_bits_bound(z);
    lemma_pow2_pos(n);
    let p = pow2(n) as int;
    assert(w[n as int] == words::borrow_into(a, b, n));
    lemma_mul_basics(p);
    lemma_mod_bound(b as int, p);
    lemma_fundamental_div_mod_converse(
        a as nat as int % p + p - b as nat as int % p,
        p,
        1 - w[n as int],
        int_laws::bits_value(z) as int,
    );
    int_laws::lemma_bits_unique(z);
}

/// A difference with its borrow word is a subtraction witness.
pub proof fn law_difference_is_witness(a: u64, b: u64, word: u64, n: nat)
    requires
        words::is_borrow_word(a, b, word, n),
    ensures
        int_laws::subtracts(
            int_laws::bits_of(a as nat, n),
            int_laws::bits_of(b as nat, n),
            int_laws::bits_of(words::difference(a, b, n), n),
            words::carry_seq(word, n),
        ),
{
    int_laws::lemma_bits_of(a as nat, n);
    int_laws::lemma_bits_of(b as nat, n);
    let (z, w) = int_laws::law_sub_complete(
        int_laws::bits_of(a as nat, n),
        int_laws::bits_of(b as nat, n),
    );
    lemma_subtracts_borrows(a, b, n, z, w);
    assert forall|m: int| 0 <= m < w.len() implies w[m] == #[trigger] words::carry_seq(word, n)[m] by {
        if m > 0 {
            assert(bits::bit(word as nat, (m - 1) as nat) == words::borrow_into(a, b, m as nat));
            assert(w[m] == words::borrow_into(a, b, m as nat));
        } else {
            assert(w[0] == words::borrow_into(a, b, 0));
        }
    }
    assert(w =~= words::carry_seq(word, n));
}

// ---------------------------------------------------------------
// Rows
// ---------------------------------------------------------------

/// The virtual row of a committed row.
pub open spec fn virtual_row(row: Seq<u128>, n: nat) -> Seq<u128> {
    expander::expanded(arith::virtual_columns(n), row)
}

/// A committed row: thirteen elements, the words below `2^n`.
pub open spec fn is_row(row: Seq<u128>, n: nat) -> bool {
    &&& row.len() == 13
    &&& forall|j: int| 0 <= j < 4 ==> #[trigger] row[j] < pow2(n)
}

/// What the constraints of a row ask, gadget by gadget.
spec fn meaning(row: Seq<u128>, n: nat) -> bool {
    let s = constraint::cells(row, 6, 7);
    let a = int_laws::bits_of(row[0] as nat, n);
    let b = int_laws::bits_of(row[1] as nat, n);
    let r = int_laws::bits_of(row[2] as nat, n);
    let c = seq![0u128] + int_laws::bits_of(row[3] as nat, n);
    &&& int_laws::boolean(s)
    &&& int_laws::exclusive(s.skip(1))
    &&& s[0] == s[1] + s[2] + s[3] + s[4] + s[5] + s[6]
    &&& row[4] == s[2] + 2 * s[3] + 3 * s[4] + 4 * s[5] + 5 * s[6]
    &&& s[1] == 1 ==> int_laws::adds(a, b, r, c)
    &&& s[2] == 1 ==> int_laws::subtracts(a, b, r, c)
    &&& s[3] == 1 ==> forall|k: int| 0 <= k < n ==> #[trigger] r[k] == a[k] * b[k]
    &&& s[4] == 1 ==> forall|k: int| 0 <= k < n ==> #[trigger] r[k] == a[k] ^ b[k]
    &&& s[5] == 1 ==> forall|k: int| 0 <= k < n ==> #[trigger] r[k] == a[k] ^ 1
    &&& s[6] == 1 ==> {
        &&& int_laws::all_zero(arith::borrow_roots(a, b, c, n))
        &&& r[0] == c[n as int]
        &&& forall|k: int| 1 <= k < n ==> #[trigger] r[k] == 0
    }
    &&& s[0] == 0 ==> row[5] == 0
    &&& s[1] == 0 && s[2] == 0 && s[6] == 0 ==> row[3] == 0
}

/// Where the bits and the cells of a committed row stand.
pub proof fn lemma_virtual(ly: IntArithmeticLayout, row: Seq<u128>)
    requires
        ly.wf(),
        row.len() == 13,
    ensures
        ({
            let n = ly.bit_width as nat;
            let cur = virtual_row(row, n);
            &&& constraint::cells(cur, ly.a_bits as int, n) == int_laws::bits_of(row[0] as nat, n)
            &&& constraint::cells(cur, ly.b_bits as int, n) == int_laws::bits_of(row[1] as nat, n)
            &&& constraint::cells(cur, ly.res_bits as int, n) == int_laws::bits_of(
                row[2] as nat,
                n,
            )
            &&& constraint::cells(cur, ly.carry_bits as int, n) == int_laws::bits_of(
                row[3] as nat,
                n,
            )
            &&& constraint::cells(cur, ly.s_output as int, 7) == constraint::cells(row, 6, 7)
            &&& forall|c: int| 0 <= c < 13 ==> #[trigger] cur[ly.val_a + c] == row[c]
        }),
{
    let n = ly.bit_width as nat;
    let cur = virtual_row(row, n);
    assert forall|j: int, k: int| 0 <= j < 4 && 0 <= k < n implies #[trigger] cur[j * n + k]
        == int_laws::bits_of(row[j] as nat, n)[k] by {
        let i = j * n + k;
        lemma_fundamental_div_mod_converse(i, n as int, j, k);
        assert(0 <= i < 4 * n) by (nonlinear_arith)
            requires
                i == j * n + k,
                0 <= j < 4,
                0 <= k < n,
        ;
        assert(arith::virtual_columns(n)[i] == expander::bit_columns(0, n, 4 * n)[i]);
    }
    lemma_mul_basics(n as int);
    assert(constraint::cells(cur, ly.a_bits as int, n) =~= int_laws::bits_of(row[0] as nat, n)) by {
        assert forall|k: int| 0 <= k < n implies #[trigger] cur[0 + k] == int_laws::bits_of(
            row[0] as nat,
            n,
        )[k] by {
            assert(cur[0 * n + k] == int_laws::bits_of(row[0] as nat, n)[k]);
        }
    }
    assert(constraint::cells(cur, ly.b_bits as int, n) =~= int_laws::bits_of(row[1] as nat, n)) by {
        assert forall|k: int| 0 <= k < n implies #[trigger] cur[n + k] == int_laws::bits_of(
            row[1] as nat,
            n,
        )[k] by {
            assert(cur[1 * n + k] == int_laws::bits_of(row[1] as nat, n)[k]);
        }
    }
    assert(constraint::cells(cur, ly.res_bits as int, n) =~= int_laws::bits_of(row[2] as nat, n))
        by {
        assert forall|k: int| 0 <= k < n implies #[trigger] cur[2 * n + k] == int_laws::bits_of(
            row[2] as nat,
            n,
        )[k] by {
            assert(cur[2 * n + k] == int_laws::bits_of(row[2] as nat, n)[k]);
        }
    }
    assert(constraint::cells(cur, ly.carry_bits as int, n) =~= int_laws::bits_of(row[3] as nat, n))
        by {
        assert forall|k: int| 0 <= k < n implies #[trigger] cur[3 * n + k] == int_laws::bits_of(
            row[3] as nat,
            n,
        )[k] by {
            assert(cur[3 * n + k] == int_laws::bits_of(row[3] as nat, n)[k]);
        }
    }
    assert forall|c: int| 0 <= c < 13 implies #[trigger] cur[ly.val_a + c] == row[c] by {
        assert(arith::virtual_columns(n)[4 * n + c] == expander::whole_columns(0, 13)[c]);
    }
    assert(constraint::cells(cur, ly.s_output as int, 7) =~= constraint::cells(row, 6, 7)) by {
        assert forall|k: int| 0 <= k < 7 implies #[trigger] cur[ly.s_output + k] == row[6 + k] by {
            assert(cur[ly.val_a + (6 + k)] == row[6 + k]);
        }
    }
}

/// The selector constraints say what `meaning` says of the selectors.
proof fn lemma_selectors(s: Seq<u128>, opcode: u128)
    requires
        s.len() == 7,
    ensures
        int_laws::all_zero(arith::selector_roots(s, opcode)) <==> {
            &&& int_laws::boolean(s)
            &&& int_laws::exclusive(s.skip(1))
            &&& s[0] == s[1] + s[2] + s[3] + s[4] + s[5] + s[6]
            &&& opcode == s[2] + 2 * s[3] + 3 * s[4] + 4 * s[5] + 5 * s[6]
        },
{
    let p1 = constraint::boolean_residues(s);
    let o = s.skip(1);
    let p2 = constraint::pair_products(o, 6);
    let p3 = seq![
        (((((s[1] ^ s[2]) ^ s[3]) ^ s[4]) ^ s[5]) ^ s[6]) ^ s[0],
        ((((opcode ^ s[2]) ^ gf::gf128_mul(2, s[3])) ^ gf::gf128_mul(3, s[4])) ^ gf::gf128_mul(
            4,
            s[5],
        )) ^ gf::gf128_mul(5, s[6]),
    ];
    int_laws::lemma_all_zero_append(p1 + p2, p3);
    int_laws::lemma_all_zero_append(p1, p2);
    int_laws::law_booleans(s);
    if int_laws::boolean(s) {
        assert forall|i: int| 0 <= i < o.len() implies #[trigger] o[i] <= 1 by {
            assert(s[i + 1] <= 1);
        }
        int_laws::law_exclusive(o);
        if int_laws::exclusive(o) {
            assert(o[0] == s[1] && o[1] == s[2] && o[2] == s[3] && o[3] == s[4] && o[4] == s[5]
                && o[5] == s[6]);
            assert(s[0] <= 1 && s[1] <= 1 && s[2] <= 1 && s[3] <= 1 && s[4] <= 1 && s[5] <= 1
                && s[6] <= 1);
            int_laws::lemma_mul_boolean(2, s[3]);
            int_laws::lemma_mul_boolean(3, s[4]);
            int_laws::lemma_mul_boolean(4, s[5]);
            int_laws::lemma_mul_boolean(5, s[6]);
            let (t3, t4, t5, t6) = (
                gf::gf128_mul(2, s[3]),
                gf::gf128_mul(3, s[4]),
                gf::gf128_mul(4, s[5]),
                gf::gf128_mul(5, s[6]),
            );
            int_laws::lemma_xor(s[1], s[2]);
            int_laws::lemma_xor(s[1] ^ s[2], s[3]);
            int_laws::lemma_xor((s[1] ^ s[2]) ^ s[3], s[4]);
            int_laws::lemma_xor(((s[1] ^ s[2]) ^ s[3]) ^ s[4], s[5]);
            int_laws::lemma_xor((((s[1] ^ s[2]) ^ s[3]) ^ s[4]) ^ s[5], s[6]);
            int_laws::lemma_xor(((((s[1] ^ s[2]) ^ s[3]) ^ s[4]) ^ s[5]) ^ s[6], s[0]);
            int_laws::lemma_xor(opcode, s[2]);
            int_laws::lemma_xor(opcode ^ s[2], t3);
            int_laws::lemma_xor((opcode ^ s[2]) ^ t3, t4);
            int_laws::lemma_xor(((opcode ^ s[2]) ^ t3) ^ t4, t5);
            int_laws::lemma_xor((((opcode ^ s[2]) ^ t3) ^ t4) ^ t5, t6);
            if int_laws::all_zero(p3) {
                assert(p3[0] == 0 && p3[1] == 0);
            }
        }
    }
}

/// The bitwise constraints say what `meaning` says of AND, XOR and NOT.
proof fn lemma_bitwise(s: Seq<u128>, a: Seq<u128>, b: Seq<u128>, r: Seq<u128>, n: nat)
    requires
        s.len() == 7,
        int_laws::boolean(s),
        n <= a.len(),
        b.len() == a.len(),
        r.len() == a.len(),
        int_laws::boolean(a),
        int_laws::boolean(b),
    ensures
        int_laws::all_zero(arith::bitwise_roots(s, a, b, r, n)) <==> {
            &&& s[3] == 1 ==> forall|k: int| 0 <= k < n ==> #[trigger] r[k] == a[k] * b[k]
            &&& s[4] == 1 ==> forall|k: int| 0 <= k < n ==> #[trigger] r[k] == a[k] ^ b[k]
            &&& s[5] == 1 ==> forall|k: int| 0 <= k < n ==> #[trigger] r[k] == a[k] ^ 1
        },
    decreases n,
{
    if n > 0 {
        let k = n - 1;
        lemma_bitwise(s, a, b, r, k as nat);
        let ab = gf::gf128_mul(a[k], b[k]);
        let step = seq![
            gf::gf128_mul(s[3], r[k] ^ ab),
            gf::gf128_mul(s[4], (r[k] ^ a[k]) ^ b[k]),
            gf::gf128_mul(s[5], (r[k] ^ a[k]) ^ 1),
        ];
        int_laws::lemma_all_zero_append(arith::bitwise_roots(s, a, b, r, k as nat), step);
        assert(s[3] <= 1 && s[4] <= 1 && s[5] <= 1 && a[k] <= 1 && b[k] <= 1);
        int_laws::lemma_mul_boolean(a[k], b[k]);
        int_laws::lemma_mul_boolean(s[3], r[k] ^ ab);
        int_laws::lemma_mul_boolean(s[4], (r[k] ^ a[k]) ^ b[k]);
        int_laws::lemma_mul_boolean(s[5], (r[k] ^ a[k]) ^ 1);
        int_laws::lemma_xor(r[k], ab);
        lemma_xor_moves(r[k], a[k], b[k]);
        lemma_xor_moves(r[k], a[k], 1);
        if int_laws::all_zero(step) {
            assert(step[0] == 0 && step[1] == 0 && step[2] == 0);
        }
    }
}

proof fn lemma_xor_moves(r: u128, a: u128, b: u128)
    ensures
        (r ^ a) ^ b == 0 <==> r == a ^ b,
{
    assert((r ^ a) ^ b == 0 <==> r == a ^ b) by (bit_vector);
}

/// A gated list vanishes where the selector is off or the list vanishes.
proof fn lemma_gate(s: u128, vs: Seq<u128>)
    requires
        s <= 1,
    ensures
        int_laws::all_zero(int_arith::gated(s, vs)) <==> (s == 1 ==> int_laws::all_zero(vs)),
{
    int_laws::law_gate_closed(vs);
    int_laws::law_gate_open(vs);
}

proof fn lemma_meaning(ly: IntArithmeticLayout, row: Seq<u128>)
    requires
        ly.wf(),
        is_row(row, ly.bit_width as nat),
    ensures
        int_laws::all_zero(arith::arith_roots(ly, virtual_row(row, ly.bit_width as nat)))
            <==> meaning(row, ly.bit_width as nat),
{
    let n = ly.bit_width as nat;
    let cur = virtual_row(row, n);
    lemma_virtual(ly, row);
    let s = constraint::cells(row, 6, 7);
    let a = int_laws::bits_of(row[0] as nat, n);
    let b = int_laws::bits_of(row[1] as nat, n);
    let r = int_laws::bits_of(row[2] as nat, n);
    let w = int_laws::bits_of(row[3] as nat, n);
    let c = seq![0u128] + w;
    assert(cur[ly.val_a + 0] == row[0]);
    assert(cur[ly.val_a + 1] == row[1]);
    assert(cur[ly.val_a + 2] == row[2]);
    assert(cur[ly.val_a + 3] == row[3]);
    assert(cur[ly.val_a + 4] == row[4]);
    assert(cur[ly.val_a + 5] == row[5]);
    let p1 = arith::selector_roots(s, row[4]);
    let p2 = seq![
        row[0] ^ int_arith::packed(a, n),
        row[1] ^ int_arith::packed(b, n),
        row[2] ^ int_arith::packed(r, n),
        row[3] ^ int_arith::packed(w, n),
    ];
    let p3 = int_arith::gated(s[1], int_arith::add_steps(a, b, r, c, n));
    let p4 = int_arith::gated(s[2], int_arith::sub_chain(a, b, r, c));
    let p5 = arith::bitwise_roots(s, a, b, r, n);
    let p6 = int_arith::gated(s[6], arith::borrow_roots(a, b, c, n));
    let p7 = seq![gf::gf128_mul(s[6], r[0] ^ w[n - 1])];
    let p8 = int_arith::gated(s[6], r.skip(1));
    let unused = ((1 ^ s[1]) ^ s[2]) ^ s[6];
    let p9 = seq![gf::gf128_mul(1 ^ s[0], row[5]), gf::gf128_mul(unused, row[3])];
    assert(arith::arith_roots(ly, cur) == p1 + p2 + p3 + p4 + p5 + p6 + p7 + p8 + p9);
    int_laws::lemma_all_zero_append(p1 + p2 + p3 + p4 + p5 + p6 + p7 + p8, p9);
    int_laws::lemma_all_zero_append(p1 + p2 + p3 + p4 + p5 + p6 + p7, p8);
    int_laws::lemma_all_zero_append(p1 + p2 + p3 + p4 + p5 + p6, p7);
    int_laws::lemma_all_zero_append(p1 + p2 + p3 + p4 + p5, p6);
    int_laws::lemma_all_zero_append(p1 + p2 + p3 + p4, p5);
    int_laws::lemma_all_zero_append(p1 + p2 + p3, p4);
    int_laws::lemma_all_zero_append(p1 + p2, p3);
    int_laws::lemma_all_zero_append(p1, p2);
    lemma_selectors(s, row[4]);
    // The words are the numbers their bits write.
    int_laws::lemma_bits_of(row[0] as nat, n);
    int_laws::lemma_bits_of(row[1] as nat, n);
    int_laws::lemma_bits_of(row[2] as nat, n);
    int_laws::lemma_bits_of(row[3] as nat, n);
    assert(row[0] < pow2(n) && row[1] < pow2(n) && row[2] < pow2(n) && row[3] < pow2(n));
    lemma_small_mod(row[0] as nat, pow2(n));
    lemma_small_mod(row[1] as nat, pow2(n));
    lemma_small_mod(row[2] as nat, pow2(n));
    lemma_small_mod(row[3] as nat, pow2(n));
    int_laws::law_bit_packing(row[0], a);
    int_laws::law_bit_packing(row[1], b);
    int_laws::law_bit_packing(row[2], r);
    int_laws::law_bit_packing(row[3], w);
    assert(int_laws::all_zero(p2));
    if int_laws::boolean(s) && int_laws::exclusive(s.skip(1)) {
        assert(s[0] <= 1 && s[1] <= 1 && s[2] <= 1 && s[3] <= 1 && s[4] <= 1 && s[5] <= 1 && s[6]
            <= 1);
        let o = s.skip(1);
        assert(o[0] == s[1] && o[1] == s[2] && o[5] == s[6]);
        lemma_gate(s[1], int_arith::add_steps(a, b, r, c, n));
        int_laws::law_add_steps(a, b, r, c);
        lemma_gate(s[2], int_arith::sub_chain(a, b, r, c));
        int_laws::law_sub_chain(a, b, r, c);
        lemma_bitwise(s, a, b, r, n);
        lemma_gate(s[6], arith::borrow_roots(a, b, c, n));
        int_laws::lemma_mul_boolean(s[6], r[0] ^ w[n - 1]);
        int_laws::lemma_xor(r[0], w[n - 1]);
        assert(c[n as int] == w[n - 1]);
        if int_laws::all_zero(p7) {
            assert(p7[0] == 0);
        }
        lemma_gate(s[6], r.skip(1));
        assert(int_laws::all_zero(r.skip(1)) <==> forall|k: int| 1 <= k < n ==> #[trigger] r[k]
            == 0) by {
            if int_laws::all_zero(r.skip(1)) {
                assert forall|k: int| 1 <= k < n implies #[trigger] r[k] == 0 by {
                    assert(r.skip(1)[k - 1] == 0);
                }
            }
        }
        int_laws::lemma_xor(1, s[0]);
        int_laws::lemma_xor(1, s[1]);
        int_laws::lemma_xor(1 ^ s[1], s[2]);
        int_laws::lemma_xor((1 ^ s[1]) ^ s[2], s[6]);
        int_laws::lemma_mul_boolean(1 ^ s[0], row[5]);
        int_laws::lemma_mul_boolean(unused, row[3]);
        if int_laws::all_zero(p9) {
            assert(p9[0] == 0 && p9[1] == 0);
        }
    }
}

// ---------------------------------------------------------------
// Bitwise operations
// ---------------------------------------------------------------

/// The bits of the word operations.
pub proof fn lemma_word_bits(a: u64, b: u64, k: nat)
    requires
        k < 64,
    ensures
        bits::bit((a & b) as nat, k) == bits::bit(a as nat, k) * bits::bit(b as nat, k),
        bits::bit((a ^ b) as nat, k) as u128 == (bits::bit(a as nat, k) as u128) ^ (bits::bit(
            b as nat,
            k,
        ) as u128),
        bits::bit((!a) as nat, k) as u128 == (bits::bit(a as nat, k) as u128) ^ 1,
{
    bits::lemma_bit_u64(a, k);
    bits::lemma_bit_u64(b, k);
    bits::lemma_bit_u64(a & b, k);
    bits::lemma_bit_u64(a ^ b, k);
    bits::lemma_bit_u64(!a, k);
    let u = k as u64;
    let (x, y) = ((a >> u) & 1, (b >> u) & 1);
    let (p, q, r) = (((a & b) >> u) & 1, ((a ^ b) >> u) & 1, ((!a) >> u) & 1);
    assert(x <= 1 && y <= 1 && p == (if x == 1 && y == 1 {
        1u64
    } else {
        0u64
    }) && q == (if x == y {
        0u64
    } else {
        1u64
    }) && r == (if x == 1 {
        0u64
    } else {
        1u64
    })) by (bit_vector)
        requires
            x == (a >> u) & 1,
            y == (b >> u) & 1,
            p == ((a & b) >> u) & 1,
            q == ((a ^ b) >> u) & 1,
            r == ((!a) >> u) & 1,
            u < 64,
    ;
    int_laws::lemma_xor(x as u128, y as u128);
    int_laws::lemma_xor(x as u128, 1);
    lemma_mul_basics(x as int);
    lemma_mul_basics(y as int);
}

/// The low bits of a residue are those of the number.
pub proof fn lemma_mod_bits(x: nat, n: nat)
    ensures
        int_laws::bits_of(x % pow2(n), n) == int_laws::bits_of(x, n),
{
    int_laws::lemma_bits_of(x, n);
    int_laws::lemma_bits_unique(int_laws::bits_of(x, n));
}

/// The bits that the bitwise gadgets ask for are those of the word
/// operations, modulo `2^n`.
proof fn lemma_bitwise_result(row: Seq<u128>, n: nat)
    requires
        arith::is_width(n),
        is_row(row, n),
    ensures
        ({
            let a = int_laws::bits_of(row[0] as nat, n);
            let b = int_laws::bits_of(row[1] as nat, n);
            let r = int_laws::bits_of(row[2] as nat, n);
            let (x, y) = (row[0] as u64, row[1] as u64);
            &&& (forall|k: int| 0 <= k < n ==> #[trigger] r[k] == a[k] * b[k]) <==> row[2]
                == arith::op_result(ArithmeticOpcode::AND, x, y, n)
            &&& (forall|k: int| 0 <= k < n ==> #[trigger] r[k] == a[k] ^ b[k]) <==> row[2]
                == arith::op_result(ArithmeticOpcode::XOR, x, y, n)
            &&& (forall|k: int| 0 <= k < n ==> #[trigger] r[k] == a[k] ^ 1) <==> row[2]
                == arith::op_result(ArithmeticOpcode::NOT, x, y, n)
        }),
{
    let a = int_laws::bits_of(row[0] as nat, n);
    let b = int_laws::bits_of(row[1] as nat, n);
    let r = int_laws::bits_of(row[2] as nat, n);
    lemma_row_words(row, n);
    let (x, y) = (row[0] as u64, row[1] as u64);
    let (pa, px, pn) = (
        int_laws::bits_of((x & y) as nat, n),
        int_laws::bits_of((x ^ y) as nat, n),
        int_laws::bits_of((!x) as nat, n),
    );
    assert forall|k: int| 0 <= k < n implies #[trigger] a[k] * b[k] == pa[k] && a[k] ^ b[k] == px[k]
        && a[k] ^ 1 == pn[k] by {
        lemma_word_bits(x, y, k as nat);
        bits::lemma_mod_pow2_step(x as nat, k as nat);
        bits::lemma_mod_pow2_step(y as nat, k as nat);
        let (p, q) = (bits::bit(x as nat, k as nat), bits::bit(y as nat, k as nat));
        lemma_mul_basics(p as int);
        lemma_mul_basics(q as int);
    }
    lemma_mod_bits((x & y) as nat, n);
    lemma_mod_bits((x ^ y) as nat, n);
    lemma_mod_bits((!x) as nat, n);
    int_laws::lemma_bits_of(row[2] as nat, n);
    int_laws::lemma_bits_of((x & y) as nat, n);
    int_laws::lemma_bits_of((x ^ y) as nat, n);
    int_laws::lemma_bits_of((!x) as nat, n);
    lemma_small_mod(row[2] as nat, pow2(n));
    assert((forall|k: int| 0 <= k < n ==> #[trigger] r[k] == a[k] * b[k]) <==> r =~= pa) by {
        if r =~= pa {
            assert forall|k: int| 0 <= k < n implies #[trigger] r[k] == a[k] * b[k] by {
                assert(a[k] * b[k] == pa[k]);
            }
        }
        if forall|k: int| 0 <= k < n ==> #[trigger] r[k] == a[k] * b[k] {
            assert forall|k: int| 0 <= k < n implies r[k] == pa[k] by {
                assert(a[k] * b[k] == pa[k]);
            }
        }
    }
    assert((forall|k: int| 0 <= k < n ==> #[trigger] r[k] == a[k] ^ b[k]) <==> r =~= px) by {
        if r =~= px {
            assert forall|k: int| 0 <= k < n implies #[trigger] r[k] == a[k] ^ b[k] by {
                assert(a[k] * b[k] == pa[k]);
            }
        }
        if forall|k: int| 0 <= k < n ==> #[trigger] r[k] == a[k] ^ b[k] {
            assert forall|k: int| 0 <= k < n implies r[k] == px[k] by {
                assert(a[k] * b[k] == pa[k]);
            }
        }
    }
    assert((forall|k: int| 0 <= k < n ==> #[trigger] r[k] == a[k] ^ 1) <==> r =~= pn) by {
        if r =~= pn {
            assert forall|k: int| 0 <= k < n implies #[trigger] r[k] == a[k] ^ 1 by {
                assert(a[k] * b[k] == pa[k]);
            }
        }
        if forall|k: int| 0 <= k < n ==> #[trigger] r[k] == a[k] ^ 1 {
            assert forall|k: int| 0 <= k < n implies r[k] == pn[k] by {
                assert(a[k] * b[k] == pa[k]);
            }
        }
    }
}

/// The words of a row fit a machine word.
proof fn lemma_row_words(row: Seq<u128>, n: nat)
    requires
        arith::is_width(n),
        is_row(row, n),
    ensures
        forall|j: int| 0 <= j < 4 ==> #[trigger] row[j] <= u64::MAX,
        pow2(n) <= u64::MAX + 1,
        pow2(n) > 1,
{
    lemma2_to64();
}

/// The borrows that the comparison gadget asks for are those of the words.
proof fn lemma_less(row: Seq<u128>, n: nat)
    requires
        arith::is_width(n),
        is_row(row, n),
    ensures
        int_laws::all_zero(
            arith::borrow_roots(
                int_laws::bits_of(row[0] as nat, n),
                int_laws::bits_of(row[1] as nat, n),
                seq![0u128] + int_laws::bits_of(row[3] as nat, n),
                n,
            ),
        ) <==> words::is_borrow_word(row[0] as u64, row[1] as u64, row[3] as u64, n),
{
    lemma_row_words(row, n);
    let (x, y, z) = (row[0] as u64, row[1] as u64, row[3] as u64);
    let a = int_laws::bits_of(row[0] as nat, n);
    let b = int_laws::bits_of(row[1] as nat, n);
    let c = seq![0u128] + int_laws::bits_of(row[3] as nat, n);
    assert(c == words::carry_seq(z, n));
    let roots = arith::borrow_roots(a, b, c, n);
    int_laws::lemma_bits_of(row[0] as nat, n);
    int_laws::lemma_bits_of(row[1] as nat, n);
    int_laws::lemma_bits_of(row[3] as nat, n);
    if int_laws::all_zero(roots) {
        // The difference bits complete the borrows to a subtraction witness.
        let r = Seq::new(n, |k: int| (a[k] ^ b[k]) ^ c[k]);
        let steps = int_arith::sub_chain(a, b, r, c);
        assert(int_laws::boolean(c)) by {
            assert forall|i: int| 0 <= i < c.len() implies #[trigger] c[i] <= 1 by {
                if i > 0 {
                    assert(int_laws::bits_of(row[3] as nat, n)[i - 1] <= 1);
                }
            }
        }
        assert forall|k: int| 0 <= k < n implies (#[trigger] r[k]) + b[k] + c[k] == a[k] + 2 * c[k
            + 1] && r[k] <= 1 by {
            assert(roots[k] == 0);
            assert(a[k] <= 1 && b[k] <= 1 && c[k] <= 1 && c[k + 1] <= 1);
            int_laws::lemma_xor(a[k], b[k]);
            int_laws::lemma_xor(a[k] ^ b[k], c[k]);
            lemma_xor_thrice(a[k], b[k], c[k]);
            int_laws::lemma_sub_bit(a[k], b[k], c[k], r[k], c[k + 1]);
        }
        lemma_subtracts_borrows(x, y, n, r, c);
        assert forall|k: nat| k < n implies #[trigger] bits::bit(z as nat, k) == words::borrow_into(
            x,
            y,
            k + 1,
        ) by {
            assert(c[(k + 1) as int] == words::borrow_into(x, y, k + 1));
        }
    }
    if words::is_borrow_word(x, y, z, n) {
        law_difference_is_witness(x, y, z, n);
        let r = int_laws::bits_of(words::difference(x, y, n), n);
        assert forall|k: int| 0 <= k < n implies #[trigger] roots[k] == 0 by {
            assert(r[k] + b[k] + c[k] == a[k] + 2 * c[k + 1]);
            assert(a[k] <= 1 && b[k] <= 1 && c[k] <= 1 && c[k + 1] <= 1 && r[k] <= 1);
            int_laws::lemma_sub_bit(a[k], b[k], c[k], r[k], c[k + 1]);
        }
    }
}

proof fn lemma_xor_thrice(a: u128, b: u128, c: u128)
    ensures
        (((((a ^ b) ^ c) ^ a) ^ b) ^ c) == 0,
{
    assert((((((a ^ b) ^ c) ^ a) ^ b) ^ c) == 0) by (bit_vector);
}

// ---------------------------------------------------------------
// Laws
// ---------------------------------------------------------------

/// A row that meets every constraint is either a correct operation or idle.
/// Where the output selector is set, the opcode names an operation, the
/// result is that operation's result on the two operands, and the carries
/// are its carries. Otherwise opcode, request index, carries and selectors
/// are zero.
pub proof fn law_rows_sound(ly: IntArithmeticLayout, row: Seq<u128>)
    requires
        ly.wf(),
        is_row(row, ly.bit_width as nat),
        int_laws::all_zero(arith::arith_roots(ly, virtual_row(row, ly.bit_width as nat))),
    ensures
        row[6] <= 1,
        row[6] == 1 ==> exists|op: ArithmeticOpcode|
            {
                &&& row[4] == #[trigger] op.number()
                &&& row[2] == arith::op_result(
                    op,
                    row[0] as u64,
                    row[1] as u64,
                    ly.bit_width as nat,
                )
                &&& arith::op_carries(
                    op,
                    row[0] as u64,
                    row[1] as u64,
                    row[3] as u64,
                    ly.bit_width as nat,
                )
            },
        row[6] == 0 ==> row[3] == 0 && row[4] == 0 && row[5] == 0 && forall|j: int|
            0 <= j < 6 ==> #[trigger] row[7 + j] == 0,
{
    let n = ly.bit_width as nat;
    lemma_meaning(ly, row);
    lemma_row_words(row, n);
    let s = constraint::cells(row, 6, 7);
    let (x, y, z) = (row[0] as u64, row[1] as u64, row[3] as u64);
    let a = int_laws::bits_of(row[0] as nat, n);
    let b = int_laws::bits_of(row[1] as nat, n);
    let r = int_laws::bits_of(row[2] as nat, n);
    let c = seq![0u128] + int_laws::bits_of(row[3] as nat, n);
    assert(c == words::carry_seq(z, n));
    assert(s[0] <= 1 && s[1] <= 1 && s[2] <= 1 && s[3] <= 1 && s[4] <= 1 && s[5] <= 1 && s[6] <= 1);
    let o = s.skip(1);
    assert(o[0] == s[1] && o[1] == s[2] && o[2] == s[3] && o[3] == s[4] && o[4] == s[5] && o[5]
        == s[6]);
    lemma_bitwise_result(row, n);
    int_laws::lemma_bits_of(row[2] as nat, n);
    lemma_small_mod(row[2] as nat, pow2(n));
    if s[1] == 1 {
        lemma_adds_carries(x, y, n, r, c);
        lemma_carry_word(x, y, z, n, c);
        lemma_mod_value((x as nat % pow2(n) + y as nat % pow2(n)), row[2] as nat, n);
        assert(ArithmeticOpcode::ADD.number() == row[4]);
    } else if s[2] == 1 {
        lemma_subtracts_borrows(x, y, n, r, c);
        lemma_borrow_word(x, y, z, n, c);
        lemma_diff_value(x, y, row[2] as nat, n);
        assert(ArithmeticOpcode::SUB.number() == row[4]);
    } else if s[3] == 1 {
        assert(ArithmeticOpcode::AND.number() == row[4]);
    } else if s[4] == 1 {
        assert(ArithmeticOpcode::XOR.number() == row[4]);
    } else if s[5] == 1 {
        assert(ArithmeticOpcode::NOT.number() == row[4]);
    } else if s[6] == 1 {
        lemma_less(row, n);
        lemma_flag_value(row, n);
        assert(bits::bit(z as nat, (n - 1) as nat) == words::borrow_into(x, y, n));
        assert(ArithmeticOpcode::LT.number() == row[4]);
    } else {
        assert forall|j: int| 0 <= j < 6 implies #[trigger] row[7 + j] == 0 by {
            assert(row[7 + j] == s[1 + j]);
        }
    }
}

proof fn lemma_carry_word(x: u64, y: u64, z: u64, n: nat, c: Seq<u128>)
    requires
        z < pow2(n),
        c == words::carry_seq(z, n),
        forall|m: int| 0 <= m <= n ==> #[trigger] c[m] == words::carry_into(x, y, m as nat),
    ensures
        words::is_carry_word(x, y, z, n),
{
    int_laws::lemma_bits_of(z as nat, n);
    assert forall|k: nat| k < n implies #[trigger] bits::bit(z as nat, k) == words::carry_into(
        x,
        y,
        k + 1,
    ) by {
        assert(c[(k + 1) as int] == words::carry_into(x, y, k + 1));
        bits::lemma_mod_pow2_step(z as nat, k);
        assert(c[(k + 1) as int] == int_laws::bits_of(z as nat, n)[k as int]);
    }
}

proof fn lemma_borrow_word(x: u64, y: u64, z: u64, n: nat, c: Seq<u128>)
    requires
        z < pow2(n),
        c == words::carry_seq(z, n),
        forall|m: int| 0 <= m <= n ==> #[trigger] c[m] == words::borrow_into(x, y, m as nat),
    ensures
        words::is_borrow_word(x, y, z, n),
{
    assert forall|k: nat| k < n implies #[trigger] bits::bit(z as nat, k) == words::borrow_into(
        x,
        y,
        k + 1,
    ) by {
        assert(c[(k + 1) as int] == words::borrow_into(x, y, k + 1));
        bits::lemma_mod_pow2_step(z as nat, k);
        assert(c[(k + 1) as int] == int_laws::bits_of(z as nat, n)[k as int]);
    }
}

/// A number below `2^n` with the bits of `x mod 2^n` is that residue.
proof fn lemma_mod_value(x: nat, v: nat, n: nat)
    requires
        v < pow2(n),
        int_laws::bits_of(v, n) == int_laws::bits_of(x % pow2(n), n),
    ensures
        v == x % pow2(n),
{
    lemma_pow2_pos(n);
    int_laws::lemma_bits_of(v, n);
    int_laws::lemma_bits_of(x % pow2(n), n);
    lemma_small_mod(v, pow2(n));
    lemma_mod_bound(x as int, pow2(n) as int);
    lemma_small_mod(x % pow2(n), pow2(n));
}

proof fn lemma_diff_value(x: u64, y: u64, v: nat, n: nat)
    requires
        v < pow2(n),
        int_laws::bits_of(v, n) == int_laws::bits_of(words::difference(x, y, n), n),
    ensures
        v == words::difference(x, y, n),
{
    lemma_pow2_pos(n);
    let p = pow2(n) as int;
    lemma_mod_bound(x as nat as int % p + p - y as nat as int % p, p);
    lemma_small_mod(words::difference(x, y, n), pow2(n));
    lemma_mod_value(words::difference(x, y, n), v, n);
}

/// A result whose bits above the lowest are zero is its lowest bit.
proof fn lemma_flag_value(row: Seq<u128>, n: nat)
    requires
        arith::is_width(n),
        is_row(row, n),
        forall|k: int|
            1 <= k < n ==> #[trigger] int_laws::bits_of(row[2] as nat, n)[k] == 0,
    ensures
        row[2] == int_laws::bits_of(row[2] as nat, n)[0],
{
    let r = int_laws::bits_of(row[2] as nat, n);
    int_laws::lemma_bits_of(row[2] as nat, n);
    assert(row[2] < pow2(n));
    lemma_small_mod(row[2] as nat, pow2(n));
    lemma_low_only(r, n);
}

proof fn lemma_low_only(r: Seq<u128>, m: nat)
    requires
        1 <= m <= r.len(),
        int_laws::boolean(r),
        forall|k: int| 1 <= k < r.len() ==> #[trigger] r[k] == 0,
    ensures
        int_laws::bits_value(r.take(m as int)) == r[0],
        m == r.len() ==> int_laws::bits_value(r) == r[0],
    decreases m,
{
    lemma2_to64();
    let t = r.take(m as int);
    if m == 1 {
        assert(t.drop_last() =~= Seq::<u128>::empty());
        assert(int_laws::bits_value(t.drop_last()) == 0);
        lemma_mul_basics(t.last() as int);
    } else {
        lemma_low_only(r, (m - 1) as nat);
        assert(t.drop_last() =~= r.take(m - 1));
        assert(t.last() == 0);
        lemma_mul_basics(pow2((m - 1) as nat) as int);
    }
    if m == r.len() {
        assert(t =~= r);
    }
}

/// A row that holds a request, as the trace generator writes it, meets
/// every constraint.
pub proof fn law_rows_complete(ly: IntArithmeticLayout, row: Seq<u128>, call: IntArithmeticOp)
    requires
        ly.wf(),
        row.len() == 13,
        call.width() == ly.bit_width,
        arith::row_holds(row, call, ly.bit_width as nat),
    ensures
        int_laws::all_zero(arith::arith_roots(ly, virtual_row(row, ly.bit_width as nat))),
{
    let n = ly.bit_width as nat;
    lemma2_to64();
    let op = call.opcode();
    let (x, y, z) = (call.lhs(), call.rhs(), row[3] as u64);
    lemma_pow2_pos(n);
    assert(row[2] < pow2(n)) by {
        let p = pow2(n) as int;
        lemma_mod_bound((x as nat % pow2(n) + y as nat % pow2(n)) as int, p);
        lemma_mod_bound(x as nat as int % p + p - y as nat as int % p, p);
        lemma_mod_bound((x & y) as int, p);
        lemma_mod_bound((x ^ y) as int, p);
        lemma_mod_bound((!x) as int, p);
    }
    assert(is_row(row, n));
    lemma_meaning(ly, row);
    let s = constraint::cells(row, 6, 7);
    let a = int_laws::bits_of(row[0] as nat, n);
    let b = int_laws::bits_of(row[1] as nat, n);
    let r = int_laws::bits_of(row[2] as nat, n);
    let c = seq![0u128] + int_laws::bits_of(row[3] as nat, n);
    assert(c == words::carry_seq(z, n));
    assert forall|i: int| 1 <= i < 7 implies #[trigger] s[i] == if i == op.number() + 1 {
        1u128
    } else {
        0u128
    } by {
        assert(s[i] == row[7 + (i - 1)]);
    }
    assert(s[0] == 1);
    assert(int_laws::boolean(s)) by {
        assert forall|i: int| 0 <= i < s.len() implies #[trigger] s[i] <= 1 by {}
    }
    assert(int_laws::exclusive(s.skip(1))) by {
        assert forall|i: int, j: int| 0 <= i < j < 6 implies !(#[trigger] s.skip(1)[i] == 1
            && #[trigger] s.skip(1)[j] == 1) by {
            assert(s.skip(1)[i] == s[1 + i] && s.skip(1)[j] == s[1 + j]);
        }
    }
    lemma_bitwise_result(row, n);
    lemma_small_mod(x as nat, pow2(n));
    lemma_small_mod(y as nat, pow2(n));
    match op {
        ArithmeticOpcode::ADD => {
            law_sum_is_witness(x, y, z, n);
        },
        ArithmeticOpcode::SUB => {
            law_difference_is_witness(x, y, z, n);
        },
        ArithmeticOpcode::LT => {
            lemma_less(row, n);
            assert(bits::bit(z as nat, (n - 1) as nat) == words::borrow_into(x, y, n));
            assert(c[n as int] == words::borrow_into(x, y, n));
            assert forall|k: int| 0 <= k < n implies #[trigger] r[k] == (if k == 0 {
                row[2]
            } else {
                0
            }) by {
                lemma_bit_of_bool(row[2] as nat, k as nat);
            }
        },
        _ => {},
    }
}

proof fn lemma_bit_of_bool(v: nat, k: nat)
    requires
        v <= 1,
    ensures
        bits::bit(v, k) == if k == 0 {
            v
        } else {
            0
        },
{
    lemma2_to64();
    if k > 0 {
        lemma_pow2_strictly_increases(0, k);
        lemma_basic_div(v as int, pow2(k) as int);
    }
}

/// An idle row, all zero, meets every constraint.
pub proof fn law_idle_rows_complete(ly: IntArithmeticLayout, row: Seq<u128>)
    requires
        ly.wf(),
        row.len() == 13,
        forall|c: int| 0 <= c < 13 ==> #[trigger] row[c] == 0,
    ensures
        int_laws::all_zero(arith::arith_roots(ly, virtual_row(row, ly.bit_width as nat))),
{
    let n = ly.bit_width as nat;
    lemma2_to64();
    lemma_pow2_pos(n);
    lemma_meaning(ly, row);
    let s = constraint::cells(row, 6, 7);
    assert forall|i: int| 0 <= i < 7 implies #[trigger] s[i] == 0 by {
        assert(s[i] == row[6 + i]);
    }
}

} // verus!
