//! Ripple-carry arithmetic on machine words, keeping every carry.

use vstd::arithmetic::div_mod::*;
use vstd::arithmetic::mul::*;
use vstd::arithmetic::power2::*;
use vstd::prelude::*;

use crate::atoms::int_laws;
use crate::bits;

verus! {

/// The carries into every place and out of the last: none into the first,
/// and the bits of `word` after that.
pub open spec fn carry_seq(word: u64, n: nat) -> Seq<u128> {
    seq![0u128] + int_laws::bits_of(word as nat, n)
}

/// `a - b` modulo `2^n`.
pub open spec fn difference(a: u64, b: u64, n: nat) -> nat {
    ((a as nat % pow2(n) + pow2(n) - b as nat % pow2(n)) % pow2(n) as int) as nat
}

/// The carry into place `k` of `a + b`.
pub open spec fn carry_into(a: u64, b: u64, k: nat) -> nat {
    (a as nat % pow2(k) + b as nat % pow2(k)) / pow2(k)
}

/// The borrow into place `k` of `a - b`.
pub open spec fn borrow_into(a: u64, b: u64, k: nat) -> nat {
    if a as nat % pow2(k) < b as nat % pow2(k) {
        1
    } else {
        0
    }
}

/// The bits of `word` are the carries out of the `n` places of `a + b`.
pub open spec fn is_carry_word(a: u64, b: u64, word: u64, n: nat) -> bool {
    &&& word < pow2(n)
    &&& forall|k: nat| k < n ==> #[trigger] bits::bit(word as nat, k) == carry_into(a, b, k + 1)
}

/// The bits of `word` are the borrows out of the `n` places of `a - b`.
pub open spec fn is_borrow_word(a: u64, b: u64, word: u64, n: nat) -> bool {
    &&& word < pow2(n)
    &&& forall|k: nat| k < n ==> #[trigger] bits::bit(word as nat, k) == borrow_into(a, b, k + 1)
}

proof fn lemma_full_adder(a: u64, b: u64, c: u64)
    requires
        a <= 1,
        b <= 1,
        c <= 1,
    ensures
        (a ^ b ^ c) + 2 * ((a & b) | (c & (a ^ b))) == a + b + c,
        a ^ b ^ c <= 1,
        (a & b) | (c & (a ^ b)) <= 1,
        (a ^ b ^ c) + b + c == a + 2 * (((a ^ 1) & b) | (((a ^ 1) ^ b) & c)),
        ((a ^ 1) & b) | (((a ^ 1) ^ b) & c) <= 1,
{
    assert((a ^ b ^ c) + 2 * ((a & b) | (c & (a ^ b))) == a + b + c && a ^ b ^ c <= 1 && (a & b)
        | (c & (a ^ b)) <= 1 && (a ^ b ^ c) + b + c == a + 2 * (((a ^ 1) & b) | (((a ^ 1) ^ b) & c))
        && ((a ^ 1) & b) | (((a ^ 1) ^ b) & c) <= 1) by (bit_vector)
        requires
            a <= 1,
            b <= 1,
            c <= 1,
    ;
}

/// Setting bit `k` of a word below `2^k`.
proof fn lemma_append_bit(w: u64, s: u64, k: nat)
    requires
        k < 64,
        w < pow2(k),
        s <= 1,
    ensures
        (w | (s << (k as u64))) as nat == w as nat + s as nat * pow2(k),
        w as nat + s as nat * pow2(k) < pow2(k + 1),
        forall|j: nat|
            j < k ==> #[trigger] bits::bit((w | (s << (k as u64))) as nat, j) == bits::bit(
                w as nat,
                j,
            ),
        bits::bit((w | (s << (k as u64))) as nat, k) == s,
{
    lemma2_to64();
    let u = k as u64;
    vstd::bits::lemma_u64_pow2_no_overflow(k);
    vstd::bits::lemma_u64_shl_is_mul(1, u);
    assert(w | (s << u) == w + (if s == 1 {
        1u64 << u
    } else {
        0u64
    })) by (bit_vector)
        requires
            u < 64,
            w < 1u64 << u,
            s <= 1,
    ;
    lemma_pow2_adds(k, 1);
    lemma_mul_basics(pow2(k) as int);
    let x = w as nat + s as nat * pow2(k);
    lemma_pow2_pos(k);
    lemma_fundamental_div_mod_converse(x as int, pow2(k) as int, s as int, w as int);
    assert forall|j: nat| j < k implies #[trigger] bits::bit(x, j) == bits::bit(w as nat, j) by {
        let d = (k - j - 1) as nat;
        lemma_pow2_pos(j);
        lemma_pow2_adds(j, d + 1);
        lemma_pow2_adds(d, 1);
        let hi = (s as nat * pow2(d)) as int;
        assert(s as nat * pow2(k) == pow2(j) * (2 * hi)) by (nonlinear_arith)
            requires
                pow2(k) == pow2(j) * (pow2(d) * 2),
                hi == s as nat * pow2(d),
        ;
        lemma_hoist_over_denominator(w as int, 2 * hi, pow2(j));
        lemma_mul_is_commutative(pow2(j) as int, 2 * hi);
        assert(x as int / pow2(j) as int == w as int / pow2(j) as int + 2 * hi);
        lemma_mod_multiples_vanish(hi, w as int / pow2(j) as int, 2);
    }
}

/// The sum of the low `n` bits modulo `2^n`, and the carry out of each place.
pub fn add_words(a: u64, b: u64, n: usize) -> (r: (u64, u64))
    requires
        n <= 64,
    ensures
        r.0 as nat == (a as nat % pow2(n as nat) + b as nat % pow2(n as nat)) % pow2(n as nat),
        r.0 < pow2(n as nat),
        is_carry_word(a, b, r.1, n as nat),
        int_laws::adds(
            int_laws::bits_of(a as nat, n as nat),
            int_laws::bits_of(b as nat, n as nat),
            int_laws::bits_of(r.0 as nat, n as nat),
            carry_seq(r.1, n as nat),
        ),
{
    proof {
        lemma2_to64();
    }
    let mut sum: u64 = 0;
    let mut carry_word: u64 = 0;
    let mut c: u64 = 0;
    for k in 0..n
        invariant
            n <= 64,
            c <= 1,
            c == (if k == 0 {
                0
            } else {
                bits::bit(carry_word as nat, (k - 1) as nat)
            }),
            sum < pow2(k as nat),
            carry_word < pow2(k as nat),
            forall|j: nat|
                j < k ==> #[trigger] bits::bit(sum as nat, j) <= 1 && bits::bit(
                    carry_word as nat,
                    j,
                ) <= 1 && bits::bit(sum as nat, j) + 2 * bits::bit(carry_word as nat, j)
                    == bits::bit(a as nat, j) + bits::bit(b as nat, j) + (if j == 0 {
                    0
                } else {
                    bits::bit(carry_word as nat, (j - 1) as nat)
                }),
    {
        let a_k: u64 = (a >> (k as u64)) & 1;
        let b_k: u64 = (b >> (k as u64)) & 1;
        let s_k: u64 = a_k ^ b_k ^ c;
        let c_next: u64 = (a_k & b_k) | (c & (a_k ^ b_k));
        proof {
            bits::lemma_bit_u64(a, k as nat);
            bits::lemma_bit_u64(b, k as nat);
            bits::lemma_mod_pow2_step(a as nat, k as nat);
            bits::lemma_mod_pow2_step(b as nat, k as nat);
            lemma_full_adder(a_k, b_k, c);
            lemma_append_bit(sum, s_k, k as nat);
            lemma_append_bit(carry_word, c_next, k as nat);
        }
        sum = sum | (s_k << (k as u64));
        carry_word = carry_word | (c_next << (k as u64));
        c = c_next;
    }
    proof {
        let (x, y, z, w) = (
            int_laws::bits_of(a as nat, n as nat),
            int_laws::bits_of(b as nat, n as nat),
            int_laws::bits_of(sum as nat, n as nat),
            carry_seq(carry_word, n as nat),
        );
        assert forall|i: int| 0 <= i < n implies #[trigger] z[i] <= 1 && z[i] + 2 * w[i + 1] == x[i]
            + y[i] + w[i] by {
            assert(bits::bit(sum as nat, i as nat) <= 1);
            bits::lemma_mod_pow2_step(a as nat, i as nat);
            bits::lemma_mod_pow2_step(b as nat, i as nat);
        }
        assert forall|i: int| 0 <= i < w.len() implies #[trigger] w[i] <= 1 by {
            if i > 0 {
                assert(bits::bit(sum as nat, (i - 1) as nat) <= 1);
            }
        }
        int_laws::law_add_value(x, y, z, w);
        assert forall|k: nat| k < n implies #[trigger] bits::bit(carry_word as nat, k)
            == carry_into(a, b, k + 1) by {
            let m = k + 1;
            int_laws::law_add_prefix(x, y, z, w, m as int);
            assert(x.take(m as int) =~= int_laws::bits_of(a as nat, m));
            assert(y.take(m as int) =~= int_laws::bits_of(b as nat, m));
            assert(z.take(m as int) =~= int_laws::bits_of(sum as nat, m));
            int_laws::lemma_bits_of(a as nat, m);
            int_laws::lemma_bits_of(b as nat, m);
            int_laws::lemma_bits_of(sum as nat, m);
            int_laws::lemma_bits_bound(z.take(m as int));
            lemma_pow2_pos(m);
            lemma_mul_is_commutative(w[m as int] as int, pow2(m) as int);
            lemma_fundamental_div_mod_converse(
                (a as nat % pow2(m) + b as nat % pow2(m)) as int,
                pow2(m) as int,
                w[m as int] as int,
                (sum as nat % pow2(m)) as int,
            );
            assert(w[m as int] == int_laws::bits_of(carry_word as nat, n as nat)[k as int]);
        }
        int_laws::lemma_bits_of(a as nat, n as nat);
        int_laws::lemma_bits_of(b as nat, n as nat);
        int_laws::lemma_bits_of(sum as nat, n as nat);
        lemma_small_mod(sum as nat, pow2(n as nat));
        lemma_pow2_pos(n as nat);
        lemma_mul_is_commutative(w[n as int] as int, pow2(n as nat) as int);
        lemma_fundamental_div_mod_converse(
            (a as nat % pow2(n as nat) + b as nat % pow2(n as nat)) as int,
            pow2(n as nat) as int,
            w[n as int] as int,
            sum as int,
        );
    }
    (sum, carry_word)
}

/// The difference of the low `n` bits modulo `2^n`, and the borrow out of
/// each place.
pub fn sub_words(a: u64, b: u64, n: usize) -> (r: (u64, u64))
    requires
        n <= 64,
    ensures
        r.0 as nat == difference(a, b, n as nat),
        r.0 < pow2(n as nat),
        is_borrow_word(a, b, r.1, n as nat),
        int_laws::subtracts(
            int_laws::bits_of(a as nat, n as nat),
            int_laws::bits_of(b as nat, n as nat),
            int_laws::bits_of(r.0 as nat, n as nat),
            carry_seq(r.1, n as nat),
        ),
{
    proof {
        lemma2_to64();
    }
    let mut res: u64 = 0;
    let mut borrow_word: u64 = 0;
    let mut w: u64 = 0;
    for k in 0..n
        invariant
            n <= 64,
            w <= 1,
            w == (if k == 0 {
                0
            } else {
                bits::bit(borrow_word as nat, (k - 1) as nat)
            }),
            res < pow2(k as nat),
            borrow_word < pow2(k as nat),
            forall|j: nat|
                j < k ==> #[trigger] bits::bit(res as nat, j) <= 1 && bits::bit(
                    borrow_word as nat,
                    j,
                ) <= 1 && bits::bit(res as nat, j) + bits::bit(b as nat, j) + (if j == 0 {
                    0
                } else {
                    bits::bit(borrow_word as nat, (j - 1) as nat)
                }) == bits::bit(a as nat, j) + 2 * bits::bit(borrow_word as nat, j),
    {
        let a_k: u64 = (a >> (k as u64)) & 1;
        let b_k: u64 = (b >> (k as u64)) & 1;
        let not_a: u64 = a_k ^ 1;
        let r_k: u64 = a_k ^ b_k ^ w;
        let w_next: u64 = (not_a & b_k) | ((not_a ^ b_k) & w);
        proof {
            bits::lemma_bit_u64(a, k as nat);
            bits::lemma_bit_u64(b, k as nat);
            bits::lemma_mod_pow2_step(a as nat, k as nat);
            bits::lemma_mod_pow2_step(b as nat, k as nat);
            lemma_full_adder(a_k, b_k, w);
            lemma_append_bit(res, r_k, k as nat);
            lemma_append_bit(borrow_word, w_next, k as nat);
        }
        res = res | (r_k << (k as u64));
        borrow_word = borrow_word | (w_next << (k as u64));
        w = w_next;
    }
    proof {
        let (x, y, z, v) = (
            int_laws::bits_of(a as nat, n as nat),
            int_laws::bits_of(b as nat, n as nat),
            int_laws::bits_of(res as nat, n as nat),
            carry_seq(borrow_word, n as nat),
        );
        assert forall|i: int| 0 <= i < n implies #[trigger] z[i] <= 1 && z[i] + y[i] + v[i] == x[i]
            + 2 * v[i + 1] by {
            assert(bits::bit(res as nat, i as nat) <= 1);
            bits::lemma_mod_pow2_step(a as nat, i as nat);
            bits::lemma_mod_pow2_step(b as nat, i as nat);
        }
        assert forall|i: int| 0 <= i < v.len() implies #[trigger] v[i] <= 1 by {
            if i > 0 {
                assert(bits::bit(res as nat, (i - 1) as nat) <= 1);
            }
        }
        int_laws::lemma_bits_of(a as nat, n as nat);
        int_laws::lemma_bits_of(b as nat, n as nat);
        int_laws::lemma_bits_of(res as nat, n as nat);
        int_laws::law_sub_value(x, y, z, v);
        assert forall|k: nat| k < n implies #[trigger] bits::bit(borrow_word as nat, k)
            == borrow_into(a, b, k + 1) by {
            let m = (k + 1) as int;
            let (xm, ym, zm, vm) = (x.take(m), y.take(m), z.take(m), v.take(m + 1));
            assert(xm =~= int_laws::bits_of(a as nat, k + 1));
            assert(ym =~= int_laws::bits_of(b as nat, k + 1));
            int_laws::lemma_bits_of(a as nat, k + 1);
            int_laws::lemma_bits_of(b as nat, k + 1);
            assert forall|i: int| 0 <= i < m implies (#[trigger] zm[i]) + ym[i] + vm[i] == xm[i] + 2
                * vm[i + 1] by {
                assert(z[i] + y[i] + v[i] == x[i] + 2 * v[i + 1]);
            }
            int_laws::law_sub_value(xm, ym, zm, vm);
            assert(vm[m] == v[m] && v[m] <= 1);
            assert(v[m] == int_laws::bits_of(borrow_word as nat, n as nat)[k as int]);
        }
        lemma_small_mod(res as nat, pow2(n as nat));
        lemma_pow2_pos(n as nat);
        let p = pow2(n as nat) as int;
        let out = v[n as int] as int;
        assert(out <= 1);
        lemma_mul_basics(p);
        lemma_mod_bound(b as int, p);
        lemma_fundamental_div_mod_converse(
            a as nat as int % p + p - b as nat as int % p,
            p,
            1 - out,
            res as int,
        );
    }
    (res, borrow_word)
}

} // verus!
