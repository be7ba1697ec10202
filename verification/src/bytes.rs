//! Little-endian bytes of machine words.

use vstd::arithmetic::div_mod::*;
use vstd::arithmetic::power::*;
use vstd::prelude::*;

verus! {

/// The number `s` writes, least significant byte first.
pub open spec fn le_value(s: Seq<u8>) -> nat
    decreases s.len(),
{
    if s.len() == 0 {
        0
    } else {
        s[0] as nat + 256 * le_value(s.skip(1))
    }
}

/// The low `n` bytes of `v`, least significant first.
pub open spec fn le_bytes(v: nat, n: nat) -> Seq<u8>
    decreases n,
{
    if n == 0 {
        Seq::empty()
    } else {
        seq![(v % 256) as u8] + le_bytes(v / 256, (n - 1) as nat)
    }
}

/// `256^n`.
pub open spec fn byte_pow(n: nat) -> nat
    decreases n,
{
    if n == 0 {
        1
    } else {
        256 * byte_pow((n - 1) as nat)
    }
}

pub proof fn lemma_le_bytes_len(v: nat, n: nat)
    ensures
        le_bytes(v, n).len() == n,
    decreases n,
{
    if n > 0 {
        lemma_le_bytes_len(v / 256, (n - 1) as nat);
    }
}

pub proof fn lemma_le_value_bound(s: Seq<u8>)
    ensures
        le_value(s) < byte_pow(s.len()),
    decreases s.len(),
{
    if s.len() > 0 {
        lemma_le_value_bound(s.skip(1));
    }
}

/// Reading back what was written gives the number again, modulo the width.
pub proof fn law_le_round_trip(v: nat, n: nat)
    ensures
        le_value(le_bytes(v, n)) == v % byte_pow(n),
        v < byte_pow(n) ==> le_value(le_bytes(v, n)) == v,
    decreases n,
{
    lemma_byte_pow_pos(n);
    if n > 0 {
        let m = (n - 1) as nat;
        let rest = le_bytes(v / 256, m);
        law_le_round_trip(v / 256, m);
        assert(le_bytes(v, n).skip(1) =~= rest);
        lemma_byte_pow_pos(m);
        lemma_mod_breakdown(v as int, 256, byte_pow(m) as int);
    }
    if v < byte_pow(n) {
        lemma_small_mod(v, byte_pow(n));
    }
}

pub proof fn lemma_byte_pow_pos(n: nat)
    ensures
        byte_pow(n) > 0,
    decreases n,
{
    if n > 0 {
        lemma_byte_pow_pos((n - 1) as nat);
    }
}

pub proof fn lemma_byte_pow_values()
    ensures
        byte_pow(0) == 1,
        byte_pow(1) == 0x100,
        byte_pow(2) == 0x1_0000,
        byte_pow(4) == 0x1_0000_0000,
        byte_pow(8) == 0x1_0000_0000_0000_0000,
        byte_pow(16) == 0x1_0000_0000_0000_0000_0000_0000_0000_0000,
{
    reveal_with_fuel(byte_pow, 17);
}

/// Appends the low `n` bytes of `v`, least significant first.
pub fn push_le(buf: &mut Vec<u8>, v: u128, n: usize)
    ensures
        final(buf)@ == old(buf)@ + le_bytes(v as nat, n as nat),
{
    let mut rest: u128 = v;
    let mut k: usize = 0;
    assert(buf@ + le_bytes(rest as nat, n as nat) =~= old(buf)@ + le_bytes(v as nat, n as nat));
    while k < n
        invariant
            k <= n,
            buf@ + le_bytes(rest as nat, (n - k) as nat) == old(buf)@ + le_bytes(
                v as nat,
                n as nat,
            ),
        decreases n - k,
    {
        let ghost before = buf@;
        buf.push((rest % 256) as u8);
        proof {
            let m = (n - k) as nat;
            assert(before + le_bytes(rest as nat, m) =~= buf@ + le_bytes(
                (rest / 256) as nat,
                (m - 1) as nat,
            ));
        }
        rest = rest / 256;
        k = k + 1;
    }
    assert(buf@ + le_bytes(rest as nat, 0) =~= buf@);
}

/// Reads all of `bytes`, least significant first.
pub fn read_le(bytes: &[u8]) -> (r: u128)
    requires
        bytes@.len() <= 16,
    ensures
        r as nat == le_value(bytes@),
{
    let mut acc: u128 = 0;
    let mut k: usize = bytes.len();
    assert(bytes@.skip(k as int) =~= Seq::<u8>::empty());
    while k > 0
        invariant
            k <= bytes@.len() <= 16,
            acc as nat == le_value(bytes@.skip(k as int)),
        decreases k,
    {
        proof {
            let tail = bytes@.skip(k - 1);
            assert(tail.skip(1) =~= bytes@.skip(k as int));
            lemma_le_value_bound(tail);
            lemma_byte_pow_le(tail.len(), 16);
            lemma_byte_pow_values();
        }
        k = k - 1;
        acc = acc * 256 + bytes[k] as u128;
    }
    assert(bytes@.skip(0) =~= bytes@);
    acc
}

/// The low `n` bytes of `v`, least significant first.
pub fn to_le(v: u128, n: usize) -> (r: Vec<u8>)
    ensures
        r@ == le_bytes(v as nat, n as nat),
{
    let mut out: Vec<u8> = Vec::new();
    push_le(&mut out, v, n);
    assert(out@ =~= le_bytes(v as nat, n as nat));
    out
}

/// The four bytes of a word, least significant first.
pub fn le_bytes4(x: u32) -> (r: [u8; 4])
    ensures
        r@ == le_bytes(x as nat, 4),
{
    let b0: u8 = (x % 256) as u8;
    let x1: u32 = x / 256;
    let b1: u8 = (x1 % 256) as u8;
    let x2: u32 = x1 / 256;
    let b2: u8 = (x2 % 256) as u8;
    let x3: u32 = x2 / 256;
    let b3: u8 = (x3 % 256) as u8;
    let r = [b0, b1, b2, b3];
    proof {
        reveal_with_fuel(le_bytes, 5);
        assert(r@ =~= le_bytes(x as nat, 4));
    }
    r
}

/// Byte `k` of a number's bytes is its digit of weight `256^k`.
pub proof fn law_le_digits(v: nat, n: nat, k: nat)
    requires
        k < n,
    ensures
        le_bytes(v, n).len() == n,
        le_bytes(v, n)[k as int] == (v / pow(256, k) as nat) % 256,
    decreases n,
{
    lemma_le_bytes_len(v, n);
    if k == 0 {
        lemma_pow0(256);
        assert(v / 1 == v);
    } else {
        let j = (k - 1) as nat;
        law_le_digits(v / 256, (n - 1) as nat, j);
        lemma_pow_positive(256, j);
        reveal(pow);
        assert(pow(256, k) == 256 * pow(256, j));
        lemma_div_denominator(v as int, 256, pow(256, j));
    }
}

/// Byte `k` of what writes a number is the number's digit of weight `256^k`.
pub proof fn law_value_digits(s: Seq<u8>, k: nat)
    requires
        k < s.len(),
    ensures
        (le_value(s) / pow(256, k) as nat) % 256 == s[k as int],
    decreases s.len(),
{
    let rest = le_value(s.skip(1));
    let v = le_value(s);
    lemma_fundamental_div_mod_converse(v as int, 256, rest as int, s[0] as int);
    if k == 0 {
        lemma_pow0(256);
        assert(v / 1 == v);
    } else {
        let j = (k - 1) as nat;
        law_value_digits(s.skip(1), j);
        lemma_pow_positive(256, j);
        reveal(pow);
        lemma_div_denominator(v as int, 256, pow(256, j));
    }
}

/// A byte put above others adds its digit times its weight.
pub proof fn law_le_weights(s: Seq<u8>, top: u8)
    ensures
        le_value(s.push(top)) == le_value(s) + top * pow(256, s.len()),
    decreases s.len(),
{
    reveal(pow);
    if s.len() == 0 {
        assert(s.push(top).skip(1) =~= Seq::<u8>::empty());
        assert(le_value(Seq::<u8>::empty()) == 0);
        lemma_pow0(256);
        assert(top * 1 == top);
    } else {
        assert(s.push(top).skip(1) =~= s.skip(1).push(top));
        law_le_weights(s.skip(1), top);
        assert(s.push(top)[0] == s[0]);
        let p = pow(256, (s.len() - 1) as nat);
        assert(pow(256, s.len()) == 256 * p);
        assert(256 * (top * p) == top * (256 * p)) by (nonlinear_arith);
    }
}

/// Numbers below `256^n` with the same bytes are equal.
pub proof fn law_le_injective(a: nat, b: nat, n: nat)
    requires
        a < byte_pow(n),
        b < byte_pow(n),
        le_bytes(a, n) == le_bytes(b, n),
    ensures
        a == b,
{
    law_le_round_trip(a, n);
    law_le_round_trip(b, n);
}

pub proof fn lemma_byte_pow_le(a: nat, b: nat)
    requires
        a <= b,
    ensures
        byte_pow(a) <= byte_pow(b),
    decreases b,
{
    if a < b {
        lemma_byte_pow_le(a, (b - 1) as nat);
        lemma_byte_pow_pos((b - 1) as nat);
    }
}

/// The powers of 256 by their usual name.
pub proof fn lemma_byte_pow(n: nat)
    ensures
        byte_pow(n) == pow(256, n),
    decreases n,
{
    reveal(pow);
    if n > 0 {
        lemma_byte_pow((n - 1) as nat);
    }
}

} // verus!
