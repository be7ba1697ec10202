//! What the transcript binds: the bytes absorbed determine what was sent.

use vstd::arithmetic::power2::*;
use vstd::prelude::*;
use vstd::utf8::*;

use crate::bits;
use crate::bytes;
use crate::field::TowerField;
use crate::hashers;
use crate::hashers::Hasher;
use crate::protocol;
use crate::transcript;
use crate::transcript::Op;

verus! {

// ---------------------------------------------------------------
// Strings
// ---------------------------------------------------------------

proof fn lemma_split(a: Seq<u8>, x: Seq<u8>, b: Seq<u8>, y: Seq<u8>)
    requires
        a.len() == b.len(),
        a + x == b + y,
    ensures
        a == b,
        x == y,
{
    let n = a.len() as int;
    assert((a + x).take(n) =~= a && (b + y).take(n) =~= b);
    assert((a + x).skip(n) =~= x && (b + y).skip(n) =~= y);
}

proof fn lemma_regroup(a: Seq<u8>, b: Seq<u8>, c: Seq<u8>, d: Seq<u8>, e: Seq<u8>)
    ensures
        (a + b + c + d) + e == a + (b + (c + (d + e))),
        ((a + b) + c) + e == a + (b + (c + e)),
        (a + b) + e == a + (b + e),
{
    assert((a + b + c + d) + e =~= a + (b + (c + (d + e))));
    assert(((a + b) + c) + e =~= a + (b + (c + e)));
    assert((a + b) + e =~= a + (b + e));
}

/// Different names have different encodings.
pub proof fn law_names_are_told_apart(a: Seq<char>, b: Seq<char>)
    requires
        encode_utf8(a) == encode_utf8(b),
    ensures
        a == b,
{
    encode_utf8_decode_utf8(a);
    encode_utf8_decode_utf8(b);
}

/// Numbers under one label, followed by anything: equal bytes are equal
/// numbers and equal rests.
pub proof fn law_numbers_cannot_collide(
    label: Seq<u8>,
    a: u64,
    after_a: Seq<u8>,
    b: u64,
    after_b: Seq<u8>,
)
    requires
        transcript::numbered(label, a) + after_a == transcript::numbered(label, b) + after_b,
    ensures
        a == b,
        after_a == after_b,
{
    bytes::lemma_le_bytes_len(a as nat, 8);
    bytes::lemma_le_bytes_len(b as nat, 8);
    bytes::lemma_byte_pow_values();
    let (x, y) = (transcript::numbered(label, a), transcript::numbered(label, b));
    lemma_split(x, after_a, y, after_b);
    lemma_split(label, bytes::le_bytes(a as nat, 8), label, bytes::le_bytes(b as nat, 8));
    bytes::law_le_injective(a as nat, b as nat, 8);
}

/// Field elements under one label, followed by anything.
pub proof fn law_elements_cannot_collide<F: TowerField>(
    label: Seq<u8>,
    a: F,
    after_a: Seq<u8>,
    b: F,
    after_b: Seq<u8>,
)
    requires
        transcript::labelled(label, a) + after_a == transcript::labelled(label, b) + after_b,
    ensures
        a == b,
        after_a == after_b,
{
    bytes::lemma_le_bytes_len(a.raw(), F::width());
    bytes::lemma_le_bytes_len(b.raw(), F::width());
    let (x, y) = (transcript::labelled(label, a), transcript::labelled(label, b));
    lemma_split(x, after_a, y, after_b);
    lemma_split(
        label,
        bytes::le_bytes(a.raw(), F::width()),
        label,
        bytes::le_bytes(b.raw(), F::width()),
    );
    a.raw_fits(b);
    b.raw_fits(a);
    bytes::law_le_injective(a.raw(), b.raw(), F::width());
}

proof fn lemma_element_bytes<F: TowerField>(s: Seq<F>)
    ensures
        transcript::element_bytes(s).len() == s.len() * F::width(),
    decreases s.len(),
{
    if s.len() > 0 {
        lemma_element_bytes(s.drop_last());
        bytes::lemma_le_bytes_len(s.last().raw(), F::width());
        assert(s.len() * F::width() == (s.len() - 1) * F::width() + F::width())
            by (nonlinear_arith)
            requires
                s.len() > 0,
        ;
    } else {
        assert(0 * F::width() == 0) by (nonlinear_arith);
    }
}

proof fn lemma_same_elements<F: TowerField>(a: Seq<F>, b: Seq<F>)
    requires
        a.len() == b.len(),
        transcript::element_bytes(a) == transcript::element_bytes(b),
    ensures
        a == b,
    decreases a.len(),
{
    if a.len() == 0 {
        assert(a =~= b);
    } else {
        let (x, y) = (a.drop_last(), b.drop_last());
        lemma_element_bytes(x);
        lemma_element_bytes(y);
        lemma_split(
            transcript::element_bytes(x),
            bytes::le_bytes(a.last().raw(), F::width()),
            transcript::element_bytes(y),
            bytes::le_bytes(b.last().raw(), F::width()),
        );
        lemma_same_elements(x, y);
        a.last().raw_fits(b.last());
        b.last().raw_fits(a.last());
        bytes::law_le_injective(a.last().raw(), b.last().raw(), F::width());
        assert(a =~= x.push(a.last()));
        assert(b =~= y.push(b.last()));
    }
}

/// Lists of field elements under one label, followed by anything: the number
/// before a list keeps lists apart.
pub proof fn law_lists_cannot_collide<F: TowerField>(
    label: Seq<u8>,
    a: Seq<F>,
    after_a: Seq<u8>,
    b: Seq<F>,
    after_b: Seq<u8>,
)
    requires
        a.len() <= u64::MAX,
        b.len() <= u64::MAX,
        transcript::listed(label, a) + after_a == transcript::listed(label, b) + after_b,
    ensures
        a == b,
        after_a == after_b,
{
    bytes::lemma_le_bytes_len(a.len(), 8);
    bytes::lemma_le_bytes_len(b.len(), 8);
    bytes::lemma_byte_pow_values();
    let (x, y) = (label + bytes::le_bytes(a.len(), 8), label + bytes::le_bytes(b.len(), 8));
    let (p, q) = (
        transcript::element_bytes(a) + after_a,
        transcript::element_bytes(b) + after_b,
    );
    assert(transcript::listed(label, a) + after_a =~= x + p);
    assert(transcript::listed(label, b) + after_b =~= y + q);
    lemma_split(x, p, y, q);
    lemma_split(label, bytes::le_bytes(a.len(), 8), label, bytes::le_bytes(b.len(), 8));
    bytes::law_le_injective(a.len(), b.len(), 8);
    lemma_element_bytes(a);
    lemma_element_bytes(b);
    lemma_split(
        transcript::element_bytes(a),
        after_a,
        transcript::element_bytes(b),
        after_b,
    );
    lemma_same_elements(a, b);
}

/// Transcripts of different protocols start differently, and all of them with
/// the name of the transcript.
pub proof fn law_openings_differ(a: Seq<u8>, b: Seq<u8>)
    ensures
        encode_utf8("hekate-transcript-v1"@).is_prefix_of(transcript::opening(a)),
        transcript::opening(a) == transcript::opening(b) ==> a == b,
{
    let d = encode_utf8("hekate-transcript-v1"@);
    assert(transcript::opening(a).take(d.len() as int) =~= d);
    if transcript::opening(a) == transcript::opening(b) {
        lemma_split(d, a, d, b);
    }
}

/// A challenge is the hash of a string that starts with all that was absorbed
/// before: where the strings are equal and the labels too, so is what was
/// absorbed. The hash is absorbed after it, so that later challenges are
/// hashes of longer strings that hold it.
pub proof fn law_challenges_bind<H: Hasher>(
    before: Seq<u8>,
    other: Seq<u8>,
    label: Seq<u8>,
    next: Seq<u8>,
)
    ensures
        before.is_prefix_of(transcript::challenge_string(before, label)),
        transcript::challenge_string(before, label) == transcript::challenge_string(other, label)
            ==> before == other,
        ({
            let s = transcript::challenge_string(before, label);
            let later = transcript::challenge_string(
                transcript::after_challenge::<H>(before, label),
                next,
            );
            &&& later.len() == s.len() + 32 + next.len()
            &&& later.subrange(0, s.len() as int) == s
            &&& later.subrange(s.len() as int, (s.len() + 32) as int) == H::hash(s)@
            &&& later != s
        }),
{
    let s = transcript::challenge_string(before, label);
    let after = transcript::after_challenge::<H>(before, label);
    let later = transcript::challenge_string(after, next);
    assert(s.take(before.len() as int) =~= before);
    assert(hashers::digest::<H>(s).len() == 32);
    assert(later.subrange(0, s.len() as int) =~= s);
    assert(later.subrange(s.len() as int, (s.len() + 32) as int) =~= H::hash(s)@);
    if s == transcript::challenge_string(other, label) {
        let n = before.len() as int;
        assert(other.len() == before.len());
        lemma_split(before, label, other, label);
    }
}

// ---------------------------------------------------------------
// Headers
// ---------------------------------------------------------------

/// A number of the protocol is a labelled number.
proof fn lemma_number(label: Seq<char>, a: nat, x: Seq<u8>, b: nat, y: Seq<u8>)
    requires
        a <= u64::MAX,
        b <= u64::MAX,
        protocol::number(label, a) + x == protocol::number(label, b) + y,
    ensures
        a == b,
        x == y,
{
    law_numbers_cannot_collide(encode_utf8(label), a as u64, x, b as u64, y);
}

/// A header binds its arguments: where two headers are followed by anything
/// and the bytes are the same, then so are the names, the numbers of rows and
/// of columns, the roots, and what follows.
pub proof fn law_header_binds(
    name_a: Seq<char>,
    rows_a: u64,
    cols_a: u64,
    root_a: Seq<u8>,
    after_a: Seq<u8>,
    name_b: Seq<char>,
    rows_b: u64,
    cols_b: u64,
    root_b: Seq<u8>,
    after_b: Seq<u8>,
)
    requires
        encode_utf8(name_a).len() <= u64::MAX,
        encode_utf8(name_b).len() <= u64::MAX,
        root_a.len() <= u64::MAX,
        root_b.len() <= u64::MAX,
        protocol::header(name_a, rows_a as nat, cols_a as nat, root_a) + after_a
            == protocol::header(name_b, rows_b as nat, cols_b as nat, root_b) + after_b,
    ensures
        name_a == name_b,
        rows_a == rows_b,
        cols_a == cols_b,
        root_a == root_b,
        after_a == after_b,
{
    let n = "chiplet_name"@;
    let (r, c, t) = ("chiplet_num_rows"@, "chiplet_num_cols"@, "chiplet_root"@);
    let (a3, b3) = (
        protocol::message(t, root_a) + after_a,
        protocol::message(t, root_b) + after_b,
    );
    let (a2, b2) = (
        protocol::number(c, cols_a as nat) + a3,
        protocol::number(c, cols_b as nat) + b3,
    );
    let (a1, b1) = (
        protocol::number(r, rows_a as nat) + a2,
        protocol::number(r, rows_b as nat) + b2,
    );
    lemma_regroup(
        protocol::message(n, encode_utf8(name_a)),
        protocol::number(r, rows_a as nat),
        protocol::number(c, cols_a as nat),
        protocol::message(t, root_a),
        after_a,
    );
    lemma_regroup(
        protocol::message(n, encode_utf8(name_b)),
        protocol::number(r, rows_b as nat),
        protocol::number(c, cols_b as nat),
        protocol::message(t, root_b),
        after_b,
    );
    transcript::law_messages_cannot_collide(
        encode_utf8(n),
        encode_utf8(name_a),
        a1,
        encode_utf8(name_b),
        b1,
    );
    law_names_are_told_apart(name_a, name_b);
    lemma_number(r, rows_a as nat, a2, rows_b as nat, b2);
    lemma_number(c, cols_a as nat, a3, cols_b as nat, b3);
    transcript::law_messages_cannot_collide(encode_utf8(t), root_a, after_a, root_b, after_b);
}

// ---------------------------------------------------------------
// Buses
// ---------------------------------------------------------------

/// The names of a list's entries can be absorbed: their lengths fit.
pub open spec fn names_fit<T>(entries: Seq<(String, T)>) -> bool {
    &&& entries.len() <= u64::MAX
    &&& forall|i: int|
        0 <= i < entries.len() ==> encode_utf8((#[trigger] entries[i]).0@).len() <= u64::MAX
}

/// The same names with the same values.
pub open spec fn same_entries<T>(a: Seq<(String, T)>, b: Seq<(String, T)>) -> bool {
    &&& a.len() == b.len()
    &&& forall|i: int| #![trigger a[i], b[i]]
        0 <= i < a.len() ==> a[i].0@ == b[i].0@ && a[i].1 == b[i].1
}

proof fn lemma_values_first<F: TowerField>(
    id: Seq<char>,
    value: Seq<char>,
    entries: Seq<(String, F)>,
)
    requires
        entries.len() > 0,
    ensures
        protocol::bus_values(id, value, entries) == protocol::bus_value(id, value, entries[0])
            + protocol::bus_values(id, value, entries.skip(1)),
    decreases entries.len(),
{
    let rest = entries.skip(1);
    if entries.len() == 1 {
        assert(protocol::bus_values(id, value, entries.drop_last()) =~= Seq::<u8>::empty());
        assert(protocol::bus_values(id, value, rest) =~= Seq::<u8>::empty());
        assert(protocol::bus_values(id, value, entries) =~= protocol::bus_value(
            id,
            value,
            entries[0],
        ) + protocol::bus_values(id, value, rest));
    } else {
        lemma_values_first(id, value, entries.drop_last());
        assert(entries.drop_last().skip(1) =~= rest.drop_last());
        assert(rest.last() == entries.last());
        assert(protocol::bus_values(id, value, entries) =~= protocol::bus_value(
            id,
            value,
            entries[0],
        ) + protocol::bus_values(id, value, rest));
    }
}

proof fn lemma_values_bind<F: TowerField>(
    id: Seq<char>,
    value: Seq<char>,
    a: Seq<(String, F)>,
    after_a: Seq<u8>,
    b: Seq<(String, F)>,
    after_b: Seq<u8>,
)
    requires
        names_fit(a),
        names_fit(b),
        a.len() == b.len(),
        protocol::bus_values(id, value, a) + after_a == protocol::bus_values(id, value, b)
            + after_b,
    ensures
        same_entries(a, b),
        after_a == after_b,
    decreases a.len(),
{
    if a.len() == 0 {
        assert(protocol::bus_values(id, value, a) + after_a =~= after_a);
        assert(protocol::bus_values(id, value, b) + after_b =~= after_b);
    } else {
        lemma_values_first(id, value, a);
        lemma_values_first(id, value, b);
        let (ra, rb) = (
            protocol::bus_values(id, value, a.skip(1)) + after_a,
            protocol::bus_values(id, value, b.skip(1)) + after_b,
        );
        let (va, vb) = (
            transcript::labelled(encode_utf8(value), a[0].1) + ra,
            transcript::labelled(encode_utf8(value), b[0].1) + rb,
        );
        lemma_regroup(
            transcript::framed(encode_utf8(id), encode_utf8(a[0].0@)),
            transcript::labelled(encode_utf8(value), a[0].1),
            protocol::bus_values(id, value, a.skip(1)),
            Seq::empty(),
            after_a,
        );
        lemma_regroup(
            transcript::framed(encode_utf8(id), encode_utf8(b[0].0@)),
            transcript::labelled(encode_utf8(value), b[0].1),
            protocol::bus_values(id, value, b.skip(1)),
            Seq::empty(),
            after_b,
        );
        transcript::law_messages_cannot_collide(
            encode_utf8(id),
            encode_utf8(a[0].0@),
            va,
            encode_utf8(b[0].0@),
            vb,
        );
        law_names_are_told_apart(a[0].0@, b[0].0@);
        law_elements_cannot_collide(encode_utf8(value), a[0].1, ra, b[0].1, rb);
        let (x, y) = (a.skip(1), b.skip(1));
        lemma_values_bind(id, value, x, after_a, y, after_b);
        assert forall|i: int| #![trigger a[i], b[i]]
            0 <= i < a.len() implies a[i].0@ == b[i].0@ && a[i].1 == b[i].1 by {
            if i > 0 {
                assert(x[i - 1] == a[i] && y[i - 1] == b[i]);
            }
        }
    }
}

/// Claimed sums are absorbed one after the other, behind their number: one more
/// bus adds its name and then its sum at the end.
pub proof fn law_claims_in_order<F: TowerField>(entries: Seq<(String, F)>, e: (String, F))
    ensures
        ({
            let n = encode_utf8("logup_claim_count"@).len() as int + 8;
            let (x, y) = (protocol::claims(entries), protocol::claims(entries.push(e)));
            &&& x.take(n) == encode_utf8("logup_claim_count"@) + bytes::le_bytes(entries.len(), 8)
            &&& entries.len() == 0 ==> x.len() == n
            &&& y.skip(n) == x.skip(n) + transcript::framed(
                encode_utf8("logup_claim_bus_id"@),
                encode_utf8(e.0@),
            ) + transcript::labelled(encode_utf8("logup_claim_sum"@), e.1)
        }),
{
    let n = encode_utf8("logup_claim_count"@).len() as int + 8;
    let (x, y) = (protocol::claims(entries), protocol::claims(entries.push(e)));
    bytes::lemma_le_bytes_len(entries.len(), 8);
    bytes::lemma_le_bytes_len(entries.len() + 1, 8);
    assert(entries.push(e).drop_last() =~= entries);
    let p = encode_utf8("logup_claim_count"@) + bytes::le_bytes(entries.len(), 8);
    let q = encode_utf8("logup_claim_count"@) + bytes::le_bytes(entries.len() + 1, 8);
    let old = protocol::bus_values("logup_claim_bus_id"@, "logup_claim_sum"@, entries);
    let one = transcript::framed(encode_utf8("logup_claim_bus_id"@), encode_utf8(e.0@)) + transcript::labelled(encode_utf8("logup_claim_sum"@), e.1);
    assert(x =~= p + old);
    assert(x.take(n) =~= p);
    assert(x.skip(n) =~= old);
    assert(y =~= q + (old + one));
    assert(y.skip(n) =~= old + one);
    assert(old + one =~= old + transcript::framed(
        encode_utf8("logup_claim_bus_id"@),
        encode_utf8(e.0@),
    ) + transcript::labelled(encode_utf8("logup_claim_sum"@), e.1));
}

/// Evaluations are absorbed one after the other, behind their number: one more
/// bus adds its name and then its evaluation at the end.
pub proof fn law_evaluations_in_order<F: TowerField>(entries: Seq<(String, F)>, e: (String, F))
    ensures
        ({
            let n = encode_utf8("logup_h_count"@).len() as int + 8;
            let (x, y) = (protocol::evaluations(entries), protocol::evaluations(entries.push(e)));
            &&& x.take(n) == encode_utf8("logup_h_count"@) + bytes::le_bytes(entries.len(), 8)
            &&& entries.len() == 0 ==> x.len() == n
            &&& y.skip(n) == x.skip(n) + transcript::framed(
                encode_utf8("logup_h_bus_id"@),
                encode_utf8(e.0@),
            ) + transcript::labelled(encode_utf8("logup_h_eval"@), e.1)
        }),
{
    let n = encode_utf8("logup_h_count"@).len() as int + 8;
    let (x, y) = (protocol::evaluations(entries), protocol::evaluations(entries.push(e)));
    bytes::lemma_le_bytes_len(entries.len(), 8);
    bytes::lemma_le_bytes_len(entries.len() + 1, 8);
    assert(entries.push(e).drop_last() =~= entries);
    let p = encode_utf8("logup_h_count"@) + bytes::le_bytes(entries.len(), 8);
    let q = encode_utf8("logup_h_count"@) + bytes::le_bytes(entries.len() + 1, 8);
    let old = protocol::bus_values("logup_h_bus_id"@, "logup_h_eval"@, entries);
    let one = transcript::framed(encode_utf8("logup_h_bus_id"@), encode_utf8(e.0@)) + transcript::labelled(encode_utf8("logup_h_eval"@), e.1);
    assert(x =~= p + old);
    assert(x.take(n) =~= p);
    assert(x.skip(n) =~= old);
    assert(y =~= q + (old + one));
    assert(y.skip(n) =~= old + one);
    assert(old + one =~= old + transcript::framed(
        encode_utf8("logup_h_bus_id"@),
        encode_utf8(e.0@),
    ) + transcript::labelled(encode_utf8("logup_h_eval"@), e.1));
}

/// Heights are absorbed one after the other, behind their number: one more bus
/// adds its name and then its height at the end.
pub proof fn law_heights_in_order(entries: Seq<(String, u64)>, e: (String, u64))
    ensures
        ({
            let n = encode_utf8("lookup_bus_count"@).len() as int + 8;
            let (x, y) = (protocol::heights(entries), protocol::heights(entries.push(e)));
            &&& x.take(n) == encode_utf8("lookup_bus_count"@) + bytes::le_bytes(entries.len(), 8)
            &&& entries.len() == 0 ==> x.len() == n
            &&& y.skip(n) == x.skip(n) + transcript::framed(
                encode_utf8("lookup_bus_id"@),
                encode_utf8(e.0@),
            ) + transcript::numbered(encode_utf8("lookup_bus_n_max"@), e.1)
        }),
{
    let n = encode_utf8("lookup_bus_count"@).len() as int + 8;
    let (x, y) = (protocol::heights(entries), protocol::heights(entries.push(e)));
    bytes::lemma_le_bytes_len(entries.len(), 8);
    bytes::lemma_le_bytes_len(entries.len() + 1, 8);
    assert(entries.push(e).drop_last() =~= entries);
    let p = encode_utf8("lookup_bus_count"@) + bytes::le_bytes(entries.len(), 8);
    let q = encode_utf8("lookup_bus_count"@) + bytes::le_bytes(entries.len() + 1, 8);
    let old = protocol::bus_heights(entries);
    let one = transcript::framed(encode_utf8("lookup_bus_id"@), encode_utf8(e.0@)) + transcript::numbered(encode_utf8("lookup_bus_n_max"@), e.1);
    assert(x =~= p + old);
    assert(x.take(n) =~= p);
    assert(x.skip(n) =~= old);
    assert(y =~= q + (old + one));
    assert(y.skip(n) =~= old + one);
    assert(old + one =~= old + transcript::framed(
        encode_utf8("lookup_bus_id"@),
        encode_utf8(e.0@),
    ) + transcript::numbered(encode_utf8("lookup_bus_n_max"@), e.1));
}

/// A header is absorbed as its name, its rows, its columns and its root, in that
/// order, each under its label.
pub proof fn law_header_in_order(name: Seq<char>, rows: u64, cols: u64, root: Seq<u8>)
    ensures
        protocol::header(name, rows as nat, cols as nat, root) == transcript::framed(
            encode_utf8("chiplet_name"@),
            encode_utf8(name),
        ) + transcript::numbered(encode_utf8("chiplet_num_rows"@), rows) + transcript::numbered(
            encode_utf8("chiplet_num_cols"@),
            cols,
        ) + transcript::framed(encode_utf8("chiplet_root"@), root),
{
}

/// The claimed sums absorbed determine the buses and their sums, in order, and
/// what follows.
pub proof fn law_claims_bind<F: TowerField>(
    a: Seq<(String, F)>,
    after_a: Seq<u8>,
    b: Seq<(String, F)>,
    after_b: Seq<u8>,
)
    requires
        names_fit(a),
        names_fit(b),
        protocol::claims(a) + after_a == protocol::claims(b) + after_b,
    ensures
        same_entries(a, b),
        after_a == after_b,
{
    let (id, value) = ("logup_claim_bus_id"@, "logup_claim_sum"@);
    let (x, y) = (
        protocol::bus_values(id, value, a) + after_a,
        protocol::bus_values(id, value, b) + after_b,
    );
    let count = "logup_claim_count"@;
    assert(protocol::claims(a) + after_a =~= protocol::number(count, a.len()) + x);
    assert(protocol::claims(b) + after_b =~= protocol::number(count, b.len()) + y);
    lemma_number(count, a.len(), x, b.len(), y);
    lemma_values_bind(id, value, a, after_a, b, after_b);
}

/// The evaluations absorbed determine the buses and their evaluations, in
/// order, and what follows.
pub proof fn law_evaluations_bind<F: TowerField>(
    a: Seq<(String, F)>,
    after_a: Seq<u8>,
    b: Seq<(String, F)>,
    after_b: Seq<u8>,
)
    requires
        names_fit(a),
        names_fit(b),
        protocol::evaluations(a) + after_a == protocol::evaluations(b) + after_b,
    ensures
        same_entries(a, b),
        after_a == after_b,
{
    let (id, value) = ("logup_h_bus_id"@, "logup_h_eval"@);
    let (x, y) = (
        protocol::bus_values(id, value, a) + after_a,
        protocol::bus_values(id, value, b) + after_b,
    );
    let count = "logup_h_count"@;
    assert(protocol::evaluations(a) + after_a =~= protocol::number(count, a.len()) + x);
    assert(protocol::evaluations(b) + after_b =~= protocol::number(count, b.len()) + y);
    lemma_number(count, a.len(), x, b.len(), y);
    lemma_values_bind(id, value, a, after_a, b, after_b);
}

proof fn lemma_heights_first(entries: Seq<(String, u64)>)
    requires
        entries.len() > 0,
    ensures
        protocol::bus_heights(entries) == protocol::message(
            "lookup_bus_id"@,
            encode_utf8(entries[0].0@),
        ) + protocol::number("lookup_bus_n_max"@, entries[0].1 as nat) + protocol::bus_heights(
            entries.skip(1),
        ),
    decreases entries.len(),
{
    let rest = entries.skip(1);
    let first = protocol::message("lookup_bus_id"@, encode_utf8(entries[0].0@))
        + protocol::number("lookup_bus_n_max"@, entries[0].1 as nat);
    if entries.len() == 1 {
        assert(protocol::bus_heights(entries.drop_last()) =~= Seq::<u8>::empty());
        assert(protocol::bus_heights(rest) =~= Seq::<u8>::empty());
        assert(protocol::bus_heights(entries) =~= first + protocol::bus_heights(rest));
    } else {
        lemma_heights_first(entries.drop_last());
        assert(entries.drop_last().skip(1) =~= rest.drop_last());
        assert(rest.last() == entries.last());
        assert(protocol::bus_heights(entries) =~= first + protocol::bus_heights(rest));
    }
}

proof fn lemma_heights_bind(
    a: Seq<(String, u64)>,
    after_a: Seq<u8>,
    b: Seq<(String, u64)>,
    after_b: Seq<u8>,
)
    requires
        names_fit(a),
        names_fit(b),
        a.len() == b.len(),
        protocol::bus_heights(a) + after_a == protocol::bus_heights(b) + after_b,
    ensures
        same_entries(a, b),
        after_a == after_b,
    decreases a.len(),
{
    if a.len() == 0 {
        assert(protocol::bus_heights(a) + after_a =~= after_a);
        assert(protocol::bus_heights(b) + after_b =~= after_b);
    } else {
        let (id, n_max) = ("lookup_bus_id"@, "lookup_bus_n_max"@);
        lemma_heights_first(a);
        lemma_heights_first(b);
        let (ra, rb) = (
            protocol::bus_heights(a.skip(1)) + after_a,
            protocol::bus_heights(b.skip(1)) + after_b,
        );
        let (va, vb) = (
            protocol::number(n_max, a[0].1 as nat) + ra,
            protocol::number(n_max, b[0].1 as nat) + rb,
        );
        lemma_regroup(
            protocol::message(id, encode_utf8(a[0].0@)),
            protocol::number(n_max, a[0].1 as nat),
            protocol::bus_heights(a.skip(1)),
            Seq::empty(),
            after_a,
        );
        lemma_regroup(
            protocol::message(id, encode_utf8(b[0].0@)),
            protocol::number(n_max, b[0].1 as nat),
            protocol::bus_heights(b.skip(1)),
            Seq::empty(),
            after_b,
        );
        transcript::law_messages_cannot_collide(
            encode_utf8(id),
            encode_utf8(a[0].0@),
            va,
            encode_utf8(b[0].0@),
            vb,
        );
        law_names_are_told_apart(a[0].0@, b[0].0@);
        lemma_number(n_max, a[0].1 as nat, ra, b[0].1 as nat, rb);
        let (x, y) = (a.skip(1), b.skip(1));
        lemma_heights_bind(x, after_a, y, after_b);
        assert forall|i: int| #![trigger a[i], b[i]]
            0 <= i < a.len() implies a[i].0@ == b[i].0@ && a[i].1 == b[i].1 by {
            if i > 0 {
                assert(x[i - 1] == a[i] && y[i - 1] == b[i]);
            }
        }
    }
}

/// The heights absorbed determine the lookup buses and their heights, in
/// order, and what follows.
pub proof fn law_heights_bind(
    a: Seq<(String, u64)>,
    after_a: Seq<u8>,
    b: Seq<(String, u64)>,
    after_b: Seq<u8>,
)
    requires
        names_fit(a),
        names_fit(b),
        protocol::heights(a) + after_a == protocol::heights(b) + after_b,
    ensures
        same_entries(a, b),
        after_a == after_b,
{
    let (x, y) = (protocol::bus_heights(a) + after_a, protocol::bus_heights(b) + after_b);
    let count = "lookup_bus_count"@;
    assert(protocol::heights(a) + after_a =~= protocol::number(count, a.len()) + x);
    assert(protocol::heights(b) + after_b =~= protocol::number(count, b.len()) + y);
    lemma_number(count, a.len(), x, b.len(), y);
    lemma_heights_bind(a, after_a, b, after_b);
}

// ---------------------------------------------------------------
// Kinds
// ---------------------------------------------------------------

/// Every kind of message starts with a label of its own, so that none can be
/// taken for another, whatever follows.
pub proof fn law_kinds_are_told_apart<F: TowerField>(
    name: Seq<char>,
    rows: nat,
    cols: nat,
    root: Seq<u8>,
    sums: Seq<(String, F)>,
    evals: Seq<(String, F)>,
    buses: Seq<(String, u64)>,
    w: Seq<u8>,
    x: Seq<u8>,
    y: Seq<u8>,
    z: Seq<u8>,
)
    ensures
        encode_utf8("chiplet_name"@).is_prefix_of(protocol::header(name, rows, cols, root)),
        encode_utf8("logup_claim_count"@).is_prefix_of(protocol::claims(sums)),
        encode_utf8("logup_h_count"@).is_prefix_of(protocol::evaluations(evals)),
        encode_utf8("lookup_bus_count"@).is_prefix_of(protocol::heights(buses)),
        protocol::header(name, rows, cols, root) + w != protocol::claims(sums) + x,
        protocol::header(name, rows, cols, root) + w != protocol::evaluations(evals) + y,
        protocol::header(name, rows, cols, root) + w != protocol::heights(buses) + z,
        protocol::claims(sums) + x != protocol::evaluations(evals) + y,
        protocol::claims(sums) + x != protocol::heights(buses) + z,
        protocol::evaluations(evals) + y != protocol::heights(buses) + z,
{
    reveal_strlit("chiplet_name");
    reveal_strlit("logup_claim_count");
    reveal_strlit("logup_h_count");
    reveal_strlit("lookup_bus_count");
    let (a, b, c, d) = (
        "chiplet_name"@,
        "logup_claim_count"@,
        "logup_h_count"@,
        "lookup_bus_count"@,
    );
    is_ascii_chars_encode_utf8(a);
    is_ascii_chars_encode_utf8(b);
    is_ascii_chars_encode_utf8(c);
    is_ascii_chars_encode_utf8(d);
    let h = protocol::header(name, rows, cols, root);
    let (p, q, r) = (protocol::claims(sums), protocol::evaluations(evals), protocol::heights(buses));
    assert(h.take(a.len() as int) =~= encode_utf8(a));
    assert(p.take(b.len() as int) =~= encode_utf8(b));
    assert(q.take(c.len() as int) =~= encode_utf8(c));
    assert(r.take(d.len() as int) =~= encode_utf8(d));
    assert(a[0] == 'c' && b[0] == 'l' && c[0] == 'l' && d[0] == 'l');
    assert(b[2] == 'g' && c[2] == 'g' && d[2] == 'o');
    assert(b[6] == 'c' && c[6] == 'h');
    assert((h + w)[0] == encode_utf8(a)[0]);
    assert((p + x)[0] == encode_utf8(b)[0] && (p + x)[2] == encode_utf8(b)[2] && (p + x)[6]
        == encode_utf8(b)[6]);
    assert((q + y)[0] == encode_utf8(c)[0] && (q + y)[2] == encode_utf8(c)[2] && (q + y)[6]
        == encode_utf8(c)[6]);
    assert((r + z)[0] == encode_utf8(d)[0] && (r + z)[2] == encode_utf8(d)[2]);
}

// ---------------------------------------------------------------
// Draws
// ---------------------------------------------------------------

/// The string whose hash gives coordinate `k` of a bus's point.
pub open spec fn drawn_from<H: Hasher>(before: Seq<u8>, k: nat) -> Seq<u8> {
    protocol::after_draws::<H>(before, k) + encode_utf8("r_bus"@)
}

/// Every coordinate is drawn from a string of its own: it starts with what was
/// absorbed before the point, it goes on with the string of the coordinate
/// before and that coordinate's hash, and it ends with the label. Strings of
/// different coordinates have different lengths.
pub proof fn law_coordinates_chain<F: TowerField, H: Hasher>(before: Seq<u8>, k: nat)
    ensures
        protocol::coordinate::<F, H>(before, k) == bytes::le_value(
            H::hash(drawn_from::<H>(before, k))@.take(F::width() as int),
        ),
        drawn_from::<H>(before, 0) == before + encode_utf8("r_bus"@),
        drawn_from::<H>(before, k + 1) == drawn_from::<H>(before, k) + H::hash(
            drawn_from::<H>(before, k),
        )@ + encode_utf8("r_bus"@),
        drawn_from::<H>(before, k).len() == before.len() + 37 * k + 5,
    decreases k,
{
    reveal_strlit("r_bus");
    is_ascii_chars_encode_utf8("r_bus"@);
    if k > 0 {
        law_coordinates_chain::<F, H>(before, (k - 1) as nat);
    }
}

/// The draws for a bus start from all that was absorbed before and from its
/// name, and what is absorbed for a bus stays for all later ones.
pub proof fn law_buses_chain<H: Hasher>(before: Seq<u8>, entries: Seq<(String, u64)>, n: nat)
    requires
        n < entries.len(),
    ensures
        before.is_prefix_of(protocol::after_buses::<H>(before, entries, n)),
        (protocol::after_buses::<H>(before, entries, n) + transcript::framed(
            encode_utf8("lookup_bus_id"@),
            encode_utf8(entries[n as int].0@),
        )).is_prefix_of(protocol::after_buses::<H>(before, entries, n + 1)),
        protocol::after_buses::<H>(before, entries, n + 1).len() == protocol::after_buses::<H>(
            before,
            entries,
            n,
        ).len() + 13 + 8 + encode_utf8(entries[n as int].0@).len() + 37 * protocol::bus_vars(
            entries[n as int],
        ),
    decreases n,
{
    reveal_strlit("lookup_bus_id");
    is_ascii_chars_encode_utf8("lookup_bus_id"@);
    let id = encode_utf8(entries[n as int].0@);
    let here = protocol::after_buses::<H>(before, entries, n);
    let named = here + transcript::framed(encode_utf8("lookup_bus_id"@), id);
    bytes::lemma_le_bytes_len(id.len(), 8);
    lemma_draws_extend::<H>(named, protocol::bus_vars(entries[n as int]));
    if n == 0 {
        assert(before.take(before.len() as int) =~= before);
    } else {
        law_buses_chain::<H>(before, entries, (n - 1) as nat);
        let prior = protocol::after_buses::<H>(before, entries, (n - 1) as nat);
        assert(here.take(before.len() as int) =~= prior.take(before.len() as int));
    }
}

proof fn lemma_draws_extend<H: Hasher>(before: Seq<u8>, k: nat)
    ensures
        before.is_prefix_of(protocol::after_draws::<H>(before, k)),
        protocol::after_draws::<H>(before, k).len() == before.len() + 37 * k,
    decreases k,
{
    reveal_strlit("r_bus");
    is_ascii_chars_encode_utf8("r_bus"@);
    if k == 0 {
        assert(before.take(before.len() as int) =~= before);
    } else {
        lemma_draws_extend::<H>(before, (k - 1) as nat);
        let prior = protocol::after_draws::<H>(before, (k - 1) as nat);
        assert(protocol::after_draws::<H>(before, k).take(before.len() as int) =~= prior.take(
            before.len() as int,
        ));
    }
}

/// The point under a name is the one drawn for the last bus of that name; it
/// has as many coordinates as the height has bits above the lowest, and there
/// is no point under another name.
pub proof fn law_points_by_name<F: TowerField, H: Hasher>(
    before: Seq<u8>,
    entries: Seq<(String, u64)>,
    n: nat,
    i: int,
)
    requires
        protocol::heights_ok(entries),
        0 <= i < n <= entries.len(),
        forall|j: int| i < j < n ==> (#[trigger] entries[j]).0@ != entries[i].0@,
    ensures
        ({
            let points = protocol::bus_points::<F, H>(before, entries, n);
            let start = protocol::after_buses::<H>(before, entries, i as nat)
                + transcript::framed(encode_utf8("lookup_bus_id"@), encode_utf8(entries[i].0@));
            &&& points.dom().contains(entries[i].0@)
            &&& pow2(points[entries[i].0@].len()) == entries[i].1
            &&& forall|k: nat| #![trigger points[entries[i].0@][k as int]]
                k < points[entries[i].0@].len() ==> points[entries[i].0@][k as int]
                    == bytes::le_value(
                    H::hash(drawn_from::<H>(start, k))@.take(F::width() as int),
                )
            &&& forall|name: Seq<char>| #[trigger]
                points.dom().contains(name) ==> exists|j: int|
                    0 <= j < n && (#[trigger] entries[j]).0@ == name
        }),
    decreases n,
{
    let points = protocol::bus_points::<F, H>(before, entries, n);
    let m = (n - 1) as nat;
    lemma_point_names::<F, H>(before, entries, n);
    if i == m {
        assert(bits::is_power_of_two(entries[i].1 as nat));
        let k = choose|k: nat| entries[i].1 as nat == #[trigger] pow2(k);
        lemma_pow2_unfold(k + 1);
        lemma_pow2_pos(k);
        bits::lemma_floor_log2_unique(entries[i].1 as nat, k);
    } else {
        law_points_by_name::<F, H>(before, entries, m, i);
        assert(entries[m as int].0@ != entries[i].0@);
    }
}

proof fn lemma_point_names<F: TowerField, H: Hasher>(
    before: Seq<u8>,
    entries: Seq<(String, u64)>,
    n: nat,
)
    requires
        n <= entries.len(),
    ensures
        forall|name: Seq<char>| #[trigger]
            protocol::bus_points::<F, H>(before, entries, n).dom().contains(name) ==> exists|j: int|
                0 <= j < n && (#[trigger] entries[j]).0@ == name,
    decreases n,
{
    if n > 0 {
        let m = (n - 1) as nat;
        lemma_point_names::<F, H>(before, entries, m);
        let points = protocol::bus_points::<F, H>(before, entries, n);
        assert forall|name: Seq<char>| #[trigger] points.dom().contains(name) implies exists|j: int|
            0 <= j < n && (#[trigger] entries[j]).0@ == name by {
            if name == entries[m as int].0@ {
                assert(0 <= m < n);
            } else {
                assert(protocol::bus_points::<F, H>(before, entries, m).dom().contains(name));
                let j = choose|j: int| 0 <= j < m && (#[trigger] entries[j]).0@ == name;
                assert(entries[j].0@ == name);
            }
        }
    }
}

// ---------------------------------------------------------------
// The record
// ---------------------------------------------------------------

/// `op` takes what has been absorbed from `before` to `after`; the digest it
/// holds is that of the bytes behind its label.
pub open spec fn absorbs<H: Hasher>(op: Op, before: Seq<u8>, after: Seq<u8>) -> bool {
    match op {
        Op::AppendMessage { label, digest } => exists|m: Seq<u8>|
            digest == #[trigger] hashers::digest::<H>(m) && after == before + transcript::framed(
                label,
                m,
            ),
        Op::AppendU64 { label, value } => after == before + transcript::numbered(label, value),
        Op::AppendField { label, digest } => exists|m: Seq<u8>|
            digest == #[trigger] hashers::digest::<H>(m) && after == before + (label + m),
        Op::AppendFieldList { label, count, digest } => exists|m: Seq<u8>|
            digest == #[trigger] hashers::digest::<H>(m) && after == before + (
            transcript::numbered(label, count) + m),
        Op::ChallengeField { label } => after == transcript::after_challenge::<H>(before, label),
    }
}

/// The operations, one after the other, take what has been absorbed from
/// `before` to `after`.
pub open spec fn records<H: Hasher>(ops: Seq<Op>, before: Seq<u8>, after: Seq<u8>) -> bool
    decreases ops.len(),
{
    if ops.len() == 0 {
        after == before
    } else {
        exists|mid: Seq<u8>|
            records::<H>(ops.drop_last(), before, mid) && #[trigger] absorbs::<H>(
                ops.last(),
                mid,
                after,
            )
    }
}

proof fn lemma_record_push<H: Hasher>(
    ops: Seq<Op>,
    op: Op,
    before: Seq<u8>,
    mid: Seq<u8>,
    after: Seq<u8>,
)
    requires
        records::<H>(ops, before, mid),
        absorbs::<H>(op, mid, after),
    ensures
        records::<H>(ops.push(op), before, after),
{
    assert(ops.push(op).drop_last() =~= ops);
    assert(absorbs::<H>(ops.push(op).last(), mid, after));
}

proof fn lemma_record_append<H: Hasher>(
    first: Seq<Op>,
    second: Seq<Op>,
    before: Seq<u8>,
    mid: Seq<u8>,
    after: Seq<u8>,
)
    requires
        records::<H>(first, before, mid),
        records::<H>(second, mid, after),
    ensures
        records::<H>(first + second, before, after),
    decreases second.len(),
{
    if second.len() == 0 {
        assert(first + second =~= first);
    } else {
        let x = choose|x: Seq<u8>|
            records::<H>(second.drop_last(), mid, x) && #[trigger] absorbs::<H>(
                second.last(),
                x,
                after,
            );
        lemma_record_append::<H>(first, second.drop_last(), before, mid, x);
        assert((first + second).drop_last() =~= first + second.drop_last());
        assert((first + second).last() == second.last());
    }
}

/// What is recorded of a header is what is absorbed of it.
pub proof fn law_header_is_recorded<H: Hasher>(
    name: Seq<char>,
    rows: u64,
    cols: u64,
    root: Seq<u8>,
    before: Seq<u8>,
)
    ensures
        records::<H>(
            protocol::header_ops::<H>(name, rows, cols, root),
            before,
            before + protocol::header(name, rows as nat, cols as nat, root),
        ),
{
    let ops = protocol::header_ops::<H>(name, rows, cols, root);
    let (m0, m1, m2, m3) = (
        protocol::message("chiplet_name"@, encode_utf8(name)),
        protocol::number("chiplet_num_rows"@, rows as nat),
        protocol::number("chiplet_num_cols"@, cols as nat),
        protocol::message("chiplet_root"@, root),
    );
    let e = Seq::<Op>::empty();
    let (a, b, c) = (before + m0, before + m0 + m1, before + m0 + m1 + m2);
    assert(ops[0]->AppendMessage_digest == hashers::digest::<H>(encode_utf8(name)));
    assert(absorbs::<H>(ops[0], before, a));
    assert(absorbs::<H>(ops[1], a, b));
    assert(absorbs::<H>(ops[2], b, c));
    assert(ops[3]->AppendMessage_digest == hashers::digest::<H>(root));
    assert(absorbs::<H>(ops[3], c, c + m3));
    lemma_record_push::<H>(e, ops[0], before, before, a);
    lemma_record_push::<H>(e.push(ops[0]), ops[1], before, a, b);
    lemma_record_push::<H>(e.push(ops[0]).push(ops[1]), ops[2], before, b, c);
    lemma_record_push::<H>(e.push(ops[0]).push(ops[1]).push(ops[2]), ops[3], before, c, c + m3);
    assert(ops =~= e.push(ops[0]).push(ops[1]).push(ops[2]).push(ops[3]));
    assert(before + protocol::header(name, rows as nat, cols as nat, root) =~= c + m3);
}

proof fn lemma_count_is_recorded<H: Hasher>(label: Seq<char>, count: nat, before: Seq<u8>)
    requires
        count <= u64::MAX,
    ensures
        records::<H>(
            protocol::count_op(label, count),
            before,
            before + protocol::number(label, count),
        ),
{
    let ops = protocol::count_op(label, count);
    let e = Seq::<Op>::empty();
    assert(absorbs::<H>(ops[0], before, before + protocol::number(label, count)));
    lemma_record_push::<H>(e, ops[0], before, before, before + protocol::number(label, count));
    assert(ops =~= e.push(ops[0]));
}

proof fn lemma_values_are_recorded<F: TowerField, H: Hasher>(
    id: Seq<char>,
    value: Seq<char>,
    entries: Seq<(String, F)>,
    before: Seq<u8>,
)
    ensures
        records::<H>(
            protocol::bus_value_ops::<F, H>(id, value, entries),
            before,
            before + protocol::bus_values(id, value, entries),
        ),
    decreases entries.len(),
{
    if entries.len() == 0 {
        assert(before + protocol::bus_values(id, value, entries) =~= before);
    } else {
        let head = entries.drop_last();
        let (name, x) = (encode_utf8(entries.last().0@), entries.last().1);
        lemma_values_are_recorded::<F, H>(id, value, head, before);
        let done = protocol::bus_value_ops::<F, H>(id, value, head);
        let ops = protocol::bus_value_ops::<F, H>(id, value, entries);
        let a = before + protocol::bus_values(id, value, head);
        let b = a + protocol::message(id, name);
        let raw = bytes::le_bytes(x.raw(), F::width());
        let c = b + (encode_utf8(value) + raw);
        let (p, q) = (ops[done.len() as int], ops[(done.len() + 1) as int]);
        assert(p->AppendMessage_digest == hashers::digest::<H>(name));
        assert(absorbs::<H>(p, a, b));
        assert(q->AppendField_digest == hashers::digest::<H>(raw));
        assert(absorbs::<H>(q, b, c));
        lemma_record_push::<H>(done, p, before, a, b);
        lemma_record_push::<H>(done.push(p), q, before, b, c);
        assert(ops =~= done.push(p).push(q));
        assert(before + protocol::bus_values(id, value, entries) =~= c);
    }
}

/// What is recorded of claimed sums and of evaluations is what is absorbed of
/// them.
pub proof fn law_buses_are_recorded<F: TowerField, H: Hasher>(
    entries: Seq<(String, F)>,
    before: Seq<u8>,
)
    requires
        entries.len() <= u64::MAX,
    ensures
        records::<H>(
            protocol::count_op("logup_claim_count"@, entries.len()) + protocol::bus_value_ops::<
                F,
                H,
            >("logup_claim_bus_id"@, "logup_claim_sum"@, entries),
            before,
            before + protocol::claims(entries),
        ),
        records::<H>(
            protocol::count_op("logup_h_count"@, entries.len()) + protocol::bus_value_ops::<F, H>(
                "logup_h_bus_id"@,
                "logup_h_eval"@,
                entries,
            ),
            before,
            before + protocol::evaluations(entries),
        ),
{
    lemma_listing_is_recorded::<F, H>(
        "logup_claim_count"@,
        "logup_claim_bus_id"@,
        "logup_claim_sum"@,
        entries,
        before,
    );
    lemma_listing_is_recorded::<F, H>(
        "logup_h_count"@,
        "logup_h_bus_id"@,
        "logup_h_eval"@,
        entries,
        before,
    );
}

proof fn lemma_listing_is_recorded<F: TowerField, H: Hasher>(
    count: Seq<char>,
    id: Seq<char>,
    value: Seq<char>,
    entries: Seq<(String, F)>,
    before: Seq<u8>,
)
    requires
        entries.len() <= u64::MAX,
    ensures
        records::<H>(
            protocol::count_op(count, entries.len()) + protocol::bus_value_ops::<F, H>(
                id,
                value,
                entries,
            ),
            before,
            before + (protocol::number(count, entries.len()) + protocol::bus_values(
                id,
                value,
                entries,
            )),
        ),
{
    let mid = before + protocol::number(count, entries.len());
    let end = mid + protocol::bus_values(id, value, entries);
    lemma_count_is_recorded::<H>(count, entries.len(), before);
    lemma_values_are_recorded::<F, H>(id, value, entries, mid);
    lemma_record_append::<H>(
        protocol::count_op(count, entries.len()),
        protocol::bus_value_ops::<F, H>(id, value, entries),
        before,
        mid,
        end,
    );
    assert(before + (protocol::number(count, entries.len()) + protocol::bus_values(
        id,
        value,
        entries,
    )) =~= end);
}

proof fn lemma_heights_are_recorded<H: Hasher>(entries: Seq<(String, u64)>, before: Seq<u8>)
    ensures
        records::<H>(
            protocol::height_ops::<H>(entries),
            before,
            before + protocol::bus_heights(entries),
        ),
    decreases entries.len(),
{
    if entries.len() == 0 {
        assert(before + protocol::bus_heights(entries) =~= before);
    } else {
        let head = entries.drop_last();
        let name = encode_utf8(entries.last().0@);
        lemma_heights_are_recorded::<H>(head, before);
        let done = protocol::height_ops::<H>(head);
        let ops = protocol::height_ops::<H>(entries);
        let a = before + protocol::bus_heights(head);
        let b = a + protocol::message("lookup_bus_id"@, name);
        let c = b + protocol::number("lookup_bus_n_max"@, entries.last().1 as nat);
        let (p, q) = (ops[done.len() as int], ops[(done.len() + 1) as int]);
        assert(p->AppendMessage_digest == hashers::digest::<H>(name));
        assert(absorbs::<H>(p, a, b));
        assert(absorbs::<H>(q, b, c));
        lemma_record_push::<H>(done, p, before, a, b);
        lemma_record_push::<H>(done.push(p), q, before, b, c);
        assert(ops =~= done.push(p).push(q));
        assert(before + protocol::bus_heights(entries) =~= c);
    }
}

proof fn lemma_draws_are_recorded<H: Hasher>(bus: Seq<char>, k: nat, before: Seq<u8>)
    ensures
        records::<H>(
            protocol::draw_ops::<H>(bus, k),
            before,
            protocol::after_draws::<H>(
                before + protocol::message("lookup_bus_id"@, encode_utf8(bus)),
                k,
            ),
        ),
    decreases k,
{
    let named = before + protocol::message("lookup_bus_id"@, encode_utf8(bus));
    let ops = protocol::draw_ops::<H>(bus, k);
    if k == 0 {
        let e = Seq::<Op>::empty();
        assert(ops[0]->AppendMessage_digest == hashers::digest::<H>(encode_utf8(bus)));
        assert(absorbs::<H>(ops[0], before, named));
        lemma_record_push::<H>(e, ops[0], before, before, named);
        assert(ops =~= e.push(ops[0]));
    } else {
        let m = (k - 1) as nat;
        lemma_draws_are_recorded::<H>(bus, m, before);
        let done = protocol::draw_ops::<H>(bus, m);
        let op = Op::ChallengeField { label: encode_utf8("r_bus"@) };
        let (x, y) = (
            protocol::after_draws::<H>(named, m),
            protocol::after_draws::<H>(named, k),
        );
        assert(absorbs::<H>(op, x, y));
        lemma_record_push::<H>(done, op, before, x, y);
        assert(ops =~= done.push(op));
    }
}

/// What is recorded of the lookup buses is what is absorbed of them: their
/// heights, then for every bus its name and the draws of its point.
pub proof fn law_lookups_are_recorded<H: Hasher>(
    entries: Seq<(String, u64)>,
    n: nat,
    before: Seq<u8>,
)
    requires
        n <= entries.len() <= u64::MAX,
    ensures
        records::<H>(
            protocol::count_op("lookup_bus_count"@, entries.len()) + protocol::height_ops::<H>(
                entries,
            ),
            before,
            before + protocol::heights(entries),
        ),
        records::<H>(
            protocol::bus_ops::<H>(entries, n),
            before,
            protocol::after_buses::<H>(before, entries, n),
        ),
    decreases n,
{
    let mid = before + protocol::number("lookup_bus_count"@, entries.len());
    let end = mid + protocol::bus_heights(entries);
    lemma_count_is_recorded::<H>("lookup_bus_count"@, entries.len(), before);
    lemma_heights_are_recorded::<H>(entries, mid);
    lemma_record_append::<H>(
        protocol::count_op("lookup_bus_count"@, entries.len()),
        protocol::height_ops::<H>(entries),
        before,
        mid,
        end,
    );
    assert(before + protocol::heights(entries) =~= end);
    if n > 0 {
        let m = (n - 1) as nat;
        law_lookups_are_recorded::<H>(entries, m, before);
        let x = protocol::after_buses::<H>(before, entries, m);
        let e = entries[m as int];
        lemma_draws_are_recorded::<H>(e.0@, protocol::bus_vars(e), x);
        lemma_record_append::<H>(
            protocol::bus_ops::<H>(entries, m),
            protocol::draw_ops::<H>(e.0@, protocol::bus_vars(e)),
            before,
            x,
            protocol::after_buses::<H>(before, entries, n),
        );
    }
}

} // verus!
