//! A Fiat-Shamir transcript: one continuous hash chain.

use vstd::arithmetic::power::*;
use vstd::prelude::*;
use vstd::utf8::*;

use crate::bytes;
use crate::field::TowerField;
use crate::hashers;
use crate::hashers::{DefaultHasher, Hasher};

verus! {

#[derive(Clone, Copy, Debug, PartialEq, Eq, Structural)]
pub enum Error {
    /// The field is wider than one hash, so that a challenge cannot be drawn
    /// from it.
    FieldTooLargeForChallenge { field_bytes: usize, max_entropy_bytes: usize },
}

/// One operation on a transcript. The two sides of a protocol perform the
/// same ones, or their challenges differ.
#[derive(Clone, Debug, PartialEq, Eq)]
pub enum TranscriptOp {
    AppendMessage { label: &'static [u8], digest: [u8; 32] },
    AppendU64 { label: &'static [u8], value: u64 },
    AppendField { label: &'static [u8], digest: [u8; 32] },
    AppendFieldList { label: &'static [u8], count: u64, digest: [u8; 32] },
    ChallengeField { label: &'static [u8] },
}

/// An operation, with its byte strings as sequences.
pub enum Op {
    AppendMessage { label: Seq<u8>, digest: Seq<u8> },
    AppendU64 { label: Seq<u8>, value: u64 },
    AppendField { label: Seq<u8>, digest: Seq<u8> },
    AppendFieldList { label: Seq<u8>, count: u64, digest: Seq<u8> },
    ChallengeField { label: Seq<u8> },
}

impl View for TranscriptOp {
    type V = Op;

    open spec fn view(&self) -> Op {
        match *self {
            TranscriptOp::AppendMessage { label, digest } => Op::AppendMessage {
                label: label@,
                digest: digest@,
            },
            TranscriptOp::AppendU64 { label, value } => Op::AppendU64 { label: label@, value },
            TranscriptOp::AppendField { label, digest } => Op::AppendField {
                label: label@,
                digest: digest@,
            },
            TranscriptOp::AppendFieldList { label, count, digest } => Op::AppendFieldList {
                label: label@,
                count,
                digest: digest@,
            },
            TranscriptOp::ChallengeField { label } => Op::ChallengeField { label: label@ },
        }
    }
}

/// The operations, with their byte strings as sequences.
pub open spec fn ops(trace: Seq<TranscriptOp>) -> Seq<Op> {
    trace.map_values(|op: TranscriptOp| op@)
}

/// What every transcript starts with.
pub open spec fn domain() -> Seq<u8> {
    encode_utf8("hekate-transcript-v1"@)
}

/// A labelled message as it is absorbed: the label, the length, the bytes.
pub open spec fn framed(label: Seq<u8>, message: Seq<u8>) -> Seq<u8> {
    label + bytes::le_bytes(message.len(), 8) + message
}

/// A labelled number as it is absorbed: the label, then eight bytes.
pub open spec fn numbered(label: Seq<u8>, value: u64) -> Seq<u8> {
    label + bytes::le_bytes(value as nat, 8)
}

/// A labelled field element as it is absorbed: the label, then its bytes.
pub open spec fn labelled<F: TowerField>(label: Seq<u8>, element: F) -> Seq<u8> {
    label + bytes::le_bytes(element.raw(), F::width())
}

/// A labelled list of field elements as it is absorbed: the label, the number
/// of elements, the elements.
pub open spec fn listed<F: TowerField>(label: Seq<u8>, elements: Seq<F>) -> Seq<u8> {
    label + bytes::le_bytes(elements.len(), 8) + element_bytes(elements)
}

/// What a new transcript has absorbed.
pub open spec fn opening(label: Seq<u8>) -> Seq<u8> {
    domain() + label
}

/// The string whose hash a challenge is.
pub open spec fn challenge_string(before: Seq<u8>, label: Seq<u8>) -> Seq<u8> {
    before + label
}

/// What has been absorbed after a challenge.
pub open spec fn after_challenge<H: Hasher>(before: Seq<u8>, label: Seq<u8>) -> Seq<u8> {
    challenge_string(before, label) + hashers::digest::<H>(challenge_string(before, label))
}

/// The bytes of a list of field elements, one after the other.
pub open spec fn element_bytes<F: TowerField>(elements: Seq<F>) -> Seq<u8>
    decreases elements.len(),
{
    if elements.len() == 0 {
        Seq::empty()
    } else {
        element_bytes(elements.drop_last()) + bytes::le_bytes(elements.last().raw(), F::width())
    }
}

/// A transcript. Inputs are absorbed by the running hash; a challenge is the
/// hash so far, which is absorbed in turn.
#[derive(Clone, Debug)]
pub struct Transcript<H: Hasher = DefaultHasher> {
    hasher: H,
    trace: Vec<TranscriptOp>,
}

impl<H: Hasher> Transcript<H> {
    /// Everything absorbed so far.
    pub closed spec fn absorbed(self) -> Seq<u8> {
        self.hasher.absorbed()
    }

    /// The operations recorded.
    pub closed spec fn recorded(self) -> Seq<TranscriptOp> {
        self.trace@
    }

    /// A transcript with a domain separator.
    pub fn new(label: &'static [u8]) -> (r: Self)
        ensures
            r.absorbed() == domain() + label@,
            r.absorbed() == opening(label@),
            r.recorded() == Seq::<TranscriptOp>::empty(),
    {
        let mut hasher = H::new();
        hasher.update("hekate-transcript-v1".as_bytes());
        hasher.update(label);
        proof {
            assert(hasher.absorbed() =~= domain() + label@);
        }
        Transcript { hasher, trace: Vec::new() }
    }

    /// Takes the recorded operations, and starts the record anew.
    pub fn take_trace(&mut self) -> (r: Vec<TranscriptOp>)
        ensures
            r@ == old(self).recorded(),
            final(self).recorded() == Seq::<TranscriptOp>::empty(),
            final(self).absorbed() == old(self).absorbed(),
    {
        let mut taken: Vec<TranscriptOp> = Vec::new();
        core::mem::swap(&mut taken, &mut self.trace);
        taken
    }

    /// The recorded operations.
    pub fn trace(&self) -> (r: &[TranscriptOp])
        ensures
            r@ == self.recorded(),
    {
        self.trace.as_slice()
    }

    /// Absorbs labelled bytes with their length.
    pub fn append_message(&mut self, label: &'static [u8], message: &[u8])
        ensures
            final(self).absorbed() == old(self).absorbed() + framed(label@, message@),
            ops(final(self).recorded()) == ops(old(self).recorded()).push(
                Op::AppendMessage { label: label@, digest: hashers::digest::<H>(message@) },
            ),
    {
        self.hasher.update(label);
        let len: Vec<u8> = bytes::to_le(message.len() as u128, 8);
        self.hasher.update(len.as_slice());
        self.hasher.update(message);
        let op = TranscriptOp::AppendMessage { label, digest: payload_digest::<H>(message) };
        proof {
            assert(self.hasher.absorbed() =~= old(self).absorbed() + framed(label@, message@));
            assert(ops(self.trace@.push(op)) =~= ops(self.trace@).push(op@));
        }
        self.trace.push(op);
    }

    /// Absorbs a number of the protocol's context.
    pub fn append_u64(&mut self, label: &'static [u8], value: u64)
        ensures
            final(self).absorbed() == old(self).absorbed() + (label@ + bytes::le_bytes(
                value as nat,
                8,
            )),
            final(self).absorbed() == old(self).absorbed() + numbered(label@, value),
            ops(final(self).recorded()) == ops(old(self).recorded()).push(
                Op::AppendU64 { label: label@, value },
            ),
    {
        self.hasher.update(label);
        let b: Vec<u8> = bytes::to_le(value as u128, 8);
        self.hasher.update(b.as_slice());
        let op = TranscriptOp::AppendU64 { label, value };
        proof {
            assert(self.hasher.absorbed() =~= old(self).absorbed() + (label@ + bytes::le_bytes(
                value as nat,
                8,
            )));
            assert(ops(self.trace@.push(op)) =~= ops(self.trace@).push(op@));
        }
        self.trace.push(op);
    }

    /// Absorbs a field element.
    pub fn append_field<F: TowerField>(&mut self, label: &'static [u8], element: F)
        ensures
            final(self).absorbed() == old(self).absorbed() + (label@ + bytes::le_bytes(
                element.raw(),
                F::width(),
            )),
            final(self).absorbed() == old(self).absorbed() + labelled(label@, element),
            ops(final(self).recorded()) == ops(old(self).recorded()).push(
                Op::AppendField {
                    label: label@,
                    digest: hashers::digest::<H>(bytes::le_bytes(element.raw(), F::width())),
                },
            ),
    {
        self.hasher.update(label);
        let b: Vec<u8> = element.to_bytes();
        self.hasher.update(b.as_slice());
        let op = TranscriptOp::AppendField { label, digest: payload_digest::<H>(b.as_slice()) };
        proof {
            assert(self.hasher.absorbed() =~= old(self).absorbed() + (label@ + bytes::le_bytes(
                element.raw(),
                F::width(),
            )));
            assert(ops(self.trace@.push(op)) =~= ops(self.trace@).push(op@));
        }
        self.trace.push(op);
    }

    /// Absorbs a list of field elements with its length.
    pub fn append_field_list<F: TowerField>(&mut self, label: &'static [u8], elements: &[F])
        ensures
            final(self).absorbed() == old(self).absorbed() + (label@ + bytes::le_bytes(
                elements@.len(),
                8,
            ) + element_bytes(elements@)),
            final(self).absorbed() == old(self).absorbed() + listed(label@, elements@),
            ops(final(self).recorded()) == ops(old(self).recorded()).push(
                Op::AppendFieldList {
                    label: label@,
                    count: elements@.len() as u64,
                    digest: hashers::digest::<H>(element_bytes(elements@)),
                },
            ),
    {
        self.hasher.update(label);
        let len: Vec<u8> = bytes::to_le(elements.len() as u128, 8);
        self.hasher.update(len.as_slice());
        let ghost head = self.hasher.absorbed();
        let mut digest_h = H::new();
        let mut i: usize = 0;
        proof {
            assert(elements@.take(0) =~= Seq::<F>::empty());
            assert(head + element_bytes(elements@.take(0)) =~= head);
        }
        while i < elements.len()
            invariant
                i <= elements@.len(),
                self.trace == old(self).trace,
                self.hasher.absorbed() == head + element_bytes(elements@.take(i as int)),
                digest_h.absorbed() == element_bytes(elements@.take(i as int)),
            decreases elements@.len() - i,
        {
            let b: Vec<u8> = elements[i].to_bytes();
            self.hasher.update(b.as_slice());
            digest_h.update(b.as_slice());
            proof {
                assert(elements@.take(i + 1).drop_last() =~= elements@.take(i as int));
                assert(self.hasher.absorbed() =~= head + element_bytes(elements@.take(i + 1)));
            }
            i = i + 1;
        }
        let op = TranscriptOp::AppendFieldList {
            label,
            count: elements.len() as u64,
            digest: digest_h.finalize(),
        };
        proof {
            assert(elements@.take(elements@.len() as int) =~= elements@);
            assert(self.hasher.absorbed() =~= old(self).absorbed() + (label@ + bytes::le_bytes(
                elements@.len(),
                8,
            ) + element_bytes(elements@)));
            assert(ops(self.trace@.push(op)) =~= ops(self.trace@).push(op@));
        }
        self.trace.push(op);
    }

    /// Draws a challenge: the hash of everything absorbed and of the label. It
    /// is absorbed, so that the next one depends on it.
    pub fn challenge_field<F: TowerField>(&mut self, label: &'static [u8]) -> (r: Result<F, Error>)
        ensures
            final(self).absorbed() == old(self).absorbed() + label@ + hashers::digest::<H>(
                old(self).absorbed() + label@,
            ),
            final(self).absorbed() == after_challenge::<H>(old(self).absorbed(), label@),
            ops(final(self).recorded()) == ops(old(self).recorded()).push(
                Op::ChallengeField { label: label@ },
            ),
            challenge_of(hashers::digest::<H>(old(self).absorbed() + label@), r),
            challenge_of(
                hashers::digest::<H>(challenge_string(old(self).absorbed(), label@)),
                r,
            ),
    {
        self.hasher.update(label);
        let challenge_hasher = self.hasher.fork();
        let result: [u8; 32] = challenge_hasher.finalize();
        self.hasher.update(&result);
        let op = TranscriptOp::ChallengeField { label };
        proof {
            assert(ops(self.trace@.push(op)) =~= ops(self.trace@).push(op@));
        }
        self.trace.push(op);
        bytes_to_field(&result)
    }
}

/// `r` is the challenge that a hash gives: its first bytes, where it has
/// enough of them.
pub open spec fn challenge_of<F: TowerField>(hash: Seq<u8>, r: Result<F, Error>) -> bool {
    match r {
        Ok(x) => F::width() <= 32 && x.raw() == bytes::le_value(hash.take(F::width() as int)),
        Err(e) => F::width() > 32 && e == (Error::FieldTooLargeForChallenge {
            field_bytes: F::width() as usize,
            max_entropy_bytes: 32,
        }),
    }
}

/// The field element whose bytes start a hash.
pub fn bytes_to_field<F: TowerField>(hash: &[u8; 32]) -> (r: Result<F, Error>)
    ensures
        challenge_of(hash@, r),
{
    let size: usize = F::size();
    if size > 32 {
        return Err(
            Error::FieldTooLargeForChallenge { field_bytes: size, max_entropy_bytes: 32 },
        );
    }
    let head: &[u8] = vstd::slice::slice_subrange(hash.as_slice(), 0, size);
    proof {
        assert(head@ =~= hash@.take(size as int));
    }
    Ok(F::from_le_bytes(head))
}

/// The hash of a byte string.
pub fn payload_digest<H: Hasher>(payload: &[u8]) -> (r: [u8; 32])
    ensures
        r@ == hashers::digest::<H>(payload@),
{
    let mut h = H::new();
    h.update(payload);
    proof {
        assert(h.absorbed() =~= payload@);
    }
    h.finalize()
}

// ---------------------------------------------------------------
// Laws
// ---------------------------------------------------------------

/// The length before a message keeps messages apart: where two messages under
/// one label are followed by anything, and the bytes absorbed are the same,
/// then so are the messages and what follows.
pub proof fn law_messages_cannot_collide(
    label: Seq<u8>,
    a: Seq<u8>,
    after_a: Seq<u8>,
    b: Seq<u8>,
    after_b: Seq<u8>,
)
    requires
        a.len() <= u64::MAX,
        b.len() <= u64::MAX,
        framed(label, a) + after_a == framed(label, b) + after_b,
    ensures
        a == b,
        after_a == after_b,
{
    let n = label.len() as int;
    let (x, y) = (framed(label, a) + after_a, framed(label, b) + after_b);
    bytes::lemma_le_bytes_len(a.len(), 8);
    bytes::lemma_le_bytes_len(b.len(), 8);
    assert(x.subrange(n, n + 8) =~= bytes::le_bytes(a.len(), 8));
    assert(y.subrange(n, n + 8) =~= bytes::le_bytes(b.len(), 8));
    bytes::lemma_byte_pow_values();
    bytes::law_le_injective(a.len(), b.len(), 8);
    let k = n + 8 + a.len();
    assert(x.subrange(n + 8, k) =~= a);
    assert(y.subrange(n + 8, k) =~= b);
    assert(x.skip(k) =~= after_a);
    assert(y.skip(k) =~= after_b);
}

/// A challenge depends on all that came before: whatever is absorbed later,
/// the hash is taken of a string that starts with everything absorbed
/// earlier, the earlier challenge among it.
pub proof fn law_challenges_chain<H: Hasher>(before: Seq<u8>, label: Seq<u8>, later: Seq<u8>)
    ensures
        ({
            let drawn = hashers::digest::<H>(before + label);
            let hashed = before + label + drawn + later;
            &&& before.is_prefix_of(hashed)
            &&& (before + label + drawn).is_prefix_of(hashed)
        }),
{
    let drawn = hashers::digest::<H>(before + label);
    let hashed = before + label + drawn + later;
    assert(hashed.take(before.len() as int) =~= before);
    assert(hashed.take((before + label + drawn).len() as int) =~= before + label + drawn);
}

/// A challenge is read from the front of the hash: byte `k` of the hash is its
/// digit of weight `256^k`, and it has no digits beyond the field's width.
pub proof fn law_challenge_digits<F: TowerField>(hash: Seq<u8>, x: F, k: nat)
    requires
        hash.len() == 32,
        challenge_of(hash, Ok(x)),
        k < F::width(),
    ensures
        F::width() <= 32,
        (x.raw() / pow(256, k) as nat) % 256 == hash[k as int],
        x.raw() < pow(256, F::width()),
{
    let s = hash.take(F::width() as int);
    bytes::law_value_digits(s, k);
    bytes::lemma_le_value_bound(s);
    bytes::lemma_byte_pow(F::width());
}

/// A message stands behind its label and eight bytes that write its length; a
/// number stands behind its label in eight bytes; a new transcript holds its
/// domain and then its label.
pub proof fn law_parts(label: Seq<u8>, message: Seq<u8>, value: u64)
    requires
        message.len() <= u64::MAX,
    ensures
        ({
            let (m, v) = (framed(label, message), numbered(label, value));
            let n = label.len() as int;
            &&& m.len() == n + 8 + message.len()
            &&& m.subrange(0, n) == label
            &&& bytes::le_value(m.subrange(n, n + 8)) == message.len()
            &&& m.skip(n + 8) == message
            &&& v.len() == n + 8
            &&& v.subrange(0, n) == label
            &&& bytes::le_value(v.subrange(n, n + 8)) == value
            &&& opening(label) == encode_utf8("hekate-transcript-v1"@) + label
        }),
{
    let (m, v) = (framed(label, message), numbered(label, value));
    let n = label.len() as int;
    bytes::lemma_byte_pow_values();
    bytes::lemma_le_bytes_len(message.len(), 8);
    bytes::lemma_le_bytes_len(value as nat, 8);
    bytes::law_le_round_trip(message.len(), 8);
    bytes::law_le_round_trip(value as nat, 8);
    assert(m.subrange(n, n + 8) =~= bytes::le_bytes(message.len(), 8));
    assert(v.subrange(n, n + 8) =~= bytes::le_bytes(value as nat, 8));
    assert(m.subrange(0, n) =~= label);
    assert(v.subrange(0, n) =~= label);
    assert(m.skip(n + 8) =~= message);
}

proof fn lemma_element_bytes<F: TowerField>(elements: Seq<F>, i: int, k: nat)
    requires
        0 <= i < elements.len(),
        k < F::width(),
    ensures
        element_bytes(elements).len() == elements.len() * F::width(),
        0 <= i * F::width() + k < elements.len() * F::width(),
        element_bytes(elements)[i * F::width() + k] == (elements[i].raw() / pow(256, k) as nat) % 256,
    decreases elements.len(),
{
    let w = F::width();
    let (head, last) = (elements.drop_last(), elements.last());
    let m = head.len();
    bytes::law_le_digits(last.raw(), w, k);
    assert(0 <= i * w + k < elements.len() * w) by (nonlinear_arith)
        requires
            0 <= i < elements.len(),
            0 <= k < w,
    ;
    assert((m + 1) * w == m * w + w) by (nonlinear_arith);
    if m == 0 {
        assert(element_bytes(head).len() == 0);
        assert(m * w == 0) by (nonlinear_arith)
            requires
                m == 0,
        ;
    } else {
        lemma_element_bytes(head, if i < m {
            i
        } else {
            0
        }, k);
    }
    if i < m {
        assert(i * w + k < m * w) by (nonlinear_arith)
            requires
                0 <= i < m,
                0 <= k < w,
        ;
    } else {
        assert(i * w == m * w);
    }
}

/// Field elements are absorbed in little-endian order: one behind its label;
/// of a list element `i` at `i` widths behind the label and the count.
pub proof fn law_element_parts<F: TowerField>(label: Seq<u8>, elements: Seq<F>, i: int, k: nat)
    requires
        0 <= i < elements.len() <= u64::MAX,
        k < F::width(),
    ensures
        ({
            let (one, all) = (labelled(label, elements[i]), listed(label, elements));
            let n = label.len() as int;
            &&& one.len() == n + F::width()
            &&& one.subrange(0, n) == label
            &&& one[n + k] == (elements[i].raw() / pow(256, k) as nat) % 256
            &&& all.len() == n + 8 + elements.len() * F::width()
            &&& all.subrange(0, n) == label
            &&& bytes::le_value(all.subrange(n, n + 8)) == elements.len()
            &&& all[n + 8 + i * F::width() + k] == (elements[i].raw() / pow(256, k) as nat) % 256
        }),
{
    let (one, all) = (labelled(label, elements[i]), listed(label, elements));
    let n = label.len() as int;
    bytes::lemma_byte_pow_values();
    bytes::law_le_digits(elements[i].raw(), F::width(), k);
    bytes::lemma_le_bytes_len(elements.len(), 8);
    bytes::law_le_round_trip(elements.len(), 8);
    lemma_element_bytes(elements, i, k);
    assert(one.subrange(0, n) =~= label);
    assert(all.subrange(0, n) =~= label);
    assert(all.subrange(n, n + 8) =~= bytes::le_bytes(elements.len(), 8));
}

} // verus!
