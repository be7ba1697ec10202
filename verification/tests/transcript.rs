//! The hash function, the transcript and what the protocol absorbs.

use hekate::field::{Block128, Block64};
use hekate::hashers::{default_hasher_name, DefaultHasher, Hasher};
use hekate::protocol::{
    absorb_chiplet_header, absorb_logup_claimed_sums, absorb_logup_h_evals,
    absorb_lookup_bus_heights, challenge_r_bus, draw_lookup_bus_points,
};
use hekate::transcript::{bytes_to_field, payload_digest, Transcript, TranscriptOp};

type H = DefaultHasher;

fn hash(parts: &[&[u8]]) -> [u8; 32] {
    let mut h = H::new();
    for part in parts {
        h.update(part);
    }
    h.finalize()
}

fn hex(bytes: &[u8]) -> String {
    let mut out = String::new();
    for b in bytes {
        out = format!("{out}{b:02x}");
    }
    out
}

/// The challenge a transcript gives after these bytes.
fn challenge(absorbed: &[u8], label: &[u8]) -> u128 {
    let mut bytes = absorbed.to_vec();
    bytes.extend_from_slice(label);
    let h = hash(&[&bytes]);
    let mut head = [0u8; 16];
    head.copy_from_slice(&h[..16]);
    u128::from_le_bytes(head)
}

fn framed(label: &[u8], message: &[u8]) -> Vec<u8> {
    let mut out = label.to_vec();
    out.extend_from_slice(&(message.len() as u64).to_le_bytes());
    out.extend_from_slice(message);
    out
}

#[test]
fn sha256_known_answers() {
    assert_eq!(
        hex(&hash(&[])),
        "e3b0c44298fc1c149afbf4c8996fb92427ae41e4649b934ca495991b7852b855"
    );
    assert_eq!(
        hex(&hash(&[b"abc"])),
        "ba7816bf8f01cfea414140de5dae2223b00361a396177a9cb410ff61f20015ad"
    );
    assert_eq!(hash(&[b"a", b"bc"]), hash(&[b"abc"]));
    assert_eq!(payload_digest::<H>(b"abc"), hash(&[b"abc"]));
    assert_eq!(H::OUTPUT_SIZE, 32);
    assert_eq!(default_hasher_name(), "hekate_crypto::sha256::Sha256Hasher");
}

#[test]
fn hasher_resets_and_forks() {
    let mut h = H::new();
    h.update(b"abc");
    let fork = h.fork();
    assert_eq!(h.finalize_reset(), hash(&[b"abc"]));
    assert_eq!(h.finalize(), hash(&[]));
    assert_eq!(fork.finalize(), hash(&[b"abc"]));
}

#[test]
fn transcript_absorbs_framed_messages() {
    let mut t = Transcript::<H>::new(b"demo");
    t.append_message(b"m", b"hello");
    let mut want = b"hekate-transcript-v1demo".to_vec();
    want.extend(framed(b"m", b"hello"));
    let c: Block128 = t.challenge_field(b"c").unwrap();
    assert_eq!(c.0, challenge(&want, b"c"));

    assert_eq!(t.trace().len(), 2);
    match &t.trace()[0] {
        TranscriptOp::AppendMessage { label, digest } => {
            assert_eq!(*label, b"m");
            assert_eq!(*digest, hash(&[b"hello"]));
        }
        _ => panic!("the first operation is a message"),
    }
    assert_eq!(t.take_trace().len(), 2);
    assert_eq!(t.trace().len(), 0);
}

#[test]
fn challenges_chain() {
    let mut t = Transcript::<H>::new(b"demo");
    let a: Block128 = t.challenge_field(b"x").unwrap();
    let b: Block128 = t.challenge_field(b"x").unwrap();
    assert_ne!(a, b);

    let mut u = Transcript::<H>::new(b"demo");
    let again: Block128 = u.challenge_field(b"x").unwrap();
    assert_eq!(a, again);
}

#[test]
fn fields_and_numbers_are_absorbed_as_bytes() {
    let mut t = Transcript::<H>::new(b"d");
    t.append_u64(b"n", 5);
    t.append_field(b"f", Block64(7));
    t.append_field_list(b"l", &[Block64(1), Block64(2)]);
    let mut want = b"hekate-transcript-v1d".to_vec();
    want.extend_from_slice(b"n");
    want.extend_from_slice(&5u64.to_le_bytes());
    want.extend_from_slice(b"f");
    want.extend_from_slice(&7u64.to_le_bytes());
    want.extend_from_slice(b"l");
    want.extend_from_slice(&2u64.to_le_bytes());
    want.extend_from_slice(&1u64.to_le_bytes());
    want.extend_from_slice(&2u64.to_le_bytes());
    assert_eq!(t.trace().len(), 3);
    let c: Block128 = t.challenge_field(b"c").unwrap();
    assert_eq!(c.0, challenge(&want, b"c"));
    match &t.trace()[2] {
        TranscriptOp::AppendFieldList { count, .. } => assert_eq!(*count, 2),
        _ => panic!("the third operation is a list"),
    }
}

#[test]
fn a_challenge_is_the_head_of_a_hash() {
    let mut h = [0u8; 32];
    h[0] = 7;
    h[16] = 9;
    assert_eq!(bytes_to_field::<Block128>(&h).unwrap(), Block128(7));
}

#[test]
fn protocol_headers_are_absorbed_in_order() {
    let mut t = Transcript::<H>::new(b"p");
    absorb_chiplet_header(&mut t, "ram", 8, 3, &[9u8; 32]);
    assert_eq!(t.trace().len(), 4);

    let mut a = Transcript::<H>::new(b"p");
    absorb_logup_claimed_sums(&mut a, &[("bus".to_string(), Block128(5))]);
    let mut b = Transcript::<H>::new(b"p");
    absorb_logup_h_evals(&mut b, &[("bus".to_string(), Block128(5))]);
    let x: Block128 = a.challenge_field(b"c").unwrap();
    let y: Block128 = b.challenge_field(b"c").unwrap();
    assert_ne!(x, y);
}

#[test]
fn lookup_points_have_one_coordinate_per_variable() {
    let entries = [("a".to_string(), 8u64), ("b".to_string(), 2u64)];
    let mut t = Transcript::<H>::new(b"p");
    let points = draw_lookup_bus_points::<Block128, H>(&mut t, &entries).unwrap();
    assert_eq!(points.len(), 2);
    assert_eq!(points[0].0, "a");
    assert_eq!(points[0].1.len(), 3);
    assert_eq!(points[1].1.len(), 1);

    let mut u = Transcript::<H>::new(b"p");
    absorb_lookup_bus_heights(&mut u, &entries);
    let first = challenge_r_bus::<Block128, H>(&mut u, "a", 3).unwrap();
    assert_eq!(first, points[0].1);
}

#[test]
fn boundaries_between_messages_count() {
    let mut a = Transcript::<H>::new(b"d");
    a.append_message(b"m", b"ab");
    a.append_message(b"m", b"c");
    let mut b = Transcript::<H>::new(b"d");
    b.append_message(b"m", b"a");
    b.append_message(b"m", b"bc");
    let x: Block128 = a.challenge_field(b"c").unwrap();
    let y: Block128 = b.challenge_field(b"c").unwrap();
    assert_ne!(x, y);
}
