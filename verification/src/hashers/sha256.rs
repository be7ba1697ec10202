//! SHA-256, as the `sha2` crate computes it.

use sha2::digest::Update;
use sha2::{Digest, Sha256};
use vstd::prelude::*;

use super::Hasher;

verus! {

/// The state of the `sha2` crate's SHA-256.
#[verifier::external_type_specification]
#[verifier::external_body]
pub struct ExSha256(Sha256);

/// The bytes that a SHA-256 state has absorbed since it was new.
pub uninterp spec fn sha256_absorbed(state: Sha256) -> Seq<u8>;

/// The SHA-256 hash of a byte string.
pub uninterp spec fn sha256_digest(data: Seq<u8>) -> [u8; 32];

/// `Sha256::new`: a state that has absorbed nothing.
#[verifier::external_body]
fn sha256_new() -> (r: Sha256)
    ensures
        sha256_absorbed(r) == Seq::<u8>::empty(),
{
    <Sha256 as Digest>::new()
}

/// `Update::update`: the bytes are absorbed after those already there.
#[verifier::external_body]
fn sha256_update(state: &mut Sha256, data: &[u8])
    ensures
        sha256_absorbed(*final(state)) == sha256_absorbed(*old(state)) + data@,
{
    Update::update(state, data);
}

/// `Digest::finalize`: the hash of the absorbed bytes.
#[verifier::external_body]
fn sha256_finalize(state: Sha256) -> (r: [u8; 32])
    ensures
        r == sha256_digest(sha256_absorbed(state)),
{
    state.finalize().into()
}

/// `Digest::finalize_reset`: the hash of the absorbed bytes; the state is new
/// again.
#[verifier::external_body]
fn sha256_finalize_reset(state: &mut Sha256) -> (r: [u8; 32])
    ensures
        r == sha256_digest(sha256_absorbed(*old(state))),
        sha256_absorbed(*final(state)) == Seq::<u8>::empty(),
{
    state.finalize_reset().into()
}

/// `Sha256::clone`: a state that has absorbed the same bytes.
#[verifier::external_body]
fn sha256_clone(state: &Sha256) -> (r: Sha256)
    ensures
        sha256_absorbed(r) == sha256_absorbed(*state),
{
    state.clone()
}

/// A SHA-256 hasher.
#[derive(Debug)]
pub struct Sha256Hasher {
    inner: Sha256,
}

impl Clone for Sha256Hasher {
    fn clone(&self) -> (r: Self)
        ensures
            r.absorbed() == self.absorbed(),
    {
        Sha256Hasher { inner: sha256_clone(&self.inner) }
    }
}

impl Hasher for Sha256Hasher {
    closed spec fn absorbed(&self) -> Seq<u8> {
        sha256_absorbed(self.inner)
    }

    open spec fn hash(data: Seq<u8>) -> [u8; 32] {
        sha256_digest(data)
    }

    const OUTPUT_SIZE: usize = 32;

    fn new() -> Self {
        Sha256Hasher { inner: sha256_new() }
    }

    fn update(&mut self, data: &[u8]) {
        sha256_update(&mut self.inner, data);
    }

    fn finalize(self) -> [u8; 32] {
        sha256_finalize(self.inner)
    }

    fn finalize_reset(&mut self) -> [u8; 32] {
        sha256_finalize_reset(&mut self.inner)
    }

    fn fork(&self) -> Self {
        self.clone()
    }
}

} // verus!
