//! Hash functions for the transcript and the Merkle tree.

pub mod sha256;

use vstd::prelude::*;

verus! {

/// A cryptographic hash function that takes its input piece by piece.
pub trait Hasher: Sized {
    /// The bytes absorbed since the hasher was new.
    spec fn absorbed(&self) -> Seq<u8>;

    /// The hash of a byte string.
    spec fn hash(data: Seq<u8>) -> [u8; 32];

    /// The size of the hash in bytes.
    const OUTPUT_SIZE: usize;

    /// A hasher that has absorbed nothing.
    fn new() -> (r: Self)
        ensures
            r.absorbed() == Seq::<u8>::empty(),
    ;

    /// Absorbs bytes.
    fn update(&mut self, data: &[u8])
        ensures
            final(self).absorbed() == old(self).absorbed() + data@,
    ;

    /// The hash of what was absorbed.
    fn finalize(self) -> (r: [u8; 32])
        ensures
            r == Self::hash(self.absorbed()),
    ;

    /// The hash of what was absorbed; the hasher is new again.
    fn finalize_reset(&mut self) -> (r: [u8; 32])
        ensures
            r == Self::hash(old(self).absorbed()),
            final(self).absorbed() == Seq::<u8>::empty(),
    ;

    /// A second hasher in the same state.
    fn fork(&self) -> (r: Self)
        ensures
            r.absorbed() == self.absorbed(),
    ;
}

/// The bytes of the hash of a byte string.
pub open spec fn digest<H: Hasher>(data: Seq<u8>) -> Seq<u8> {
    H::hash(data)@
}

/// The hasher that the transcript and the trees use unless told otherwise.
pub type DefaultHasher = sha256::Sha256Hasher;

/// The name of the default hasher.
pub fn default_hasher_name() -> (r: &'static str)
    ensures
        r@ == "hekate_crypto::sha256::Sha256Hasher"@,
{
    "hekate_crypto::sha256::Sha256Hasher"
}

} // verus!
