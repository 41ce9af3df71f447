//! The digest primitive the content-addressed store commits with.

use vstd::prelude::*;
use tiny_keccak::{Hasher, Keccak};

verus! {

/// The Keccak-256 digest of a byte sequence. The digest function itself is
/// supplied by an outside crate; nothing here states what the digest is on
/// given bytes, only that it depends on the bytes alone.
pub uninterp spec fn keccak256_of(data: Seq<u8>) -> Seq<u8>;

/// A 32-byte Keccak-256 digest.
pub type KeccakHash = [u8; 32];

/// Computes Keccak-256 digests.
#[derive(Default, Debug, Clone, PartialEq)]
pub struct KeccakHasher;

impl KeccakHasher {
    /// Relies on tiny_keccak's Keccak-256 (`Keccak::v256`, `update`,
    /// `finalize`): a pure function of the input bytes producing 32 bytes.
    #[verifier::external_body]
    pub fn hash(x: &[u8]) -> (out: KeccakHash)
        ensures
            out@ == keccak256_of(x@),
    {
        let mut keccak = Keccak::v256();
        keccak.update(x);
        let mut out = [0u8; 32];
        keccak.finalize(&mut out);
        out
    }
}

} // verus!
