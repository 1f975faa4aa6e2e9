//! Content hashing: identifiers are SHA-256 digests of plaintext.

use vstd::prelude::*;
use vstd::array::*;
use sha2::Digest;
use crate::id::Id;

verus! {

/// The SHA-256 digest of a byte string, as the `sha2` crate computes it.
pub uninterp spec fn sha256(data: Seq<u8>) -> Seq<u8>;

/// The identifier of a piece of content.
pub open spec fn content_id(data: Seq<u8>) -> Id {
    Id::of_bytes(sha256(data))
}

/// `Sha256::digest` of the `sha2` crate: feeds `data` to a fresh SHA-256
/// state and returns the 32-byte digest, which depends on `data` alone.
#[verifier::external_body]
fn sha256_digest(data: &[u8]) -> (out: [u8; 32])
    ensures
        out@ == sha256(data@),
{
    sha2::Sha256::digest(data).into()
}

/// Hashes `data` into its content identifier.
pub fn hash(data: &[u8]) -> (id: Id)
    ensures
        id == content_id(data@),
        id@ == sha256(data@),
{
    Id::new(sha256_digest(data))
}

} // verus!
