//! The one cryptographic digest the server computes itself: SHA-256, used to
//! derive a stable 64-bit identifier from a public key.

use vstd::prelude::*;

use sha2::Digest;

verus! {

/// The SHA-256 digest of a byte string.  The algorithm is not restated
/// here; the digest is a pure function of its input, computed by the
/// outside library.
pub uninterp spec fn sha256_of(data: Seq<u8>) -> Seq<u8>;

/// Relies on sha2's `Sha256::digest`: the result depends on the input bytes
/// alone and is always 32 bytes long.
#[verifier::external_body]
pub(crate) fn sha256(data: &[u8]) -> (r: Vec<u8>)
    ensures
        r@ == sha256_of(data@),
        r@.len() == 32,
{
    sha2::Sha256::digest(data).to_vec()
}

} // verus!
