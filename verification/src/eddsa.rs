//! Ed25519 signature verification, as WebAuthn assertions require.  The
//! algorithm itself is not restated: verification is a deterministic
//! function of the key, message and signature bytes, computed by the
//! outside library.

use vstd::prelude::*;

use aws_lc_rs::signature::{UnparsedPublicKey, ED25519};

verus! {

/// Whether the Ed25519 signature `sig` by the holder of `pk` over `msg`
/// checks out.
pub uninterp spec fn ed25519_verifies(pk: Seq<u8>, msg: Seq<u8>, sig: Seq<u8>) -> bool;

/// Relies on aws-lc-rs's `UnparsedPublicKey::verify` with the Ed25519
/// parameters: the outcome depends on the key, message and signature
/// bytes alone.
#[verifier::external_body]
pub(crate) fn ed25519_verify(pk: &[u8], msg: &[u8], sig: &[u8]) -> (r: bool)
    ensures
        r == ed25519_verifies(pk@, msg@, sig@),
{
    UnparsedPublicKey::new(&ED25519, pk).verify(msg, sig).is_ok()
}

} // verus!
