//! Ed25519 key and signature sizes.

use vstd::prelude::*;

use crate::keys::PublicKey;

verus! {

/// A 64-byte Ed25519 signature.
#[derive(Clone, Copy, PartialEq, Debug)]
pub struct Signature {
    pub bytes: [u8; 64],
}

impl Signature {
    pub fn new(bytes: [u8; 64]) -> (r: Self)
        ensures
            r.bytes == bytes,
    {
        Signature { bytes }
    }
}

#[derive(Clone, Copy, PartialEq, Debug)]
pub struct KeyTypeEd25519;

pub type PublicKeyEd25519 = PublicKey<KeyTypeEd25519, 32>;

} // verus!
