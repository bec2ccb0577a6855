//! Ed448 key and signature sizes.

use vstd::prelude::*;

use crate::keys::PublicKey;

verus! {

/// A 114-byte Ed448 signature.
#[derive(Clone, Copy, PartialEq, Debug)]
pub struct Signature {
    pub bytes: [u8; 114],
}

impl Signature {
    pub fn new(bytes: [u8; 114]) -> (r: Self)
        ensures
            r.bytes == bytes,
    {
        Signature { bytes }
    }
}

#[derive(Clone, Copy, PartialEq, Debug)]
pub struct KeyTypeEd448;

pub type PublicKeyEd448 = PublicKey<KeyTypeEd448, 57>;

} // verus!
