//! Fixed-size AES-GCM key material: a 256-bit key and a 96-bit nonce.

use vstd::prelude::*;

verus! {

#[derive(Clone, Copy, PartialEq, Debug)]
pub struct Key {
    pub bytes: [u8; 32],
}

#[derive(Clone, Copy, PartialEq, Debug)]
pub struct Iv {
    pub bytes: [u8; 12],
}

#[derive(Clone, Copy, PartialEq, Debug)]
pub struct Aes {
    pub key: Key,
    pub iv: Iv,
}

} // verus!
