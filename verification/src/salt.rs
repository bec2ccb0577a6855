//! Random 32-byte salts.

use vstd::prelude::*;

use crate::entropy::random_bytes_32;

verus! {

/// A 32-byte salt.
#[derive(Clone, Copy, PartialEq, Debug)]
pub struct Salt {
    pub bytes: [u8; 32],
}

impl Salt {
    /// A salt of fresh random bytes.
    pub fn generate() -> Salt {
        Salt { bytes: random_bytes_32() }
    }
}

} // verus!
