//! Fresh randomness from the operating system.  Nothing can be promised of
//! a random value, so these wrappers carry no postconditions; every caller
//! states what holds whatever comes back.

use vstd::prelude::*;

use rand::Rng;
use rand::RngCore;

verus! {

/// Relies on rand's `OsRng`: a fresh 64-bit value from the operating
/// system's entropy source.
#[verifier::external_body]
pub(crate) fn random_u64() -> u64 {
    let mut rng = rand::rngs::OsRng;
    rng.gen()
}

/// Relies on rand's `OsRng::fill_bytes`: 32 fresh bytes from the operating
/// system's entropy source.
#[verifier::external_body]
pub(crate) fn random_bytes_32() -> [u8; 32] {
    let mut bytes = [0u8; 32];
    rand::rngs::OsRng.fill_bytes(&mut bytes);
    bytes
}

} // verus!
