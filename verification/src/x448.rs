//! X448 key sizes.

use vstd::prelude::*;

use crate::keys::PublicKey;

verus! {

#[derive(Clone, Copy, PartialEq, Debug)]
pub struct KeyTypeX448;

pub type PublicKeyX448 = PublicKey<KeyTypeX448, 56>;

} // verus!
