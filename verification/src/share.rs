//! The historical share record of the flat store: bare 64-bit identifiers
//! and an Ed448 signature.

use vstd::prelude::*;

use crate::ed448;
use crate::identity;

verus! {

#[derive(PartialEq, Debug)]
pub struct Export {
    /// no signature is needed here; the enclosing share is validated
    pub receiver: u64,
    /// identifiers of the exported seeds
    pub fs: Vec<u64>,
    pub db: Vec<u64>,
}

#[derive(PartialEq, Debug)]
pub struct LockedShare {
    pub sender: identity::Public,
    /// ids of the share (convenient to return roots to unlock)
    pub export: Export,
    /// encrypted content of the share
    pub payload: identity::Encrypted,
    /// signs the sender and the export
    pub sig: ed448::Signature,
}

} // verus!
