//! The historical logged-in-user record of the flat store.

use vstd::prelude::*;

use crate::identity;
use crate::lock::Lock;
use crate::node::LockedNode;
use crate::share::LockedShare;

verus! {

#[derive(PartialEq, Debug)]
pub struct LockedUser {
    /// password-encrypted private identity
    pub encrypted_priv: Lock,
    pub _pub: identity::Public,
    /// exports and imports are decoded from these
    pub shares: Vec<LockedShare>,
    pub roots: Vec<LockedNode>,
}

} // verus!
