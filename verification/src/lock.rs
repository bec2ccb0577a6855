//! A password-derived wrapping of a master key plus a master-key-wrapped
//! payload.

use vstd::prelude::*;

use crate::encrypted::{Encrypted, EncryptedView};

verus! {

#[derive(PartialEq, Debug)]
pub struct Lock {
    /// payload encrypted with the master key
    pub ct: Vec<u8>,
    /// master key encrypted with a password-derived key
    pub master_key: Encrypted,
}

/// The mathematical content of a [`Lock`].
#[verifier::ext_equal]
pub struct LockView {
    pub ct: Seq<u8>,
    pub master_key: EncryptedView,
}

impl View for Lock {
    type V = LockView;

    open spec fn view(&self) -> LockView {
        LockView { ct: self.ct@, master_key: self.master_key@ }
    }
}

impl Clone for Lock {
    fn clone(&self) -> (r: Self)
        ensures
            r@ == self@,
    {
        let r = Lock { ct: self.ct.clone(), master_key: self.master_key.clone() };
        proof {
            assert(r@ =~= self@);
        }
        r
    }
}

} // verus!
