//! An AEAD ciphertext envelope: opaque bytes plus the salt they were
//! produced under.  The server never looks inside.

use vstd::prelude::*;

use crate::salt::Salt;

verus! {

#[derive(PartialEq, Debug)]
pub struct Encrypted {
    pub ct: Vec<u8>,
    pub salt: Salt,
}

/// The mathematical content of an [`Encrypted`] envelope.
#[verifier::ext_equal]
pub struct EncryptedView {
    pub ct: Seq<u8>,
    pub salt: Seq<u8>,
}

impl View for Encrypted {
    type V = EncryptedView;

    open spec fn view(&self) -> EncryptedView {
        EncryptedView { ct: self.ct@, salt: self.salt.bytes@ }
    }
}

impl Clone for Encrypted {
    fn clone(&self) -> (r: Self)
        ensures
            r@ == self@,
    {
        let r = Encrypted { ct: self.ct.clone(), salt: self.salt };
        proof {
            assert(r.ct@ =~= self.ct@);
            assert(r@ =~= self@);
        }
        r
    }
}

} // verus!
