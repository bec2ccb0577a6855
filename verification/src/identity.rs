//! A user's public identity, and the hybrid envelope messages to that
//! identity arrive in.

use vstd::prelude::*;

use crate::ed25519::PublicKeyEd25519;
use crate::id::Uid;
use crate::kyber::{self, KyberEncryptedView, PublicKeyKyber};
use crate::x448::PublicKeyX448;

verus! {

/// A public identity: an identifier and the public halves of the user's
/// key material.
#[derive(PartialEq, Debug)]
pub struct Public {
    /// chosen by the inviting party
    pub id: Uid,
    /// encrypt to, or verify against
    pub x448: PublicKeyX448,
    pub ed25519: PublicKeyEd25519,
    pub kyber: PublicKeyKyber,
}

impl Clone for Public {
    fn clone(&self) -> (r: Self)
        ensures
            r == *self,
    {
        Public {
            id: self.id,
            x448: self.x448.clone(),
            ed25519: self.ed25519.clone(),
            kyber: self.kyber.clone(),
        }
    }
}

impl Public {
    pub fn id(&self) -> (r: Uid)
        ensures
            r == self.id,
    {
        self.id
    }
}

/// A hybrid envelope: symmetric ciphertext beside the Kyber-wrapped key
/// that opens it.
#[derive(PartialEq, Debug)]
pub struct Encrypted {
    pub ct: Vec<u8>,
    pub ecc_ct: kyber::Encrypted,
}

/// The mathematical content of an identity [`Encrypted`] envelope.
#[verifier::ext_equal]
pub struct IdentityEncryptedView {
    pub ct: Seq<u8>,
    pub ecc_ct: KyberEncryptedView,
}

impl View for Encrypted {
    type V = IdentityEncryptedView;

    open spec fn view(&self) -> IdentityEncryptedView {
        IdentityEncryptedView { ct: self.ct@, ecc_ct: self.ecc_ct@ }
    }
}

impl Clone for Encrypted {
    fn clone(&self) -> (r: Self)
        ensures
            r@ == self@,
    {
        let r = Encrypted { ct: self.ct.clone(), ecc_ct: self.ecc_ct.clone() };
        proof {
            assert(r@ =~= self@);
        }
        r
    }
}

} // verus!
