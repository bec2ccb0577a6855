//! Kyber key and ciphertext sizes, and the hybrid envelope that carries a
//! Kyber-encrypted key beside symmetric ciphertext.

use vstd::prelude::*;

use crate::keys::PublicKey;

verus! {

#[derive(Clone, Copy, PartialEq, Debug)]
pub struct KeyTypeKyber;

pub type PublicKeyKyber = PublicKey<KeyTypeKyber, 1568>;

pub type CiphertextKyber = PublicKey<KeyTypeKyber, 1568>;

#[derive(PartialEq, Debug)]
pub struct Encrypted {
    pub kyber_ct: CiphertextKyber,
    pub ct: Vec<u8>,
}

/// The mathematical content of a Kyber [`Encrypted`] envelope.
#[verifier::ext_equal]
pub struct KyberEncryptedView {
    pub kyber_ct: Seq<u8>,
    pub ct: Seq<u8>,
}

impl View for Encrypted {
    type V = KyberEncryptedView;

    open spec fn view(&self) -> KyberEncryptedView {
        KyberEncryptedView { kyber_ct: self.kyber_ct.bytes@, ct: self.ct@ }
    }
}

impl Clone for Encrypted {
    fn clone(&self) -> (r: Self)
        ensures
            r@ == self@,
    {
        let r = Encrypted { kyber_ct: self.kyber_ct.clone(), ct: self.ct.clone() };
        proof {
            assert(r@ =~= self@);
        }
        r
    }
}

} // verus!
