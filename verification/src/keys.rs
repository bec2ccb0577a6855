//! Phantom-typed fixed-size key material.  A public key typed for one
//! algorithm cannot be passed where another algorithm's key is expected:
//! the marker type and the size are part of the type.

use vstd::prelude::*;

use core::marker::PhantomData;

use crate::id::{from_bytes, id_of_bytes};

verus! {

/// A public key of `SIZE` bytes for the algorithm marked by `T`.
#[derive(PartialEq, Debug)]
pub struct PublicKey<T, const SIZE: usize> {
    pub bytes: [u8; SIZE],
    pub marker: PhantomData<T>,
}

impl<T, const SIZE: usize> Clone for PublicKey<T, SIZE> {
    fn clone(&self) -> (r: Self)
        ensures
            r == *self,
    {
        PublicKey { bytes: self.bytes, marker: PhantomData }
    }
}

impl<T, const SIZE: usize> PublicKey<T, SIZE> {
    pub fn new(bytes: [u8; SIZE]) -> (r: Self)
        ensures
            r.bytes == bytes,
    {
        PublicKey { bytes, marker: PhantomData }
    }

    /// The stable identifier of this key: the leading 64 bits of its
    /// SHA-256 digest.
    pub fn id(&self) -> (r: u64)
        ensures
            r == id_of_bytes(self.bytes@),
    {
        from_bytes(self.bytes.as_slice())
    }
}

/// A private key of `SIZE` bytes for the algorithm marked by `T`.
#[derive(PartialEq, Debug)]
pub struct PrivateKey<T, const SIZE: usize> {
    pub bytes: [u8; SIZE],
    pub marker: PhantomData<T>,
}

impl<T, const SIZE: usize> Clone for PrivateKey<T, SIZE> {
    fn clone(&self) -> (r: Self)
        ensures
            r == *self,
    {
        PrivateKey { bytes: self.bytes, marker: PhantomData }
    }
}

impl<T, const SIZE: usize> PrivateKey<T, SIZE> {
    pub fn new(bytes: [u8; SIZE]) -> (r: Self)
        ensures
            r.bytes == bytes,
    {
        PrivateKey { bytes, marker: PhantomData }
    }
}

/// The sizes a key-pair algorithm uses.
pub trait KeyPairSize {
    /// Private key size in bytes.
    fn priv_size() -> usize;

    /// Public key size in bytes.
    fn pub_size() -> usize;
}

/// A private and public key of one algorithm.
#[derive(PartialEq, Debug)]
pub struct KeyPair<T, const PRIV_SIZE: usize, const PUB_SIZE: usize> {
    pub private: PrivateKey<T, PRIV_SIZE>,
    pub public: PublicKey<T, PUB_SIZE>,
}

impl<T, const PRIV_SIZE: usize, const PUB_SIZE: usize> Clone for KeyPair<T, PRIV_SIZE, PUB_SIZE> {
    fn clone(&self) -> (r: Self)
        ensures
            r == *self,
    {
        KeyPair { private: self.private.clone(), public: self.public.clone() }
    }
}

impl<T, const PRIV_SIZE: usize, const PUB_SIZE: usize> KeyPair<T, PRIV_SIZE, PUB_SIZE> {
    pub fn new(private: PrivateKey<T, PRIV_SIZE>, public: PublicKey<T, PUB_SIZE>) -> (r: Self)
        ensures
            r.private == private,
            r.public == public,
    {
        KeyPair { private, public }
    }

    pub fn public_key(&self) -> (r: &PublicKey<T, PUB_SIZE>)
        ensures
            r == &self.public,
    {
        &self.public
    }

    pub fn private_key(&self) -> (r: &PrivateKey<T, PRIV_SIZE>)
        ensures
            r == &self.private,
    {
        &self.private
    }

    /// The identifier of the pair is the identifier of its public key.
    pub fn id(&self) -> (r: u64)
        ensures
            r == id_of_bytes(self.public.bytes@),
    {
        self.public.id()
    }
}

} // verus!
