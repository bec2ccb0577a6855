//! Opaque 64-bit identifiers with a URL-safe Base64 textual form.

use vstd::prelude::*;

use crate::b64::{b64url_chars, b64url_encode};
use crate::bytes::{be_byte_of, be_u64, u64_from_be_bytes, u64_to_be_bytes};
use crate::digest::{sha256, sha256_of};
use crate::entropy::random_u64;

verus! {

/// An opaque 64-bit identifier.
#[derive(Clone, Copy, PartialEq, Eq, Hash, Debug, Structural)]
pub struct Uid(pub u64);

/// The big-endian byte string of a 64-bit identifier.
pub open spec fn be_bytes_of(id: u64) -> Seq<u8> {
    Seq::new(8, |i: int| be_byte_of(id, i))
}

/// The URL-safe Base64 text of a 64-bit identifier.
pub open spec fn uid_b64(id: u64) -> Seq<char> {
    b64url_chars(be_bytes_of(id))
}

impl Uid {
    pub fn new(v: u64) -> (r: Uid)
        ensures
            r == (Uid(v)),
    {
        Uid(v)
    }

    /// A fresh random identifier.
    pub fn generate() -> Uid {
        Uid(random_u64())
    }

    pub fn to_base64(&self) -> (r: String)
        ensures
            r@ == uid_b64(self.0),
    {
        let bytes = u64_to_be_bytes(self.0);
        proof {
            assert(bytes@ =~= be_bytes_of(self.0));
        }
        b64url_encode(bytes.as_slice())
    }
}

/// The identifier derived from a byte string: the first eight bytes of its
/// SHA-256 digest, read big-endian.
pub open spec fn id_of_bytes(b: Seq<u8>) -> int {
    be_u64(sha256_of(b).take(8))
}

pub fn from_bytes(bytes: &[u8]) -> (r: u64)
    ensures
        r == id_of_bytes(bytes@),
{
    let digest = sha256(bytes);
    u64_from_be_bytes(digest.as_slice())
}

pub fn as_bytes(id: u64) -> (r: Vec<u8>)
    ensures
        r@ == be_bytes_of(id),
{
    let r = u64_to_be_bytes(id);
    proof {
        assert(r@ =~= be_bytes_of(id));
    }
    r
}

/// A fresh random 64-bit identifier.
pub fn generate() -> u64 {
    random_u64()
}

/// An element-wise copy of a list of identifiers.
pub fn clone_uids(v: &Vec<Uid>) -> (r: Vec<Uid>)
    ensures
        r@ == v@,
{
    let mut r: Vec<Uid> = Vec::new();
    let n = v.len();
    let mut i: usize = 0;
    while i < n
        invariant
            n == v@.len(),
            i <= n,
            r@.len() == i,
            forall|j: int| 0 <= j < i ==> r@[j] == v@[j],
        decreases n - i,
    {
        r.push(v[i]);
        i = i + 1;
    }
    proof {
        assert(r@ =~= v@);
    }
    r
}

} // verus!
