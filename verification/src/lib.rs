//! Server-side coordination plane for an end-to-end-encrypted file and data
//! sharing service.
//!
//! The server never holds a decryption key: it stores ciphertext envelopes,
//! public identities and sharing metadata.  This crate holds the verified
//! core: the encrypted node forest, the share / invite bookkeeping, the
//! user, session and WebAuthn stores, and the upload coordinator's
//! bookkeeping.  The HTTP surface and the object-store client live outside
//! the library and only hand plain values in and out.

pub mod aes_gcm;
pub mod api;
pub mod b64;
pub mod bytes;
pub mod content_range;
pub mod digest;
pub mod ed25519;
pub mod ed448;
pub mod eddsa;
pub mod encrypted;
pub mod entropy;
pub mod forest;
pub mod id;
pub mod identity;
pub mod keys;
pub mod kyber;
pub mod lock;
pub mod node;
pub mod nodes;
pub mod purge;
pub mod s3;
pub mod salt;
pub mod sessions;
pub mod share;
pub mod shares;
pub mod storage;
pub mod user;
pub mod webauthn;
pub mod users;
pub mod x448;
