use lockbox::id::{as_bytes, from_bytes, Uid};
use sha2::Digest;
use lockbox::keys::{KeyPair, PrivateKey, PublicKey};

#[derive(Debug, PartialEq)]
struct TestKeyType;

type TestPublicKey = PublicKey<TestKeyType, 10>;

#[test]
fn test_id() {
    let key = TestPublicKey::new(b"0123456789".to_owned());
    let id = key.id();
    assert_eq!(9572568648884945950, id);
}

#[test]
fn test_new() {
    let private = PrivateKey::<TestKeyType, 2>::new(b"12".to_owned());
    let public = PublicKey::<TestKeyType, 4>::new(b"1234".to_owned());
    let _ = KeyPair::<TestKeyType, 2, 4>::new(private, public);
}

#[test]
fn test_key_pair_id_is_public_key_id() {
    let private = PrivateKey::<TestKeyType, 2>::new(b"12".to_owned());
    let public = PublicKey::<TestKeyType, 10>::new(b"0123456789".to_owned());
    let pair = KeyPair::<TestKeyType, 2, 10>::new(private, public);
    assert_eq!(pair.id(), 9572568648884945950);
    assert_eq!(pair.public_key().id(), pair.id());
}

#[test]
fn test_from_bytes_is_sha_prefix() {
    // the id is the first eight bytes of the SHA-256 digest, big-endian
    let data = b"hello world";
    let digest = sha2::Sha256::digest(data);
    let mut expected: u64 = 0;
    for i in 0..8 {
        expected = expected * 256 + digest[i] as u64;
    }
    assert_eq!(from_bytes(data), expected);
}

#[test]
fn test_as_bytes_big_endian() {
    assert_eq!(as_bytes(0x0102030405060708), vec![1, 2, 3, 4, 5, 6, 7, 8]);
    assert_eq!(as_bytes(0), vec![0; 8]);
}

#[test]
fn test_uid_to_base64_matches_encoding() {
    // the textual form is URL-safe Base64 of the big-endian bytes
    let id = Uid::new(0x0102030405060708);
    let expected = base64::encode_config(as_bytes(id.0), base64::URL_SAFE);
    assert_eq!(id.to_base64(), expected);
    // a value whose encoding needs the URL-safe alphabet
    let id2 = Uid::new(u64::MAX);
    let expected2 = base64::encode_config(as_bytes(id2.0), base64::URL_SAFE);
    assert_eq!(id2.to_base64(), expected2);
}

#[test]
fn test_generate_is_not_constant() {
    // two fresh draws of 64 random bits virtually never collide; a stuck
    // generator would fail this immediately
    let a = lockbox::id::generate();
    let b = lockbox::id::generate();
    let c = lockbox::id::generate();
    assert!(a != b || b != c);
}
