use aws_lc_rs::signature::Ed25519KeyPair;
use aws_lc_rs::signature::KeyPair as _;
use lockbox::api::{finish_auth, finish_reg, Error};
use sha2::Digest;
use lockbox::encrypted::Encrypted;
use lockbox::id::Uid;
use lockbox::purge::Purge;
use lockbox::salt::Salt;
use lockbox::webauthn::{
    verify_reg_challenge, AuthChallenge, Authentication, Bundle, Credential, Registration,
    Webauthn,
};

fn client_data_with(challenge: &Salt) -> String {
    let encoded = base64::encode(challenge.bytes);
    format!(
        "{{\"type\":\"webauthn.create\",\"challenge\":\"{}\",\"origin\":\"https://example\",\"crossOrigin\":false}}",
        encoded
    )
}

fn stub_mk() -> Encrypted {
    Encrypted { ct: vec![1, 2, 3], salt: Salt { bytes: [9u8; 32] } }
}

fn signed_auth(
    keypair: &Ed25519KeyPair,
    cred_id: Vec<u8>,
    authenticator_data: Vec<u8>,
    client_data_json: String,
) -> Authentication {
    let mut msg = authenticator_data.clone();
    msg.extend_from_slice(&sha2::Sha256::digest(client_data_json.as_bytes()));
    let signature = keypair.sign(&msg).as_ref().to_vec();
    Authentication { id: cred_id, authenticator_data, client_data_json, signature }
}

fn bundle_with(challenge: &Salt, cred_id: Vec<u8>) -> Bundle {
    bundle_with_key(challenge, cred_id, vec![4, 5, 6])
}

fn bundle_with_key(challenge: &Salt, cred_id: Vec<u8>, pub_key: Vec<u8>) -> Bundle {
    Bundle {
        cred: Credential {
            id: cred_id,
            name: "laptop".to_string(),
            attestation: pub_key,
            client_data_json: client_data_with(challenge),
        },
        mk: stub_mk(),
    }
}

#[test]
fn test_verify_reg_challenge_checks_bytes() {
    let salt = Salt { bytes: [3u8; 32] };
    let good = client_data_with(&salt);
    assert!(verify_reg_challenge(&good, salt));
    // a challenge for different bytes is refused
    let other = Salt { bytes: [4u8; 32] };
    assert!(!verify_reg_challenge(&good, other));
    // client data without a challenge field is refused
    assert!(!verify_reg_challenge("{\"type\":\"webauthn.create\"}", salt));
    // a challenge that is not Base64 is refused
    assert!(!verify_reg_challenge("{\"challenge\":\"!!!\"}", salt));
}

#[test]
fn test_finish_reg_is_one_shot() {
    let mut w = Webauthn::new();
    let user = Uid::new(10);
    let reg = Registration::new();
    let challenge = reg.challenge;
    w.add_registration(user, reg);
    let first = finish_reg(&mut w, user, bundle_with(&challenge, vec![1, 1]));
    assert_eq!(first, Ok(()));
    // the registration was consumed: repeating the call is unauthorised
    let second = finish_reg(&mut w, user, bundle_with(&challenge, vec![1, 1]));
    assert_eq!(second, Err(Error::Unauthorised));
}

#[test]
fn test_finish_reg_rejects_wrong_challenge() {
    let mut w = Webauthn::new();
    let user = Uid::new(10);
    let reg = Registration::new();
    w.add_registration(user, reg);
    let other = Salt { bytes: [0u8; 32] };
    let r = finish_reg(&mut w, user, bundle_with(&other, vec![1, 1]));
    assert_eq!(r, Err(Error::Unauthorised));
    assert!(w.passkeys_for_user(user).is_empty());
}

#[test]
fn test_finish_auth_consumes_challenge_either_way() {
    let mut w = Webauthn::new();
    // failing verification still burns the challenge
    let ch = AuthChallenge::new();
    w.add_auth_challenge(ch);
    let bad = Authentication {
        id: vec![1, 1],
        authenticator_data: vec![],
        client_data_json: "{}".to_string(),
        signature: vec![0; 64],
    };
    assert_eq!(finish_auth(&mut w, ch.id, bad), Err(Error::Unauthorised));
    let again = Authentication {
        id: vec![1, 1],
        authenticator_data: vec![],
        client_data_json: client_data_with(&ch.challenge),
        signature: vec![0; 64],
    };
    assert_eq!(finish_auth(&mut w, ch.id, again), Err(Error::Unauthorised));
}

#[test]
fn test_register_then_authenticate() {
    let mut w = Webauthn::new();
    let user = Uid::new(77);
    let keypair = Ed25519KeyPair::generate().unwrap();
    let pub_key = keypair.public_key().as_ref().to_vec();
    // registration
    let reg = Registration::new();
    let challenge = reg.challenge;
    w.add_registration(user, reg);
    assert_eq!(
        finish_reg(&mut w, user, bundle_with_key(&challenge, vec![9, 9, 9], pub_key.clone())),
        Ok(())
    );
    let stored = w.passkeys_for_user(user);
    assert_eq!(stored.len(), 1);
    assert_eq!(stored[0].id, vec![9, 9, 9]);
    assert_eq!(stored[0].pub_key, pub_key);
    // authentication with the registered credential, signed by its key
    let ch = AuthChallenge::new();
    w.add_auth_challenge(ch);
    let auth = signed_auth(&keypair, vec![9, 9, 9], vec![0xaa], client_data_with(&ch.challenge));
    let pk = finish_auth(&mut w, ch.id, auth).unwrap();
    assert_eq!(pk.user_id, user);
    assert_eq!(pk.id, vec![9, 9, 9]);
    // the challenge is gone
    let retry = signed_auth(&keypair, vec![9, 9, 9], vec![0xaa], client_data_with(&ch.challenge));
    assert_eq!(finish_auth(&mut w, ch.id, retry), Err(Error::Unauthorised));
}

#[test]
fn test_finish_auth_rejects_wrong_signer() {
    let mut w = Webauthn::new();
    let user = Uid::new(5);
    let keypair = Ed25519KeyPair::generate().unwrap();
    let pub_key = keypair.public_key().as_ref().to_vec();
    let reg = Registration::new();
    let challenge = reg.challenge;
    w.add_registration(user, reg);
    assert_eq!(finish_reg(&mut w, user, bundle_with_key(&challenge, vec![7], pub_key)), Ok(()));
    // a signature by a different key over the right challenge is refused
    let other = Ed25519KeyPair::generate().unwrap();
    let ch = AuthChallenge::new();
    w.add_auth_challenge(ch);
    let forged = signed_auth(&other, vec![7], vec![0xbb], client_data_with(&ch.challenge));
    assert_eq!(finish_auth(&mut w, ch.id, forged), Err(Error::Unauthorised));
}

#[test]
fn test_passkey_lifecycle() {
    let mut w = Webauthn::new();
    let user = Uid::new(1);
    let reg = Registration::new();
    let challenge = reg.challenge;
    w.add_registration(user, reg);
    assert_eq!(finish_reg(&mut w, user, bundle_with(&challenge, vec![5])), Ok(()));
    assert!(w.passkey_for_credential_id(&vec![5]).is_some());
    w.remove_passkey(vec![5]);
    assert!(w.passkey_for_credential_id(&vec![5]).is_none());
    assert!(w.passkeys_for_user(user).is_empty());
}
