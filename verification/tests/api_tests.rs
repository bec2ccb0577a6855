use lockbox::api::{
    apply_signup, finish_invite_intents, intent_for_email, user_by_email, welcome_for_email,
};
use lockbox::ed25519::{PublicKeyEd25519, Signature};
use lockbox::encrypted::Encrypted;
use lockbox::id::Uid;
use lockbox::identity;
use lockbox::keys::PublicKey;
use lockbox::kyber::PublicKeyKyber;
use lockbox::lock::Lock;
use lockbox::node::NO_PARENT_ID;
use lockbox::nodes::{LockedNode, Nodes};
use lockbox::purge::Purge;
use lockbox::salt::Salt;
use lockbox::shares::{
    Export, FinishInviteIntent, Invite, InviteIntent, LockedShare, Shares,
};
use lockbox::users::{LockedUser, Signup, Users};
use lockbox::x448::PublicKeyX448;

fn pub_identity(id: u64, fill: u8) -> identity::Public {
    identity::Public {
        id: Uid::new(id),
        x448: PublicKeyX448::new([fill; 56]),
        ed25519: PublicKeyEd25519::new([fill; 32]),
        kyber: PublicKeyKyber::new([fill; 1568]),
    }
}

fn stub_salt() -> Salt {
    Salt { bytes: [2u8; 32] }
}

fn stub_lock(tag: u8) -> Lock {
    Lock {
        ct: vec![tag, tag],
        master_key: Encrypted { ct: vec![tag], salt: stub_salt() },
    }
}

fn stub_sig() -> Signature {
    Signature::new([6u8; 64])
}

fn stub_id_encrypted() -> identity::Encrypted {
    identity::Encrypted {
        ct: vec![8, 8],
        ecc_ct: lockbox::kyber::Encrypted {
            kyber_ct: PublicKey::new([1u8; 1568]),
            ct: vec![9],
        },
    }
}

fn share_between(sender: &identity::Public, receiver: u64) -> LockedShare {
    LockedShare {
        sender: sender.clone(),
        export: Export { receiver: Uid::new(receiver), fs: vec![Uid::new(1)], db: vec![] },
        payload: stub_id_encrypted(),
        sig: stub_sig(),
    }
}

fn root_node(id: u64) -> LockedNode {
    LockedNode {
        id: Uid::new(id),
        parent_id: Uid::new(NO_PARENT_ID),
        content: Encrypted { ct: vec![], salt: stub_salt() },
        dirty: false,
    }
}

fn intent_for(email: &str, sender: &identity::Public, invitee_id: u64) -> InviteIntent {
    InviteIntent {
        email: email.to_string(),
        sender: sender.clone(),
        sig: stub_sig(),
        user_id: Uid::new(invitee_id),
        receiver: None,
        fs_ids: None,
        db_ids: None,
    }
}

#[test]
fn test_signup_then_login() {
    let mut nodes = Nodes::new();
    let mut shares = Shares::new();
    let mut users = Users::new();
    let email = "u@example.com";
    let invitee = pub_identity(100, 7);
    // a pinned invite for the email pre-exists
    shares.add_invite(Invite {
        user_id: Uid::new(100),
        sender: pub_identity(1, 3),
        email: email.to_string(),
        payload: stub_lock(5),
        export: Export { receiver: Uid::new(100), fs: vec![], db: vec![] },
        sig: stub_sig(),
    });
    let signup = Signup {
        email: email.to_string(),
        pass: "pw".to_string(),
        user: LockedUser {
            encrypted_priv: stub_lock(9),
            _pub: invitee.clone(),
            shares: vec![share_between(&pub_identity(1, 3), 100)],
            pending_invite_intents: vec![],
            roots: vec![root_node(0)],
        },
    };
    apply_signup(&mut nodes, &mut shares, &mut users, signup);
    // the pinned invite is gone
    assert!(shares.invie_for_mail(email).is_none());
    // login by email returns the locked bundle, the identity and all nodes
    let user = user_by_email(&nodes, &shares, &users, email).unwrap();
    assert_eq!(user.encrypted_priv.ct, vec![9, 9]);
    assert_eq!(user._pub.id, Uid::new(100));
    assert_eq!(user.roots.len(), 1);
    assert_eq!(user.roots[0].id, Uid::new(0));
    assert_eq!(user.shares.len(), 1);
}

#[test]
fn test_invite_intent_lifecycle() {
    let mut nodes = Nodes::new();
    let mut shares = Shares::new();
    let mut users = Users::new();
    let sender = pub_identity(1, 3);
    let email = "invitee@example.com";
    // the sender posts an intent
    shares.add_invite_intent(intent_for(email, &sender, 200));
    assert!(shares.get_invite_intent(email).unwrap().receiver.is_none());
    // the invitee signs up with that email: the intent is acknowledged
    let invitee = pub_identity(200, 8);
    let signup = Signup {
        email: email.to_string(),
        pass: "pw".to_string(),
        user: LockedUser {
            encrypted_priv: stub_lock(1),
            _pub: invitee.clone(),
            shares: vec![],
            pending_invite_intents: vec![],
            roots: vec![],
        },
    };
    apply_signup(&mut nodes, &mut shares, &mut users, signup);
    let acked = shares.get_invite_intent(email).unwrap();
    assert_eq!(acked.receiver.as_ref().unwrap().id, Uid::new(200));
    // the sender sees the acked intent among their pending intents
    let sender_view = shares.get_invite_intents_for_sender(Uid::new(1));
    assert_eq!(sender_view.len(), 1);
    assert!(sender_view[0].receiver.is_some());
    // the sender finishes the intent with a share for the invitee
    finish_invite_intents(
        &mut shares,
        vec![FinishInviteIntent {
            email: email.to_string(),
            share: share_between(&sender, 200),
        }],
    );
    assert!(shares.get_invite_intent(email).is_none());
    let invitee_shares = shares.all_shares_for_user(Uid::new(200));
    assert_eq!(invitee_shares.len(), 1);
    assert_eq!(invitee_shares[0].export.receiver, Uid::new(200));
}

#[test]
fn test_ack_invite_intent_monotonic() {
    let mut shares = Shares::new();
    let sender = pub_identity(1, 3);
    shares.add_invite_intent(intent_for("e@x", &sender, 5));
    let pk1 = pub_identity(50, 4);
    let pk2 = pub_identity(60, 5);
    assert!(shares.ack_invite_intent("e@x", pk1.clone()));
    assert!(!shares.ack_invite_intent("e@x", pk2));
    let stored = shares.get_invite_intent("e@x").unwrap();
    assert_eq!(stored.receiver.as_ref().unwrap().id, Uid::new(50));
    // a missing intent is never acknowledged
    assert!(!shares.ack_invite_intent("missing@x", pk1));
}

#[test]
fn test_welcome_for_email_found() {
    let mut shares = Shares::new();
    let mut nodes = Nodes::new();
    nodes.add(root_node(3));
    let email = "w@example.com";
    shares.add_invite(Invite {
        user_id: Uid::new(44),
        sender: pub_identity(1, 3),
        email: email.to_string(),
        payload: stub_lock(5),
        export: Export { receiver: Uid::new(44), fs: vec![], db: vec![] },
        sig: stub_sig(),
    });
    let encoded = base64::encode_config(email.as_bytes(), base64::URL_SAFE);
    let welcome = welcome_for_email(&shares, &nodes, &encoded).unwrap();
    assert_eq!(welcome.user_id, Uid::new(44));
    assert_eq!(welcome.imports.ct, vec![5, 5]);
    assert_eq!(welcome.nodes.len(), 1);
}

#[test]
fn test_welcome_for_email_missing() {
    let shares = Shares::new();
    let nodes = Nodes::new();
    let encoded = base64::encode_config(b"nobody@example.com", base64::URL_SAFE);
    assert!(welcome_for_email(&shares, &nodes, &encoded).is_err());
    // text that does not decode as Base64 is refused the same way
    assert!(welcome_for_email(&shares, &nodes, "!!!not-base64!!!").is_err());
}

#[test]
fn test_intent_for_email_roundtrip() {
    let mut shares = Shares::new();
    let sender = pub_identity(1, 3);
    let email = "i@example.com";
    shares.add_invite_intent(intent_for(email, &sender, 7));
    let encoded = base64::encode_config(email.as_bytes(), base64::URL_SAFE);
    let intent = intent_for_email(&shares, &encoded).unwrap();
    assert_eq!(intent.user_id, Uid::new(7));
    assert!(intent_for_email(&shares, "AAAA").is_err());
}

#[test]
fn test_master_key_view() {
    let mut users = Users::new();
    users.add_priv(Uid::new(5), stub_lock(3));
    let mk = users.mk_for_id(Uid::new(5)).unwrap();
    assert_eq!(mk.ct, vec![3]);
    assert!(users.mk_for_id(Uid::new(6)).is_none());
}

#[test]
fn test_purge_resets_stores() {
    let mut nodes = Nodes::new();
    nodes.add(root_node(1));
    let mut shares = Shares::new();
    shares.add_invite_intent(intent_for("p@x", &pub_identity(1, 3), 5));
    nodes.purge();
    shares.purge();
    assert!(nodes.get_all().is_empty());
    assert!(shares.get_invite_intent("p@x").is_none());
}
