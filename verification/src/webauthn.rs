//! The WebAuthn store: one-shot pending registrations, one-shot
//! authentication challenges, and persisted passkeys.
//!
//! Verification is real: the `challenge` field of the client data is
//! located, Base64-decoded, and compared byte for byte against the stored
//! salt; for authentication the assertion signature over
//! `authenticator_data || SHA256(client_data_json)` is additionally
//! verified against the stored passkey's public key.

use vstd::prelude::*;

use std::collections::HashMap;

use crate::b64::{b64_decode, b64_decoded};
use crate::bytes::bytes_eq;
use crate::eddsa::{ed25519_verifies, ed25519_verify};
use crate::encrypted::{Encrypted, EncryptedView};
use crate::id::Uid;
use crate::purge::Purge;
use crate::salt::Salt;

verus! {

pub type CredentialId = Vec<u8>;

/// A pending registration: the challenge the client must echo, and the
/// PRF salt the passkey will be stored with.
#[derive(Clone, Copy, PartialEq, Debug)]
pub struct Registration {
    pub challenge: Salt,
    pub prf_salt: Salt,
}

/// A pending authentication challenge.
#[derive(Clone, Copy, PartialEq, Debug)]
pub struct AuthChallenge {
    pub id: Uid,
    pub challenge: Salt,
    pub prf_salt: Option<Salt>,
}

/// A credential as the client presents it at registration.
#[derive(PartialEq, Debug)]
pub struct Credential {
    pub id: CredentialId,
    pub name: String,
    /// public key, attestation statement and authenticator metadata
    pub attestation: Vec<u8>,
    pub client_data_json: String,
}

/// What the client hands in to finish a registration.
#[derive(PartialEq, Debug)]
pub struct Bundle {
    pub cred: Credential,
    pub mk: Encrypted,
}

/// What the client hands in to finish an authentication.
#[derive(PartialEq, Debug)]
pub struct Authentication {
    pub id: CredentialId,
    pub authenticator_data: Vec<u8>,
    pub client_data_json: String,
    /// the authenticator's signature over
    /// `authenticator_data || SHA256(client_data_json)`
    pub signature: Vec<u8>,
}

/// A stored passkey, with the master key wrapped under a PRF-derived key
/// so the passkey can later unlock the account.
#[derive(PartialEq, Debug)]
pub struct Passkey {
    pub prf_salt: Salt,
    pub user_id: Uid,
    pub id: CredentialId,
    pub name: String,
    pub pub_key: Vec<u8>,
    pub mk: Encrypted,
}

#[verifier::ext_equal]
pub struct PasskeyView {
    pub prf_salt: Salt,
    pub user_id: Uid,
    pub id: Seq<u8>,
    pub name: Seq<char>,
    pub pub_key: Seq<u8>,
    pub mk: EncryptedView,
}

impl View for Passkey {
    type V = PasskeyView;

    open spec fn view(&self) -> PasskeyView {
        PasskeyView {
            prf_salt: self.prf_salt,
            user_id: self.user_id,
            id: self.id@,
            name: self.name@,
            pub_key: self.pub_key@,
            mk: self.mk@,
        }
    }
}

impl Clone for Passkey {
    fn clone(&self) -> (r: Self)
        ensures
            r@ == self@,
    {
        let r = Passkey {
            prf_salt: self.prf_salt,
            user_id: self.user_id,
            id: self.id.clone(),
            name: self.name.clone(),
            pub_key: self.pub_key.clone(),
            mk: self.mk.clone(),
        };
        proof {
            assert(r@ =~= self@);
        }
        r
    }
}

/// The process-wide PRF salt registrations are issued with.
pub open spec fn prf_salt_bytes() -> Seq<u8> {
    seq![
        107u8, 52, 55, 44, 48, 86, 61, 48, 35, 102, 54, 102, 110, 33, 121, 102, 78, 50, 79, 115,
        121, 45, 104, 116, 44, 46, 37, 97, 121, 52, 109, 100,
    ]
}

/// The process-wide PRF salt as a value.
pub fn default_prf_salt() -> (r: Salt)
    ensures
        r.bytes@ == prf_salt_bytes(),
{
    let bytes: [u8; 32] = [
        107u8, 52, 55, 44, 48, 86, 61, 48, 35, 102, 54, 102, 110, 33, 121, 102, 78, 50, 79, 115,
        121, 45, 104, 116, 44, 46, 37, 97, 121, 52, 109, 100,
    ];
    let r = Salt { bytes };
    proof {
        assert(r.bytes@ =~= prf_salt_bytes());
    }
    r
}

impl Registration {
    /// A fresh registration: random challenge, process-wide PRF salt.
    pub fn new() -> (r: Self)
        ensures
            r.prf_salt.bytes@ == prf_salt_bytes(),
    {
        Registration { challenge: Salt::generate(), prf_salt: default_prf_salt() }
    }
}

impl AuthChallenge {
    /// A fresh authentication challenge: random id and challenge,
    /// process-wide PRF salt.
    pub fn new() -> (r: Self)
        ensures
            r.prf_salt matches Some(s) && s.bytes@ == prf_salt_bytes(),
    {
        AuthChallenge {
            id: Uid::generate(),
            challenge: Salt::generate(),
            prf_salt: Some(default_prf_salt()),
        }
    }
}

// ---------------------------------------------------------------------
// Locating and checking the challenge inside the client data.
// ---------------------------------------------------------------------

/// The bytes of `"challenge":"` — the marker that precedes the encoded
/// challenge inside the client data JSON.
pub open spec fn challenge_marker() -> Seq<u8> {
    seq![34u8, 99, 104, 97, 108, 108, 101, 110, 103, 101, 34, 58, 34]
}

/// Whether the marker sits at position `i` of `s`.
pub open spec fn marker_at(s: Seq<u8>, i: int) -> bool {
    0 <= i && i + 13 <= s.len() && s.subrange(i, i + 13) == challenge_marker()
}

/// The first marker position at or after `from`, if any.
pub open spec fn first_marker(s: Seq<u8>, from: int) -> Option<int>
    decreases s.len() - from,
{
    if from < 0 || from + 13 > s.len() {
        None
    } else if marker_at(s, from) {
        Some(from)
    } else {
        first_marker(s, from + 1)
    }
}

/// The first double-quote at or after `from`, if any.
pub open spec fn first_quote(s: Seq<u8>, from: int) -> Option<int>
    decreases s.len() - from,
{
    if from < 0 || from >= s.len() {
        None
    } else if s[from] == 34 {
        Some(from)
    } else {
        first_quote(s, from + 1)
    }
}

/// The encoded challenge the client data carries: the text between the
/// marker's closing quote pair.
pub open spec fn challenge_field(s: Seq<u8>) -> Option<Seq<u8>> {
    match first_marker(s, 0) {
        None => None,
        Some(m) => match first_quote(s, m + 13) {
            None => None,
            Some(e) => Some(s.subrange(m + 13, e)),
        },
    }
}

/// Whether client data text carries a challenge field that Base64-decodes
/// to the given salt.
pub open spec fn challenge_matches(s: Seq<char>, salt: Seq<u8>) -> bool {
    match challenge_field(vstd::utf8::encode_utf8(s)) {
        None => false,
        Some(f) => match b64_decoded(f) {
            None => false,
            Some(v) => v == salt,
        },
    }
}

/// Whether the marker sits at a byte position.
fn marker_here(j: &[u8], i: usize) -> (r: bool)
    requires
        i + 13 <= j@.len(),
    ensures
        r == marker_at(j@, i as int),
{
    let n = j.len();
    let pat: [u8; 13] = [34u8, 99, 104, 97, 108, 108, 101, 110, 103, 101, 34, 58, 34];
    proof {
        assert(pat@ =~= challenge_marker());
    }
    let mut k: usize = 0;
    while k < 13
        invariant
            k <= 13,
            n == j@.len(),
            i + 13 <= n,
            pat@ == challenge_marker(),
            forall|t: int| 0 <= t < k ==> j@[i + t] == challenge_marker()[t],
        decreases 13 - k,
    {
        if j[i + k] != pat[k] {
            proof {
                assert(j@.subrange(i as int, i + 13)[k as int] == j@[i + k]);
            }
            return false;
        }
        k = k + 1;
    }
    proof {
        assert(j@.subrange(i as int, i + 13) =~= challenge_marker());
    }
    true
}

/// Finds the first marker position in client data bytes.
fn find_marker(j: &[u8]) -> (r: Option<usize>)
    ensures
        match r {
            Some(m) => first_marker(j@, 0) == Some(m as int) && m + 13 <= j@.len(),
            None => first_marker(j@, 0) is None,
        },
{
    let n = j.len();
    if n < 13 {
        return None;
    }
    let mut i: usize = 0;
    while i <= n - 13
        invariant
            n == j@.len(),
            13 <= n,
            i <= n - 13 + 1,
            first_marker(j@, 0) == first_marker(j@, i as int),
        decreases n - i,
    {
        if marker_here(j, i) {
            return Some(i);
        }
        i = i + 1;
    }
    proof {
        assert(first_marker(j@, i as int) is None);
    }
    None
}

/// Extracts the encoded challenge from client data bytes.
fn extract_challenge(j: &[u8]) -> (r: Option<Vec<u8>>)
    ensures
        match r {
            Some(v) => challenge_field(j@) == Some(v@),
            None => challenge_field(j@) is None,
        },
{
    let n = j.len();
    let m = match find_marker(j) {
        Some(m) => m,
        None => {
            return None;
        },
    };
    // scan for the closing quote
    let mut e: usize = m + 13;
    while e < n && j[e] != 34
        invariant
            n == j@.len(),
            m + 13 <= e <= n,
            first_quote(j@, (m + 13) as int) == first_quote(j@, e as int),
        decreases n - e,
    {
        e = e + 1;
    }
    if e == n {
        proof {
            assert(first_quote(j@, e as int) is None);
        }
        return None;
    }
    proof {
        assert(first_quote(j@, e as int) == Some(e as int));
    }
    let mut out: Vec<u8> = Vec::new();
    let mut k: usize = m + 13;
    while k < e
        invariant
            n == j@.len(),
            m + 13 <= k <= e <= n,
            out@.len() == k - (m + 13),
            forall|t: int| 0 <= t < out@.len() ==> out@[t] == j@[m + 13 + t],
        decreases e - k,
    {
        out.push(j[k]);
        k = k + 1;
    }
    proof {
        assert(out@ =~= j@.subrange(m + 13, e as int));
    }
    Some(out)
}

/// Whether the registration client data carries the issued challenge,
/// Base64-decoded and compared against the stored salt.
pub fn verify_reg_challenge(ch: &str, against: Salt) -> (r: bool)
    ensures
        r == challenge_matches(ch@, against.bytes@),
{
    let bytes = ch.as_bytes();
    match extract_challenge(bytes) {
        None => false,
        Some(field) => match b64_decode(field.as_slice()) {
            None => false,
            Some(v) => {
                let r = bytes_eq(v.as_slice(), against.bytes.as_slice());
                r
            },
        },
    }
}

/// The message a WebAuthn assertion signs: the authenticator data followed
/// by the SHA-256 digest of the client data text.
pub open spec fn auth_message(authenticator_data: Seq<u8>, client_data_json: Seq<char>) -> Seq<
    u8,
> {
    authenticator_data + crate::digest::sha256_of(vstd::utf8::encode_utf8(client_data_json))
}

/// Whether an authentication response checks out against an issued
/// challenge and a stored public key: the client data carries the
/// challenge, and the assertion signature over
/// `authenticator_data || SHA256(client_data_json)` verifies.
pub open spec fn auth_verifies(
    authenticator_data: Seq<u8>,
    client_data_json: Seq<char>,
    signature: Seq<u8>,
    against: Seq<u8>,
    pub_key: Seq<u8>,
) -> bool {
    &&& challenge_matches(client_data_json, against)
    &&& ed25519_verifies(pub_key, auth_message(authenticator_data, client_data_json), signature)
}

/// Whether the authentication response carries the issued challenge and a
/// valid assertion signature under the given public key.
pub fn verify_auth_challenge(ch: &Authentication, against: Salt, pub_key: &[u8]) -> (r: bool)
    ensures
        r == auth_verifies(
            ch.authenticator_data@,
            ch.client_data_json@,
            ch.signature@,
            against.bytes@,
            pub_key@,
        ),
{
    let bytes = ch.client_data_json.as_str().as_bytes();
    let challenge_ok = match extract_challenge(bytes) {
        None => false,
        Some(field) => match b64_decode(field.as_slice()) {
            None => false,
            Some(v) => bytes_eq(v.as_slice(), against.bytes.as_slice()),
        },
    };
    if !challenge_ok {
        return false;
    }
    let mut msg = ch.authenticator_data.clone();
    proof {
        assert(msg@ =~= ch.authenticator_data@);
    }
    let mut digest = crate::digest::sha256(bytes);
    msg.append(&mut digest);
    proof {
        assert(msg@ =~= auth_message(ch.authenticator_data@, ch.client_data_json@));
    }
    ed25519_verify(pub_key, msg.as_slice(), ch.signature.as_slice())
}

// ---------------------------------------------------------------------
// The store.
// ---------------------------------------------------------------------

/// The first passkey stored under a credential id, if any.
pub open spec fn find_passkey(s: Seq<Passkey>, id: Seq<u8>) -> Option<int>
    decreases s.len(),
{
    if s.len() == 0 {
        None
    } else if s[0].id@ == id {
        Some(0)
    } else {
        match find_passkey(s.drop_first(), id) {
            Some(i) => Some(i + 1),
            None => None,
        }
    }
}

/// A credential id is absent from the store exactly when no passkey
/// carries it.
pub proof fn lemma_find_passkey_absent(s: Seq<Passkey>, id: Seq<u8>)
    ensures
        find_passkey(s, id) is None <==> (forall|k: int|
            0 <= k < s.len() ==> (#[trigger] s[k]).id@ != id),
    decreases s.len(),
{
    if s.len() == 0 {
    } else {
        lemma_find_passkey_absent(s.drop_first(), id);
        if s[0].id@ == id {
        } else {
            if find_passkey(s, id) is None {
                assert forall|k: int| 0 <= k < s.len() implies (#[trigger] s[k]).id@ != id by {
                    if k > 0 {
                        assert(s.drop_first()[k - 1] == s[k]);
                    }
                }
            }
        }
    }
}

/// A found passkey index is in range and carries the credential id looked
/// up.
pub proof fn lemma_find_passkey_range(s: Seq<Passkey>, id: Seq<u8>)
    requires
        find_passkey(s, id) is Some,
    ensures
        ({
            let i = find_passkey(s, id).unwrap();
            &&& 0 <= i < s.len()
            &&& s[i].id@ == id
        }),
    decreases s.len(),
{
    if s.len() > 0 && s[0].id@ != id {
        lemma_find_passkey_range(s.drop_first(), id);
    }
}

/// The views of a list of passkeys.
pub open spec fn passkey_views(s: Seq<Passkey>) -> Seq<PasskeyView> {
    Seq::new(s.len(), |i: int| s[i]@)
}

/// The passkeys registered to a user, in storage order.
pub open spec fn passkeys_of(s: Seq<Passkey>, user_id: Uid) -> Seq<PasskeyView>
    decreases s.len(),
{
    if s.len() == 0 {
        Seq::empty()
    } else {
        let rest = passkeys_of(s.drop_first(), user_id);
        if s[0].user_id == user_id {
            seq![s[0]@] + rest
        } else {
            rest
        }
    }
}

/// What consuming a pending registration does.
pub open spec fn consume_reg_spec(m: Map<u64, Registration>, id: u64) -> (
    Map<u64, Registration>,
    Option<Registration>,
) {
    if m.dom().contains(id) {
        (m.remove(id), Some(m[id]))
    } else {
        (m, None)
    }
}

/// What consuming an authentication challenge does.
pub open spec fn consume_auth_spec(m: Map<u64, Salt>, id: u64) -> (Map<u64, Salt>, Option<Salt>) {
    if m.dom().contains(id) {
        (m.remove(id), Some(m[id]))
    } else {
        (m, None)
    }
}

pub struct Webauthn {
    /// user id -> pending registration
    pub pending_registrations: HashMap<u64, Registration>,
    /// challenge id -> challenge
    pub auth_challenges: HashMap<u64, Salt>,
    /// the registered passkeys, in registration order
    pub passkeys: Vec<Passkey>,
}

impl Webauthn {
    /// Credential ids key the passkeys: no two entries share one.
    pub open spec fn inv(&self) -> bool {
        forall|i: int, j: int|
            0 <= i < self.passkeys@.len() && 0 <= j < self.passkeys@.len() && i != j ==> (
            #[trigger] self.passkeys@[i]).id@ != (#[trigger] self.passkeys@[j]).id@
    }

    /// Stores a pending registration, replacing any previous one.
    pub fn add_registration(&mut self, id: Uid, reg: Registration)
        ensures
            final(self).pending_registrations@ == old(self).pending_registrations@.insert(
                id.0,
                reg,
            ),
            final(self).auth_challenges@ == old(self).auth_challenges@,
            final(self).passkeys@ == old(self).passkeys@,
    {
        self.pending_registrations.insert(id.0, reg);
    }

    /// Takes the pending registration of a user: registrations are
    /// one-shot.
    pub fn consume_registration(&mut self, user_id: Uid) -> (r: Option<Registration>)
        ensures
            (final(self).pending_registrations@, r) == consume_reg_spec(
                old(self).pending_registrations@,
                user_id.0,
            ),
            final(self).auth_challenges@ == old(self).auth_challenges@,
            final(self).passkeys@ == old(self).passkeys@,
    {
        let r = self.pending_registrations.remove(&user_id.0);
        proof {
            if !old(self).pending_registrations@.dom().contains(user_id.0) {
                assert(self.pending_registrations@ =~= old(self).pending_registrations@);
            }
        }
        r
    }

    /// Finds the index of the passkey stored under a credential id.
    fn find_passkey_idx(&self, id: &[u8]) -> (r: Option<usize>)
        ensures
            match r {
                Some(i) => i < self.passkeys@.len() && find_passkey(self.passkeys@, id@) == Some(
                    i as int,
                ) && self.passkeys@[i as int].id@ == id@,
                None => find_passkey(self.passkeys@, id@) is None && forall|j: int|
                    0 <= j < self.passkeys@.len() ==> (#[trigger] self.passkeys@[j]).id@ != id@,
            },
    {
        let n = self.passkeys.len();
        let mut i: usize = 0;
        proof {
            assert(self.passkeys@.skip(0) =~= self.passkeys@);
        }
        while i < n
            invariant
                n == self.passkeys@.len(),
                i <= n,
                forall|j: int| 0 <= j < i ==> (#[trigger] self.passkeys@[j]).id@ != id@,
                find_passkey(self.passkeys@, id@) == match find_passkey(
                    self.passkeys@.skip(i as int),
                    id@,
                ) {
                    Some(k) => Some(k + i),
                    None => None::<int>,
                },
            decreases n - i,
        {
            let hit = bytes_eq(self.passkeys[i].id.as_slice(), id);
            proof {
                let sk = self.passkeys@.skip(i as int);
                assert(sk[0] == self.passkeys@[i as int]);
                assert(sk.drop_first() =~= self.passkeys@.skip(i + 1));
            }
            if hit {
                return Some(i);
            }
            i = i + 1;
        }
        proof {
            assert(self.passkeys@.skip(n as int) =~= Seq::<Passkey>::empty());
        }
        None
    }

    /// Stores the passkey a finished registration produced, keyed by its
    /// credential id, replacing any previous one under that id.
    pub fn add_passkey(&mut self, user_id: Uid, prf_salt: Salt, bundle: Bundle)
        requires
            old(self).inv(),
        ensures
            final(self).inv(),
            final(self).pending_registrations@ == old(self).pending_registrations@,
            final(self).auth_challenges@ == old(self).auth_challenges@,
            ({
                let at = match find_passkey(old(self).passkeys@, bundle.cred.id@) {
                    Some(i) => i,
                    None => old(self).passkeys@.len() as int,
                };
                let stored = final(self).passkeys@[at]@;
                &&& stored.prf_salt == prf_salt
                &&& stored.user_id == user_id
                &&& stored.id == bundle.cred.id@
                &&& stored.name == bundle.cred.name@
                &&& stored.pub_key == bundle.cred.attestation@
                &&& stored.mk == bundle.mk@
                &&& match find_passkey(old(self).passkeys@, bundle.cred.id@) {
                    Some(i) => {
                        &&& final(self).passkeys@.len() == old(self).passkeys@.len()
                        &&& forall|j: int|
                            0 <= j < old(self).passkeys@.len() && j != i
                                ==> #[trigger] final(self).passkeys@[j] == old(self).passkeys@[j]
                    },
                    None => {
                        &&& final(self).passkeys@.len() == old(self).passkeys@.len() + 1
                        &&& forall|j: int|
                            0 <= j < old(self).passkeys@.len()
                                ==> #[trigger] final(self).passkeys@[j] == old(self).passkeys@[j]
                    },
                }
            }),
    {
        let idx = self.find_passkey_idx(bundle.cred.id.as_slice());
        let pk = Passkey {
            prf_salt,
            user_id,
            id: bundle.cred.id,
            name: bundle.cred.name,
            pub_key: bundle.cred.attestation,
            mk: bundle.mk,
        };
        match idx {
            Some(i) => {
                self.passkeys.remove(i);
                self.passkeys.insert(i, pk);
            },
            None => {
                self.passkeys.push(pk);
                proof {
                    let nv = self.passkeys@;
                    assert forall|i: int, j: int|
                        0 <= i < nv.len() && 0 <= j < nv.len() && i != j implies (
                    #[trigger] nv[i]).id@ != (#[trigger] nv[j]).id@ by {
                        if i == nv.len() - 1 {
                            assert(nv[j] == old(self).passkeys@[j]);
                        } else if j == nv.len() - 1 {
                            assert(nv[i] == old(self).passkeys@[i]);
                        } else {
                            assert(nv[i] == old(self).passkeys@[i]);
                            assert(nv[j] == old(self).passkeys@[j]);
                        }
                    }
                }
            },
        }
    }

    /// The passkeys registered to a user.
    pub fn passkeys_for_user(&self, user_id: Uid) -> (r: Vec<Passkey>)
        ensures
            passkey_views(r@) == passkeys_of(self.passkeys@, user_id),
    {
        let mut r: Vec<Passkey> = Vec::new();
        let n = self.passkeys.len();
        let mut i: usize = 0;
        proof {
            assert(self.passkeys@.skip(0) =~= self.passkeys@);
        }
        while i < n
            invariant
                n == self.passkeys@.len(),
                i <= n,
                passkeys_of(self.passkeys@, user_id) =~= passkey_views(r@) + passkeys_of(
                    self.passkeys@.skip(i as int),
                    user_id,
                ),
            decreases n - i,
        {
            let ghost pre = r@;
            let pk = &self.passkeys[i];
            if pk.user_id.0 == user_id.0 {
                r.push(pk.clone());
            }
            i = i + 1;
            proof {
                let sk = self.passkeys@.skip(i - 1);
                assert(sk[0] == self.passkeys@[i - 1]);
                assert(sk.drop_first() =~= self.passkeys@.skip(i as int));
                if self.passkeys@[i - 1].user_id == user_id {
                    assert(passkey_views(r@) =~= passkey_views(pre) + seq![
                        self.passkeys@[i - 1]@,
                    ]);
                } else {
                    assert(passkey_views(r@) =~= passkey_views(pre));
                }
                assert(passkeys_of(self.passkeys@, user_id) =~= passkey_views(r@) + passkeys_of(
                    self.passkeys@.skip(i as int),
                    user_id,
                ));
            }
        }
        proof {
            assert(self.passkeys@.skip(n as int) =~= Seq::<Passkey>::empty());
            assert(passkey_views(r@) + Seq::<PasskeyView>::empty() =~= passkey_views(r@));
            assert(passkey_views(r@) =~= passkeys_of(self.passkeys@, user_id));
        }
        r
    }

    /// Drops the passkey stored under a credential id, if any.
    pub fn remove_passkey(&mut self, id: CredentialId)
        requires
            old(self).inv(),
        ensures
            final(self).inv(),
            final(self).pending_registrations@ == old(self).pending_registrations@,
            final(self).auth_challenges@ == old(self).auth_challenges@,
            match find_passkey(old(self).passkeys@, id@) {
                Some(i) => final(self).passkeys@ == old(self).passkeys@.remove(i),
                None => final(self).passkeys@ == old(self).passkeys@,
            },
    {
        match self.find_passkey_idx(id.as_slice()) {
            Some(i) => {
                self.passkeys.remove(i);
                proof {
                    assert(self.passkeys@ =~= old(self).passkeys@.remove(
                        find_passkey(old(self).passkeys@, id@).unwrap(),
                    ));
                }
            },
            None => {},
        }
    }

    /// The passkey stored under a credential id, if any.
    pub fn passkey_for_credential_id(&self, id: &CredentialId) -> (r: Option<&Passkey>)
        ensures
            match r {
                Some(pk) => {
                    &&& find_passkey(self.passkeys@, id@) matches Some(i)
                    &&& *pk == self.passkeys@[find_passkey(self.passkeys@, id@).unwrap()]
                    &&& pk.id@ == id@
                },
                None => find_passkey(self.passkeys@, id@) is None,
            },
    {
        match self.find_passkey_idx(id.as_slice()) {
            Some(i) => Some(&self.passkeys[i]),
            None => None,
        }
    }

    /// Stores an authentication challenge under its id.
    pub fn add_auth_challenge(&mut self, ch: AuthChallenge)
        ensures
            final(self).auth_challenges@ == old(self).auth_challenges@.insert(
                ch.id.0,
                ch.challenge,
            ),
            final(self).pending_registrations@ == old(self).pending_registrations@,
            final(self).passkeys@ == old(self).passkeys@,
    {
        self.auth_challenges.insert(ch.id.0, ch.challenge);
    }

    /// Takes an authentication challenge: challenges are one-shot.
    pub fn consume_auth_challenge(&mut self, id: Uid) -> (r: Option<Salt>)
        ensures
            (final(self).auth_challenges@, r) == consume_auth_spec(
                old(self).auth_challenges@,
                id.0,
            ),
            final(self).pending_registrations@ == old(self).pending_registrations@,
            final(self).passkeys@ == old(self).passkeys@,
    {
        let r = self.auth_challenges.remove(&id.0);
        proof {
            if !old(self).auth_challenges@.dom().contains(id.0) {
                assert(self.auth_challenges@ =~= old(self).auth_challenges@);
            }
        }
        r
    }
}

/// Registrations are one-shot: once consuming a registration succeeds,
/// consuming the same user's registration again yields nothing.
pub proof fn lemma_consume_registration_one_shot(m: Map<u64, Registration>, id: u64)
    requires
        consume_reg_spec(m, id).1 is Some,
    ensures
        consume_reg_spec(consume_reg_spec(m, id).0, id).1 is None,
{
}

/// Authentication challenges are one-shot: whether verification later
/// succeeds or fails, consuming a challenge removes it, so consuming the
/// same id again yields nothing.
pub proof fn lemma_consume_auth_one_shot(m: Map<u64, Salt>, id: u64)
    requires
        consume_auth_spec(m, id).1 is Some,
    ensures
        consume_auth_spec(consume_auth_spec(m, id).0, id).1 is None,
{
}

impl Purge for Webauthn {
    open spec fn pristine(&self) -> bool {
        &&& self.pending_registrations@ == Map::<u64, Registration>::empty()
        &&& self.auth_challenges@ == Map::<u64, Salt>::empty()
        &&& self.passkeys@ == Seq::<Passkey>::empty()
        &&& self.inv()
    }

    fn new() -> (r: Self) {
        Webauthn {
            pending_registrations: HashMap::new(),
            auth_challenges: HashMap::new(),
            passkeys: Vec::new(),
        }
    }

    fn purge(&mut self) {
        self.pending_registrations = HashMap::new();
        self.auth_challenges = HashMap::new();
        self.passkeys = Vec::new();
    }
}

} // verus!
