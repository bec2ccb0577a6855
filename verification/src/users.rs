//! The user store: email to user id, user id to public identity, and user
//! id to locked private bundle.  No password is verified here — the system
//! is end-to-end encrypted, and possession of the locked bundle plus the
//! key that opens it is the real authentication.

use vstd::prelude::*;

use std::collections::HashMap;

use crate::bytes::str_eq;
use crate::encrypted::Encrypted;
use crate::id::Uid;
use crate::identity;
use crate::lock::{Lock, LockView};
use crate::nodes::{LockedNode, NodeView};
use crate::purge::Purge;
use crate::shares::{IntentView, InviteIntent, LockedShare, ShareView};
use vstd::string::StringExecFns;

verus! {

/// Everything a logged-in client needs: the locked private bundle, the
/// public identity, the shares and pending intents that concern the user,
/// and the full node list.
#[derive(PartialEq, Debug)]
pub struct LockedUser {
    /// password-encrypted private identity
    pub encrypted_priv: Lock,
    pub _pub: identity::Public,
    /// sent, acked and encrypted shares
    pub shares: Vec<LockedShare>,
    /// sent and optionally acked intents (useful to cancel before
    /// acceptance)
    pub pending_invite_intents: Vec<InviteIntent>,
    pub roots: Vec<LockedNode>,
}

#[verifier::ext_equal]
pub struct LockedUserView {
    pub encrypted_priv: LockView,
    pub _pub: identity::Public,
    pub shares: Seq<ShareView>,
    pub pending_invite_intents: Seq<IntentView>,
    pub roots: Seq<NodeView>,
}

/// The views of a list of nodes.
pub open spec fn node_views(s: Seq<LockedNode>) -> Seq<NodeView> {
    Seq::new(s.len(), |i: int| s[i]@)
}

impl View for LockedUser {
    type V = LockedUserView;

    open spec fn view(&self) -> LockedUserView {
        LockedUserView {
            encrypted_priv: self.encrypted_priv@,
            _pub: self._pub,
            shares: crate::shares::share_views(self.shares@),
            pending_invite_intents: crate::shares::intent_views(self.pending_invite_intents@),
            roots: node_views(self.roots@),
        }
    }
}

#[derive(PartialEq, Debug)]
pub struct Signup {
    pub email: String,
    pub pass: String,
    pub user: LockedUser,
}

#[derive(PartialEq, Debug)]
pub struct Login {
    pub email: String,
    pub pass: String,
}

/// The first credential entry stored under an email, if any.
pub open spec fn find_cred(s: Seq<(String, Uid)>, email: Seq<char>) -> Option<int>
    decreases s.len(),
{
    if s.len() == 0 {
        None
    } else if s[0].0@ == email {
        Some(0)
    } else {
        match find_cred(s.drop_first(), email) {
            Some(i) => Some(i + 1),
            None => None,
        }
    }
}

/// A found credential index is in range and carries the email looked up.
pub proof fn lemma_find_cred_range(s: Seq<(String, Uid)>, email: Seq<char>)
    requires
        find_cred(s, email) is Some,
    ensures
        ({
            let i = find_cred(s, email).unwrap();
            &&& 0 <= i < s.len()
            &&& s[i].0@ == email
        }),
    decreases s.len(),
{
    if s.len() > 0 && s[0].0@ != email {
        lemma_find_cred_range(s.drop_first(), email);
    }
}

pub struct Users {
    /// email -> user id
    pub credentials: Vec<(String, Uid)>,
    /// user id -> public identity
    pub public_keys: HashMap<u64, identity::Public>,
    /// user id -> locked private bundle
    pub private_keys: HashMap<u64, Lock>,
}

impl Users {
    /// Emails key the credentials: no two entries share one.
    pub open spec fn inv(&self) -> bool {
        forall|i: int, j: int|
            0 <= i < self.credentials@.len() && 0 <= j < self.credentials@.len() && i != j ==> (
            #[trigger] self.credentials@[i]).0@ != (#[trigger] self.credentials@[j]).0@
    }

    /// Registers a locked private bundle, replacing any previous one.
    pub fn add_priv(&mut self, id: Uid, locked: Lock)
        ensures
            final(self).private_keys@ == old(self).private_keys@.insert(id.0, locked),
            final(self).public_keys@ == old(self).public_keys@,
            final(self).credentials@ == old(self).credentials@,
    {
        self.private_keys.insert(id.0, locked);
    }

    /// The locked private bundle of a user, if any.
    pub fn priv_for_id(&self, user_id: Uid) -> (r: Option<&Lock>)
        ensures
            match r {
                Some(l) => self.private_keys@.dom().contains(user_id.0) && *l
                    == self.private_keys@[user_id.0],
                None => !self.private_keys@.dom().contains(user_id.0),
            },
    {
        self.private_keys.get(&user_id.0)
    }

    /// Registers a public identity, replacing any previous one.
    pub fn add_pub(&mut self, id: Uid, public: identity::Public)
        ensures
            final(self).public_keys@ == old(self).public_keys@.insert(id.0, public),
            final(self).private_keys@ == old(self).private_keys@,
            final(self).credentials@ == old(self).credentials@,
    {
        self.public_keys.insert(id.0, public);
    }

    /// The public identity of a user, if any.
    pub fn pub_for_id(&self, user_id: Uid) -> (r: Option<&identity::Public>)
        ensures
            match r {
                Some(p) => self.public_keys@.dom().contains(user_id.0) && *p
                    == self.public_keys@[user_id.0],
                None => !self.public_keys@.dom().contains(user_id.0),
            },
    {
        self.public_keys.get(&user_id.0)
    }

    /// The master-key envelope inside a user's locked private bundle.
    pub fn mk_for_id(&self, user_id: Uid) -> (r: Option<&Encrypted>)
        ensures
            match r {
                Some(e) => self.private_keys@.dom().contains(user_id.0) && *e
                    == self.private_keys@[user_id.0].master_key,
                None => !self.private_keys@.dom().contains(user_id.0),
            },
    {
        match self.private_keys.get(&user_id.0) {
            Some(l) => Some(&l.master_key),
            None => None,
        }
    }

    /// Finds the index of the credential entry stored under an email.
    fn find_cred_idx(&self, email: &str) -> (r: Option<usize>)
        ensures
            match r {
                Some(i) => i < self.credentials@.len() && find_cred(self.credentials@, email@)
                    == Some(i as int) && self.credentials@[i as int].0@ == email@,
                None => find_cred(self.credentials@, email@) is None && forall|j: int|
                    0 <= j < self.credentials@.len() ==> (#[trigger] self.credentials@[j]).0@
                        != email@,
            },
    {
        let n = self.credentials.len();
        let mut i: usize = 0;
        proof {
            assert(self.credentials@.skip(0) =~= self.credentials@);
        }
        while i < n
            invariant
                n == self.credentials@.len(),
                i <= n,
                forall|j: int| 0 <= j < i ==> (#[trigger] self.credentials@[j]).0@ != email@,
                find_cred(self.credentials@, email@) == match find_cred(
                    self.credentials@.skip(i as int),
                    email@,
                ) {
                    Some(k) => Some(k + i),
                    None => None::<int>,
                },
            decreases n - i,
        {
            let hit = str_eq(self.credentials[i].0.as_str(), email);
            proof {
                let sk = self.credentials@.skip(i as int);
                assert(sk[0] == self.credentials@[i as int]);
                assert(sk.drop_first() =~= self.credentials@.skip(i + 1));
            }
            if hit {
                return Some(i);
            }
            i = i + 1;
        }
        proof {
            assert(self.credentials@.skip(n as int) =~= Seq::<(String, Uid)>::empty());
        }
        None
    }

    /// Maps an email to a user id, replacing any previous mapping.
    pub fn add_credentials(&mut self, email: &str, id: Uid)
        requires
            old(self).inv(),
        ensures
            final(self).inv(),
            final(self).public_keys@ == old(self).public_keys@,
            final(self).private_keys@ == old(self).private_keys@,
            ({
                let at = match find_cred(old(self).credentials@, email@) {
                    Some(i) => i,
                    None => old(self).credentials@.len() as int,
                };
                let entry = final(self).credentials@[at];
                &&& entry.0@ == email@
                &&& entry.1 == id
                &&& match find_cred(old(self).credentials@, email@) {
                    Some(i) => {
                        &&& final(self).credentials@.len() == old(self).credentials@.len()
                        &&& forall|j: int|
                            0 <= j < old(self).credentials@.len() && j != i
                                ==> #[trigger] final(self).credentials@[j]
                                == old(self).credentials@[j]
                    },
                    None => {
                        &&& final(self).credentials@.len() == old(self).credentials@.len() + 1
                        &&& forall|j: int|
                            0 <= j < old(self).credentials@.len()
                                ==> #[trigger] final(self).credentials@[j]
                                == old(self).credentials@[j]
                    },
                }
            }),
    {
        let entry = (String::from_str(email), id);
        match self.find_cred_idx(email) {
            Some(i) => {
                self.credentials.remove(i);
                self.credentials.insert(i, entry);
            },
            None => {
                self.credentials.push(entry);
                proof {
                    let nv = self.credentials@;
                    assert forall|i: int, j: int|
                        0 <= i < nv.len() && 0 <= j < nv.len() && i != j implies (
                    #[trigger] nv[i]).0@ != (#[trigger] nv[j]).0@ by {
                        if i == nv.len() - 1 {
                            assert(nv[j] == old(self).credentials@[j]);
                        } else if j == nv.len() - 1 {
                            assert(nv[i] == old(self).credentials@[i]);
                        } else {
                            assert(nv[i] == old(self).credentials@[i]);
                            assert(nv[j] == old(self).credentials@[j]);
                        }
                    }
                }
            },
        }
    }

    /// The user id mapped to an email, if any.
    pub fn id_for_email(&self, email: &str) -> (r: Option<Uid>)
        ensures
            match r {
                Some(id) => {
                    &&& find_cred(self.credentials@, email@) matches Some(i)
                    &&& id == self.credentials@[find_cred(self.credentials@, email@).unwrap()].1
                },
                None => find_cred(self.credentials@, email@) is None,
            },
    {
        match self.find_cred_idx(email) {
            Some(i) => Some(self.credentials[i].1),
            None => None,
        }
    }
}

impl Purge for Users {
    open spec fn pristine(&self) -> bool {
        &&& self.credentials@ == Seq::<(String, Uid)>::empty()
        &&& self.public_keys@ == Map::<u64, identity::Public>::empty()
        &&& self.private_keys@ == Map::<u64, Lock>::empty()
        &&& self.inv()
    }

    fn new() -> (r: Self) {
        Users { credentials: Vec::new(), public_keys: HashMap::new(), private_keys: HashMap::new() }
    }

    fn purge(&mut self) {
        self.credentials = Vec::new();
        self.public_keys = HashMap::new();
        self.private_keys = HashMap::new();
    }
}

} // verus!
