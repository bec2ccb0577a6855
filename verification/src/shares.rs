//! The sharing state machine: locked shares (sender to receiver), pinned
//! invites keyed by email, and pin-less invite intents that the invitee
//! acknowledges exactly once.

use vstd::prelude::*;

use crate::bytes::str_eq;
use crate::ed25519;
use crate::id::Uid;
use crate::identity;
use crate::identity::IdentityEncryptedView;
use crate::lock::{Lock, LockView};
use crate::nodes::LockedNode;
use crate::purge::Purge;

verus! {

/// A 32-byte one-shot unlock token.
#[derive(Clone, Copy, PartialEq, Debug)]
pub struct Seed {
    pub bytes: [u8; 32],
}

/// The seed identifiers a sender authorises a receiver to derive.
#[derive(PartialEq, Debug)]
pub struct Export {
    /// no signature is needed here; the enclosing share is validated
    pub receiver: Uid,
    /// identifiers of the exported filesystem seeds
    pub fs: Vec<Uid>,
    /// identifiers of the exported database seeds
    pub db: Vec<Uid>,
}

#[verifier::ext_equal]
pub struct ExportView {
    pub receiver: Uid,
    pub fs: Seq<Uid>,
    pub db: Seq<Uid>,
}

impl View for Export {
    type V = ExportView;

    open spec fn view(&self) -> ExportView {
        ExportView { receiver: self.receiver, fs: self.fs@, db: self.db@ }
    }
}

impl Clone for Export {
    fn clone(&self) -> (r: Self)
        ensures
            r@ == self@,
    {
        let r = Export {
            receiver: self.receiver,
            fs: crate::id::clone_uids(&self.fs),
            db: crate::id::clone_uids(&self.db),
        };
        proof {
            assert(r@ =~= self@);
        }
        r
    }
}

/// A share a sender has sealed for a receiver: who sent it, what it
/// exports, the encrypted payload, and the signature over sender and
/// export.
#[derive(PartialEq, Debug)]
pub struct LockedShare {
    pub sender: identity::Public,
    /// ids of the share (convenient to return roots to unlock)
    pub export: Export,
    /// encrypted content of the share
    pub payload: identity::Encrypted,
    /// signs the sender and the export
    pub sig: ed25519::Signature,
}

#[verifier::ext_equal]
pub struct ShareView {
    pub sender: identity::Public,
    pub export: ExportView,
    pub payload: IdentityEncryptedView,
    pub sig: ed25519::Signature,
}

impl View for LockedShare {
    type V = ShareView;

    open spec fn view(&self) -> ShareView {
        ShareView {
            sender: self.sender,
            export: self.export@,
            payload: self.payload@,
            sig: self.sig,
        }
    }
}

impl Clone for LockedShare {
    fn clone(&self) -> (r: Self)
        ensures
            r@ == self@,
    {
        let r = LockedShare {
            sender: self.sender.clone(),
            export: self.export.clone(),
            payload: self.payload.clone(),
            sig: self.sig,
        };
        proof {
            assert(r@ =~= self@);
        }
        r
    }
}

/// A pinned invitation: the receiver's future identifier, the sender, and
/// a payload locked under a pre-shared PIN.
#[derive(PartialEq, Debug)]
pub struct Invite {
    pub user_id: Uid,
    pub sender: identity::Public,
    pub email: String,
    pub payload: Lock,
    pub export: Export,
    pub sig: ed25519::Signature,
}

#[verifier::ext_equal]
pub struct InviteView {
    pub user_id: Uid,
    pub sender: identity::Public,
    pub email: Seq<char>,
    pub payload: LockView,
    pub export: ExportView,
    pub sig: ed25519::Signature,
}

impl View for Invite {
    type V = InviteView;

    open spec fn view(&self) -> InviteView {
        InviteView {
            user_id: self.user_id,
            sender: self.sender,
            email: self.email@,
            payload: self.payload@,
            export: self.export@,
            sig: self.sig,
        }
    }
}

impl Clone for Invite {
    fn clone(&self) -> (r: Self)
        ensures
            r@ == self@,
    {
        let r = Invite {
            user_id: self.user_id,
            sender: self.sender.clone(),
            email: self.email.clone(),
            payload: self.payload.clone(),
            export: self.export.clone(),
            sig: self.sig,
        };
        proof {
            assert(r@ =~= self@);
        }
        r
    }
}

/// A database index a share may refer to.
#[derive(PartialEq, Debug)]
pub enum Index {
    Table { table: String },
    Column { table: String, column: String },
}

#[verifier::ext_equal]
pub enum IndexView {
    Table { table: Seq<char> },
    Column { table: Seq<char>, column: Seq<char> },
}

impl View for Index {
    type V = IndexView;

    open spec fn view(&self) -> IndexView {
        match self {
            Index::Table { table } => IndexView::Table { table: table@ },
            Index::Column { table, column } => IndexView::Column {
                table: table@,
                column: column@,
            },
        }
    }
}

impl Clone for Index {
    fn clone(&self) -> (r: Self)
        ensures
            r@ == self@,
    {
        match self {
            Index::Table { table } => Index::Table { table: table.clone() },
            Index::Column { table, column } => Index::Column {
                table: table.clone(),
                column: column.clone(),
            },
        }
    }
}

/// A pin-less invite intent, acknowledged later by the invitee.
#[derive(PartialEq, Debug)]
pub struct InviteIntent {
    pub email: String,
    pub sender: identity::Public,
    /// signs the email, the user id and the sender's id
    pub sig: ed25519::Signature,
    pub user_id: Uid,
    /// the receiver's public identity, filled in exactly once at signup
    pub receiver: Option<identity::Public>,
    /// `None` means the root
    pub fs_ids: Option<Vec<Uid>>,
    pub db_ids: Option<Vec<Index>>,
}

#[verifier::ext_equal]
pub struct IntentView {
    pub email: Seq<char>,
    pub sender: identity::Public,
    pub sig: ed25519::Signature,
    pub user_id: Uid,
    pub receiver: Option<identity::Public>,
    pub fs_ids: Option<Seq<Uid>>,
    pub db_ids: Option<Seq<IndexView>>,
}

/// The views of a list of database indexes.
pub open spec fn index_views(s: Seq<Index>) -> Seq<IndexView> {
    Seq::new(s.len(), |i: int| s[i]@)
}

impl View for InviteIntent {
    type V = IntentView;

    open spec fn view(&self) -> IntentView {
        IntentView {
            email: self.email@,
            sender: self.sender,
            sig: self.sig,
            user_id: self.user_id,
            receiver: self.receiver,
            fs_ids: match self.fs_ids {
                Some(v) => Some(v@),
                None => None,
            },
            db_ids: match self.db_ids {
                Some(v) => Some(index_views(v@)),
                None => None,
            },
        }
    }
}

impl Clone for InviteIntent {
    fn clone(&self) -> (r: Self)
        ensures
            r@ == self@,
    {
        let receiver = match &self.receiver {
            Some(p) => Some(p.clone()),
            None => None,
        };
        let fs_ids = match &self.fs_ids {
            Some(v) => Some(crate::id::clone_uids(v)),
            None => None,
        };
        let db_ids = match &self.db_ids {
            Some(v) => {
                let mut out: Vec<Index> = Vec::new();
                let n = v.len();
                let mut i: usize = 0;
                while i < n
                    invariant
                        n == v@.len(),
                        i <= n,
                        out@.len() == i,
                        forall|j: int| 0 <= j < i ==> (#[trigger] out@[j])@ == v@[j]@,
                    decreases n - i,
                {
                    out.push(v[i].clone());
                    i = i + 1;
                }
                Some(out)
            },
            None => None,
        };
        let r = InviteIntent {
            email: self.email.clone(),
            sender: self.sender.clone(),
            sig: self.sig,
            user_id: self.user_id,
            receiver,
            fs_ids,
            db_ids,
        };
        proof {
            match (&self.db_ids, &r.db_ids) {
                (Some(v), Some(o)) => {
                    assert(index_views(o@) =~= index_views(v@));
                },
                _ => {},
            }
            assert(r@ =~= self@);
        }
        r
    }
}

/// One entry of the batch that finishes invite intents.
#[derive(PartialEq, Debug)]
pub struct FinishInviteIntent {
    pub email: String,
    pub share: LockedShare,
}

/// The blob returned to an invitee who fetches a pinned invite.
#[derive(PartialEq, Debug)]
pub struct Welcome {
    pub user_id: Uid,
    pub sender: identity::Public,
    pub imports: Lock,
    /// the invite's signature
    pub sig: ed25519::Signature,
    pub nodes: Vec<LockedNode>,
}

// ---------------------------------------------------------------------
// Lookups and filters over the stored lists.
// ---------------------------------------------------------------------

/// The first invite stored under an email, if any.
pub open spec fn find_invite(s: Seq<Invite>, email: Seq<char>) -> Option<int>
    decreases s.len(),
{
    if s.len() == 0 {
        None
    } else if s[0].email@ == email {
        Some(0)
    } else {
        match find_invite(s.drop_first(), email) {
            Some(i) => Some(i + 1),
            None => None,
        }
    }
}

/// The first intent stored under an email, if any.
pub open spec fn find_intent(s: Seq<InviteIntent>, email: Seq<char>) -> Option<int>
    decreases s.len(),
{
    if s.len() == 0 {
        None
    } else if s[0].email@ == email {
        Some(0)
    } else {
        match find_intent(s.drop_first(), email) {
            Some(i) => Some(i + 1),
            None => None,
        }
    }
}

/// The views of a list of shares.
pub open spec fn share_views(s: Seq<LockedShare>) -> Seq<ShareView> {
    Seq::new(s.len(), |i: int| s[i]@)
}

/// The views of a list of intents.
pub open spec fn intent_views(s: Seq<InviteIntent>) -> Seq<IntentView> {
    Seq::new(s.len(), |i: int| s[i]@)
}

/// Whether a share concerns a user: they sent it or they receive it.
pub open spec fn share_is_for(sv: ShareView, uid: Uid) -> bool {
    sv.sender.id == uid || sv.export.receiver == uid
}

/// The shares that concern a user, in storage order.
pub open spec fn shares_for(s: Seq<LockedShare>, uid: Uid) -> Seq<ShareView>
    decreases s.len(),
{
    if s.len() == 0 {
        Seq::empty()
    } else {
        let rest = shares_for(s.drop_first(), uid);
        if share_is_for(s[0]@, uid) {
            seq![s[0]@] + rest
        } else {
            rest
        }
    }
}

/// The intents a sender has posted, in storage order.
pub open spec fn intents_for(s: Seq<InviteIntent>, sender: Uid) -> Seq<IntentView>
    decreases s.len(),
{
    if s.len() == 0 {
        Seq::empty()
    } else {
        let rest = intents_for(s.drop_first(), sender);
        if s[0]@.sender.id == sender {
            seq![s[0]@] + rest
        } else {
            rest
        }
    }
}

/// The share, invite and intent store.
pub struct Shares {
    pub shares: Vec<LockedShare>,
    pub invites: Vec<Invite>,
    pub intents: Vec<InviteIntent>,
}

impl Shares {
    /// Emails key the invites and the intents: no two entries share one.
    pub open spec fn inv(&self) -> bool {
        &&& forall|i: int, j: int|
            0 <= i < self.invites@.len() && 0 <= j < self.invites@.len() && i != j
                ==> (#[trigger] self.invites@[i]).email@ != (#[trigger] self.invites@[j]).email@
        &&& forall|i: int, j: int|
            0 <= i < self.intents@.len() && 0 <= j < self.intents@.len() && i != j
                ==> (#[trigger] self.intents@[i]).email@ != (#[trigger] self.intents@[j]).email@
    }

    /// Appends a share; shares are never deduplicated.
    pub fn add_share(&mut self, share: LockedShare)
        requires
            old(self).inv(),
        ensures
            final(self).inv(),
            final(self).shares@ == old(self).shares@.push(share),
            final(self).invites@ == old(self).invites@,
            final(self).intents@ == old(self).intents@,
    {
        self.shares.push(share);
    }

    /// Every share the user sent or receives, in storage order.
    pub fn all_shares_for_user(&self, user_id: Uid) -> (r: Vec<LockedShare>)
        ensures
            share_views(r@) == shares_for(self.shares@, user_id),
    {
        let mut r: Vec<LockedShare> = Vec::new();
        let n = self.shares.len();
        let mut i: usize = 0;
        proof {
            assert(self.shares@.skip(0) =~= self.shares@);
        }
        while i < n
            invariant
                n == self.shares@.len(),
                i <= n,
                shares_for(self.shares@, user_id) =~= share_views(r@) + shares_for(
                    self.shares@.skip(i as int),
                    user_id,
                ),
            decreases n - i,
        {
            let ghost pre = r@;
            let s = &self.shares[i];
            if s.sender.id.0 == user_id.0 || s.export.receiver.0 == user_id.0 {
                r.push(s.clone());
            }
            i = i + 1;
            proof {
                let sk = self.shares@.skip(i - 1);
                assert(sk[0] == self.shares@[i - 1]);
                assert(sk.drop_first() =~= self.shares@.skip(i as int));
                if share_is_for(self.shares@[i - 1]@, user_id) {
                    assert(share_views(r@) =~= share_views(pre) + seq![self.shares@[i - 1]@]);
                } else {
                    assert(share_views(r@) =~= share_views(pre));
                }
                assert(shares_for(self.shares@, user_id) =~= share_views(r@) + shares_for(
                    self.shares@.skip(i as int),
                    user_id,
                ));
            }
        }
        proof {
            assert(self.shares@.skip(n as int) =~= Seq::<LockedShare>::empty());
            assert(share_views(r@) + Seq::<ShareView>::empty() =~= share_views(r@));
            assert(share_views(r@) =~= shares_for(self.shares@, user_id));
        }
        r
    }

    /// Finds the index of the invite stored under an email.
    fn find_invite_idx(&self, email: &str) -> (r: Option<usize>)
        ensures
            match r {
                Some(i) => i < self.invites@.len() && find_invite(self.invites@, email@) == Some(
                    i as int,
                ) && self.invites@[i as int].email@ == email@,
                None => find_invite(self.invites@, email@) is None && forall|j: int|
                    0 <= j < self.invites@.len() ==> (#[trigger] self.invites@[j]).email@
                        != email@,
            },
    {
        let n = self.invites.len();
        let mut i: usize = 0;
        proof {
            assert(self.invites@.skip(0) =~= self.invites@);
        }
        while i < n
            invariant
                n == self.invites@.len(),
                i <= n,
                forall|j: int| 0 <= j < i ==> (#[trigger] self.invites@[j]).email@ != email@,
                find_invite(self.invites@, email@) == match find_invite(
                    self.invites@.skip(i as int),
                    email@,
                ) {
                    Some(k) => Some(k + i),
                    None => None::<int>,
                },
            decreases n - i,
        {
            let hit = str_eq(self.invites[i].email.as_str(), email);
            proof {
                let sk = self.invites@.skip(i as int);
                assert(sk[0] == self.invites@[i as int]);
                assert(sk.drop_first() =~= self.invites@.skip(i + 1));
            }
            if hit {
                return Some(i);
            }
            i = i + 1;
        }
        proof {
            assert(self.invites@.skip(n as int) =~= Seq::<Invite>::empty());
        }
        None
    }

    /// Finds the index of the intent stored under an email.
    fn find_intent_idx(&self, email: &str) -> (r: Option<usize>)
        ensures
            match r {
                Some(i) => i < self.intents@.len() && find_intent(self.intents@, email@) == Some(
                    i as int,
                ) && self.intents@[i as int].email@ == email@,
                None => find_intent(self.intents@, email@) is None && forall|j: int|
                    0 <= j < self.intents@.len() ==> (#[trigger] self.intents@[j]).email@
                        != email@,
            },
    {
        let n = self.intents.len();
        let mut i: usize = 0;
        proof {
            assert(self.intents@.skip(0) =~= self.intents@);
        }
        while i < n
            invariant
                n == self.intents@.len(),
                i <= n,
                forall|j: int| 0 <= j < i ==> (#[trigger] self.intents@[j]).email@ != email@,
                find_intent(self.intents@, email@) == match find_intent(
                    self.intents@.skip(i as int),
                    email@,
                ) {
                    Some(k) => Some(k + i),
                    None => None::<int>,
                },
            decreases n - i,
        {
            let hit = str_eq(self.intents[i].email.as_str(), email);
            proof {
                let sk = self.intents@.skip(i as int);
                assert(sk[0] == self.intents@[i as int]);
                assert(sk.drop_first() =~= self.intents@.skip(i + 1));
            }
            if hit {
                return Some(i);
            }
            i = i + 1;
        }
        proof {
            assert(self.intents@.skip(n as int) =~= Seq::<InviteIntent>::empty());
        }
        None
    }

    /// Stores an invite under its email, replacing any previous one.
    pub fn add_invite(&mut self, invite: Invite)
        requires
            old(self).inv(),
        ensures
            final(self).inv(),
            final(self).shares@ == old(self).shares@,
            final(self).intents@ == old(self).intents@,
            match find_invite(old(self).invites@, invite.email@) {
                Some(i) => final(self).invites@ == old(self).invites@.update(i, invite),
                None => final(self).invites@ == old(self).invites@.push(invite),
            },
    {
        match self.find_invite_idx(invite.email.as_str()) {
            Some(i) => {
                self.invites.remove(i);
                self.invites.insert(i, invite);
                proof {
                    assert(self.invites@ =~= old(self).invites@.update(
                        find_invite(old(self).invites@, self.invites@[i as int].email@).unwrap(),
                        self.invites@[i as int],
                    ));
                }
            },
            None => {
                self.invites.push(invite);
                proof {
                    let nv = self.invites@;
                    assert forall|i: int, j: int|
                        0 <= i < nv.len() && 0 <= j < nv.len() && i != j implies (
                    #[trigger] nv[i]).email@ != (#[trigger] nv[j]).email@ by {
                        if i == nv.len() - 1 {
                            assert(nv[j] == old(self).invites@[j]);
                        } else if j == nv.len() - 1 {
                            assert(nv[i] == old(self).invites@[i]);
                        } else {
                            assert(nv[i] == old(self).invites@[i]);
                            assert(nv[j] == old(self).invites@[j]);
                        }
                    }
                }
            },
        }
    }

    /// The invite stored under an email, if any.
    pub fn invie_for_mail(&self, email: &str) -> (r: Option<&Invite>)
        ensures
            match r {
                Some(inv) => {
                    &&& find_invite(self.invites@, email@) matches Some(i)
                    &&& *inv == self.invites@[find_invite(self.invites@, email@).unwrap()]
                    &&& inv.email@ == email@
                },
                None => find_invite(self.invites@, email@) is None,
            },
    {
        match self.find_invite_idx(email) {
            Some(i) => Some(&self.invites[i]),
            None => None,
        }
    }

    /// Drops the invite stored under an email, if any.
    pub fn delete_invite(&mut self, email: &str)
        requires
            old(self).inv(),
        ensures
            final(self).inv(),
            final(self).shares@ == old(self).shares@,
            final(self).intents@ == old(self).intents@,
            match find_invite(old(self).invites@, email@) {
                Some(i) => final(self).invites@ == old(self).invites@.remove(i),
                None => final(self).invites@ == old(self).invites@,
            },
            find_invite(final(self).invites@, email@) is None,
    {
        match self.find_invite_idx(email) {
            Some(i) => {
                self.invites.remove(i);
                proof {
                    assert(self.invites@ =~= old(self).invites@.remove(
                        find_invite(old(self).invites@, email@).unwrap(),
                    ));
                    let i_sp = find_invite(old(self).invites@, email@).unwrap();
                    assert forall|j: int|
                        0 <= j < self.invites@.len() implies (
                    #[trigger] self.invites@[j]).email@ != email@ by {
                        if j < i_sp {
                            assert(self.invites@[j] == old(self).invites@[j]);
                        } else {
                            assert(self.invites@[j] == old(self).invites@[j + 1]);
                        }
                    }
                    lemma_find_invite_none(self.invites@, email@);
                }
            },
            None => {},
        }
    }

    /// Stores an intent under its email, replacing any previous one.
    pub fn add_invite_intent(&mut self, intent: InviteIntent)
        requires
            old(self).inv(),
        ensures
            final(self).inv(),
            final(self).shares@ == old(self).shares@,
            final(self).invites@ == old(self).invites@,
            match find_intent(old(self).intents@, intent.email@) {
                Some(i) => final(self).intents@ == old(self).intents@.update(i, intent),
                None => final(self).intents@ == old(self).intents@.push(intent),
            },
    {
        match self.find_intent_idx(intent.email.as_str()) {
            Some(i) => {
                self.intents.remove(i);
                self.intents.insert(i, intent);
                proof {
                    assert(self.intents@ =~= old(self).intents@.update(
                        find_intent(old(self).intents@, self.intents@[i as int].email@).unwrap(),
                        self.intents@[i as int],
                    ));
                }
            },
            None => {
                self.intents.push(intent);
                proof {
                    let nv = self.intents@;
                    assert forall|i: int, j: int|
                        0 <= i < nv.len() && 0 <= j < nv.len() && i != j implies (
                    #[trigger] nv[i]).email@ != (#[trigger] nv[j]).email@ by {
                        if i == nv.len() - 1 {
                            assert(nv[j] == old(self).intents@[j]);
                        } else if j == nv.len() - 1 {
                            assert(nv[i] == old(self).intents@[i]);
                        } else {
                            assert(nv[i] == old(self).intents@[i]);
                            assert(nv[j] == old(self).intents@[j]);
                        }
                    }
                }
            },
        }
    }

    /// The intent stored under an email, if any.
    pub fn get_invite_intent(&self, email: &str) -> (r: Option<&InviteIntent>)
        ensures
            match r {
                Some(intent) => {
                    &&& find_intent(self.intents@, email@) matches Some(i)
                    &&& *intent == self.intents@[find_intent(self.intents@, email@).unwrap()]
                    &&& intent.email@ == email@
                },
                None => find_intent(self.intents@, email@) is None,
            },
    {
        match self.find_intent_idx(email) {
            Some(i) => Some(&self.intents[i]),
            None => None,
        }
    }

    /// The intents a sender has posted, acked or not.
    pub fn get_invite_intents_for_sender(&self, sender: Uid) -> (r: Vec<InviteIntent>)
        ensures
            intent_views(r@) == intents_for(self.intents@, sender),
    {
        let mut r: Vec<InviteIntent> = Vec::new();
        let n = self.intents.len();
        let mut i: usize = 0;
        proof {
            assert(self.intents@.skip(0) =~= self.intents@);
        }
        while i < n
            invariant
                n == self.intents@.len(),
                i <= n,
                intents_for(self.intents@, sender) =~= intent_views(r@) + intents_for(
                    self.intents@.skip(i as int),
                    sender,
                ),
            decreases n - i,
        {
            let ghost pre = r@;
            let s = &self.intents[i];
            if s.sender.id.0 == sender.0 {
                r.push(s.clone());
            }
            i = i + 1;
            proof {
                let sk = self.intents@.skip(i - 1);
                assert(sk[0] == self.intents@[i - 1]);
                assert(sk.drop_first() =~= self.intents@.skip(i as int));
                if self.intents@[i - 1]@.sender.id == sender {
                    assert(intent_views(r@) =~= intent_views(pre) + seq![self.intents@[i - 1]@]);
                } else {
                    assert(intent_views(r@) =~= intent_views(pre));
                }
                assert(intents_for(self.intents@, sender) =~= intent_views(r@) + intents_for(
                    self.intents@.skip(i as int),
                    sender,
                ));
            }
        }
        proof {
            assert(self.intents@.skip(n as int) =~= Seq::<InviteIntent>::empty());
            assert(intent_views(r@) + Seq::<IntentView>::empty() =~= intent_views(r@));
            assert(intent_views(r@) =~= intents_for(self.intents@, sender));
        }
        r
    }

    /// Removes and returns the intent stored under an email, if any.
    pub fn delete_invite_intent(&mut self, email: &str) -> (r: Option<InviteIntent>)
        requires
            old(self).inv(),
        ensures
            final(self).inv(),
            final(self).shares@ == old(self).shares@,
            final(self).invites@ == old(self).invites@,
            match find_intent(old(self).intents@, email@) {
                Some(i) => {
                    &&& final(self).intents@ == old(self).intents@.remove(i)
                    &&& r == Some(old(self).intents@[i])
                },
                None => {
                    &&& final(self).intents@ == old(self).intents@
                    &&& r is None
                },
            },
            find_intent(final(self).intents@, email@) is None,
    {
        match self.find_intent_idx(email) {
            Some(i) => {
                let intent = self.intents.remove(i);
                proof {
                    let i_sp = find_intent(old(self).intents@, email@).unwrap();
                    assert(self.intents@ =~= old(self).intents@.remove(i_sp));
                    assert forall|j: int|
                        0 <= j < self.intents@.len() implies (
                    #[trigger] self.intents@[j]).email@ != email@ by {
                        if j < i_sp {
                            assert(self.intents@[j] == old(self).intents@[j]);
                        } else {
                            assert(self.intents@[j] == old(self).intents@[j + 1]);
                        }
                    }
                    lemma_find_intent_none(self.intents@, email@);
                }
                Some(intent)
            },
            None => None,
        }
    }

    /// Installs the receiver of a pending intent, once: returns whether the
    /// state changed.  An already-acknowledged or missing intent is left
    /// untouched.
    pub fn ack_invite_intent(&mut self, email: &str, pk: identity::Public) -> (r: bool)
        requires
            old(self).inv(),
        ensures
            final(self).inv(),
            final(self).shares@ == old(self).shares@,
            final(self).invites@ == old(self).invites@,
            match find_intent(old(self).intents@, email@) {
                Some(i) => {
                    if old(self).intents@[i].receiver is None {
                        &&& r == true
                        &&& final(self).intents@ =~= old(self).intents@.update(
                            i,
                            InviteIntent { receiver: Some(pk), ..old(self).intents@[i] },
                        )
                    } else {
                        &&& r == false
                        &&& final(self).intents@ == old(self).intents@
                    }
                },
                None => {
                    &&& r == false
                    &&& final(self).intents@ == old(self).intents@
                },
            },
    {
        match self.find_intent_idx(email) {
            Some(i) => {
                let ghost i_sp = find_intent(old(self).intents@, email@).unwrap();
                let already = match &self.intents[i].receiver {
                    Some(_) => true,
                    None => false,
                };
                if already {
                    false
                } else {
                    let intent = self.intents.remove(i);
                    let updated = InviteIntent {
                        email: intent.email,
                        sender: intent.sender,
                        sig: intent.sig,
                        user_id: intent.user_id,
                        receiver: Some(pk),
                        fs_ids: intent.fs_ids,
                        db_ids: intent.db_ids,
                    };
                    self.intents.insert(i, updated);
                    proof {
                        assert(self.intents@ =~= old(self).intents@.update(
                            i_sp,
                            InviteIntent { receiver: Some(pk), ..old(self).intents@[i_sp] },
                        ));
                    }
                    true
                }
            },
            None => false,
        }
    }
}

/// When no stored invite carries the email, the lookup reports nothing.
proof fn lemma_find_invite_none(s: Seq<Invite>, email: Seq<char>)
    requires
        forall|j: int| 0 <= j < s.len() ==> (#[trigger] s[j]).email@ != email,
    ensures
        find_invite(s, email) is None,
    decreases s.len(),
{
    if s.len() > 0 {
        assert forall|j: int| 0 <= j < s.drop_first().len() implies (
        #[trigger] s.drop_first()[j]).email@ != email by {
            assert(s.drop_first()[j] == s[j + 1]);
        }
        lemma_find_invite_none(s.drop_first(), email);
    }
}

/// When no stored intent carries the email, the lookup reports nothing.
proof fn lemma_find_intent_none(s: Seq<InviteIntent>, email: Seq<char>)
    requires
        forall|j: int| 0 <= j < s.len() ==> (#[trigger] s[j]).email@ != email,
    ensures
        find_intent(s, email) is None,
    decreases s.len(),
{
    if s.len() > 0 {
        assert forall|j: int| 0 <= j < s.drop_first().len() implies (
        #[trigger] s.drop_first()[j]).email@ != email by {
            assert(s.drop_first()[j] == s[j + 1]);
        }
        lemma_find_intent_none(s.drop_first(), email);
    }
}

/// An email is absent from the intents exactly when no entry carries it.
pub proof fn lemma_find_intent_absent(s: Seq<InviteIntent>, email: Seq<char>)
    ensures
        find_intent(s, email) is None <==> (forall|k: int|
            0 <= k < s.len() ==> (#[trigger] s[k]).email@ != email),
    decreases s.len(),
{
    if s.len() == 0 {
    } else {
        lemma_find_intent_absent(s.drop_first(), email);
        if s[0].email@ == email {
        } else {
            assert forall|k: int|
                0 <= k < s.drop_first().len() implies #[trigger] s.drop_first()[k] == s[k + 1] by {}
            if find_intent(s, email) is None {
                assert forall|k: int| 0 <= k < s.len() implies (#[trigger] s[k]).email@
                    != email by {
                    if k > 0 {
                        assert(s.drop_first()[k - 1] == s[k]);
                    }
                }
            } else {
            }
        }
    }
}

/// A found index is in range and carries the email looked up.
pub proof fn lemma_find_intent_range(s: Seq<InviteIntent>, email: Seq<char>)
    requires
        find_intent(s, email) is Some,
    ensures
        ({
            let i = find_intent(s, email).unwrap();
            &&& 0 <= i < s.len()
            &&& s[i].email@ == email
        }),
    decreases s.len(),
{
    if s.len() > 0 && s[0].email@ != email {
        lemma_find_intent_range(s.drop_first(), email);
    }
}

/// Replacing an entry with one that carries the same email leaves every
/// lookup unchanged.
pub proof fn lemma_find_intent_update_same(
    s: Seq<InviteIntent>,
    i: int,
    x: InviteIntent,
    email: Seq<char>,
)
    requires
        0 <= i < s.len(),
        x.email@ == s[i].email@,
    ensures
        find_intent(s.update(i, x), email) == find_intent(s, email),
    decreases s.len(),
{
    let s2 = s.update(i, x);
    if i == 0 {
        if s[0].email@ == email {
        } else {
            assert(s2.drop_first() =~= s.drop_first());
        }
    } else {
        assert(s2[0] == s[0]);
        if s[0].email@ == email {
        } else {
            assert(s2.drop_first() =~= s.drop_first().update(i - 1, x));
            lemma_find_intent_update_same(s.drop_first(), i - 1, x, email);
        }
    }
}

/// Acknowledgement is monotonic.  The first acknowledgement of a pending
/// intent installs the given receiver; afterwards the same intent is still
/// the one found under the email, it is no longer pending, and—by the
/// contract of `ack_invite_intent`—a second acknowledgement returns false
/// and leaves the first receiver in place.
pub proof fn lemma_ack_monotonic(
    s: Seq<InviteIntent>,
    email: Seq<char>,
    pk1: identity::Public,
)
    requires
        find_intent(s, email) is Some,
        s[find_intent(s, email).unwrap()].receiver is None,
    ensures
        ({
            let i = find_intent(s, email).unwrap();
            let s2 = s.update(i, InviteIntent { receiver: Some(pk1), ..s[i] });
            &&& find_intent(s2, email) == Some(i)
            &&& s2[i].receiver == Some(pk1)
        }),
{
    let i = find_intent(s, email).unwrap();
    lemma_find_intent_range(s, email);
    lemma_find_intent_update_same(s, i, InviteIntent { receiver: Some(pk1), ..s[i] }, email);
}

impl Purge for Shares {
    open spec fn pristine(&self) -> bool {
        &&& self.shares@ == Seq::<LockedShare>::empty()
        &&& self.invites@ == Seq::<Invite>::empty()
        &&& self.intents@ == Seq::<InviteIntent>::empty()
        &&& self.inv()
    }

    fn new() -> (r: Self) {
        Shares { shares: Vec::new(), invites: Vec::new(), intents: Vec::new() }
    }

    fn purge(&mut self) {
        self.shares = Vec::new();
        self.invites = Vec::new();
        self.intents = Vec::new();
    }
}

} // verus!
