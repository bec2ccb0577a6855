//! The request façade: the computations the HTTP handlers perform once the
//! transport has handed them plain values.  Each function takes the stores
//! it reads or writes and says exactly what it returns and changes.

use vstd::prelude::*;

use crate::b64::{b64url_decode, b64url_decoded, string_from_utf8};
use crate::id::Uid;
use crate::nodes::Nodes;
use crate::shares::{
    find_intent, find_invite, share_views, FinishInviteIntent, InviteIntent, ShareView, Shares,
    Welcome,
};
use crate::users::{LockedUser, Signup, Users};
use crate::webauthn::{
    challenge_matches, consume_auth_spec, consume_reg_spec, find_passkey, verify_auth_challenge,
    verify_reg_challenge, Authentication, Bundle, Passkey, Webauthn,
};
use vstd::string::StringExecFns;

verus! {

/// The error taxonomy the handlers map to status codes.
#[derive(PartialEq, Debug)]
pub enum Error {
    /// external input or output failed
    Io(String),
    /// failed verification, missing credentials or missing required state
    Unauthorised,
    /// entity lookup miss
    NotFound(Uid),
    /// invite lookup miss or an email that does not decode
    NoInvite(String),
}

/// Whether `r` is the full snapshot of the node store: every entry of `r`
/// is a live node, and every live node appears.
pub open spec fn is_snapshot_of(r: Seq<crate::nodes::LockedNode>, nodes: Nodes) -> bool {
    &&& r.len() == nodes.nodes@.dom().len()
    &&& forall|i: int|
        0 <= i < r.len() ==> nodes.nodes@.dom().contains(#[trigger] r[i].id.0) && r[i]@
            == nodes.nodes@[r[i].id.0]@
    &&& forall|k: u64| #[trigger]
        nodes.nodes@.dom().contains(k) ==> exists|i: int| 0 <= i < r.len() && r[i].id.0 == k
}

/// Assembles the logged-in view of a user: their locked private bundle and
/// public identity, every share that concerns them, the intents they sent,
/// and the whole forest.  A user without both stored keys is refused.
pub fn user_by_id(nodes: &Nodes, shares: &Shares, users: &Users, id: Uid) -> (r: Result<
    LockedUser,
    Error,
>)
    requires
        nodes.inv(),
    ensures
        match r {
            Ok(u) => {
                &&& users.private_keys@.dom().contains(id.0)
                &&& users.public_keys@.dom().contains(id.0)
                &&& u.encrypted_priv@ == users.private_keys@[id.0]@
                &&& u._pub == users.public_keys@[id.0]
                &&& share_views(u.shares@) == crate::shares::shares_for(shares.shares@, id)
                &&& crate::shares::intent_views(u.pending_invite_intents@)
                    == crate::shares::intents_for(shares.intents@, id)
                &&& is_snapshot_of(u.roots@, *nodes)
            },
            Err(e) => {
                &&& e == Error::Unauthorised
                &&& (!users.private_keys@.dom().contains(id.0) || !users.public_keys@.dom().contains(
                    id.0,
                ))
            },
        },
{
    let encrypted_priv = match users.priv_for_id(id) {
        Some(l) => l.clone(),
        None => {
            return Err(Error::Unauthorised);
        },
    };
    let owner = match users.pub_for_id(id) {
        Some(p) => p.clone(),
        None => {
            return Err(Error::Unauthorised);
        },
    };
    let pending_invite_intents = shares.get_invite_intents_for_sender(id);
    let user_shares = shares.all_shares_for_user(id);
    let roots = nodes.get_all();
    Ok(
        LockedUser {
            encrypted_priv,
            _pub: owner,
            shares: user_shares,
            pending_invite_intents,
            roots,
        },
    )
}

/// Looks a user up by email and assembles their logged-in view: an
/// unknown email is refused; a known one yields exactly what
/// [`user_by_id`] promises for the mapped identifier.
pub fn user_by_email(nodes: &Nodes, shares: &Shares, users: &Users, email: &str) -> (r: Result<
    LockedUser,
    Error,
>)
    requires
        nodes.inv(),
    ensures
        match crate::users::find_cred(users.credentials@, email@) {
            None => r == Err::<LockedUser, Error>(Error::Unauthorised),
            Some(ci) => {
                let id = users.credentials@[ci].1;
                match r {
                    Ok(u) => {
                        &&& users.private_keys@.dom().contains(id.0)
                        &&& users.public_keys@.dom().contains(id.0)
                        &&& u.encrypted_priv@ == users.private_keys@[id.0]@
                        &&& u._pub == users.public_keys@[id.0]
                        &&& share_views(u.shares@) == crate::shares::shares_for(shares.shares@, id)
                        &&& crate::shares::intent_views(u.pending_invite_intents@)
                            == crate::shares::intents_for(shares.intents@, id)
                        &&& is_snapshot_of(u.roots@, *nodes)
                    },
                    Err(e) => {
                        &&& e == Error::Unauthorised
                        &&& (!users.private_keys@.dom().contains(id.0)
                            || !users.public_keys@.dom().contains(id.0))
                    },
                }
            },
        },
{
    let id = match users.id_for_email(email) {
        Some(id) => id,
        None => {
            return Err(Error::Unauthorised);
        },
    };
    user_by_id(nodes, shares, users, id)
}

/// Commits a signup: acknowledges any pending intent for the email with
/// the new public identity, installs the payload's root nodes and shares,
/// drops the pinned invite for the email, and registers the locked private
/// bundle, public identity and credentials under the identity's id.
pub fn apply_signup(nodes: &mut Nodes, shares: &mut Shares, users: &mut Users, signup: Signup)
    requires
        old(nodes).inv(),
        old(shares).inv(),
        old(users).inv(),
    ensures
        final(nodes).inv(),
        final(shares).inv(),
        final(users).inv(),
        ({
            let uid = signup.user._pub.id;
            let acked = match find_intent(old(shares).intents@, signup.email@) {
                Some(i) => {
                    if old(shares).intents@[i].receiver is None {
                        old(shares).intents@.update(
                            i,
                            InviteIntent {
                                receiver: Some(signup.user._pub),
                                ..old(shares).intents@[i]
                            },
                        )
                    } else {
                        old(shares).intents@
                    }
                },
                None => old(shares).intents@,
            };
            let added = crate::nodes::add_nodes_spec(
                old(nodes).nodes@,
                old(nodes).br(),
                signup.user.roots@,
            );
            &&& final(shares).intents@ == acked
            &&& share_views(final(shares).shares@) == share_views(old(shares).shares@)
                + share_views(signup.user.shares@)
            &&& find_invite(final(shares).invites@, signup.email@) is None
            &&& final(nodes).nodes@ == added.0
            &&& final(nodes).br() == added.1
            &&& final(users).private_keys@ == old(users).private_keys@.insert(
                uid.0,
                signup.user.encrypted_priv,
            )
            &&& final(users).public_keys@ == old(users).public_keys@.insert(
                uid.0,
                signup.user._pub,
            )
            &&& exists|i: int|
                #![trigger final(users).credentials@[i]]
                0 <= i < final(users).credentials@.len() && final(users).credentials@[i].0@
                    == signup.email@ && final(users).credentials@[i].1 == uid
        }),
        old(nodes).is_acyclic() && (forall|j: int|
            0 <= j < signup.user.roots@.len() ==> crate::node::is_root_entry(
                #[trigger] signup.user.roots@[j]@.parent_id,
            )) ==> final(nodes).is_acyclic(),
{
    let Signup { email, pass, user } = signup;
    let _ = pass;
    let LockedUser { encrypted_priv, _pub, shares: user_shares, pending_invite_intents, roots } =
        user;
    let _ = pending_invite_intents;
    let user_id = _pub.id();
    shares.ack_invite_intent(email.as_str(), _pub.clone());
    nodes.add_all(roots);
    let ghost acked_intents = shares.intents@;
    let ghost mid_shares = shares.shares@;
    let mut incoming = user_shares;
    let ghost all_shares = incoming@;
    proof {
        assert(share_views(all_shares.take(0)) =~= Seq::<ShareView>::empty());
        assert(share_views(mid_shares) + share_views(all_shares.take(0)) =~= share_views(
            mid_shares,
        ));
    }
    while incoming.len() > 0
        invariant
            shares.inv(),
            shares.intents@ == acked_intents,
            shares.invites@ == old(shares).invites@,
            incoming@.len() <= all_shares.len(),
            share_views(shares.shares@) =~= share_views(mid_shares) + share_views(
                all_shares.take(all_shares.len() - incoming@.len()),
            ),
            incoming@ =~= all_shares.skip(all_shares.len() - incoming@.len()),
        decreases incoming@.len(),
    {
        let ghost pre_sh = shares.shares@;
        let ghost pre_in = incoming@;
        let ghost done = all_shares.len() - pre_in.len();
        let share = incoming.remove(0);
        shares.add_share(share);
        proof {
            assert(incoming@ =~= all_shares.skip(done + 1));
            assert(all_shares.take(done + 1) =~= all_shares.take(done as int).push(
                all_shares[done as int],
            ));
            assert(share == all_shares[done as int]);
            assert(share_views(shares.shares@) =~= share_views(pre_sh) + seq![share@]);
            assert(share_views(all_shares.take(done + 1)) =~= share_views(
                all_shares.take(done as int),
            ) + seq![share@]);
            assert(share_views(shares.shares@) =~= share_views(mid_shares) + share_views(
                all_shares.take(done + 1),
            ));
        }
    }
    proof {
        assert(all_shares.take(all_shares.len() as int) =~= all_shares);
    }
    shares.delete_invite(email.as_str());
    users.add_priv(user_id, encrypted_priv);
    users.add_pub(user_id, _pub);
    users.add_credentials(email.as_str(), user_id);
    proof {
        let ghost pre_creds = users.credentials@;
        let at = match crate::users::find_cred(old(users).credentials@, signup.email@) {
            Some(i) => i,
            None => old(users).credentials@.len() as int,
        };
        if crate::users::find_cred(old(users).credentials@, signup.email@) is Some {
            crate::users::lemma_find_cred_range(old(users).credentials@, signup.email@);
        }
        assert(0 <= at < final(users).credentials@.len());
        assert(final(users).credentials@[at].0@ == signup.email@);
        assert(final(users).credentials@[at].1 == signup.user._pub.id);
        if old(nodes).is_acyclic() && (forall|j: int|
            0 <= j < signup.user.roots@.len() ==> crate::node::is_root_entry(
                #[trigger] signup.user.roots@[j]@.parent_id,
            )) {
            crate::nodes::lemma_add_roots_acyclic(
                old(nodes).nodes@,
                old(nodes).br(),
                signup.user.roots@,
            );
            assert(final(nodes).is_acyclic());
        }
    }
}

/// The welcome blob for the invite stored under a URL-safe Base64 email:
/// the invite's identifying fields, the locked imports, the signature, and
/// the full node list.  An email that does not decode, is not UTF-8, or
/// has no invite yields the lookup text back as the error.
pub fn welcome_for_email(shares: &Shares, nodes: &Nodes, email_b64: &str) -> (r: Result<
    Welcome,
    Error,
>)
    requires
        nodes.inv(),
    ensures
        match r {
            Ok(w) => {
                &&& b64url_decoded(email_b64@) matches Some(bytes)
                &&& vstd::utf8::valid_utf8(b64url_decoded(email_b64@).unwrap())
                &&& ({
                    let em = vstd::utf8::decode_utf8(b64url_decoded(email_b64@).unwrap());
                    &&& find_invite(shares.invites@, em) matches Some(i)
                    &&& ({
                        let inv = shares.invites@[find_invite(shares.invites@, em).unwrap()];
                        &&& w.user_id == inv.user_id
                        &&& w.sender == inv.sender
                        &&& w.imports@ == inv.payload@
                        &&& w.sig == inv.sig
                        &&& is_snapshot_of(w.nodes@, *nodes)
                    })
                })
            },
            Err(e) => {
                &&& e matches Error::NoInvite(m) && m@ == email_b64@
                &&& (b64url_decoded(email_b64@) is None || !vstd::utf8::valid_utf8(
                    b64url_decoded(email_b64@).unwrap(),
                ) || find_invite(
                    shares.invites@,
                    vstd::utf8::decode_utf8(b64url_decoded(email_b64@).unwrap()),
                ) is None)
            },
        },
{
    let decoded = match b64url_decode(email_b64) {
        Some(v) => v,
        None => {
            return Err(Error::NoInvite(String::from_str(email_b64)));
        },
    };
    let email = match string_from_utf8(decoded) {
        Some(s) => s,
        None => {
            return Err(Error::NoInvite(String::from_str(email_b64)));
        },
    };
    match shares.invie_for_mail(email.as_str()) {
        Some(invite) => {
            let w = Welcome {
                user_id: invite.user_id,
                sender: invite.sender.clone(),
                imports: invite.payload.clone(),
                sig: invite.sig,
                nodes: nodes.get_all(),
            };
            Ok(w)
        },
        None => Err(Error::NoInvite(String::from_str(email_b64))),
    }
}

/// The invite intent stored under a URL-safe Base64 email.
pub fn intent_for_email(shares: &Shares, email_b64: &str) -> (r: Result<InviteIntent, Error>)
    ensures
        match r {
            Ok(intent) => {
                &&& b64url_decoded(email_b64@) matches Some(bytes)
                &&& vstd::utf8::valid_utf8(b64url_decoded(email_b64@).unwrap())
                &&& ({
                    let em = vstd::utf8::decode_utf8(b64url_decoded(email_b64@).unwrap());
                    &&& find_intent(shares.intents@, em) matches Some(i)
                    &&& intent@ == shares.intents@[find_intent(shares.intents@, em).unwrap()]@
                })
            },
            Err(e) => {
                &&& e matches Error::NoInvite(m) && m@ == email_b64@
                &&& (b64url_decoded(email_b64@) is None || !vstd::utf8::valid_utf8(
                    b64url_decoded(email_b64@).unwrap(),
                ) || find_intent(
                    shares.intents@,
                    vstd::utf8::decode_utf8(b64url_decoded(email_b64@).unwrap()),
                ) is None)
            },
        },
{
    let decoded = match b64url_decode(email_b64) {
        Some(v) => v,
        None => {
            return Err(Error::NoInvite(String::from_str(email_b64)));
        },
    };
    let email = match string_from_utf8(decoded) {
        Some(s) => s,
        None => {
            return Err(Error::NoInvite(String::from_str(email_b64)));
        },
    };
    match shares.get_invite_intent(email.as_str()) {
        Some(intent) => Ok(intent.clone()),
        None => Err(Error::NoInvite(String::from_str(email_b64))),
    }
}

/// What finishing a batch of intents does: each share is appended and the
/// intent stored under its email is dropped, in batch order.
pub open spec fn finish_intents_spec(
    sv: Seq<ShareView>,
    it: Seq<InviteIntent>,
    batch: Seq<FinishInviteIntent>,
) -> (Seq<ShareView>, Seq<InviteIntent>)
    decreases batch.len(),
{
    if batch.len() == 0 {
        (sv, it)
    } else {
        let sv1 = sv.push(batch[0].share@);
        let it1 = match find_intent(it, batch[0].email@) {
            Some(i) => it.remove(i),
            None => it,
        };
        finish_intents_spec(sv1, it1, batch.drop_first())
    }
}

/// The views of the shares a batch carries, in order.
pub open spec fn batch_share_views(batch: Seq<FinishInviteIntent>) -> Seq<ShareView> {
    Seq::new(batch.len(), |i: int| batch[i].share@)
}

/// Finishing a batch of intents, on a store whose emails are unique keys,
/// appends exactly the batch's shares in order; afterwards no intent is
/// stored under any email the batch names; intents under other emails
/// survive; no intent appears that was not stored before; and emails still
/// key the store.
pub proof fn lemma_finish_intents_effects(
    sv: Seq<ShareView>,
    it: Seq<InviteIntent>,
    batch: Seq<FinishInviteIntent>,
)
    requires
        forall|i: int, j: int|
            0 <= i < it.len() && 0 <= j < it.len() && i != j ==> (#[trigger] it[i]).email@ != (
            #[trigger] it[j]).email@,
    ensures
        ({
            let f = finish_intents_spec(sv, it, batch);
            &&& f.0 == sv + batch_share_views(batch)
            &&& forall|b: int|
                0 <= b < batch.len() ==> find_intent(f.1, (#[trigger] batch[b]).email@) is None
            &&& forall|k: int| 0 <= k < f.1.len() ==> it.contains(#[trigger] f.1[k])
            &&& forall|k: int|
                0 <= k < it.len() && (forall|b: int|
                    0 <= b < batch.len() ==> (#[trigger] batch[b]).email@ != it[k].email@)
                    ==> f.1.contains(#[trigger] it[k])
            &&& forall|i: int, j: int|
                0 <= i < f.1.len() && 0 <= j < f.1.len() && i != j ==> (#[trigger] f.1[i]).email@
                    != (#[trigger] f.1[j]).email@
        }),
    decreases batch.len(),
{
    broadcast use vstd::seq_lib::group_seq_properties;

    let f = finish_intents_spec(sv, it, batch);
    if batch.len() == 0 {
        assert(f.0 =~= sv + batch_share_views(batch));
        assert forall|k: int| 0 <= k < f.1.len() implies it.contains(#[trigger] f.1[k]) by {
            assert(it[k] == f.1[k]);
        }
        assert forall|k: int| 0 <= k < it.len() implies f.1.contains(#[trigger] it[k]) by {
            assert(f.1[k] == it[k]);
        }
    } else {
        let e0 = batch[0].email@;
        let sv1 = sv.push(batch[0].share@);
        let it1 = match find_intent(it, e0) {
            Some(i) => it.remove(i),
            None => it,
        };
        // the email the first entry names is gone from `it1`, the other
        // entries survive with their emails still unique
        assert forall|k: int| 0 <= k < it1.len() implies (#[trigger] it1[k]).email@ != e0
            && it.contains(it1[k]) by {
            match find_intent(it, e0) {
                Some(i) => {
                    crate::shares::lemma_find_intent_range(it, e0);
                    if k < i {
                        assert(it1[k] == it[k]);
                    } else {
                        assert(it1[k] == it[k + 1]);
                    }
                },
                None => {
                    crate::shares::lemma_find_intent_absent(it, e0);
                    assert(it1[k] == it[k]);
                },
            }
        }
        assert forall|i: int, j: int|
            0 <= i < it1.len() && 0 <= j < it1.len() && i != j implies (#[trigger] it1[i]).email@
            != (#[trigger] it1[j]).email@ by {
            match find_intent(it, e0) {
                Some(at) => {
                    crate::shares::lemma_find_intent_range(it, e0);
                    let i2: int = if i < at {
                        i
                    } else {
                        i + 1
                    };
                    let j2: int = if j < at {
                        j
                    } else {
                        j + 1
                    };
                    assert(it1[i] == it[i2] && it1[j] == it[j2]);
                },
                None => {
                    assert(it1[i] == it[i] && it1[j] == it[j]);
                },
            }
        }
        lemma_finish_intents_effects(sv1, it1, batch.drop_first());
        let fr = finish_intents_spec(sv1, it1, batch.drop_first());
        assert(f == fr);
        // shares: the head share then the tail's shares, in order
        assert(f.0 =~= sv + batch_share_views(batch)) by {
            assert(fr.0 == sv1 + batch_share_views(batch.drop_first()));
            assert forall|t: int| 0 <= t < f.0.len() implies f.0[t] == (sv + batch_share_views(
                batch,
            ))[t] by {
                if t < sv.len() {
                } else if t == sv.len() {
                    assert(f.0[t] == sv1[t]);
                } else {
                    assert(f.0[t] == batch_share_views(batch.drop_first())[t - sv.len() - 1]);
                    assert(batch_share_views(batch)[t - sv.len()] == batch.drop_first()[t - sv.len()
                        - 1].share@);
                }
            }
        }
        // every batch email is gone
        assert forall|b: int| 0 <= b < batch.len() implies find_intent(
            f.1,
            (#[trigger] batch[b]).email@,
        ) is None by {
            if b == 0 {
                assert forall|k: int| 0 <= k < f.1.len() implies (#[trigger] f.1[k]).email@
                    != e0 by {
                    assert(it1.contains(f.1[k]));
                    let u = choose|u: int| 0 <= u < it1.len() && it1[u] == f.1[k];
                }
                crate::shares::lemma_find_intent_absent(f.1, e0);
            } else {
                assert(batch.drop_first()[b - 1] == batch[b]);
            }
        }
        // nothing new among the intents
        assert forall|k: int| 0 <= k < f.1.len() implies it.contains(#[trigger] f.1[k]) by {
            assert(it1.contains(f.1[k]));
            let u = choose|u: int| 0 <= u < it1.len() && it1[u] == f.1[k];
        }
        // intents under other emails survive
        assert forall|k: int|
            0 <= k < it.len() && (forall|b: int|
                0 <= b < batch.len() ==> (#[trigger] batch[b]).email@ != it[k].email@) implies
            f.1.contains(#[trigger] it[k]) by {
            assert(batch[0].email@ != it[k].email@);
            let at1: int = match find_intent(it, e0) {
                Some(at) => {
                    crate::shares::lemma_find_intent_range(it, e0);
                    assert(it[at].email@ == e0);
                    assert(k != at);
                    if k < at {
                        assert(it1[k] == it[k]);
                        k
                    } else {
                        assert(it1[k - 1] == it[k]);
                        k - 1
                    }
                },
                None => {
                    assert(it1[k] == it[k]);
                    k
                },
            };
            assert(0 <= at1 < it1.len() && it1[at1] == it[k]);
            assert forall|b: int|
                0 <= b < batch.drop_first().len() implies (
            #[trigger] batch.drop_first()[b]).email@ != it1[at1].email@ by {
                assert(batch.drop_first()[b] == batch[b + 1]);
            }
            assert(f.1.contains(it1[at1]));
        }
    }
}

/// Installs each finished share and drops the intent under its email.
pub fn finish_invite_intents(shares: &mut Shares, batch: Vec<FinishInviteIntent>)
    requires
        old(shares).inv(),
    ensures
        final(shares).inv(),
        final(shares).invites@ == old(shares).invites@,
        ({
            let f = finish_intents_spec(
                share_views(old(shares).shares@),
                old(shares).intents@,
                batch@,
            );
            &&& share_views(final(shares).shares@) == f.0
            &&& final(shares).intents@ == f.1
        }),
{
    let ghost sv0 = share_views(shares.shares@);
    let ghost it0 = shares.intents@;
    let ghost all = batch@;
    let mut rest = batch;
    while rest.len() > 0
        invariant
            shares.inv(),
            shares.invites@ == old(shares).invites@,
            finish_intents_spec(sv0, it0, all) == finish_intents_spec(
                share_views(shares.shares@),
                shares.intents@,
                rest@,
            ),
        decreases rest@.len(),
    {
        let ghost pre_sv = share_views(shares.shares@);
        let ghost pre_it = shares.intents@;
        let ghost pre_rest = rest@;
        let entry = rest.remove(0);
        proof {
            assert(rest@ =~= pre_rest.drop_first());
            assert(entry == pre_rest[0]);
        }
        let FinishInviteIntent { email, share } = entry;
        shares.add_share(share);
        proof {
            assert(share_views(shares.shares@) =~= pre_sv.push(pre_rest[0].share@));
        }
        shares.delete_invite_intent(email.as_str());
    }
    proof {
        assert(rest@.len() == 0);
    }
}

/// Finishes a registration: the pending registration is consumed whatever
/// happens; when the client data carries the issued challenge, the
/// credential is stored as a passkey wrapped with the registration's PRF
/// salt, otherwise the caller is unauthorised.
pub fn finish_reg(w: &mut Webauthn, user_id: Uid, bundle: Bundle) -> (r: Result<(), Error>)
    requires
        old(w).inv(),
    ensures
        final(w).inv(),
        final(w).auth_challenges@ == old(w).auth_challenges@,
        ({
            let taken = consume_reg_spec(old(w).pending_registrations@, user_id.0);
            &&& final(w).pending_registrations@ == taken.0
            &&& (r is Ok <==> taken.1 is Some && challenge_matches(
                bundle.cred.client_data_json@,
                taken.1.unwrap().challenge.bytes@,
            ))
            &&& (r is Err ==> r == Err::<(), Error>(Error::Unauthorised) && final(w).passkeys@
                == old(w).passkeys@)
            &&& (r is Ok ==> {
                let at = match find_passkey(old(w).passkeys@, bundle.cred.id@) {
                    Some(i) => i,
                    None => old(w).passkeys@.len() as int,
                };
                let stored = final(w).passkeys@[at]@;
                &&& 0 <= at < final(w).passkeys@.len()
                &&& stored.prf_salt == taken.1.unwrap().prf_salt
                &&& stored.user_id == user_id
                &&& stored.id == bundle.cred.id@
                &&& stored.name == bundle.cred.name@
                &&& stored.pub_key == bundle.cred.attestation@
                &&& stored.mk == bundle.mk@
                &&& match find_passkey(old(w).passkeys@, bundle.cred.id@) {
                    Some(i) => {
                        &&& final(w).passkeys@.len() == old(w).passkeys@.len()
                        &&& forall|j: int|
                            0 <= j < old(w).passkeys@.len() && j != i
                                ==> #[trigger] final(w).passkeys@[j] == old(w).passkeys@[j]
                    },
                    None => {
                        &&& final(w).passkeys@.len() == old(w).passkeys@.len() + 1
                        &&& forall|j: int|
                            0 <= j < old(w).passkeys@.len()
                                ==> #[trigger] final(w).passkeys@[j] == old(w).passkeys@[j]
                    },
                }
            })
        }),
{
    let reg = match w.consume_registration(user_id) {
        Some(reg) => reg,
        None => {
            return Err(Error::Unauthorised);
        },
    };
    if verify_reg_challenge(bundle.cred.client_data_json.as_str(), reg.challenge) {
        let ghost cred_id = bundle.cred.id@;
        w.add_passkey(user_id, reg.prf_salt, bundle);
        proof {
            if find_passkey(old(w).passkeys@, cred_id) is Some {
                crate::webauthn::lemma_find_passkey_range(old(w).passkeys@, cred_id);
            }
        }
        Ok(())
    } else {
        Err(Error::Unauthorised)
    }
}

/// Finishes an authentication: the challenge is consumed whether
/// verification succeeds or fails; the stored passkey is returned exactly
/// when the client data carries the issued challenge and the assertion
/// signature over `authenticator_data || SHA256(client_data_json)`
/// verifies against that passkey's public key.
pub fn finish_auth(w: &mut Webauthn, ch_id: Uid, auth: Authentication) -> (r: Result<
    Passkey,
    Error,
>)
    requires
        old(w).inv(),
    ensures
        final(w).inv(),
        final(w).pending_registrations@ == old(w).pending_registrations@,
        final(w).passkeys@ == old(w).passkeys@,
        ({
            let taken = consume_auth_spec(old(w).auth_challenges@, ch_id.0);
            let found = find_passkey(old(w).passkeys@, auth.id@);
            &&& final(w).auth_challenges@ == taken.0
            &&& (r is Ok <==> taken.1 is Some && found is Some && crate::webauthn::auth_verifies(
                auth.authenticator_data@,
                auth.client_data_json@,
                auth.signature@,
                taken.1.unwrap().bytes@,
                old(w).passkeys@[found.unwrap()]@.pub_key,
            ))
            &&& (r is Err ==> r == Err::<Passkey, Error>(Error::Unauthorised))
            &&& (r matches Ok(pk) ==> pk@ == old(w).passkeys@[found.unwrap()]@)
        }),
{
    let ch = match w.consume_auth_challenge(ch_id) {
        Some(ch) => ch,
        None => {
            return Err(Error::Unauthorised);
        },
    };
    let pk = match w.passkey_for_credential_id(&auth.id) {
        Some(pk) => pk,
        None => {
            return Err(Error::Unauthorised);
        },
    };
    if verify_auth_challenge(&auth, ch, pk.pub_key.as_slice()) {
        Ok(pk.clone())
    } else {
        Err(Error::Unauthorised)
    }
}

} // verus!
