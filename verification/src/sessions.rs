//! One-shot unlock-session tokens, keyed by token id.

use vstd::prelude::*;

use std::collections::HashMap;

use crate::id::Uid;
use crate::purge::Purge;
use crate::shares::Seed;

verus! {

/// What consuming a token does: a present token is removed and returned,
/// an absent one changes nothing.
pub open spec fn consume_token_spec(m: Map<u64, Seed>, id: u64) -> (Map<u64, Seed>, Option<Seed>) {
    if m.dom().contains(id) {
        (m.remove(id), Some(m[id]))
    } else {
        (m, None)
    }
}

pub struct Sessions {
    /// token id -> token
    pub tokens: HashMap<u64, Seed>,
}

impl Sessions {
    /// Stores a token under its id, replacing any previous one.
    pub fn add_token(&mut self, id: Uid, token: Seed)
        ensures
            final(self).tokens@ == old(self).tokens@.insert(id.0, token),
    {
        self.tokens.insert(id.0, token);
    }

    /// Takes the token stored under an id: tokens are one-shot, so a
    /// successful retrieval removes the token.
    pub fn consume_token_by_id(&mut self, id: Uid) -> (r: Option<Seed>)
        ensures
            (final(self).tokens@, r) == consume_token_spec(old(self).tokens@, id.0),
    {
        let r = self.tokens.remove(&id.0);
        proof {
            if !old(self).tokens@.dom().contains(id.0) {
                assert(self.tokens@ =~= old(self).tokens@);
            }
        }
        r
    }
}

/// Tokens are one-shot: once consuming a token succeeds, consuming the
/// same id again yields nothing.
pub proof fn lemma_consume_token_one_shot(m: Map<u64, Seed>, id: u64)
    requires
        consume_token_spec(m, id).1 is Some,
    ensures
        consume_token_spec(consume_token_spec(m, id).0, id).1 is None,
{
}

impl Purge for Sessions {
    open spec fn pristine(&self) -> bool {
        self.tokens@ == Map::<u64, Seed>::empty()
    }

    fn new() -> (r: Self) {
        Sessions { tokens: HashMap::new() }
    }

    fn purge(&mut self) {
        self.tokens = HashMap::new();
    }
}

} // verus!
