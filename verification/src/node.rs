//! The raw node record of the historical flat store: identifiers are bare
//! 64-bit integers and the payload is an opaque byte string.

use vstd::prelude::*;

use crate::forest::{lemma_strike_push, strike};

verus! {

/// Strikes every occurrence of `x` from a child list, in place.
pub(crate) fn remove_all(v: &mut Vec<u64>, x: u64)
    ensures
        final(v)@ == strike(old(v)@, x),
{
    let mut out: Vec<u64> = Vec::new();
    let n = v.len();
    let mut i: usize = 0;
    proof {
        assert(v@.take(0) =~= Seq::<u64>::empty());
    }
    while i < n
        invariant
            n == v@.len(),
            i <= n,
            out@ == strike(v@.take(i as int), x),
        decreases n - i,
    {
        proof {
            lemma_strike_push(v@.take(i as int), v@[i as int], x);
            assert(v@.take(i + 1) =~= v@.take(i as int).push(v@[i as int]));
        }
        if v[i] != x {
            out.push(v[i]);
        }
        i = i + 1;
    }
    proof {
        assert(v@.take(n as int) =~= v@);
    }
    *v = out;
}

/// Parent value that marks a root.
pub const NO_PARENT_ID: u64 = 0xffff_ffff_ffff_ffff;

/// Identifier of the conventional root node.
pub const ROOT_ID: u64 = 0;

/// Whether a parent value marks a root.
pub open spec fn is_root_entry(parent_id: u64) -> bool {
    parent_id == NO_PARENT_ID
}

#[derive(PartialEq, Debug)]
pub struct LockedNode {
    pub id: u64,
    pub parent_id: u64,
    pub content: Vec<u8>,
    pub dirty: bool,
}

/// The mathematical content of a raw [`LockedNode`].
#[verifier::ext_equal]
pub struct LockedNodeView {
    pub id: u64,
    pub parent_id: u64,
    pub content: Seq<u8>,
    pub dirty: bool,
}

impl View for LockedNode {
    type V = LockedNodeView;

    open spec fn view(&self) -> LockedNodeView {
        LockedNodeView {
            id: self.id,
            parent_id: self.parent_id,
            content: self.content@,
            dirty: self.dirty,
        }
    }
}

impl Clone for LockedNode {
    fn clone(&self) -> (r: Self)
        ensures
            r@ == self@,
    {
        let r = LockedNode {
            id: self.id,
            parent_id: self.parent_id,
            content: self.content.clone(),
            dirty: self.dirty,
        };
        proof {
            assert(r.content@ =~= self.content@);
            assert(r@ =~= self@);
        }
        r
    }
}

} // verus!
