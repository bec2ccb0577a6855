//! The mathematical theory of the node forest.
//!
//! A store's nodes induce a parent map `pm: Map<u64, u64>` (node id to
//! parent id, where [`NO_PARENT_ID`] marks a root) and a branches index
//! `br: Map<u64, Seq<u64>>` (parent id to child list).  This module defines
//! what the upward ancestor walk observes, what it means for the forest to
//! be acyclic, how the branches index must mirror the parent map, and what
//! recursive deletion produces.  The stores prove their operations against
//! these definitions.

use vstd::prelude::*;

use crate::node::NO_PARENT_ID;

verus! {

// ---------------------------------------------------------------------
// Striking a value from a sequence.
// ---------------------------------------------------------------------

/// `s` with every occurrence of `x` removed, order otherwise kept.
pub open spec fn strike(s: Seq<u64>, x: u64) -> Seq<u64>
    decreases s.len(),
{
    if s.len() == 0 {
        Seq::empty()
    } else if s[0] == x {
        strike(s.drop_first(), x)
    } else {
        seq![s[0]] + strike(s.drop_first(), x)
    }
}

/// Striking never lengthens a sequence.
pub proof fn lemma_strike_len(s: Seq<u64>, x: u64)
    ensures
        strike(s, x).len() <= s.len(),
    decreases s.len(),
{
    if s.len() > 0 {
        lemma_strike_len(s.drop_first(), x);
    }
}

/// Striking keeps exactly the other values.
pub proof fn lemma_strike_contains(s: Seq<u64>, x: u64)
    ensures
        forall|c: u64| #[trigger] strike(s, x).contains(c) <==> s.contains(c) && c != x,
    decreases s.len(),
{
    broadcast use vstd::seq_lib::group_seq_properties;

    if s.len() == 0 {
    } else {
        lemma_strike_contains(s.drop_first(), x);
        let rest = strike(s.drop_first(), x);
        assert forall|c: u64| #[trigger] strike(s, x).contains(c) implies s.contains(c) && c
            != x by {
            if s[0] == x {
                assert(s.drop_first().contains(c));
                let j = choose|j: int| 0 <= j < s.drop_first().len() && s.drop_first()[j] == c;
                assert(s[j + 1] == c);
            } else {
                let j = choose|j: int| 0 <= j < strike(s, x).len() && strike(s, x)[j] == c;
                if j == 0 {
                    assert(s[0] == c);
                    assert(c != x);
                } else {
                    assert(rest[j - 1] == c);
                    assert(rest.contains(c));
                    let k = choose|k: int| 0 <= k < s.drop_first().len() && s.drop_first()[k] == c;
                    assert(s[k + 1] == c);
                }
            }
        }
        assert forall|c: u64| s.contains(c) && c != x implies #[trigger] strike(s, x).contains(
            c,
        ) by {
            let j = choose|j: int| 0 <= j < s.len() && s[j] == c;
            if j == 0 {
                assert(strike(s, x)[0] == c);
            } else {
                assert(s.drop_first()[j - 1] == c);
                assert(s.drop_first().contains(c));
                assert(rest.contains(c));
                let k = choose|k: int| 0 <= k < rest.len() && rest[k] == c;
                if s[0] == x {
                    assert(strike(s, x)[k] == c);
                } else {
                    assert(strike(s, x)[k + 1] == c);
                }
            }
        }
    }
}

/// Striking a duplicate-free sequence leaves it duplicate-free.
pub proof fn lemma_strike_no_dup(s: Seq<u64>, x: u64)
    requires
        s.no_duplicates(),
    ensures
        strike(s, x).no_duplicates(),
    decreases s.len(),
{
    broadcast use vstd::seq_lib::group_seq_properties;

    if s.len() == 0 {
    } else {
        assert(s.drop_first().no_duplicates());
        lemma_strike_no_dup(s.drop_first(), x);
        let rest = strike(s.drop_first(), x);
        if s[0] == x {
        } else {
            lemma_strike_contains(s.drop_first(), x);
            assert(!s.drop_first().contains(s[0])) by {
                if s.drop_first().contains(s[0]) {
                    let j = choose|j: int|
                        0 <= j < s.drop_first().len() && s.drop_first()[j] == s[0];
                    assert(s[j + 1] == s[0]);
                }
            }
            assert(!rest.contains(s[0]));
            let out = seq![s[0]] + rest;
            assert forall|i: int, j: int|
                0 <= i < out.len() && 0 <= j < out.len() && i != j implies out[i] != out[j] by {
                if i == 0 {
                    assert(out[j] == rest[j - 1]);
                    assert(rest.contains(rest[j - 1]));
                } else if j == 0 {
                    assert(out[i] == rest[i - 1]);
                    assert(rest.contains(rest[i - 1]));
                } else {
                    assert(out[i] == rest[i - 1] && out[j] == rest[j - 1]);
                }
            }
        }
    }
}

/// The set of values left after a strike.
pub proof fn lemma_strike_to_set(s: Seq<u64>, x: u64)
    ensures
        strike(s, x).to_set() =~= s.to_set().remove(x),
{
    broadcast use vstd::seq_lib::group_seq_properties;

    lemma_strike_contains(s, x);
    assert(strike(s, x).to_set() =~= s.to_set().remove(x));
}

/// Striking distributes over appending one element at the end.
pub proof fn lemma_strike_push(s: Seq<u64>, e: u64, x: u64)
    ensures
        strike(s.push(e), x) == if e == x {
            strike(s, x)
        } else {
            strike(s, x).push(e)
        },
    decreases s.len(),
{
    broadcast use vstd::seq_lib::group_seq_properties;

    if s.len() == 0 {
        if e == x {
            assert(strike(s.push(e), x) =~= strike(s, x));
        } else {
            assert(s.push(e).drop_first() =~= Seq::<u64>::empty());
            assert(strike(s.push(e), x) =~= strike(s, x).push(e));
        }
    } else {
        assert(s.push(e).drop_first() =~= s.drop_first().push(e));
        lemma_strike_push(s.drop_first(), e, x);
        if e == x {
            if s[0] != x {
                assert(strike(s.push(e), x) =~= strike(s, x));
            }
        } else {
            if s[0] != x {
                assert(strike(s.push(e), x) =~= strike(s, x).push(e));
            }
        }
    }
}

/// A strike that hits nothing changes nothing.
pub proof fn lemma_strike_absent(s: Seq<u64>, x: u64)
    requires
        !s.contains(x),
    ensures
        strike(s, x) == s,
    decreases s.len(),
{
    broadcast use vstd::seq_lib::group_seq_properties;

    if s.len() == 0 {
        assert(strike(s, x) =~= s);
    } else {
        assert(s[0] != x) by {
            assert(s.contains(s[0]));
        }
        assert(!s.drop_first().contains(x)) by {
            if s.drop_first().contains(x) {
                let j = choose|j: int| 0 <= j < s.drop_first().len() && s.drop_first()[j] == x;
                assert(s[j + 1] == x);
            }
        }
        lemma_strike_absent(s.drop_first(), x);
        assert(strike(s, x) =~= s);
    }
}

// ---------------------------------------------------------------------
// The upward ancestor walk.
// ---------------------------------------------------------------------

/// What the upward walk from a prospective parent observes.
pub enum Walk {
    /// The walk reached `NO_PARENT_ID`: the chain is rooted.
    Root,
    /// The walk met the node being moved: the move would close a cycle.
    Hit,
    /// The walk met an identifier absent from the store.
    Missing,
    /// The walk ran out of fuel without deciding.
    GaveUp,
}

/// The outcome of the walk from `cur`, avoiding `x`, with `fuel` steps
/// available.  One step of fuel is spent per upward edge followed.
pub open spec fn walk(pm: Map<u64, u64>, cur: u64, x: u64, fuel: nat) -> Walk
    decreases fuel,
{
    if cur == NO_PARENT_ID {
        Walk::Root
    } else if cur == x {
        Walk::Hit
    } else if !pm.dom().contains(cur) {
        Walk::Missing
    } else if fuel == 0 {
        Walk::GaveUp
    } else {
        walk(pm, pm[cur], x, (fuel - 1) as nat)
    }
}

/// A walk that has decided does not change its mind with more fuel.
pub proof fn lemma_walk_more_fuel(pm: Map<u64, u64>, cur: u64, x: u64, f: nat, g: nat)
    requires
        walk(pm, cur, x, f) != Walk::GaveUp,
        g >= f,
    ensures
        walk(pm, cur, x, g) == walk(pm, cur, x, f),
    decreases f,
{
    if cur == NO_PARENT_ID || cur == x || !pm.dom().contains(cur) {
    } else {
        lemma_walk_more_fuel(pm, pm[cur], x, (f - 1) as nat, (g - 1) as nat);
    }
}

/// Outcome of a reparenting request, as the store decides it.
pub enum MoveOutcome {
    Moved,
    NotAllowed,
    NotFound(u64),
}

/// The decision `move_to(id, np)` takes on a store whose parent map is
/// `pm`: a root parent is refused outright; then the ancestors of `np` are
/// walked with one unit of fuel per live node, and only a walk that reaches
/// `NO_PARENT_ID` lets the move proceed, provided the node exists and is
/// not already under `np`.
pub open spec fn move_outcome(pm: Map<u64, u64>, id: u64, np: u64) -> MoveOutcome {
    if np == NO_PARENT_ID {
        MoveOutcome::NotAllowed
    } else {
        match walk(pm, np, id, pm.dom().len()) {
            Walk::Root => {
                if !pm.dom().contains(id) {
                    MoveOutcome::NotFound(id)
                } else if pm[id] == np {
                    MoveOutcome::NotAllowed
                } else {
                    MoveOutcome::Moved
                }
            },
            Walk::Hit => MoveOutcome::NotAllowed,
            Walk::Missing => MoveOutcome::NotFound(np),
            Walk::GaveUp => MoveOutcome::NotAllowed,
        }
    }
}

/// The branches index after `id` moves from under `oldp` to under `np`:
/// `id` leaves `oldp`'s child list and is appended to `np`'s.
pub open spec fn reparent_branches(
    br: Map<u64, Seq<u64>>,
    oldp: u64,
    np: u64,
    id: u64,
) -> Map<u64, Seq<u64>> {
    let br1 = if br.dom().contains(oldp) {
        br.insert(oldp, strike(br[oldp], id))
    } else {
        br
    };
    let tail = if br1.dom().contains(np) {
        br1[np]
    } else {
        Seq::empty()
    };
    br1.insert(np, tail.push(id))
}

/// The branches index after `id` is appended to `p`'s child list.
pub open spec fn grow_branches(br: Map<u64, Seq<u64>>, p: u64, id: u64) -> Map<u64, Seq<u64>> {
    let tail = if br.dom().contains(p) {
        br[p]
    } else {
        Seq::empty()
    };
    br.insert(p, tail.push(id))
}

// ---------------------------------------------------------------------
// Termination of parent chains, and acyclicity.
// ---------------------------------------------------------------------

/// The parent chain from `id` ends (at a root mark or outside the store)
/// within `fuel` steps.
pub open spec fn ends(pm: Map<u64, u64>, id: u64, fuel: nat) -> bool
    decreases fuel,
{
    if id == NO_PARENT_ID || !pm.dom().contains(id) {
        true
    } else if fuel == 0 {
        false
    } else {
        ends(pm, pm[id], (fuel - 1) as nat)
    }
}

/// The parent chain from `id` ends in finitely many steps.
pub open spec fn terminates(pm: Map<u64, u64>, id: u64) -> bool {
    exists|fuel: nat| ends(pm, id, fuel)
}

/// Every parent chain in the store ends: no chain runs forever, hence no
/// node sits on a parent cycle.
pub open spec fn acyclic(pm: Map<u64, u64>) -> bool {
    forall|id: u64| pm.dom().contains(id) ==> terminates(pm, id)
}

/// `b` is reachable from `a` by one or more parent steps.  As every
/// traversal in the store does, the walk stops at the root mark: no step is
/// taken from `NO_PARENT_ID`.
pub open spec fn reaches1(pm: Map<u64, u64>, a: u64, b: u64, fuel: nat) -> bool
    decreases fuel,
{
    &&& a != NO_PARENT_ID
    &&& pm.dom().contains(a)
    &&& (pm[a] == b || (fuel > 0 && reaches1(pm, pm[a], b, (fuel - 1) as nat)))
}

proof fn lemma_cycle_never_ends(pm: Map<u64, u64>, a: u64, id: u64, f: nat, f0: nat, g: nat)
    requires
        reaches1(pm, a, id, f),
        reaches1(pm, id, id, f0),
    ensures
        !ends(pm, a, g),
    decreases g,
{
    assert(pm.dom().contains(a) && a != NO_PARENT_ID);
    if g == 0 {
        // the chain from `a` takes at least one step, so it cannot end in 0
    } else {
        if pm[a] == id {
            lemma_cycle_never_ends(pm, id, id, f0, f0, (g - 1) as nat);
        } else {
            assert(f > 0 && reaches1(pm, pm[a], id, (f - 1) as nat));
            lemma_cycle_never_ends(pm, pm[a], id, (f - 1) as nat, f0, (g - 1) as nat);
        }
    }
}

/// No node of an acyclic store is reachable from itself by repeated
/// parent-id following.
pub proof fn lemma_acyclic_no_self_reach(pm: Map<u64, u64>)
    requires
        acyclic(pm),
    ensures
        forall|id: u64, f: nat| !reaches1(pm, id, id, f),
{
    assert forall|id: u64, f: nat| !reaches1(pm, id, id, f) by {
        if reaches1(pm, id, id, f) {
            assert(pm.dom().contains(id));
            assert(terminates(pm, id));
            let g = choose|g: nat| ends(pm, id, g);
            lemma_cycle_never_ends(pm, id, id, f, f, g);
        }
    }
}

/// A chain that ends keeps ending when nodes are taken away (the chain can
/// only get cut shorter).
proof fn lemma_ends_shrink(pm2: Map<u64, u64>, pm: Map<u64, u64>, id: u64, f: nat)
    requires
        ends(pm, id, f),
        pm2.dom().subset_of(pm.dom()),
        forall|k: u64| pm2.dom().contains(k) ==> pm2[k] == pm[k],
    ensures
        ends(pm2, id, f),
    decreases f,
{
    if id == NO_PARENT_ID || !pm2.dom().contains(id) {
    } else {
        assert(pm.dom().contains(id));
        lemma_ends_shrink(pm2, pm, pm[id], (f - 1) as nat);
    }
}

/// Acyclicity survives the removal of any set of nodes.
pub proof fn lemma_acyclic_shrink(pm2: Map<u64, u64>, pm: Map<u64, u64>)
    requires
        acyclic(pm),
        pm2.dom().subset_of(pm.dom()),
        forall|k: u64| pm2.dom().contains(k) ==> pm2[k] == pm[k],
    ensures
        acyclic(pm2),
{
    assert forall|id: u64| pm2.dom().contains(id) implies terminates(pm2, id) by {
        assert(pm.dom().contains(id));
        assert(terminates(pm, id));
        let f = choose|f: nat| ends(pm, id, f);
        lemma_ends_shrink(pm2, pm, id, f);
    }
}

/// If every chain of `pm` ends and the chain from `x` ends in the updated
/// map, then every chain of the updated map ends.
proof fn lemma_ends_update(pm: Map<u64, u64>, x: u64, p: u64, y: u64, f: nat)
    requires
        ends(pm, y, f),
        terminates(pm.insert(x, p), x),
    ensures
        terminates(pm.insert(x, p), y),
    decreases f,
{
    let pm2 = pm.insert(x, p);
    if y == x {
    } else if y == NO_PARENT_ID || !pm.dom().contains(y) {
        assert(!pm2.dom().contains(y) || y == NO_PARENT_ID);
        assert(ends(pm2, y, 0));
    } else {
        lemma_ends_update(pm, x, p, pm[y], (f - 1) as nat);
        assert(terminates(pm2, pm[y]));
        let g = choose|g: nat| ends(pm2, pm[y], g);
        assert(pm2[y] == pm[y]);
        assert(ends(pm2, y, g + 1));
    }
}

/// A walk that reached the root mark still reaches it after `x` is
/// reparented: the walk never visited `x`, and only `x`'s parent changed.
proof fn lemma_walk_root_ends(pm: Map<u64, u64>, x: u64, p: u64, cur: u64, f: nat)
    requires
        walk(pm, cur, x, f) == Walk::Root,
    ensures
        ends(pm.insert(x, p), cur, f),
    decreases f,
{
    let pm2 = pm.insert(x, p);
    if cur == NO_PARENT_ID {
    } else {
        assert(cur != x);
        assert(pm.dom().contains(cur));
        assert(f > 0);
        lemma_walk_root_ends(pm, x, p, pm[cur], (f - 1) as nat);
        assert(pm2[cur] == pm[cur]);
    }
}

/// A successful move keeps the forest acyclic: the ancestor walk from the
/// new parent reached the root mark without meeting the moved node.
pub proof fn lemma_acyclic_move(pm: Map<u64, u64>, x: u64, np: u64, f: nat)
    requires
        acyclic(pm),
        pm.dom().contains(x),
        walk(pm, np, x, f) == Walk::Root,
    ensures
        acyclic(pm.insert(x, np)),
{
    let pm2 = pm.insert(x, np);
    lemma_walk_root_ends(pm, x, np, np, f);
    assert(ends(pm2, x, f + 1));
    assert(terminates(pm2, x));
    assert forall|id: u64| pm2.dom().contains(id) implies terminates(pm2, id) by {
        if id == x {
        } else {
            assert(pm.dom().contains(id));
            assert(terminates(pm, id));
            let g = choose|g: nat| ends(pm, id, g);
            lemma_ends_update(pm, x, np, id, g);
        }
    }
}

/// Inserting a root keeps the forest acyclic: the new chain ends at once,
/// and every chain that now passes through the new node ends through it.
pub proof fn lemma_acyclic_insert_root(pm: Map<u64, u64>, newid: u64)
    requires
        acyclic(pm),
    ensures
        acyclic(pm.insert(newid, NO_PARENT_ID)),
{
    let pm2 = pm.insert(newid, NO_PARENT_ID);
    assert(ends(pm2, NO_PARENT_ID, 0));
    assert(ends(pm2, newid, 1));
    assert(terminates(pm2, newid));
    assert forall|id: u64| pm2.dom().contains(id) implies terminates(pm2, id) by {
        if id == newid {
        } else {
            assert(pm.dom().contains(id));
            assert(terminates(pm, id));
            let g = choose|g: nat| ends(pm, id, g);
            lemma_ends_update(pm, newid, NO_PARENT_ID, id, g);
        }
    }
}

/// A chain that ends without passing through a fresh identifier still ends
/// after that identifier is inserted, provided no existing node named it as
/// a parent.
proof fn lemma_ends_insert_fresh(pm: Map<u64, u64>, newid: u64, p: u64, y: u64, f: nat)
    requires
        ends(pm, y, f),
        !pm.dom().contains(newid),
        forall|k: u64| pm.dom().contains(k) ==> pm[k] != newid,
        y != newid,
    ensures
        ends(pm.insert(newid, p), y, f),
    decreases f,
{
    let pm2 = pm.insert(newid, p);
    if y == NO_PARENT_ID || !pm.dom().contains(y) {
        assert(!pm2.dom().contains(y) || y == NO_PARENT_ID);
    } else {
        assert(pm[y] != newid);
        lemma_ends_insert_fresh(pm, newid, p, pm[y], (f - 1) as nat);
    }
}

/// Inserting a fresh node keeps the forest acyclic, as long as the new
/// identifier is not its own parent and no existing node dangles on it.
pub proof fn lemma_acyclic_insert_fresh(pm: Map<u64, u64>, newid: u64, p: u64)
    requires
        acyclic(pm),
        !pm.dom().contains(newid),
        p != newid,
        forall|k: u64| pm.dom().contains(k) ==> pm[k] != newid,
    ensures
        acyclic(pm.insert(newid, p)),
{
    let pm2 = pm.insert(newid, p);
    assert(terminates(pm2, newid)) by {
        if p == NO_PARENT_ID || !pm.dom().contains(p) {
            assert(ends(pm2, p, 0));
            assert(ends(pm2, newid, 1));
        } else {
            assert(terminates(pm, p));
            let g = choose|g: nat| ends(pm, p, g);
            lemma_ends_insert_fresh(pm, newid, p, p, g);
            assert(ends(pm2, newid, g + 1));
        }
    }
    assert forall|id: u64| pm2.dom().contains(id) implies terminates(pm2, id) by {
        if id == newid {
        } else {
            assert(pm.dom().contains(id));
            assert(terminates(pm, id));
            let g = choose|g: nat| ends(pm, id, g);
            lemma_ends_insert_fresh(pm, newid, p, id, g);
        }
    }
}

// ---------------------------------------------------------------------
// The branches index mirroring the parent map.
// ---------------------------------------------------------------------

/// The branches index is a faithful mirror of the parent map: every listed
/// child is live under exactly that parent, every live node is listed under
/// its parent, and no child list repeats an entry.
pub open spec fn linked(pm: Map<u64, u64>, br: Map<u64, Seq<u64>>) -> bool {
    &&& forall|p: u64, i: int|
        #![trigger br[p][i]]
        br.dom().contains(p) && 0 <= i < br[p].len() ==> {
            &&& pm.dom().contains(br[p][i])
            &&& pm[br[p][i]] == p
        }
    &&& forall|c: u64| #[trigger]
        pm.dom().contains(c) ==> br.dom().contains(pm[c]) && br[pm[c]].contains(c)
    &&& forall|p: u64| #[trigger] br.dom().contains(p) ==> br[p].no_duplicates()
}

/// Appending a fresh node under a parent keeps the branches index faithful.
pub proof fn lemma_add_linked(pm: Map<u64, u64>, br: Map<u64, Seq<u64>>, id: u64, p: u64)
    requires
        linked(pm, br),
        !pm.dom().contains(id),
    ensures
        linked(pm.insert(id, p), grow_branches(br, p, id)),
{
    broadcast use vstd::seq_lib::group_seq_properties;

    let pm2 = pm.insert(id, p);
    let br2 = grow_branches(br, p, id);
    let tail = if br.dom().contains(p) {
        br[p]
    } else {
        Seq::<u64>::empty()
    };
    assert(br2[p] == tail.push(id));
    assert forall|q: u64, i: int|
        #![trigger br2[q][i]]
        br2.dom().contains(q) && 0 <= i < br2[q].len() implies {
        &&& pm2.dom().contains(br2[q][i])
        &&& pm2[br2[q][i]] == q
    } by {
        let c = br2[q][i];
        if q == p {
            if i < tail.len() {
                assert(c == br[p][i]);
                assert(pm.dom().contains(c) && pm[c] == p);
                assert(c != id);
            } else {
                assert(c == id);
            }
        } else {
            assert(br2[q] == br[q]);
            assert(pm.dom().contains(c) && pm[c] == q);
            assert(c != id);
        }
    }
    assert forall|c: u64| #[trigger] pm2.dom().contains(c) implies br2.dom().contains(pm2[c])
        && br2[pm2[c]].contains(c) by {
        if c == id {
            assert(br2[p][tail.len() as int] == id);
        } else {
            assert(pm.dom().contains(c));
            assert(br.dom().contains(pm[c]) && br[pm[c]].contains(c));
            if pm[c] == p {
                let j = choose|j: int| 0 <= j < br[p].len() && br[p][j] == c;
                assert(br2[p][j] == c);
            } else {
                assert(br2[pm[c]] == br[pm[c]]);
            }
        }
    }
    assert forall|q: u64| #[trigger] br2.dom().contains(q) implies br2[q].no_duplicates() by {
        if q == p {
            assert(!tail.contains(id)) by {
                if tail.contains(id) {
                    let j = choose|j: int| 0 <= j < tail.len() && tail[j] == id;
                    assert(pm.dom().contains(id));
                }
            }
            let out = tail.push(id);
            assert(br2[p] == out);
            assert(tail.no_duplicates());
            assert forall|i: int, j: int|
                0 <= i < out.len() && 0 <= j < out.len() && i != j implies out[i] != out[j] by {
                if i == out.len() - 1 {
                    assert(tail.contains(out[j])) by {
                        assert(out[j] == tail[j]);
                    }
                } else if j == out.len() - 1 {
                    assert(tail.contains(out[i])) by {
                        assert(out[i] == tail[i]);
                    }
                } else {
                    assert(out[i] == tail[i] && out[j] == tail[j]);
                }
            }
        } else {
            assert(br2[q] == br[q]);
        }
    }
}

/// Reparenting a live node keeps the branches index faithful, as long as
/// the node is not already under the new parent.
pub proof fn lemma_move_linked(pm: Map<u64, u64>, br: Map<u64, Seq<u64>>, id: u64, np: u64)
    requires
        linked(pm, br),
        pm.dom().contains(id),
        pm[id] != np,
    ensures
        linked(pm.insert(id, np), reparent_branches(br, pm[id], np, id)),
{
    broadcast use vstd::seq_lib::group_seq_properties;

    let oldp = pm[id];
    let pm2 = pm.insert(id, np);
    let br2 = reparent_branches(br, oldp, np, id);
    assert(br.dom().contains(oldp));
    let struck = strike(br[oldp], id);
    let br1 = br.insert(oldp, struck);
    let tail = if br1.dom().contains(np) {
        br1[np]
    } else {
        Seq::<u64>::empty()
    };
    assert(br2 == br1.insert(np, tail.push(id)));
    lemma_strike_contains(br[oldp], id);
    lemma_strike_no_dup(br[oldp], id);
    // `id` is listed nowhere but under its parent, so the new parent's list
    // does not hold it yet.
    assert(!tail.contains(id)) by {
        if tail.contains(id) {
            assert(br1.dom().contains(np));
            if np == oldp {
                assert(tail == struck);
            } else {
                assert(tail == br[np]);
                let j = choose|j: int| 0 <= j < br[np].len() && br[np][j] == id;
                assert(pm[id] == np);
            }
        }
    }
    assert forall|q: u64, i: int|
        #![trigger br2[q][i]]
        br2.dom().contains(q) && 0 <= i < br2[q].len() implies {
        &&& pm2.dom().contains(br2[q][i])
        &&& pm2[br2[q][i]] == q
    } by {
        let c = br2[q][i];
        if q == np {
            assert(br2[np] == tail.push(id));
            if i < tail.len() {
                assert(c == tail[i]);
                if np == oldp {
                    assert(tail == struck);
                    assert(struck.contains(c));
                    assert(br[oldp].contains(c) && c != id);
                    let j = choose|j: int| 0 <= j < br[oldp].len() && br[oldp][j] == c;
                    assert(pm.dom().contains(c) && pm[c] == oldp);
                } else {
                    assert(br.dom().contains(np) && tail == br[np]);
                    assert(pm.dom().contains(c) && pm[c] == np);
                    assert(c != id);
                }
            } else {
                assert(c == id);
            }
        } else if q == oldp {
            assert(br2[oldp] == struck);
            assert(br2[oldp].contains(c));
            assert(br[oldp].contains(c) && c != id);
            let j = choose|j: int| 0 <= j < br[oldp].len() && br[oldp][j] == c;
            assert(pm.dom().contains(c) && pm[c] == oldp);
        } else {
            assert(br2[q] == br[q]);
            assert(pm.dom().contains(c) && pm[c] == q);
            assert(c != id);
        }
    }
    assert forall|c: u64| #[trigger] pm2.dom().contains(c) implies br2.dom().contains(pm2[c])
        && br2[pm2[c]].contains(c) by {
        if c == id {
            assert(br2[np][tail.len() as int] == id);
            assert(br2[np].contains(id));
        } else {
            assert(pm.dom().contains(c));
            assert(br.dom().contains(pm[c]) && br[pm[c]].contains(c));
            if pm[c] == oldp {
                assert(br2[oldp] == struck);
                assert(struck.contains(c));
            } else if pm[c] == np {
                assert(tail == br[np]);
                assert(tail.contains(c));
                let j = choose|j: int| 0 <= j < tail.len() && tail[j] == c;
                assert(br2[np][j] == c);
                assert(br2[np].contains(c));
            } else {
                assert(br2[pm[c]] == br[pm[c]]);
            }
        }
    }
    assert forall|q: u64| #[trigger] br2.dom().contains(q) implies br2[q].no_duplicates() by {
        if q == np {
            assert(br2[np] == tail.push(id));
            assert(tail.no_duplicates()) by {
                if np == oldp {
                    assert(tail == struck);
                } else if br.dom().contains(np) {
                    assert(tail == br[np]);
                }
            }
            let out = tail.push(id);
            assert forall|i: int, j: int|
                0 <= i < out.len() && 0 <= j < out.len() && i != j implies out[i] != out[j] by {
                if i == out.len() - 1 {
                    assert(tail.contains(out[j])) by {
                        assert(out[j] == tail[j]);
                    }
                } else if j == out.len() - 1 {
                    assert(tail.contains(out[i])) by {
                        assert(out[i] == tail[i]);
                    }
                } else {
                    assert(out[i] == tail[i] && out[j] == tail[j]);
                }
            }
        } else if q == oldp {
            assert(br2[oldp] == struck);
        } else {
            assert(br2[q] == br[q]);
        }
    }
}

// ---------------------------------------------------------------------
// Recursive deletion, as a worklist.
// ---------------------------------------------------------------------

/// One deletion pass: take the front of the work list; a missing identifier
/// is skipped; a live one is removed from the store, struck from its
/// parent's child list, recorded in the output, and its children are
/// prepended to the work list.  The output is therefore the pre-order of
/// the deleted subtrees: each node before its children, siblings in child
/// list (insertion) order.
pub open spec fn scrub(
    pm: Map<u64, u64>,
    br: Map<u64, Seq<u64>>,
    stack: Seq<u64>,
) -> (Map<u64, u64>, Map<u64, Seq<u64>>, Seq<u64>)
    decreases pm.dom().len(), stack.len(),
        when pm.dom().finite()
{
    if stack.len() == 0 {
        (pm, br, Seq::empty())
    } else {
        let id = stack[0];
        if !pm.dom().contains(id) {
            scrub(pm, br, stack.drop_first())
        } else {
            let parent = pm[id];
            let br1 = if br.dom().contains(parent) {
                br.insert(parent, strike(br[parent], id))
            } else {
                br
            };
            let kids = if br1.dom().contains(id) {
                br1[id]
            } else {
                Seq::empty()
            };
            let pm1 = pm.remove(id);
            let br2 = br1.remove(id);
            let rec = scrub(pm1, br2, kids + stack.drop_first());
            (rec.0, rec.1, seq![id] + rec.2)
        }
    }
}

/// What one `delete(id)` call does to the store.
pub open spec fn scrub_one(
    pm: Map<u64, u64>,
    br: Map<u64, Seq<u64>>,
    id: u64,
) -> (Map<u64, u64>, Map<u64, Seq<u64>>, Seq<u64>) {
    scrub(pm, br, seq![id])
}

/// Frame facts about a deletion pass: it only removes nodes, never lists an
/// identifier twice, lists exactly the nodes it removed, and leaves the
/// survivors' parents untouched.
pub proof fn lemma_scrub_frame(pm: Map<u64, u64>, br: Map<u64, Seq<u64>>, stack: Seq<u64>)
    requires
        pm.dom().finite(),
    ensures
        ({
            let r = scrub(pm, br, stack);
            &&& r.0.dom().subset_of(pm.dom())
            &&& forall|k: u64| #[trigger] r.0.dom().contains(k) ==> r.0[k] == pm[k]
            &&& r.2.no_duplicates()
            &&& forall|i: int|
                0 <= i < r.2.len() ==> pm.dom().contains(#[trigger] r.2[i]) && !r.0.dom().contains(
                    r.2[i],
                )
            &&& r.0.dom() =~= pm.dom().difference(r.2.to_set())
            &&& r.0.dom().finite()
        }),
    decreases pm.dom().len(), stack.len(),
{
    broadcast use vstd::seq_lib::group_seq_properties;

    let r = scrub(pm, br, stack);
    if stack.len() == 0 {
        assert(r.2.to_set() =~= Set::<u64>::empty());
    } else {
        let id = stack[0];
        if !pm.dom().contains(id) {
            lemma_scrub_frame(pm, br, stack.drop_first());
        } else {
            let parent = pm[id];
            let br1 = if br.dom().contains(parent) {
                br.insert(parent, strike(br[parent], id))
            } else {
                br
            };
            let kids = if br1.dom().contains(id) {
                br1[id]
            } else {
                Seq::empty()
            };
            let pm1 = pm.remove(id);
            let br2 = br1.remove(id);
            vstd::set_lib::lemma_len_subset(pm1.dom(), pm.dom());
            lemma_scrub_frame(pm1, br2, kids + stack.drop_first());
            let rec = scrub(pm1, br2, kids + stack.drop_first());
            assert(r.2 == seq![id] + rec.2);
            assert(!rec.2.contains(id));
            assert(r.2.to_set() =~= rec.2.to_set().insert(id));
            assert(r.0.dom() =~= pm.dom().difference(r.2.to_set()));
        }
    }
}

/// Mid-pass shape of the store: every listed child is live under that
/// parent with no duplicated entries, and every live node is either still
/// listed or already on the work list.
pub open spec fn scrub_inv(pm: Map<u64, u64>, br: Map<u64, Seq<u64>>, stack: Seq<u64>) -> bool {
    &&& forall|p: u64, i: int|
        #![trigger br[p][i]]
        br.dom().contains(p) && 0 <= i < br[p].len() ==> {
            &&& pm.dom().contains(br[p][i])
            &&& pm[br[p][i]] == p
        }
    &&& forall|c: u64| #[trigger]
        pm.dom().contains(c) ==> (br.dom().contains(pm[c]) && br[pm[c]].contains(c))
            || stack.contains(c)
    &&& forall|p: u64| #[trigger] br.dom().contains(p) ==> br[p].no_duplicates()
}

/// Skipping a missing identifier keeps the mid-pass shape.
pub proof fn lemma_scrub_inv_skip(pm: Map<u64, u64>, br: Map<u64, Seq<u64>>, stack: Seq<u64>)
    requires
        scrub_inv(pm, br, stack),
        stack.len() > 0,
        !pm.dom().contains(stack[0]),
    ensures
        scrub_inv(pm, br, stack.drop_first()),
{
    broadcast use vstd::seq_lib::group_seq_properties;

    assert forall|c: u64| #[trigger] pm.dom().contains(c) implies (br.dom().contains(pm[c])
        && br[pm[c]].contains(c)) || stack.drop_first().contains(c) by {
        if !(br.dom().contains(pm[c]) && br[pm[c]].contains(c)) {
            let j = choose|j: int| 0 <= j < stack.len() && stack[j] == c;
            assert(j != 0);
            assert(stack.drop_first()[j - 1] == c);
        }
    }
}

/// Deleting the front of the work list keeps the mid-pass shape: the
/// node's children move from its child list onto the work list.
pub proof fn lemma_scrub_inv_step(pm: Map<u64, u64>, br: Map<u64, Seq<u64>>, stack: Seq<u64>)
    requires
        scrub_inv(pm, br, stack),
        stack.len() > 0,
        pm.dom().contains(stack[0]),
    ensures
        ({
            let id = stack[0];
            let parent = pm[id];
            let br1 = if br.dom().contains(parent) {
                br.insert(parent, strike(br[parent], id))
            } else {
                br
            };
            let kids = if br1.dom().contains(id) {
                br1[id]
            } else {
                Seq::empty()
            };
            scrub_inv(pm.remove(id), br1.remove(id), kids + stack.drop_first())
        }),
{
    broadcast use vstd::seq_lib::group_seq_properties;

    let id = stack[0];
    let parent = pm[id];
    let struck = if br.dom().contains(parent) {
        strike(br[parent], id)
    } else {
        Seq::<u64>::empty()
    };
    let br1 = if br.dom().contains(parent) {
        br.insert(parent, struck)
    } else {
        br
    };
    let kids = if br1.dom().contains(id) {
        br1[id]
    } else {
        Seq::<u64>::empty()
    };
    let pm1 = pm.remove(id);
    let br2 = br1.remove(id);
    let stack2 = kids + stack.drop_first();
    if br.dom().contains(parent) {
        lemma_strike_contains(br[parent], id);
        lemma_strike_no_dup(br[parent], id);
    }
    assert forall|p: u64, i: int|
        #![trigger br2[p][i]]
        br2.dom().contains(p) && 0 <= i < br2[p].len() implies {
        &&& pm1.dom().contains(br2[p][i])
        &&& pm1[br2[p][i]] == p
    } by {
        let c = br2[p][i];
        if p == parent && br.dom().contains(parent) {
            assert(br2[p] == struck);
            assert(br2[p].contains(c));
            assert(br[parent].contains(c) && c != id);
            let j = choose|j: int| 0 <= j < br[parent].len() && br[parent][j] == c;
            assert(pm.dom().contains(c) && pm[c] == parent);
        } else {
            assert(br2[p] == br[p]);
            assert(pm.dom().contains(c) && pm[c] == p);
            assert(c != id);
        }
    }
    assert forall|c: u64| #[trigger] pm1.dom().contains(c) implies (br2.dom().contains(pm1[c])
        && br2[pm1[c]].contains(c)) || stack2.contains(c) by {
        assert(pm.dom().contains(c) && c != id);
        assert(pm1[c] == pm[c]);
        if br.dom().contains(pm[c]) && br[pm[c]].contains(c) {
            if pm[c] == id {
                // c was a child of the deleted node: it is on the work list
                // now
                if br1.dom().contains(id) {
                    if br.dom().contains(parent) && id == parent {
                        assert(br1[id] == struck);
                        assert(br[pm[c]].contains(c) && c != id);
                        assert(kids.contains(c));
                    } else {
                        assert(br1[id] == br[id]);
                        assert(kids.contains(c));
                    }
                    let j = choose|j: int| 0 <= j < kids.len() && kids[j] == c;
                    assert(stack2[j] == c);
                } else {
                    assert(br.dom().contains(id));
                    assert(false);
                }
            } else {
                assert(br2.dom().contains(pm[c]));
                if pm[c] == parent && br.dom().contains(parent) {
                    assert(br2[parent] == struck);
                    assert(br2[parent].contains(c));
                } else {
                    assert(br2[pm[c]] == br[pm[c]]);
                }
                assert(br2[pm1[c]].contains(c));
            }
        } else {
            assert(stack.contains(c));
            let j = choose|j: int| 0 <= j < stack.len() && stack[j] == c;
            assert(j != 0);
            assert(stack.drop_first()[j - 1] == c);
            assert(stack2[kids.len() + j - 1] == c);
        }
    }
    assert forall|p: u64| #[trigger] br2.dom().contains(p) implies br2[p].no_duplicates() by {
        if p == parent && br.dom().contains(parent) {
            assert(br2[p] == struck);
        } else {
            assert(br2[p] == br[p]);
        }
    }
}

/// A deletion pass started on a faithful store leaves a faithful store.
pub proof fn lemma_scrub_linked(pm: Map<u64, u64>, br: Map<u64, Seq<u64>>, stack: Seq<u64>)
    requires
        pm.dom().finite(),
        scrub_inv(pm, br, stack),
    ensures
        ({
            let r = scrub(pm, br, stack);
            linked(r.0, r.1)
        }),
    decreases pm.dom().len(), stack.len(),
{
    if stack.len() == 0 {
    } else {
        let id = stack[0];
        if !pm.dom().contains(id) {
            lemma_scrub_inv_skip(pm, br, stack);
            lemma_scrub_linked(pm, br, stack.drop_first());
        } else {
            let parent = pm[id];
            let br1 = if br.dom().contains(parent) {
                br.insert(parent, strike(br[parent], id))
            } else {
                br
            };
            let kids = if br1.dom().contains(id) {
                br1[id]
            } else {
                Seq::empty()
            };
            let pm1 = pm.remove(id);
            let br2 = br1.remove(id);
            let stack2 = kids + stack.drop_first();
            lemma_scrub_inv_step(pm, br, stack);
            vstd::set_lib::lemma_len_subset(pm1.dom(), pm.dom());
            lemma_scrub_linked(pm1, br2, stack2);
        }
    }
}

/// Deleting an identifier twice yields nothing the second time: the first
/// pass removed it from the store.
pub proof fn lemma_scrub_one_twice(pm: Map<u64, u64>, br: Map<u64, Seq<u64>>, id: u64)
    requires
        pm.dom().finite(),
    ensures
        ({
            let r = scrub_one(pm, br, id);
            scrub_one(r.0, r.1, id).2 == Seq::<u64>::empty()
        }),
{
    lemma_scrub_frame(pm, br, seq![id]);
    let r = scrub_one(pm, br, id);
    if pm.dom().contains(id) {
        assert(r.2[0] == id);
        assert(!r.0.dom().contains(id));
    } else {
        assert(!r.0.dom().contains(id));
    }
    assert(scrub(r.0, r.1, seq![id].drop_first()).2 == Seq::<u64>::empty());
}

/// The reach of a deletion pass: every deleted node was on the work list
/// or hangs under a deleted node listed earlier in the output; every
/// survivor's parent survives; and every live node on the work list is
/// deleted.
proof fn lemma_scrub_reaches(pm: Map<u64, u64>, br: Map<u64, Seq<u64>>, stack: Seq<u64>)
    requires
        pm.dom().finite(),
        scrub_inv(pm, br, stack),
    ensures
        ({
            let r = scrub(pm, br, stack);
            &&& forall|j: int|
                0 <= j < r.2.len() ==> stack.contains(#[trigger] r.2[j]) || (pm.dom().contains(
                    r.2[j],
                ) && exists|k: int| 0 <= k < j && r.2[k] == pm[r.2[j]])
            &&& forall|c: u64| #[trigger] r.0.dom().contains(c) ==> !r.2.contains(pm[c])
            &&& forall|x: u64|
                stack.contains(x) && pm.dom().contains(x) ==> #[trigger] r.2.contains(x)
        }),
    decreases pm.dom().len(), stack.len(),
{
    broadcast use vstd::seq_lib::group_seq_properties;

    let r = scrub(pm, br, stack);
    if stack.len() == 0 {
    } else {
        let id = stack[0];
        if !pm.dom().contains(id) {
            lemma_scrub_inv_skip(pm, br, stack);
            lemma_scrub_reaches(pm, br, stack.drop_first());
            assert(scrub(pm, br, stack) == scrub(pm, br, stack.drop_first()));
            assert forall|x: u64| stack.contains(x) && pm.dom().contains(x) implies
                #[trigger] r.2.contains(x) by {
                assert(x != id);
                let j = choose|j: int| 0 <= j < stack.len() && stack[j] == x;
                assert(j != 0);
                assert(stack.drop_first()[j - 1] == x);
                assert(stack.drop_first().contains(x));
            }
            assert forall|j: int|
                0 <= j < r.2.len() implies stack.contains(#[trigger] r.2[j]) || (pm.dom().contains(
                r.2[j],
            ) && exists|k: int| 0 <= k < j && r.2[k] == pm[r.2[j]]) by {
                if stack.drop_first().contains(r.2[j]) {
                    let k = choose|k: int|
                        0 <= k < stack.drop_first().len() && stack.drop_first()[k] == r.2[j];
                    assert(stack[k + 1] == r.2[j]);
                    assert(stack.contains(r.2[j]));
                }
            }
        } else {
            let parent = pm[id];
            let struck = if br.dom().contains(parent) {
                strike(br[parent], id)
            } else {
                Seq::<u64>::empty()
            };
            let br1 = if br.dom().contains(parent) {
                br.insert(parent, struck)
            } else {
                br
            };
            let kids = if br1.dom().contains(id) {
                br1[id]
            } else {
                Seq::<u64>::empty()
            };
            let pm1 = pm.remove(id);
            let br2 = br1.remove(id);
            let stack2 = kids + stack.drop_first();
            let rec = scrub(pm1, br2, stack2);
            lemma_scrub_inv_step(pm, br, stack);
            vstd::set_lib::lemma_len_subset(pm1.dom(), pm.dom());
            lemma_scrub_reaches(pm1, br2, stack2);
            lemma_scrub_frame(pm1, br2, stack2);
            if br.dom().contains(parent) && parent == id {
                lemma_strike_contains(br[parent], id);
            }
            assert(r.2 == seq![id] + rec.2);
            assert(r.2[0] == id);
            assert(r.2.contains(id));
            // every child of the deleted node carries it as parent
            assert forall|t: int| 0 <= t < kids.len() implies pm.dom().contains(
                #[trigger] kids[t],
            ) && pm[kids[t]] == id by {
                if br.dom().contains(parent) && parent == id {
                    assert(struck.contains(kids[t]));
                    assert(br[parent].contains(kids[t]));
                    let u = choose|u: int| 0 <= u < br[parent].len() && br[parent][u] == kids[t];
                } else {
                    assert(br1.dom().contains(id) ==> br1[id] == br[id]);
                }
            }
            // soundness of the output: a deleted node that was not on the
            // work list hangs under a node deleted earlier
            assert forall|j: int|
                0 <= j < r.2.len() implies stack.contains(#[trigger] r.2[j]) || (pm.dom().contains(
                r.2[j],
            ) && exists|k: int| 0 <= k < j && r.2[k] == pm[r.2[j]]) by {
                if j == 0 {
                } else {
                    let x = r.2[j];
                    assert(rec.2[j - 1] == x);
                    if stack2.contains(x) {
                        let k = choose|k: int| 0 <= k < stack2.len() && stack2[k] == x;
                        if k < kids.len() {
                            assert(kids[k] == x);
                            assert(pm[x] == id && r.2[0] == pm[x]);
                        } else {
                            assert(stack.drop_first()[k - kids.len()] == x);
                            assert(stack[k - kids.len() + 1] == x);
                        }
                    } else {
                        assert(pm1.dom().contains(x) && exists|u: int|
                            0 <= u < j - 1 && rec.2[u] == pm1[x]);
                        assert(pm1[x] == pm[x]);
                        let u = choose|u: int| 0 <= u < j - 1 && rec.2[u] == pm1[x];
                        assert(r.2[u + 1] == pm[x]);
                    }
                }
            }
            // every live node of the work list is deleted
            assert forall|x: u64| stack.contains(x) && pm.dom().contains(x) implies
                #[trigger] r.2.contains(x) by {
                if x == id {
                } else {
                    let j = choose|j: int| 0 <= j < stack.len() && stack[j] == x;
                    if j == 0 {
                    } else {
                        assert(stack.drop_first()[j - 1] == x);
                        assert(stack2[kids.len() + j - 1] == x);
                        assert(stack2.contains(x));
                        assert(pm1.dom().contains(x));
                        assert(rec.2.contains(x));
                        let k = choose|k: int| 0 <= k < rec.2.len() && rec.2[k] == x;
                        assert(r.2[k + 1] == x);
                    }
                }
            }
            // survivors' parents survive
            assert forall|c: u64| #[trigger] r.0.dom().contains(c) implies !r.2.contains(
                pm[c],
            ) by {
                assert(pm1.dom().contains(c));
                assert(pm1[c] == pm[c]);
                assert(!rec.2.contains(pm1[c]));
                if pm[c] == id {
                    // a live child of the deleted node is on the work list
                    // and is therefore deleted — it cannot survive
                    assert(pm.dom().contains(c) && c != id);
                    if br.dom().contains(id) && br[id].contains(c) {
                        if parent == id {
                            assert(struck.contains(c));
                            let t = choose|t: int| 0 <= t < struck.len() && struck[t] == c;
                            assert(stack2[t] == c);
                        } else {
                            assert(kids == br[id]);
                            let t = choose|t: int| 0 <= t < kids.len() && kids[t] == c;
                            assert(stack2[t] == c);
                        }
                        assert(stack2.contains(c));
                        assert(rec.2.contains(c));
                        assert(!rec.0.dom().contains(c));
                        assert(false);
                    } else {
                        assert(stack.contains(c));
                        let j = choose|j: int| 0 <= j < stack.len() && stack[j] == c;
                        assert(j != 0);
                        assert(stack2[kids.len() + j - 1] == c);
                        assert(stack2.contains(c));
                        assert(rec.2.contains(c));
                        assert(!rec.0.dom().contains(c));
                        assert(false);
                    }
                } else {
                    if r.2.contains(pm[c]) {
                        let k = choose|k: int| 0 <= k < r.2.len() && r.2[k] == pm[c];
                        assert(k != 0);
                        assert(rec.2[k - 1] == pm[c]);
                        assert(rec.2.contains(pm1[c]));
                        assert(false);
                    }
                }
            }
        }
    }
}

/// One deletion returns exactly the subtree of the identifier, parent
/// before child: the identifier comes first, every other deleted node
/// hangs under a deleted node listed earlier in the output, and every
/// live child of a deleted node is deleted.
pub proof fn lemma_scrub_one_descendants(pm: Map<u64, u64>, br: Map<u64, Seq<u64>>, id: u64)
    requires
        pm.dom().finite(),
        linked(pm, br),
    ensures
        ({
            let r = scrub_one(pm, br, id);
            &&& forall|j: int|
                0 <= j < r.2.len() ==> r.2[j] == id || (pm.dom().contains(#[trigger] r.2[j])
                    && exists|k: int| 0 <= k < j && r.2[k] == pm[r.2[j]])
            &&& forall|c: u64|
                pm.dom().contains(c) && r.2.contains(#[trigger] pm[c]) ==> r.2.contains(c)
            &&& pm.dom().contains(id) ==> r.2.len() > 0 && r.2[0] == id
        }),
{
    broadcast use vstd::seq_lib::group_seq_properties;

    lemma_scrub_reaches(pm, br, seq![id]);
    lemma_scrub_frame(pm, br, seq![id]);
    let r = scrub_one(pm, br, id);
    assert forall|j: int|
        0 <= j < r.2.len() implies r.2[j] == id || (pm.dom().contains(#[trigger] r.2[j])
        && exists|k: int| 0 <= k < j && r.2[k] == pm[r.2[j]]) by {
        if seq![id].contains(r.2[j]) {
            assert(r.2[j] == id);
        }
    }
    assert forall|c: u64| pm.dom().contains(c) && r.2.contains(#[trigger] pm[c]) implies
        r.2.contains(c) by {
        if !r.2.contains(c) {
            assert(r.0.dom() =~= pm.dom().difference(r.2.to_set()));
            assert(r.0.dom().contains(c));
        }
    }
    if pm.dom().contains(id) {
        assert(seq![id].contains(id)) by {
            assert(seq![id][0] == id);
        }
        assert(r.2.contains(id));
    }
}

/// What `delete_list` does: each identifier in turn is deleted together
/// with its subtree, on the store as the previous deletions left it, and
/// the outputs are concatenated.
pub open spec fn scrub_list(
    pm: Map<u64, u64>,
    br: Map<u64, Seq<u64>>,
    ids: Seq<u64>,
) -> (Map<u64, u64>, Map<u64, Seq<u64>>, Seq<u64>)
    decreases ids.len(),
{
    if ids.len() == 0 {
        (pm, br, Seq::empty())
    } else {
        let first = scrub_one(pm, br, ids[0]);
        let rest = scrub_list(first.0, first.1, ids.drop_first());
        (rest.0, rest.1, first.2 + rest.2)
    }
}

/// The frame facts of [`lemma_scrub_frame`], carried over a whole list.
pub proof fn lemma_scrub_list_frame(pm: Map<u64, u64>, br: Map<u64, Seq<u64>>, ids: Seq<u64>)
    requires
        pm.dom().finite(),
    ensures
        ({
            let r = scrub_list(pm, br, ids);
            &&& r.0.dom().subset_of(pm.dom())
            &&& forall|k: u64| #[trigger] r.0.dom().contains(k) ==> r.0[k] == pm[k]
            &&& r.2.no_duplicates()
            &&& forall|i: int|
                0 <= i < r.2.len() ==> pm.dom().contains(#[trigger] r.2[i]) && !r.0.dom().contains(
                    r.2[i],
                )
            &&& r.0.dom() =~= pm.dom().difference(r.2.to_set())
            &&& r.0.dom().finite()
        }),
    decreases ids.len(),
{
    broadcast use vstd::seq_lib::group_seq_properties;

    let r = scrub_list(pm, br, ids);
    if ids.len() == 0 {
        assert(r.2.to_set() =~= Set::<u64>::empty());
    } else {
        let first = scrub_one(pm, br, ids[0]);
        lemma_scrub_frame(pm, br, seq![ids[0]]);
        lemma_scrub_list_frame(first.0, first.1, ids.drop_first());
        let rest = scrub_list(first.0, first.1, ids.drop_first());
        assert(r.2 == first.2 + rest.2);
        assert forall|i: int, j: int|
            0 <= i < r.2.len() && 0 <= j < r.2.len() && i != j implies r.2[i] != r.2[j] by {
            if i < first.2.len() && j >= first.2.len() {
                assert(r.2[j] == rest.2[j - first.2.len()]);
                assert(first.0.dom().contains(r.2[j]));
                assert(!first.0.dom().contains(r.2[i]));
            } else if j < first.2.len() && i >= first.2.len() {
                assert(r.2[i] == rest.2[i - first.2.len()]);
                assert(first.0.dom().contains(r.2[i]));
                assert(!first.0.dom().contains(r.2[j]));
            } else if i < first.2.len() && j < first.2.len() {
                assert(r.2[i] == first.2[i] && r.2[j] == first.2[j]);
            } else {
                assert(r.2[i] == rest.2[i - first.2.len()]);
                assert(r.2[j] == rest.2[j - first.2.len()]);
            }
        }
        assert(r.2.to_set() =~= first.2.to_set().union(rest.2.to_set()));
        assert(r.0.dom() =~= pm.dom().difference(r.2.to_set()));
    }
}

// ---------------------------------------------------------------------
// Ordered deduplication.
// ---------------------------------------------------------------------

/// Deduplication keeping the first occurrence of each element, in order.
pub open spec fn ordered_dedup(s: Seq<u64>) -> Seq<u64>
    decreases s.len(),
    via ordered_dedup_decreases
{
    if s.len() == 0 {
        Seq::empty()
    } else {
        seq![s[0]] + ordered_dedup(strike(s.drop_first(), s[0]))
    }
}

#[via_fn]
proof fn ordered_dedup_decreases(s: Seq<u64>) {
    if s.len() > 0 {
        lemma_strike_len(s.drop_first(), s[0]);
    }
}

/// Recursive deletion of a list never reports an identifier twice — a
/// deleted node cannot be deleted again — so the concatenated output of
/// `delete_list` equals its own ordered deduplication.
pub proof fn lemma_scrub_list_dedup(pm: Map<u64, u64>, br: Map<u64, Seq<u64>>, ids: Seq<u64>)
    requires
        pm.dom().finite(),
    ensures
        ordered_dedup(scrub_list(pm, br, ids).2) == scrub_list(pm, br, ids).2,
{
    lemma_scrub_list_frame(pm, br, ids);
    lemma_dedup_of_distinct(scrub_list(pm, br, ids).2);
}

/// A duplicate-free sequence is its own ordered deduplication.
pub proof fn lemma_dedup_of_distinct(s: Seq<u64>)
    requires
        s.no_duplicates(),
    ensures
        ordered_dedup(s) == s,
    decreases s.len(),
{
    broadcast use vstd::seq_lib::group_seq_properties;

    if s.len() == 0 {
        assert(ordered_dedup(s) =~= s);
    } else {
        let rest = s.drop_first();
        assert(rest.no_duplicates());
        assert(!rest.contains(s[0])) by {
            if rest.contains(s[0]) {
                let j = choose|j: int| 0 <= j < rest.len() && rest[j] == s[0];
                assert(s[j + 1] == s[0]);
            }
        }
        lemma_strike_absent(rest, s[0]);
        lemma_dedup_of_distinct(rest);
        assert(ordered_dedup(s) =~= s);
    }
}

} // verus!
