//! The encrypted node forest: a map of [`LockedNode`]s plus a branches
//! index from parent id to child list, kept consistent by every mutation.

use vstd::prelude::*;

use std::collections::HashMap;

use crate::encrypted::Encrypted;
use crate::forest::{
    acyclic, grow_branches, linked, lemma_acyclic_insert_fresh, lemma_acyclic_move,
    lemma_acyclic_shrink, lemma_add_linked, lemma_move_linked, lemma_scrub_frame,
    lemma_scrub_linked, lemma_walk_more_fuel, move_outcome, reparent_branches, scrub, scrub_inv,
    scrub_list, scrub_one, walk, MoveOutcome, Walk,
};
use crate::id::Uid;
use crate::node::{remove_all, NO_PARENT_ID};
use crate::purge::Purge;

verus! {

#[derive(PartialEq, Debug)]
pub enum Error {
    NotFound(Uid),
    NotAllowed,
}

/// An encrypted node of the forest.  The server never inspects `content`.
#[derive(PartialEq, Debug)]
pub struct LockedNode {
    pub id: Uid,
    pub parent_id: Uid,
    pub content: Encrypted,
    pub dirty: bool,
}

/// The mathematical content of a [`LockedNode`].
#[verifier::ext_equal]
pub struct NodeView {
    pub id: u64,
    pub parent_id: u64,
    pub content: crate::encrypted::EncryptedView,
    pub dirty: bool,
}

impl View for LockedNode {
    type V = NodeView;

    open spec fn view(&self) -> NodeView {
        NodeView {
            id: self.id.0,
            parent_id: self.parent_id.0,
            content: self.content@,
            dirty: self.dirty,
        }
    }
}

impl Clone for LockedNode {
    fn clone(&self) -> (r: Self)
        ensures
            r@ == self@,
    {
        let r = LockedNode {
            id: self.id,
            parent_id: self.parent_id,
            content: self.content.clone(),
            dirty: self.dirty,
        };
        proof {
            assert(r@ =~= self@);
        }
        r
    }
}

/// The identifiers of a list of [`Uid`]s, as bare integers.
pub open spec fn uids_of(s: Seq<Uid>) -> Seq<u64> {
    Seq::new(s.len(), |i: int| s[i].0)
}

/// The parent map a node map induces.
pub open spec fn pm_of(m: Map<u64, LockedNode>) -> Map<u64, u64> {
    Map::new(|k: u64| m.dom().contains(k), |k: u64| m[k].parent_id.0)
}

/// The child-list map a branches map induces.
pub open spec fn br_of(b: Map<u64, Vec<u64>>) -> Map<u64, Seq<u64>> {
    Map::new(|k: u64| b.dom().contains(k), |k: u64| b[k]@)
}

/// What adding one node does: a fresh identifier is inserted and recorded
/// under its parent; a duplicate changes nothing.
pub open spec fn add_node_spec(
    m: Map<u64, LockedNode>,
    br: Map<u64, Seq<u64>>,
    n: LockedNode,
) -> (Map<u64, LockedNode>, Map<u64, Seq<u64>>) {
    if m.dom().contains(n.id.0) {
        (m, br)
    } else {
        (m.insert(n.id.0, n), grow_branches(br, n.parent_id.0, n.id.0))
    }
}

/// What adding a batch of nodes does, in order.
pub open spec fn add_nodes_spec(
    m: Map<u64, LockedNode>,
    br: Map<u64, Seq<u64>>,
    s: Seq<LockedNode>,
) -> (Map<u64, LockedNode>, Map<u64, Seq<u64>>)
    decreases s.len(),
{
    if s.len() == 0 {
        (m, br)
    } else {
        let first = add_node_spec(m, br, s[0]);
        add_nodes_spec(first.0, first.1, s.drop_first())
    }
}

pub struct Nodes {
    /// parent id -> child ids, in insertion order
    pub branches: HashMap<u64, Vec<u64>>,
    /// node id -> node
    pub nodes: HashMap<u64, LockedNode>,
    /// the live node ids, in insertion order
    pub order: Vec<u64>,
}

impl Nodes {
    /// The parent map of the store.
    pub open spec fn pm(&self) -> Map<u64, u64> {
        pm_of(self.nodes@)
    }

    /// The branches index of the store.
    pub open spec fn br(&self) -> Map<u64, Seq<u64>> {
        br_of(self.branches@)
    }

    /// Well-formedness: the branches index mirrors the parent map, every
    /// node sits under its own identifier, and the insertion-order list
    /// names each live node exactly once.
    pub open spec fn inv(&self) -> bool {
        &&& linked(self.pm(), self.br())
        &&& forall|k: u64| #[trigger]
            self.nodes@.dom().contains(k) ==> self.nodes@[k].id.0 == k
        &&& self.order@.no_duplicates()
        &&& self.order@.to_set() == self.nodes@.dom()
    }

    /// No node reaches itself by repeated parent-id following.
    pub open spec fn is_acyclic(&self) -> bool {
        acyclic(self.pm())
    }

    proof fn lemma_pm_dom(&self)
        ensures
            self.pm().dom() =~= self.nodes@.dom(),
            self.pm().dom().finite(),
            self.pm().dom().len() == self.nodes@.dom().len(),
    {
        assert(self.pm().dom() =~= self.nodes@.dom());
    }

    /// Inserts a node and records it in its parent's child list.  Insertion
    /// is create-only: a duplicate identifier leaves the store unchanged.
    pub fn add(&mut self, node: LockedNode)
        requires
            old(self).inv(),
        ensures
            final(self).inv(),
            old(self).nodes@.dom().contains(node.id.0) ==> *final(self) == *old(self),
            !old(self).nodes@.dom().contains(node.id.0) ==> {
                &&& final(self).nodes@ == old(self).nodes@.insert(node.id.0, node)
                &&& final(self).br() == grow_branches(old(self).br(), node.parent_id.0, node.id.0)
                &&& final(self).order@ == old(self).order@.push(node.id.0)
            },
            old(self).is_acyclic() && node.parent_id.0 != node.id.0 && (forall|k: u64|
                old(self).pm().dom().contains(k) ==> old(self).pm()[k]
                    != node.id.0) ==> final(self).is_acyclic(),
    {
        let id = node.id.0;
        let parent = node.parent_id.0;
        if self.nodes.contains_key(&id) {
            return ;
        }
        let ghost pm0 = self.pm();
        let ghost br0 = self.br();
        self.nodes.insert(id, node);
        self.order.push(id);
        let mut list = match self.branches.remove(&parent) {
            Some(l) => l,
            None => Vec::new(),
        };
        list.push(id);
        self.branches.insert(parent, list);
        proof {
            broadcast use vstd::seq_lib::group_seq_properties;

            assert(self.pm() =~= pm0.insert(id, parent));
            assert(self.br() =~= grow_branches(br0, parent, id));
            lemma_add_linked(pm0, br0, id, parent);
            assert(linked(self.pm(), self.br()));
            assert(self.order@.to_set() =~= self.nodes@.dom());
            assert(self.order@.no_duplicates()) by {
                let o = self.order@;
                assert(o == old(self).order@.push(id));
                assert(!old(self).order@.contains(id));
                assert forall|i: int, j: int|
                    0 <= i < o.len() && 0 <= j < o.len() && i != j implies o[i] != o[j] by {
                    if i == o.len() - 1 {
                        assert(old(self).order@.contains(o[j])) by {
                            assert(o[j] == old(self).order@[j]);
                        }
                    } else if j == o.len() - 1 {
                        assert(old(self).order@.contains(o[i])) by {
                            assert(o[i] == old(self).order@[i]);
                        }
                    } else {
                        assert(o[i] == old(self).order@[i] && o[j] == old(self).order@[j]);
                    }
                }
            }
            if old(self).is_acyclic() && node.parent_id.0 != node.id.0 && (forall|k: u64|
                pm0.dom().contains(k) ==> pm0[k] != node.id.0) {
                lemma_acyclic_insert_fresh(pm0, id, parent);
            }
        }
    }

    /// Inserts each node of a batch in order, with `add`'s create-only
    /// rule.
    pub fn add_all(&mut self, batch: Vec<LockedNode>)
        requires
            old(self).inv(),
        ensures
            final(self).inv(),
            ({
                let a = add_nodes_spec(old(self).nodes@, old(self).br(), batch@);
                &&& final(self).nodes@ == a.0
                &&& final(self).br() == a.1
            }),
    {
        let ghost m0 = self.nodes@;
        let ghost b0 = self.br();
        let ghost all = batch@;
        let mut rest = batch;
        while rest.len() > 0
            invariant
                self.inv(),
                add_nodes_spec(m0, b0, all) == add_nodes_spec(self.nodes@, self.br(), rest@),
            decreases rest@.len(),
        {
            let ghost pre_m = self.nodes@;
            let ghost pre_b = self.br();
            let ghost pre_rest = rest@;
            let node = rest.remove(0);
            proof {
                assert(rest@ =~= pre_rest.drop_first());
                assert(node == pre_rest[0]);
            }
            self.add(node);
        }
        proof {
            assert(rest@.len() == 0);
        }
    }

    /// Whether a node with this identifier is live.
    pub fn contains_node(&self, id: Uid) -> (r: bool)
        ensures
            r == self.nodes@.dom().contains(id.0),
    {
        self.nodes.contains_key(&id.0)
    }

    /// The child list recorded under a parent, if any.
    pub fn children_of(&self, parent: Uid) -> (r: Option<Vec<u64>>)
        ensures
            match r {
                Some(v) => self.br().dom().contains(parent.0) && v@ == self.br()[parent.0],
                None => !self.br().dom().contains(parent.0),
            },
    {
        match self.branches.get(&parent.0) {
            Some(l) => {
                let c = l.clone();
                proof {
                    assert(c@ =~= self.br()[parent.0]);
                }
                Some(c)
            },
            None => None,
        }
    }

    /// Snapshot of all nodes, in insertion order.
    pub fn get_all(&self) -> (r: Vec<LockedNode>)
        requires
            self.inv(),
        ensures
            r@.len() == self.nodes@.dom().len(),
            forall|i: int|
                0 <= i < r@.len() ==> self.nodes@.dom().contains(#[trigger] r@[i].id.0)
                    && r@[i]@ == self.nodes@[r@[i].id.0]@,
            forall|k: u64| #[trigger]
                self.nodes@.dom().contains(k) ==> exists|i: int|
                    0 <= i < r@.len() && r@[i].id.0 == k,
    {
        broadcast use vstd::seq_lib::group_seq_properties;

        let mut r: Vec<LockedNode> = Vec::new();
        let n = self.order.len();
        let mut i: usize = 0;
        while i < n
            invariant
                self.inv(),
                n == self.order@.len(),
                i <= n,
                r@.len() == i,
                forall|j: int| 0 <= j < i ==> (#[trigger] r@[j]).id.0 == self.order@[j],
                forall|j: int|
                    0 <= j < i ==> self.nodes@.dom().contains(#[trigger] r@[j].id.0) && r@[j]@
                        == self.nodes@[r@[j].id.0]@,
            decreases n - i,
        {
            let key = self.order[i];
            proof {
                assert(self.order@.contains(key)) by {
                    assert(self.order@[i as int] == key);
                }
                assert(self.nodes@.dom().contains(key));
            }
            match self.nodes.get(&key) {
                Some(node) => {
                    let c = node.clone();
                    proof {
                        assert(c.id.0 == key);
                    }
                    r.push(c);
                },
                None => {
                    // the order list names live nodes only
                },
            }
            i = i + 1;
        }
        proof {
            self.order@.unique_seq_to_set();
            assert(r@.len() == self.nodes@.dom().len());
            assert forall|k: u64| #[trigger] self.nodes@.dom().contains(k) implies exists|j: int|
                0 <= j < r@.len() && r@[j].id.0 == k by {
                assert(self.order@.to_set().contains(k));
                assert(self.order@.contains(k));
                let j = choose|j: int| 0 <= j < self.order@.len() && self.order@[j] == k;
                assert(r@[j].id.0 == k);
            }
        }
        r
    }

    /// Reparents one node.  The ancestors of the new parent are walked to
    /// the top of the hierarchy first: a move that would detach the node,
    /// close a cycle, or re-attach it where it already sits is refused, and
    /// a walk through a missing node reports which identifier was missing.
    #[verifier::rlimit(50)]
    pub fn move_to(&mut self, id: Uid, new_parent: Uid) -> (r: Result<(), Error>)
        requires
            old(self).inv(),
        ensures
            final(self).inv(),
            final(self).order@ == old(self).order@,
            match move_outcome(old(self).pm(), id.0, new_parent.0) {
                MoveOutcome::Moved => {
                    &&& r == Ok::<(), Error>(())
                    &&& final(self).nodes@ == old(self).nodes@.insert(
                        id.0,
                        LockedNode { parent_id: new_parent, ..old(self).nodes@[id.0] },
                    )
                    &&& final(self).br() == reparent_branches(
                        old(self).br(),
                        old(self).pm()[id.0],
                        new_parent.0,
                        id.0,
                    )
                },
                MoveOutcome::NotAllowed => {
                    &&& r == Err::<(), Error>(Error::NotAllowed)
                    &&& final(self).nodes@ == old(self).nodes@
                    &&& final(self).br() == old(self).br()
                },
                MoveOutcome::NotFound(m) => {
                    &&& r == Err::<(), Error>(Error::NotFound(Uid(m)))
                    &&& final(self).nodes@ == old(self).nodes@
                    &&& final(self).br() == old(self).br()
                },
            },
            old(self).is_acyclic() ==> final(self).is_acyclic(),
    {
        let idu = id.0;
        let npu = new_parent.0;
        let ghost pm0 = self.pm();
        let ghost br0 = self.br();
        proof {
            self.lemma_pm_dom();
        }

        // only one root is allowed: nothing may be detached to the top
        if npu == NO_PARENT_ID {
            return Err(Error::NotAllowed);
        }

        // walk the ancestors of the new parent up to the top of the
        // hierarchy, spending one unit of fuel per live node
        let mut current: u64 = npu;
        let mut fuel: usize = self.nodes.len();
        let ghost total = pm0.dom().len();
        let ghost mut steps: nat = 0nat;
        while current != NO_PARENT_ID
            invariant
                self.inv(),
                *self == *old(self),
                idu == id.0,
                npu == new_parent.0,
                pm0 == self.pm(),
                total == pm0.dom().len(),
                steps + fuel == total,
                npu != NO_PARENT_ID,
                forall|f: nat| walk(pm0, npu, idu, steps + f) == walk(pm0, current, idu, f),
            decreases fuel,
        {
            if current == idu {
                proof {
                    assert(walk(pm0, current, idu, 0nat) == Walk::Hit);
                    assert(walk(pm0, npu, idu, steps) == Walk::Hit);
                    lemma_walk_more_fuel(pm0, npu, idu, steps, total);
                }
                return Err(Error::NotAllowed);
            }
            match self.nodes.get(&current) {
                None => {
                    proof {
                        assert(!pm0.dom().contains(current));
                        assert(walk(pm0, current, idu, 0nat) == Walk::Missing);
                        assert(walk(pm0, npu, idu, steps) == Walk::Missing);
                        lemma_walk_more_fuel(pm0, npu, idu, steps, total);
                    }
                    return Err(Error::NotFound(new_parent));
                },
                Some(node) => {
                    if fuel == 0 {
                        proof {
                            assert(steps == total);
                            assert(walk(pm0, current, idu, 0nat) == Walk::GaveUp);
                            assert(walk(pm0, npu, idu, total) == Walk::GaveUp);
                        }
                        return Err(Error::NotAllowed);
                    }
                    proof {
                        assert(pm0.dom().contains(current));
                        assert(pm0[current] == node.parent_id.0);
                        assert forall|f: nat|
                            walk(pm0, npu, idu, steps + 1 + f) == walk(
                                pm0,
                                node.parent_id.0,
                                idu,
                                f,
                            ) by {
                            assert(walk(pm0, npu, idu, steps + (f + 1)) == walk(
                                pm0,
                                current,
                                idu,
                                f + 1,
                            ));
                            assert(walk(pm0, current, idu, f + 1) == walk(
                                pm0,
                                pm0[current],
                                idu,
                                f,
                            ));
                        }
                    }
                    fuel = fuel - 1;
                    proof {
                        steps = steps + 1;
                    }
                    current = node.parent_id.0;
                },
            }
        }
        proof {
            assert(walk(pm0, current, idu, (total - steps) as nat) == Walk::Root);
            assert(walk(pm0, npu, idu, total) == Walk::Root);
        }

        // the hierarchy above the new parent is sound: perform the move if
        // the node exists and is not already in place
        match self.nodes.remove(&idu) {
            None => {
                proof {
                    assert(!pm0.dom().contains(idu));
                    assert(self.nodes@ =~= old(self).nodes@);
                }
                Err(Error::NotFound(id))
            },
            Some(node) => {
                if node.parent_id.0 == npu {
                    self.nodes.insert(idu, node);
                    proof {
                        assert(self.nodes@ =~= old(self).nodes@);
                        assert(self.br() =~= br0);
                    }
                    Err(Error::NotAllowed)
                } else {
                    let oldp = node.parent_id.0;
                    proof {
                        assert(pm0.dom().contains(idu));
                        assert(pm0[idu] == oldp);
                    }
                    match self.branches.remove(&oldp) {
                        Some(mut l) => {
                            remove_all(&mut l, idu);
                            self.branches.insert(oldp, l);
                        },
                        None => {},
                    }
                    let moved = LockedNode {
                        id: node.id,
                        parent_id: new_parent,
                        content: node.content,
                        dirty: node.dirty,
                    };
                    self.nodes.insert(idu, moved);
                    let mut nl = match self.branches.remove(&npu) {
                        Some(l) => l,
                        None => Vec::new(),
                    };
                    nl.push(idu);
                    self.branches.insert(npu, nl);
                    proof {
                        assert(self.nodes@ =~= old(self).nodes@.insert(
                            idu,
                            LockedNode { parent_id: new_parent, ..old(self).nodes@[idu] },
                        ));
                        assert(self.pm() =~= pm0.insert(idu, npu));
                        assert(self.br() =~= reparent_branches(br0, oldp, npu, idu));
                        lemma_move_linked(pm0, br0, idu, npu);
                        assert(linked(self.pm(), self.br()));
                        assert(self.order@.to_set() =~= self.nodes@.dom());
                        if acyclic(pm0) {
                            lemma_acyclic_move(pm0, idu, npu, total);
                        }
                    }
                    Ok(())
                }
            },
        }
    }

    /// Removes a node and every transitive descendant reachable through the
    /// branches index, returning the deleted identifiers in pre-order:
    /// each node before its children, siblings in insertion order.  A
    /// missing identifier deletes nothing.
    pub fn delete(&mut self, id: Uid) -> (r: Vec<Uid>)
        requires
            old(self).inv(),
        ensures
            final(self).inv(),
            ({
                let rr = scrub_one(old(self).pm(), old(self).br(), id.0);
                &&& final(self).pm() == rr.0
                &&& final(self).br() == rr.1
                &&& uids_of(r@) == rr.2
                &&& final(self).nodes@.dom() == old(self).nodes@.dom().difference(rr.2.to_set())
                &&& forall|k: u64| #[trigger]
                    final(self).nodes@.dom().contains(k) ==> final(self).nodes@[k] == old(
                        self,
                    ).nodes@[k]
            }),
            old(self).is_acyclic() ==> final(self).is_acyclic(),
    {
        let mut out: Vec<Uid> = Vec::new();
        let mut stack: Vec<u64> = Vec::new();
        stack.push(id.0);
        let ghost pm0 = self.pm();
        let ghost br0 = self.br();
        proof {
            self.lemma_pm_dom();
            assert(stack@ =~= seq![id.0]);
            assert(uids_of(out@) + scrub(self.pm(), self.br(), stack@).2 =~= scrub(
                pm0,
                br0,
                seq![id.0],
            ).2);
        }
        while stack.len() > 0
            invariant
                scrub_inv(self.pm(), self.br(), stack@),
                forall|k: u64| #[trigger]
                    self.nodes@.dom().contains(k) ==> self.nodes@[k].id.0 == k,
                self.order@.no_duplicates(),
                self.order@.to_set() == self.nodes@.dom(),
                self.nodes@.dom().subset_of(old(self).nodes@.dom()),
                forall|k: u64| #[trigger]
                    self.nodes@.dom().contains(k) ==> self.nodes@[k] == old(self).nodes@[k],
                ({
                    let rec = scrub(self.pm(), self.br(), stack@);
                    &&& scrub_one(pm0, br0, id.0).0 == rec.0
                    &&& scrub_one(pm0, br0, id.0).1 == rec.1
                    &&& scrub_one(pm0, br0, id.0).2 == uids_of(out@) + rec.2
                }),
            decreases self.nodes@.dom().len(), stack@.len(),
        {
            broadcast use vstd::seq_lib::group_seq_properties;

            let ghost pre_nodes = self.nodes@;
            let ghost pre_pm = self.pm();
            let ghost pre_br = self.br();
            let ghost pre_stack = stack@;
            proof {
                self.lemma_pm_dom();
            }
            let cur = stack.remove(0);
            proof {
                assert(stack@ =~= pre_stack.drop_first());
            }
            match self.nodes.remove(&cur) {
                None => {
                    proof {
                        assert(!pre_pm.dom().contains(cur));
                        assert(self.nodes@ =~= pre_nodes);
                        assert(self.pm() =~= pre_pm);
                        crate::forest::lemma_scrub_inv_skip(pre_pm, pre_br, pre_stack);
                        assert(scrub(pre_pm, pre_br, pre_stack) == scrub(
                            pre_pm,
                            pre_br,
                            pre_stack.drop_first(),
                        ));
                    }
                },
                Some(node) => {
                    let ghost pre_order = self.order@;
                    let ghost pre_out = out@;
                    let parent = node.parent_id.0;
                    proof {
                        assert(pre_pm.dom().contains(cur));
                        assert(pre_pm[cur] == parent);
                        assert(self.pm() =~= pre_pm.remove(cur));
                    }
                    let ghost pm1g = self.pm();
                    out.push(Uid(cur));
                    remove_all(&mut self.order, cur);
                    match self.branches.remove(&parent) {
                        Some(mut l) => {
                            remove_all(&mut l, cur);
                            self.branches.insert(parent, l);
                        },
                        None => {},
                    }
                    proof {
                        assert(self.br() =~= (if pre_br.dom().contains(parent) {
                            pre_br.insert(parent, crate::forest::strike(pre_br[parent], cur))
                        } else {
                            pre_br
                        }));
                    }
                    let ghost br1g = self.br();
                    let kids = match self.branches.remove(&cur) {
                        Some(k) => k,
                        None => Vec::new(),
                    };
                    proof {
                        assert(self.br() =~= br1g.remove(cur));
                        assert(kids@ == (if br1g.dom().contains(cur) {
                            br1g[cur]
                        } else {
                            Seq::<u64>::empty()
                        }));
                    }
                    let ghost kids_view = kids@;
                    let mut newstack = kids;
                    newstack.append(&mut stack);
                    stack = newstack;
                    proof {
                        broadcast use vstd::seq_lib::group_seq_properties;

                        crate::forest::lemma_scrub_inv_step(pre_pm, pre_br, pre_stack);
                        // the store now matches one unfolding of the pass
                        assert(stack@ =~= kids_view + pre_stack.drop_first());
                        assert(uids_of(out@) =~= uids_of(pre_out) + seq![cur]);
                        let rec = scrub(pm1g, self.br(), stack@);
                        assert(scrub(pre_pm, pre_br, pre_stack) == (
                            rec.0,
                            rec.1,
                            seq![cur] + rec.2,
                        ));
                        assert(uids_of(pre_out) + (seq![cur] + rec.2) =~= uids_of(out@) + rec.2);
                        // order-list bookkeeping
                        crate::forest::lemma_strike_no_dup(pre_order, cur);
                        crate::forest::lemma_strike_to_set(pre_order, cur);
                        assert(self.order@.to_set() =~= self.nodes@.dom());
                    }
                },
            }
        }
        proof {
            assert(stack@.len() == 0);
            self.lemma_pm_dom();
            assert(scrub(self.pm(), self.br(), stack@) == (self.pm(), self.br(), Seq::<
                u64,
            >::empty()));
            assert(uids_of(out@) + Seq::<u64>::empty() =~= uids_of(out@));
            lemma_scrub_frame(pm0, br0, seq![id.0]);
            lemma_scrub_linked(pm0, br0, seq![id.0]);
            let rr = scrub_one(pm0, br0, id.0);
            assert(self.nodes@.dom() =~= old(self).nodes@.dom().difference(rr.2.to_set()));
            if acyclic(pm0) {
                lemma_acyclic_shrink(self.pm(), pm0);
            }
        }
        out
    }

    /// Recursive deletion of each identifier in the list; the outputs are
    /// concatenated, and—because a deleted node can never be deleted
    /// again—carry no duplicate.
    pub fn delete_list(&mut self, ids: &[Uid]) -> (r: Vec<Uid>)
        requires
            old(self).inv(),
        ensures
            final(self).inv(),
            ({
                let rr = scrub_list(old(self).pm(), old(self).br(), uids_of(ids@));
                &&& final(self).pm() == rr.0
                &&& final(self).br() == rr.1
                &&& uids_of(r@) == rr.2
            }),
            old(self).is_acyclic() ==> final(self).is_acyclic(),
    {
        let ghost pm0 = self.pm();
        let ghost br0 = self.br();
        let mut out: Vec<Uid> = Vec::new();
        let n = ids.len();
        let mut i: usize = 0;
        proof {
            self.lemma_pm_dom();
            assert(uids_of(ids@).skip(0) =~= uids_of(ids@));
        }
        while i < n
            invariant
                self.inv(),
                n == ids@.len(),
                i <= n,
                self.nodes@.dom().subset_of(old(self).nodes@.dom()),
                ({
                    let rec = scrub_list(self.pm(), self.br(), uids_of(ids@).skip(i as int));
                    let rr = scrub_list(pm0, br0, uids_of(ids@));
                    &&& rr.0 == rec.0
                    &&& rr.1 == rec.1
                    &&& rr.2 == uids_of(out@) + rec.2
                }),
                old(self).is_acyclic() ==> self.is_acyclic(),
            decreases n - i,
        {
            let ghost pre_pm = self.pm();
            let ghost pre_br = self.br();
            let ghost pre_out = out@;
            let mut piece = self.delete(ids[i]);
            let ghost piece_view = piece@;
            out.append(&mut piece);
            i = i + 1;
            proof {
                let l = uids_of(ids@);
                assert(l.skip(i - 1)[0] == l[i - 1]);
                assert(l[i - 1] == ids@[i - 1].0);
                assert(l.skip(i - 1).drop_first() =~= l.skip(i as int));
                let one = scrub_one(pre_pm, pre_br, ids@[i - 1].0);
                assert(scrub_list(pre_pm, pre_br, l.skip(i - 1)) == {
                    let rest = scrub_list(one.0, one.1, l.skip(i as int));
                    (rest.0, rest.1, one.2 + rest.2)
                });
                assert(uids_of(out@) =~= uids_of(pre_out) + uids_of(piece_view));
                let rec = scrub_list(self.pm(), self.br(), l.skip(i as int));
                assert(uids_of(pre_out) + (one.2 + rec.2) =~= uids_of(out@) + rec.2);
            }
        }
        proof {
            assert(uids_of(ids@).skip(n as int) =~= Seq::<u64>::empty());
            assert(uids_of(out@) + Seq::<u64>::empty() =~= uids_of(out@));
        }
        out
    }
}

/// What `delete` returns is exactly the subtree of the identifier, in
/// pre-order: the identifier comes first, every other deleted node hangs
/// under a deleted node listed earlier (each parent before its children),
/// every live child of a deleted node is deleted — and running the same
/// deletion again yields nothing.
pub proof fn lemma_delete_is_subtree(n: Nodes, id: Uid)
    requires
        n.inv(),
        n.nodes@.dom().finite(),
    ensures
        ({
            let r = scrub_one(n.pm(), n.br(), id.0);
            &&& forall|j: int|
                0 <= j < r.2.len() ==> r.2[j] == id.0 || (n.pm().dom().contains(#[trigger] r.2[j])
                    && exists|k: int| 0 <= k < j && r.2[k] == n.pm()[r.2[j]])
            &&& forall|c: u64|
                n.pm().dom().contains(c) && r.2.contains(#[trigger] n.pm()[c]) ==> r.2.contains(c)
            &&& n.pm().dom().contains(id.0) ==> r.2.len() > 0 && r.2[0] == id.0
            &&& crate::forest::scrub_one(r.0, r.1, id.0).2 == Seq::<u64>::empty()
        }),
{
    assert(n.pm().dom() =~= n.nodes@.dom());
    crate::forest::lemma_scrub_one_descendants(n.pm(), n.br(), id.0);
    crate::forest::lemma_scrub_one_twice(n.pm(), n.br(), id.0);
}

/// Adding a batch of roots keeps the forest acyclic: each inserted node's
/// chain ends at once.
pub proof fn lemma_add_roots_acyclic(
    m: Map<u64, LockedNode>,
    br: Map<u64, Seq<u64>>,
    roots: Seq<LockedNode>,
)
    requires
        acyclic(pm_of(m)),
        forall|j: int|
            0 <= j < roots.len() ==> crate::node::is_root_entry(#[trigger] roots[j]@.parent_id),
    ensures
        acyclic(pm_of(add_nodes_spec(m, br, roots).0)),
    decreases roots.len(),
{
    if roots.len() > 0 {
        let first = add_node_spec(m, br, roots[0]);
        assert(crate::node::is_root_entry(roots[0]@.parent_id));
        if m.dom().contains(roots[0].id.0) {
            assert(first.0 == m);
        } else {
            assert(roots[0].parent_id.0 == crate::node::NO_PARENT_ID);
            assert(pm_of(first.0) =~= pm_of(m).insert(
                roots[0].id.0,
                crate::node::NO_PARENT_ID,
            ));
            crate::forest::lemma_acyclic_insert_root(pm_of(m), roots[0].id.0);
        }
        assert(forall|j: int|
            0 <= j < roots.drop_first().len() ==> crate::node::is_root_entry(
                #[trigger] roots.drop_first()[j]@.parent_id,
            ));
        lemma_add_roots_acyclic(first.0, first.1, roots.drop_first());
    }
}

impl Purge for Nodes {
    open spec fn pristine(&self) -> bool {
        &&& self.nodes@ == Map::<u64, LockedNode>::empty()
        &&& self.branches@ == Map::<u64, Vec<u64>>::empty()
        &&& self.order@ == Seq::<u64>::empty()
        &&& self.inv()
        &&& self.is_acyclic()
    }

    fn new() -> (r: Self) {
        let r = Nodes { branches: HashMap::new(), nodes: HashMap::new(), order: Vec::new() };
        proof {
            assert(r.order@.to_set() =~= r.nodes@.dom());
        }
        r
    }

    fn purge(&mut self) {
        self.branches = HashMap::new();
        self.nodes = HashMap::new();
        self.order = Vec::new();
        proof {
            assert(self.order@.to_set() =~= self.nodes@.dom());
        }
    }
}

impl Clone for Nodes {
    fn clone(&self) -> (r: Self)
        ensures
            r.nodes@ == self.nodes@,
            r.branches@ == self.branches@,
            r.order@ == self.order@,
    {
        let r = Nodes {
            branches: self.branches.clone(),
            nodes: self.nodes.clone(),
            order: self.order.clone(),
        };
        proof {
            assert(r.order@ =~= self.order@);
        }
        r
    }
}

} // verus!
