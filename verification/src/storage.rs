//! The historical flat node store: bare 64-bit identifiers, opaque byte
//! payloads, and the same forest discipline as the current store.

use vstd::prelude::*;

use std::collections::HashMap;

use crate::forest::{
    acyclic, grow_branches, linked, lemma_acyclic_insert_fresh, lemma_acyclic_move,
    lemma_acyclic_shrink, lemma_add_linked, lemma_move_linked, lemma_scrub_frame,
    lemma_scrub_linked, lemma_walk_more_fuel, move_outcome, reparent_branches, scrub, scrub_inv,
    scrub_one, walk, MoveOutcome, Walk,
};
use crate::node::{remove_all, LockedNode, NO_PARENT_ID};

verus! {

#[derive(PartialEq, Debug)]
pub enum Error {
    NotFound(u64),
    NotAllowed,
}

/// The parent map a raw node map induces.
pub open spec fn raw_pm_of(m: Map<u64, LockedNode>) -> Map<u64, u64> {
    Map::new(|k: u64| m.dom().contains(k), |k: u64| m[k].parent_id)
}

/// The child-list map a branches map induces.
pub open spec fn raw_br_of(b: Map<u64, Vec<u64>>) -> Map<u64, Seq<u64>> {
    Map::new(|k: u64| b.dom().contains(k), |k: u64| b[k]@)
}

pub struct Storage {
    /// parent id -> child ids, in insertion order
    pub branches: HashMap<u64, Vec<u64>>,
    /// node id -> node
    pub nodes: HashMap<u64, LockedNode>,
    /// the live node ids, in insertion order
    pub order: Vec<u64>,
}

impl Storage {
    /// The parent map of the store.
    pub open spec fn pm(&self) -> Map<u64, u64> {
        raw_pm_of(self.nodes@)
    }

    /// The branches index of the store.
    pub open spec fn br(&self) -> Map<u64, Seq<u64>> {
        raw_br_of(self.branches@)
    }

    /// Well-formedness: the branches index mirrors the parent map, every
    /// node sits under its own identifier, and the insertion-order list
    /// names each live node exactly once.
    pub open spec fn inv(&self) -> bool {
        &&& linked(self.pm(), self.br())
        &&& forall|k: u64| #[trigger] self.nodes@.dom().contains(k) ==> self.nodes@[k].id == k
        &&& self.order@.no_duplicates()
        &&& self.order@.to_set() == self.nodes@.dom()
    }

    /// No node reaches itself by repeated parent-id following.
    pub open spec fn is_acyclic(&self) -> bool {
        acyclic(self.pm())
    }

    proof fn lemma_pm_dom(&self)
        ensures
            self.pm().dom() =~= self.nodes@.dom(),
            self.pm().dom().finite(),
            self.pm().dom().len() == self.nodes@.dom().len(),
    {
        assert(self.pm().dom() =~= self.nodes@.dom());
    }

    /// An empty store.
    pub fn new() -> (r: Self)
        ensures
            r.nodes@ == Map::<u64, LockedNode>::empty(),
            r.branches@ == Map::<u64, Vec<u64>>::empty(),
            r.inv(),
            r.is_acyclic(),
    {
        let r = Storage { branches: HashMap::new(), nodes: HashMap::new(), order: Vec::new() };
        proof {
            assert(r.order@.to_set() =~= r.nodes@.dom());
        }
        r
    }

    /// Empties the store.
    pub fn purge(&mut self)
        ensures
            final(self).nodes@ == Map::<u64, LockedNode>::empty(),
            final(self).branches@ == Map::<u64, Vec<u64>>::empty(),
            final(self).inv(),
            final(self).is_acyclic(),
    {
        self.nodes = HashMap::new();
        self.branches = HashMap::new();
        self.order = Vec::new();
        proof {
            assert(self.order@.to_set() =~= self.nodes@.dom());
        }
    }

    /// Inserts a node and records it in its parent's child list.  Insertion
    /// is create-only: a duplicate identifier leaves the store unchanged.
    pub fn add(&mut self, node: LockedNode)
        requires
            old(self).inv(),
        ensures
            final(self).inv(),
            old(self).nodes@.dom().contains(node.id) ==> *final(self) == *old(self),
            !old(self).nodes@.dom().contains(node.id) ==> {
                &&& final(self).nodes@ == old(self).nodes@.insert(node.id, node)
                &&& final(self).br() == grow_branches(old(self).br(), node.parent_id, node.id)
            },
            old(self).is_acyclic() && node.parent_id != node.id && (forall|k: u64|
                old(self).pm().dom().contains(k) ==> old(self).pm()[k]
                    != node.id) ==> final(self).is_acyclic(),
    {
        let id = node.id;
        let parent = node.parent_id;
        if self.nodes.contains_key(&id) {
            return ;
        }
        let ghost pm0 = self.pm();
        let ghost br0 = self.br();
        self.nodes.insert(id, node);
        self.order.push(id);
        let mut list = match self.branches.remove(&parent) {
            Some(l) => l,
            None => Vec::new(),
        };
        list.push(id);
        self.branches.insert(parent, list);
        proof {
            broadcast use vstd::seq_lib::group_seq_properties;

            assert(self.pm() =~= pm0.insert(id, parent));
            assert(self.br() =~= grow_branches(br0, parent, id));
            lemma_add_linked(pm0, br0, id, parent);
            assert(linked(self.pm(), self.br()));
            assert(self.order@.to_set() =~= self.nodes@.dom());
            assert(self.order@.no_duplicates()) by {
                let o = self.order@;
                assert(o == old(self).order@.push(id));
                assert(!old(self).order@.contains(id));
                assert forall|i: int, j: int|
                    0 <= i < o.len() && 0 <= j < o.len() && i != j implies o[i] != o[j] by {
                    if i == o.len() - 1 {
                        assert(old(self).order@.contains(o[j])) by {
                            assert(o[j] == old(self).order@[j]);
                        }
                    } else if j == o.len() - 1 {
                        assert(old(self).order@.contains(o[i])) by {
                            assert(o[i] == old(self).order@[i]);
                        }
                    } else {
                        assert(o[i] == old(self).order@[i] && o[j] == old(self).order@[j]);
                    }
                }
            }
            if old(self).is_acyclic() && node.parent_id != node.id && (forall|k: u64|
                pm0.dom().contains(k) ==> pm0[k] != node.id) {
                lemma_acyclic_insert_fresh(pm0, id, parent);
            }
        }
    }

    /// Whether a node with this identifier is live.
    pub fn contains_node(&self, id: u64) -> (r: bool)
        ensures
            r == self.nodes@.dom().contains(id),
    {
        self.nodes.contains_key(&id)
    }

    /// The child list recorded under a parent, if any.
    pub fn children_of(&self, parent: u64) -> (r: Option<Vec<u64>>)
        ensures
            match r {
                Some(v) => self.br().dom().contains(parent) && v@ == self.br()[parent],
                None => !self.br().dom().contains(parent),
            },
    {
        match self.branches.get(&parent) {
            Some(l) => {
                let c = l.clone();
                proof {
                    assert(c@ =~= self.br()[parent]);
                }
                Some(c)
            },
            None => None,
        }
    }

    /// Snapshot of all nodes, in insertion order.
    pub fn get_all(&self) -> (r: Vec<LockedNode>)
        requires
            self.inv(),
        ensures
            r@.len() == self.nodes@.dom().len(),
            forall|i: int|
                0 <= i < r@.len() ==> self.nodes@.dom().contains(#[trigger] r@[i].id) && r@[i]@
                    == self.nodes@[r@[i].id]@,
            forall|k: u64| #[trigger]
                self.nodes@.dom().contains(k) ==> exists|i: int|
                    0 <= i < r@.len() && r@[i].id == k,
    {
        broadcast use vstd::seq_lib::group_seq_properties;

        let mut r: Vec<LockedNode> = Vec::new();
        let n = self.order.len();
        let mut i: usize = 0;
        while i < n
            invariant
                self.inv(),
                n == self.order@.len(),
                i <= n,
                r@.len() == i,
                forall|j: int| 0 <= j < i ==> (#[trigger] r@[j]).id == self.order@[j],
                forall|j: int|
                    0 <= j < i ==> self.nodes@.dom().contains(#[trigger] r@[j].id) && r@[j]@
                        == self.nodes@[r@[j].id]@,
            decreases n - i,
        {
            let key = self.order[i];
            proof {
                assert(self.order@.contains(key)) by {
                    assert(self.order@[i as int] == key);
                }
                assert(self.nodes@.dom().contains(key));
            }
            match self.nodes.get(&key) {
                Some(node) => {
                    let c = node.clone();
                    proof {
                        assert(c.id == key);
                    }
                    r.push(c);
                },
                None => {
                    // the order list names live nodes only
                },
            }
            i = i + 1;
        }
        proof {
            self.order@.unique_seq_to_set();
            assert(r@.len() == self.nodes@.dom().len());
            assert forall|k: u64| #[trigger] self.nodes@.dom().contains(k) implies exists|j: int|
                0 <= j < r@.len() && r@[j].id == k by {
                assert(self.order@.to_set().contains(k));
                assert(self.order@.contains(k));
                let j = choose|j: int| 0 <= j < self.order@.len() && self.order@[j] == k;
                assert(r@[j].id == k);
            }
        }
        r
    }

    /// Reparents one node, with the same walk and rejections as the current
    /// store's `move_to`.
    #[verifier::rlimit(50)]
    pub fn move_to(&mut self, id: u64, new_parent: u64) -> (r: Result<(), Error>)
        requires
            old(self).inv(),
        ensures
            final(self).inv(),
            final(self).order@ == old(self).order@,
            match move_outcome(old(self).pm(), id, new_parent) {
                MoveOutcome::Moved => {
                    &&& r == Ok::<(), Error>(())
                    &&& final(self).nodes@ == old(self).nodes@.insert(
                        id,
                        LockedNode { parent_id: new_parent, ..old(self).nodes@[id] },
                    )
                    &&& final(self).br() == reparent_branches(
                        old(self).br(),
                        old(self).pm()[id],
                        new_parent,
                        id,
                    )
                },
                MoveOutcome::NotAllowed => {
                    &&& r == Err::<(), Error>(Error::NotAllowed)
                    &&& final(self).nodes@ == old(self).nodes@
                    &&& final(self).br() == old(self).br()
                },
                MoveOutcome::NotFound(m) => {
                    &&& r == Err::<(), Error>(Error::NotFound(m))
                    &&& final(self).nodes@ == old(self).nodes@
                    &&& final(self).br() == old(self).br()
                },
            },
            old(self).is_acyclic() ==> final(self).is_acyclic(),
    {
        let ghost pm0 = self.pm();
        let ghost br0 = self.br();
        proof {
            self.lemma_pm_dom();
        }

        // only one root is allowed: nothing may be detached to the top
        if new_parent == NO_PARENT_ID {
            return Err(Error::NotAllowed);
        }

        // walk the ancestors of the new parent up to the top of the
        // hierarchy, spending one unit of fuel per live node
        let mut current: u64 = new_parent;
        let mut fuel: usize = self.nodes.len();
        let ghost total = pm0.dom().len();
        let ghost mut steps: nat = 0nat;
        while current != NO_PARENT_ID
            invariant
                self.inv(),
                *self == *old(self),
                pm0 == self.pm(),
                total == pm0.dom().len(),
                steps + fuel == total,
                new_parent != NO_PARENT_ID,
                forall|f: nat|
                    walk(pm0, new_parent, id, steps + f) == walk(pm0, current, id, f),
            decreases fuel,
        {
            if current == id {
                proof {
                    assert(walk(pm0, current, id, 0nat) == Walk::Hit);
                    assert(walk(pm0, new_parent, id, steps) == Walk::Hit);
                    lemma_walk_more_fuel(pm0, new_parent, id, steps, total);
                }
                return Err(Error::NotAllowed);
            }
            match self.nodes.get(&current) {
                None => {
                    proof {
                        assert(!pm0.dom().contains(current));
                        assert(walk(pm0, current, id, 0nat) == Walk::Missing);
                        assert(walk(pm0, new_parent, id, steps) == Walk::Missing);
                        lemma_walk_more_fuel(pm0, new_parent, id, steps, total);
                    }
                    return Err(Error::NotFound(new_parent));
                },
                Some(node) => {
                    if fuel == 0 {
                        proof {
                            assert(steps == total);
                            assert(walk(pm0, current, id, 0nat) == Walk::GaveUp);
                            assert(walk(pm0, new_parent, id, total) == Walk::GaveUp);
                        }
                        return Err(Error::NotAllowed);
                    }
                    proof {
                        assert(pm0.dom().contains(current));
                        assert(pm0[current] == node.parent_id);
                        assert forall|f: nat|
                            walk(pm0, new_parent, id, steps + 1 + f) == walk(
                                pm0,
                                node.parent_id,
                                id,
                                f,
                            ) by {
                            assert(walk(pm0, new_parent, id, steps + (f + 1)) == walk(
                                pm0,
                                current,
                                id,
                                f + 1,
                            ));
                            assert(walk(pm0, current, id, f + 1) == walk(pm0, pm0[current], id, f));
                        }
                    }
                    fuel = fuel - 1;
                    proof {
                        steps = steps + 1;
                    }
                    current = node.parent_id;
                },
            }
        }
        proof {
            assert(walk(pm0, current, id, (total - steps) as nat) == Walk::Root);
            assert(walk(pm0, new_parent, id, total) == Walk::Root);
        }

        // the hierarchy above the new parent is sound: perform the move if
        // the node exists and is not already in place
        match self.nodes.remove(&id) {
            None => {
                proof {
                    assert(!pm0.dom().contains(id));
                    assert(self.nodes@ =~= old(self).nodes@);
                }
                Err(Error::NotFound(id))
            },
            Some(node) => {
                if node.parent_id == new_parent {
                    self.nodes.insert(id, node);
                    proof {
                        assert(self.nodes@ =~= old(self).nodes@);
                        assert(self.br() =~= br0);
                    }
                    Err(Error::NotAllowed)
                } else {
                    let oldp = node.parent_id;
                    proof {
                        assert(pm0.dom().contains(id));
                        assert(pm0[id] == oldp);
                    }
                    match self.branches.remove(&oldp) {
                        Some(mut l) => {
                            remove_all(&mut l, id);
                            self.branches.insert(oldp, l);
                        },
                        None => {},
                    }
                    let moved = LockedNode {
                        id: node.id,
                        parent_id: new_parent,
                        content: node.content,
                        dirty: node.dirty,
                    };
                    self.nodes.insert(id, moved);
                    let mut nl = match self.branches.remove(&new_parent) {
                        Some(l) => l,
                        None => Vec::new(),
                    };
                    nl.push(id);
                    self.branches.insert(new_parent, nl);
                    proof {
                        assert(self.nodes@ =~= old(self).nodes@.insert(
                            id,
                            LockedNode { parent_id: new_parent, ..old(self).nodes@[id] },
                        ));
                        assert(self.pm() =~= pm0.insert(id, new_parent));
                        assert(self.br() =~= reparent_branches(br0, oldp, new_parent, id));
                        lemma_move_linked(pm0, br0, id, new_parent);
                        assert(linked(self.pm(), self.br()));
                        assert(self.order@.to_set() =~= self.nodes@.dom());
                        if acyclic(pm0) {
                            lemma_acyclic_move(pm0, id, new_parent, total);
                        }
                    }
                    Ok(())
                }
            },
        }
    }

    /// Removes a node together with every transitive descendant reachable
    /// through the branches index; reports whether the node existed.
    pub fn remove(&mut self, id: u64) -> (r: Option<u64>)
        requires
            old(self).inv(),
        ensures
            final(self).inv(),
            ({
                let rr = scrub_one(old(self).pm(), old(self).br(), id);
                &&& final(self).pm() == rr.0
                &&& final(self).br() == rr.1
                &&& final(self).nodes@.dom() == old(self).nodes@.dom().difference(rr.2.to_set())
                &&& forall|k: u64| #[trigger]
                    final(self).nodes@.dom().contains(k) ==> final(self).nodes@[k] == old(
                        self,
                    ).nodes@[k]
            }),
            r == if old(self).nodes@.dom().contains(id) {
                Some(id)
            } else {
                Option::<u64>::None
            },
            old(self).is_acyclic() ==> final(self).is_acyclic(),
    {
        let found = self.nodes.contains_key(&id);
        let mut stack: Vec<u64> = Vec::new();
        stack.push(id);
        let ghost pm0 = self.pm();
        let ghost br0 = self.br();
        let ghost mut gone: Seq<u64> = Seq::empty();
        proof {
            self.lemma_pm_dom();
            assert(stack@ =~= seq![id]);
            assert(gone + scrub(self.pm(), self.br(), stack@).2 =~= scrub(pm0, br0, seq![id]).2);
        }
        while stack.len() > 0
            invariant
                scrub_inv(self.pm(), self.br(), stack@),
                forall|k: u64| #[trigger] self.nodes@.dom().contains(k) ==> self.nodes@[k].id == k,
                self.order@.no_duplicates(),
                self.order@.to_set() == self.nodes@.dom(),
                self.nodes@.dom().subset_of(old(self).nodes@.dom()),
                forall|k: u64| #[trigger]
                    self.nodes@.dom().contains(k) ==> self.nodes@[k] == old(self).nodes@[k],
                ({
                    let rec = scrub(self.pm(), self.br(), stack@);
                    &&& scrub_one(pm0, br0, id).0 == rec.0
                    &&& scrub_one(pm0, br0, id).1 == rec.1
                    &&& scrub_one(pm0, br0, id).2 == gone + rec.2
                }),
            decreases self.nodes@.dom().len(), stack@.len(),
        {
            broadcast use vstd::seq_lib::group_seq_properties;

            let ghost pre_nodes = self.nodes@;
            let ghost pre_pm = self.pm();
            let ghost pre_br = self.br();
            let ghost pre_stack = stack@;
            proof {
                self.lemma_pm_dom();
            }
            let cur = stack.remove(0);
            proof {
                assert(stack@ =~= pre_stack.drop_first());
            }
            match self.nodes.remove(&cur) {
                None => {
                    proof {
                        assert(!pre_pm.dom().contains(cur));
                        assert(self.nodes@ =~= pre_nodes);
                        assert(self.pm() =~= pre_pm);
                        crate::forest::lemma_scrub_inv_skip(pre_pm, pre_br, pre_stack);
                        assert(scrub(pre_pm, pre_br, pre_stack) == scrub(
                            pre_pm,
                            pre_br,
                            pre_stack.drop_first(),
                        ));
                    }
                },
                Some(node) => {
                    let ghost pre_order = self.order@;
                    let ghost pre_gone = gone;
                    let parent = node.parent_id;
                    proof {
                        assert(pre_pm.dom().contains(cur));
                        assert(pre_pm[cur] == parent);
                        assert(self.pm() =~= pre_pm.remove(cur));
                        gone = gone.push(cur);
                    }
                    remove_all(&mut self.order, cur);
                    match self.branches.remove(&parent) {
                        Some(mut l) => {
                            remove_all(&mut l, cur);
                            self.branches.insert(parent, l);
                        },
                        None => {},
                    }
                    proof {
                        assert(self.br() =~= (if pre_br.dom().contains(parent) {
                            pre_br.insert(parent, crate::forest::strike(pre_br[parent], cur))
                        } else {
                            pre_br
                        }));
                    }
                    let ghost pm1g = self.pm();
                    let ghost br1g = self.br();
                    let kids = match self.branches.remove(&cur) {
                        Some(k) => k,
                        None => Vec::new(),
                    };
                    proof {
                        assert(self.br() =~= br1g.remove(cur));
                        assert(kids@ == (if br1g.dom().contains(cur) {
                            br1g[cur]
                        } else {
                            Seq::<u64>::empty()
                        }));
                    }
                    let ghost kids_view = kids@;
                    let mut newstack = kids;
                    newstack.append(&mut stack);
                    stack = newstack;
                    proof {
                        broadcast use vstd::seq_lib::group_seq_properties;

                        crate::forest::lemma_scrub_inv_step(pre_pm, pre_br, pre_stack);
                        assert(stack@ =~= kids_view + pre_stack.drop_first());
                        assert(gone =~= pre_gone + seq![cur]);
                        let rec = scrub(pm1g, self.br(), stack@);
                        assert(scrub(pre_pm, pre_br, pre_stack) == (
                            rec.0,
                            rec.1,
                            seq![cur] + rec.2,
                        ));
                        assert(pre_gone + (seq![cur] + rec.2) =~= gone + rec.2);
                        // order-list bookkeeping
                        crate::forest::lemma_strike_no_dup(pre_order, cur);
                        crate::forest::lemma_strike_to_set(pre_order, cur);
                        assert(self.order@.to_set() =~= self.nodes@.dom());
                    }
                },
            }
        }
        proof {
            assert(stack@.len() == 0);
            self.lemma_pm_dom();
            assert(scrub(self.pm(), self.br(), stack@) == (self.pm(), self.br(), Seq::<
                u64,
            >::empty()));
            assert(gone + Seq::<u64>::empty() =~= gone);
            lemma_scrub_frame(pm0, br0, seq![id]);
            lemma_scrub_linked(pm0, br0, seq![id]);
            let rr = scrub_one(pm0, br0, id);
            assert(self.nodes@.dom() =~= old(self).nodes@.dom().difference(rr.2.to_set()));
            if acyclic(pm0) {
                lemma_acyclic_shrink(self.pm(), pm0);
            }
        }
        if found {
            Some(id)
        } else {
            None
        }
    }
}

} // verus!
