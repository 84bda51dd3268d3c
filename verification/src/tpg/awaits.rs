use crate::tpg::model::{accepted_total, EvRef, EvState, EventStatus, Graph, TxnState, TxnStatus};
use vstd::prelude::*;

verus! {

impl Graph {
    /// The two graphs have the same transactions, in the same states and
    /// with the same parents awaited.
    pub open spec fn slots_same(self, after: Graph) -> bool {
        &&& after.nodes.len() == self.nodes.len()
        &&& forall|t: int|
            0 <= t < self.nodes.len() ==> {
                &&& (#[trigger] after.nodes[t]).status == self.nodes[t].status
                &&& after.nodes[t].read_from == self.nodes[t].read_from
                &&& after.nodes[t].ev_nodes.len() == self.nodes[t].ev_nodes.len()
            }
    }

    /// Having the same slots is transitive.
    pub proof fn lemma_slots_trans(self, mid: Graph, last: Graph)
        requires
            self.slots_same(mid),
            mid.slots_same(last),
        ensures
            self.slots_same(last),
    {
        assert forall|t: int| 0 <= t < self.nodes.len() implies {
            &&& (#[trigger] last.nodes[t]).status == self.nodes[t].status
            &&& last.nodes[t].read_from == self.nodes[t].read_from
            &&& last.nodes[t].ev_nodes.len() == self.nodes[t].ev_nodes.len()
        } by {
            assert(mid.nodes[t].status == self.nodes[t].status);
        }
    }

    /// A change of an event leaves the slots alone.
    pub proof fn lemma_slots_with_ev(self, r: EvRef, e: EvState)
        requires
            self.has_ev(r),
        ensures
            self.slots_same(self.with_ev(r, e)),
    {
    }

    /// A change of a transaction but of its state, its slots and the
    /// number of its events leaves the slots alone.
    pub proof fn lemma_slots_with_txn(self, t: usize, n: TxnState)
        requires
            self.has_txn(t),
            n.status == self.txn(t).status,
            n.read_from == self.txn(t).read_from,
            n.ev_nodes.len() == self.txn(t).ev_nodes.len(),
        ensures
            self.slots_same(self.with_txn(t, n)),
    {
    }

    /// Taking back an acceptance leaves the slots alone.
    pub proof fn lemma_slots_reset_accept(self, r: EvRef)
        requires
            self.has_ev(r),
        ensures
            self.slots_same(self.reset_accept(r).0),
    {
        let e = self.ev(r).with_status(EventStatus::WAITING);
        self.lemma_slots_with_ev(r, e);
        let g1 = self.with_ev(r, e);
        g1.lemma_slots_with_txn(r.txn, self.reset_accept(r).0.txn(r.txn));
        self.lemma_slots_trans(g1, self.reset_accept(r).0);
    }

    /// Visiting a reader leaves the slots alone.
    pub proof fn lemma_slots_visit_child(self, parent: EvRef, son: EvRef)
        requires
            self.has_ev(son),
        ensures
            self.slots_same(self.visit_child(parent, son).0),
    {
        let e = self.ev(son);
        if !self.txn(son.txn).dropped {
            match e.status {
                EventStatus::ACCEPTED => {
                    let g1 = self.reset_accept(son).0;
                    self.lemma_slots_reset_accept(son);
                    g1.lemma_slots_with_ev(son, g1.ev(son).with_flags_of(parent, false));
                    self.lemma_slots_trans(g1, self.visit_child(parent, son).0);
                },
                EventStatus::CLAIMED | EventStatus::INQUEUE => {
                    self.lemma_slots_with_ev(
                        son,
                        e.with_status(EventStatus::WAITING).with_flags_of(parent, false),
                    );
                },
                EventStatus::WAITING => {
                    self.lemma_slots_with_ev(son, e.with_flags_of(parent, false));
                },
                _ => {},
            }
        }
    }

    /// Visiting the readers of an event leaves the slots alone.
    pub proof fn lemma_slots_visit_children(self, parent: EvRef, children: Seq<EvRef>, j: int)
        ensures
            self.slots_same(self.visit_children(parent, children, j).0),
        decreases children.len() - j,
    {
        if 0 <= j < children.len() {
            if self.has_ev(children[j]) {
                self.lemma_slots_visit_child(parent, children[j]);
                let v = self.visit_child(parent, children[j]);
                v.0.lemma_slots_visit_children(parent, children, j + 1);
                self.lemma_slots_trans(v.0, v.0.visit_children(parent, children, j + 1).0);
            } else {
                self.lemma_slots_visit_children(parent, children, j + 1);
            }
        }
    }

    /// A rollback leaves the slots alone.
    pub proof fn lemma_slots_cascade(self, stack: Seq<EvRef>, fuel: nat)
        ensures
            self.slots_same(self.cascade(stack, fuel).0),
        decreases fuel, stack.len(),
    {
        if stack.len() == 0 {
        } else if !self.has_ev(stack.last()) {
            self.lemma_slots_cascade(stack.drop_last(), fuel);
        } else {
            let children = self.ev(stack.last()).read_by;
            let v = self.visit_children(stack.last(), children, 0);
            self.lemma_slots_visit_children(stack.last(), children, 0);
            if v.1.len() <= fuel {
                let rest = stack.drop_last() + v.1;
                v.0.lemma_slots_cascade(rest, (fuel - v.1.len()) as nat);
                self.lemma_slots_trans(v.0, v.0.cascade(rest, (fuel - v.1.len()) as nat).0);
            }
        }
    }

    /// Aborting an event leaves the slots alone.
    pub proof fn lemma_slots_abort_event(self, r: EvRef)
        requires
            self.wf(),
            self.has_ev(r),
        ensures
            self.slots_same(self.abort_event(r).0),
    {
        let e = self.ev(r);
        if e.status != EventStatus::ABORTED {
            let g1 = self.with_ev(r, e.with_status(EventStatus::ABORTED));
            self.lemma_restate(r, e.with_status(EventStatus::ABORTED));
            self.lemma_slots_with_ev(r, e.with_status(EventStatus::ABORTED));
            g1.lemma_slots_cascade(seq![r], accepted_total(g1.nodes));
            g1.lemma_cascade(seq![r], accepted_total(g1.nodes));
            let c = g1.cascade(seq![r], accepted_total(g1.nodes));
            self.lemma_slots_trans(g1, c.0);
            assert(c.0.nodes[r.txn as int].same_keys(g1.nodes[r.txn as int]));
            assert(c.0.has_ev(r));
            c.0.lemma_slots_with_ev(r, EvState { has_storage_slot: true, ..c.0.ev(r) });
            self.lemma_slots_trans(c.0, self.abort_event(r).0);
        }
    }

    /// Aborting the events of a transaction leaves the slots alone.
    pub proof fn lemma_slots_abort_events(self, t: usize, j: int, count: int)
        requires
            self.wf(),
            self.has_txn(t),
            count <= self.txn(t).ev_nodes.len(),
        ensures
            self.slots_same(self.abort_events(t, j, count).0),
        decreases count - j,
    {
        if 0 <= j < count {
            let r = EvRef { txn: t, idx: j as usize };
            self.lemma_slots_abort_event(r);
            self.lemma_abort_event(r);
            let a = self.abort_event(r);
            assert(a.0.nodes[t as int].same_keys(self.nodes[t as int]));
            a.0.lemma_slots_abort_events(t, j + 1, count);
            self.lemma_slots_trans(a.0, a.0.abort_events(t, j + 1, count).0);
        }
    }

    /// Telling the readers leaves the slots alone.
    pub proof fn lemma_slots_tell_readers(self, r: EvRef, children: Seq<EvRef>, j: int)
        ensures
            self.slots_same(self.tell_readers(r, children, j)),
        decreases children.len() - j,
    {
        if 0 <= j < children.len() {
            if self.has_ev(children[j]) {
                let e = self.ev(children[j]).with_flags_of(r, true);
                self.lemma_slots_with_ev(children[j], e);
                let g1 = self.with_ev(children[j], e);
                g1.lemma_slots_tell_readers(r, children, j + 1);
                self.lemma_slots_trans(g1, g1.tell_readers(r, children, j + 1));
            } else {
                self.lemma_slots_tell_readers(r, children, j + 1);
            }
        }
    }

    /// Handing the others to the queue leaves the slots alone.
    pub proof fn lemma_slots_requeue_others(self, children: Seq<EvRef>, chosen: int, j: int)
        ensures
            self.slots_same(self.requeue_others(children, chosen, j)),
        decreases children.len() - j,
    {
        if 0 <= j < children.len() {
            if j != chosen && self.ready_at(children, j) && self.ev(children[j]).status
                == EventStatus::WAITING {
                let e = self.ev(children[j]).with_status(EventStatus::INQUEUE);
                self.lemma_slots_with_ev(children[j], e);
                let g1 = self.with_ev(children[j], e);
                let g2 = Graph { ready_queue: g1.ready_queue.push(children[j]), ..g1 };
                g2.lemma_slots_requeue_others(children, chosen, j + 1);
                self.lemma_slots_trans(g2, g2.requeue_others(children, chosen, j + 1));
            } else {
                self.lemma_slots_requeue_others(children, chosen, j + 1);
            }
        }
    }

    /// What follows a delivery leaves the slots alone.
    pub proof fn lemma_slots_get_next(self, r: EvRef)
        requires
            self.wf(),
            self.has_ev(r),
        ensures
            self.slots_same(self.get_next(r).0),
    {
        let children = self.ev(r).read_by;
        self.lemma_slots_tell_readers(r, children, 0);
        self.lemma_tell_readers(r, children, 0);
        let g1 = self.tell_readers(r, children, 0);
        g1.lemma_best_ready(children, children.len() as int);
        match g1.best_ready(children, children.len() as int) {
            None => {},
            Some(m) => {
                g1.lemma_slots_requeue_others(children, m, 0);
                g1.lemma_requeue_others(children, m, 0);
                let g2 = g1.requeue_others(children, m, 0);
                self.lemma_slots_trans(g1, g2);
                let c = children[m];
                assert(g1.has_ev(c));
                assert(g2.nodes[c.txn as int].same_keys(g1.nodes[c.txn as int]));
                if g2.ev(c).status == EventStatus::WAITING {
                    g2.lemma_slots_with_ev(c, g2.ev(c).with_status(EventStatus::CLAIMED));
                    self.lemma_slots_trans(g2, self.get_next(r).0);
                }
            },
        }
    }

    /// Following up the events of a transaction leaves the slots alone.
    pub proof fn lemma_slots_follow_up(self, t: usize, j: int, count: int)
        requires
            self.wf(),
            self.has_txn(t),
            count <= self.txn(t).ev_nodes.len(),
        ensures
            self.slots_same(self.follow_up(t, j, count).0),
        decreases count - j,
    {
        if 0 <= j < count {
            let r = EvRef { txn: t, idx: j as usize };
            self.lemma_get_next(r);
            self.lemma_slots_get_next(r);
            let n = self.get_next(r);
            assert(n.0.nodes[t as int].same_keys(self.nodes[t as int]));
            n.0.lemma_slots_follow_up(t, j + 1, count);
            self.lemma_slots_trans(n.0, n.0.follow_up(t, j + 1, count).0);
        }
    }

    /// A pass that releases what can be released leaves the slots alone.
    pub proof fn lemma_slots_sweep(self, upto: int)
        requires
            upto <= self.nodes.len(),
        ensures
            self.slots_same(self.sweep(upto).0),
        decreases upto,
    {
        if upto > 0 {
            self.lemma_slots_sweep(upto - 1);
            let s = self.sweep(upto - 1);
            if s.0.droppable((upto - 1) as usize) {
                let t = (upto - 1) as usize;
                s.0.lemma_slots_with_txn(t, TxnState { dropped: true, ..s.0.txn(t) });
                self.lemma_slots_trans(s.0, s.0.release(t).0);
            }
        }
    }

    /// Where the slots are the same, the parents awaited are.
    pub proof fn lemma_awaits_kept(self, after: Graph, exempt: Set<usize>)
        requires
            self.wf(),
            self.awaits_pending(exempt),
            self.slots_same(after),
        ensures
            after.awaits_pending(exempt),
    {
        assert forall|t: usize, i: int|
            #![trigger after.txn(t).read_from[i]]
            after.has_txn(t) && 0 <= i < after.txn(t).read_from.len() implies (after.txn(
            t,
        ).read_from[i] matches Some(p) ==> after.txn(p).status != TxnStatus::COMMITED
            || exempt.contains(p)) by {
            assert(after.nodes[t as int].read_from == self.nodes[t as int].read_from);
            match self.txn(t).read_from[i] {
                Some(p) => {
                    assert(self.txn_ok(t));
                    assert(after.nodes[p as int].status == self.nodes[p as int].status);
                },
                None => {},
            }
        }
    }

    /// A parent that nobody awaits need not be exempt.
    pub proof fn lemma_awaits_unexempt(self, p: usize, exempt: Set<usize>)
        requires
            self.awaits_pending(exempt.insert(p)),
            forall|x: usize| self.has_txn(x) ==> !self.txn(x).waits_for(p),
        ensures
            self.awaits_pending(exempt),
    {
        assert forall|t: usize, i: int|
            #![trigger self.txn(t).read_from[i]]
            self.has_txn(t) && 0 <= i < self.txn(t).read_from.len() implies (self.txn(
            t,
        ).read_from[i] matches Some(q) ==> self.txn(q).status != TxnStatus::COMMITED
            || exempt.contains(q)) by {
            if self.txn(t).read_from[i] == Some(p) {
                assert(self.txn(t).waits_for(p));
            }
        }
    }

    /// An attempt to commit leaves no committed parent awaited, where the
    /// links are mutual: the transaction that commits tells every
    /// transaction that awaits it.
    pub proof fn lemma_awaits_try_commit(self, t: usize, bound: nat, exempt: Set<usize>)
        requires
            self.wf(),
            self.mutual(),
            self.has_txn(t),
            bound >= self.nodes.len(),
            self.awaits_pending(exempt),
        ensures
            self.try_commit_within(t, bound).0.awaits_pending(exempt),
        decreases bound - t, 1nat, 0nat,
    {
        if self.can_commit(t) {
            let g1 = self.commit_self(t);
            self.lemma_commit_self(t);
            self.lemma_steady_with_txn(t, g1.txn(t));
            self.lemma_mutual_kept(g1);
            assert(g1.awaits_pending(exempt.insert(t))) by {
                assert forall|x: usize, i: int|
                    #![trigger g1.txn(x).read_from[i]]
                    g1.has_txn(x) && 0 <= i < g1.txn(x).read_from.len() implies (g1.txn(
                    x,
                ).read_from[i] matches Some(p) ==> g1.txn(p).status != TxnStatus::COMMITED
                    || exempt.insert(t).contains(p)) by {
                    assert(g1.txn(x).read_from == self.txn(x).read_from);
                    match self.txn(x).read_from[i] {
                        Some(p) => {
                            assert(self.txn_ok(x));
                            if p != t {
                                assert(g1.txn(p) == self.txn(p));
                            }
                        },
                        None => {},
                    }
                }
            }
            let children = g1.txn(t).read_by;
            assert forall|x: usize|
                g1.has_txn(x) && #[trigger] g1.txn(x).waits_for(t) implies exists|k: int|
                0 <= k < children.len() && children[k] == x by {
                let i = choose|i: int|
                    0 <= i < g1.txn(x).read_from.len() && g1.txn(x).read_from[i] == Some(t);
                assert(g1.txn(x).read_from[i] == Some(t));
                assert(g1.txn(t).read_by.contains(x));
            }
            g1.lemma_awaits_commit_children(t, children, 0, bound, exempt);
        }
    }

    /// Telling the readers `children[j..]` of a committed transaction,
    /// which are all that still await it, leaves no committed parent
    /// awaited.
    pub proof fn lemma_awaits_commit_children(
        self,
        t: usize,
        children: Seq<usize>,
        j: int,
        bound: nat,
        exempt: Set<usize>,
    )
        requires
            self.wf(),
            self.mutual(),
            self.has_txn(t),
            bound >= self.nodes.len(),
            0 <= j,
            self.awaits_pending(exempt.insert(t)),
            forall|x: usize|
                self.has_txn(x) && #[trigger] self.txn(x).waits_for(t) ==> exists|k: int|
                    j <= k < children.len() && children[k] == x,
        ensures
            self.commit_children(t, children, j, bound).0.awaits_pending(exempt),
        decreases bound - t, 0nat, children.len() - j,
    {
        if j >= children.len() {
            assert forall|x: usize| self.has_txn(x) implies !self.txn(x).waits_for(t) by {
                if self.txn(x).waits_for(t) {
                    let k = choose|k: int| j <= k < children.len() && children[k] == x;
                }
            }
            self.lemma_awaits_unexempt(t, exempt);
        } else {
            let c = children[j];
            if t < c && c < bound && self.has_txn(c) {
                let g1 = self.father_committed(c, t);
                self.lemma_father_committed(c, t);
                self.lemma_steady_with_txn(c, self.txn(c).without_parent(t));
                self.lemma_mutual_kept(g1);
                assert(g1.awaits_pending(exempt.insert(t))) by {
                    assert forall|x: usize, i: int|
                        #![trigger g1.txn(x).read_from[i]]
                        g1.has_txn(x) && 0 <= i < g1.txn(x).read_from.len() implies (g1.txn(
                        x,
                    ).read_from[i] matches Some(p) ==> g1.txn(p).status != TxnStatus::COMMITED
                        || exempt.insert(t).contains(p)) by {
                        match g1.txn(x).read_from[i] {
                            Some(p) => {
                                assert(self.txn(x).read_from[i] == Some(p));
                                assert(self.txn_ok(x));
                                assert(g1.txn(p).status == self.txn(p).status);
                            },
                            None => {},
                        }
                    }
                }
                g1.lemma_awaits_try_commit(c, bound, exempt.insert(t));
                g1.lemma_try_commit(c, bound);
                g1.lemma_steady_try_commit(c, bound);
                let sub = g1.try_commit_within(c, bound);
                g1.lemma_mutual_kept(sub.0);
                assert(sub.0.nodes[t as int].same_keys(g1.nodes[t as int]));
                assert forall|x: usize|
                    sub.0.has_txn(x) && #[trigger] sub.0.txn(x).waits_for(t) implies exists|k: int|
                    j + 1 <= k < children.len() && children[k] == x by {
                    let i = choose|i: int|
                        0 <= i < sub.0.txn(x).read_from.len() && sub.0.txn(x).read_from[i] == Some(
                            t,
                        );
                    assert(sub.0.nodes[x as int].read_from[i] == g1.nodes[x as int].read_from[i]
                        || sub.0.nodes[x as int].read_from[i] is None);
                    assert(g1.txn(x).read_from[i] == Some(t));
                    assert(x != c);
                    assert(self.txn(x).read_from[i] == Some(t));
                    assert(self.has_txn(x));
                    assert(self.txn(x).waits_for(t));
                    let k = choose|k: int| j <= k < children.len() && children[k] == x;
                    assert(j + 1 <= k < children.len() && children[k] == x);
                }
                sub.0.lemma_awaits_commit_children(t, children, j + 1, bound, exempt);
            } else {
                assert forall|x: usize|
                    self.has_txn(x) && #[trigger] self.txn(x).waits_for(t) implies exists|k: int|
                    j + 1 <= k < children.len() && children[k] == x by {
                    let k = choose|k: int| j <= k < children.len() && children[k] == x;
                    let i = choose|i: int|
                        0 <= i < self.txn(x).read_from.len() && self.txn(x).read_from[i] == Some(
                            t,
                        );
                    assert(self.txn_ok(x));
                    assert(self.txn(x).read_from[i] == Some(t));
                    assert(t < x);
                    assert(j + 1 <= k < children.len() && children[k] == x);
                }
                self.lemma_awaits_commit_children(t, children, j + 1, bound, exempt);
            }
        }
    }
}

} // verus!
