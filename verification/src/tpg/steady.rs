use crate::tpg::model::{accepted_total, EvRef, EvState, EventStatus, Graph, TxnState, TxnStatus};
use vstd::prelude::*;

verus! {

impl Graph {
    /// What no step of a worker changes: which events and transactions
    /// there are, who reads from whom, and who is read by whom.  A slot of
    /// an awaited parent is at most cleared, a transaction that has left
    /// the waiting state stays out of it, and an event is aborted only in
    /// a transaction that does not wait.
    pub open spec fn steady(self, after: Graph) -> bool {
        &&& after.nodes.len() == self.nodes.len()
        &&& forall|t: int|
            0 <= t < self.nodes.len() ==> {
                &&& (#[trigger] after.nodes[t]).ev_nodes.len() == self.nodes[t].ev_nodes.len()
                &&& after.nodes[t].read_by == self.nodes[t].read_by
                &&& after.nodes[t].read_from.len() == self.nodes[t].read_from.len()
                &&& self.nodes[t].status != TxnStatus::WAITING ==> after.nodes[t].status
                    != TxnStatus::WAITING
            }
        &&& forall|t: int, i: int|
            0 <= t < self.nodes.len() && 0 <= i < self.nodes[t].read_from.len() ==> (
            #[trigger] after.nodes[t].read_from[i]) == self.nodes[t].read_from[i]
                || after.nodes[t].read_from[i] is None
        &&& forall|t: int, e: int|
            0 <= t < self.nodes.len() && 0 <= e < self.nodes[t].ev_nodes.len() ==> {
                &&& (#[trigger] after.nodes[t].ev_nodes[e]).read_from
                    == self.nodes[t].ev_nodes[e].read_from
                &&& after.nodes[t].ev_nodes[e].read_by == self.nodes[t].ev_nodes[e].read_by
                &&& after.nodes[t].ev_nodes[e].fulfilled.len()
                    == self.nodes[t].ev_nodes[e].fulfilled.len()
                &&& after.nodes[t].ev_nodes[e].status == EventStatus::ABORTED
                    ==> self.nodes[t].ev_nodes[e].status == EventStatus::ABORTED
                    || after.nodes[t].status != TxnStatus::WAITING
            }
    }

    /// Being steady is transitive.
    pub proof fn lemma_steady_trans(self, mid: Graph, last: Graph)
        requires
            self.steady(mid),
            mid.steady(last),
        ensures
            self.steady(last),
    {
        assert forall|t: int| 0 <= t < self.nodes.len() implies {
            &&& (#[trigger] last.nodes[t]).ev_nodes.len() == self.nodes[t].ev_nodes.len()
            &&& last.nodes[t].read_by == self.nodes[t].read_by
            &&& last.nodes[t].read_from.len() == self.nodes[t].read_from.len()
            &&& self.nodes[t].status != TxnStatus::WAITING ==> last.nodes[t].status
                != TxnStatus::WAITING
        } by {
            assert(mid.nodes[t].read_by == self.nodes[t].read_by);
        }
        assert forall|t: int, i: int|
            0 <= t < self.nodes.len() && 0 <= i < self.nodes[t].read_from.len() implies (
        #[trigger] last.nodes[t].read_from[i]) == self.nodes[t].read_from[i]
            || last.nodes[t].read_from[i] is None by {
            assert(mid.nodes[t].read_by == self.nodes[t].read_by);
            assert(mid.nodes[t].read_from[i] == self.nodes[t].read_from[i]
                || mid.nodes[t].read_from[i] is None);
        }
        assert forall|t: int, e: int|
            0 <= t < self.nodes.len() && 0 <= e < self.nodes[t].ev_nodes.len() implies {
            &&& (#[trigger] last.nodes[t].ev_nodes[e]).read_from
                == self.nodes[t].ev_nodes[e].read_from
            &&& last.nodes[t].ev_nodes[e].read_by == self.nodes[t].ev_nodes[e].read_by
            &&& last.nodes[t].ev_nodes[e].fulfilled.len()
                == self.nodes[t].ev_nodes[e].fulfilled.len()
            &&& last.nodes[t].ev_nodes[e].status == EventStatus::ABORTED
                ==> self.nodes[t].ev_nodes[e].status == EventStatus::ABORTED
                || last.nodes[t].status != TxnStatus::WAITING
        } by {
            assert(mid.nodes[t].read_by == self.nodes[t].read_by);
            assert(mid.nodes[t].ev_nodes[e].read_by == self.nodes[t].ev_nodes[e].read_by);
        }
    }

    /// A change of the state, the marks or the version of an event is
    /// steady, unless it aborts an event of a waiting transaction.
    pub proof fn lemma_steady_with_ev(self, r: EvRef, e: EvState)
        requires
            self.has_ev(r),
            e.read_from == self.ev(r).read_from,
            e.read_by == self.ev(r).read_by,
            e.fulfilled.len() == self.ev(r).fulfilled.len(),
            e.status == EventStatus::ABORTED ==> self.ev(r).status == EventStatus::ABORTED
                || self.txn(r.txn).status != TxnStatus::WAITING,
        ensures
            self.steady(self.with_ev(r, e)),
    {
    }

    /// A change of a transaction that keeps its events and readers, at
    /// most clears slots and does not make it wait again is steady.
    pub proof fn lemma_steady_with_txn(self, t: usize, n: TxnState)
        requires
            self.has_txn(t),
            n.ev_nodes == self.txn(t).ev_nodes,
            n.read_by == self.txn(t).read_by,
            n.read_from.len() == self.txn(t).read_from.len(),
            forall|i: int|
                0 <= i < n.read_from.len() ==> (#[trigger] n.read_from[i]) == self.txn(
                    t,
                ).read_from[i] || n.read_from[i] is None,
            self.txn(t).status != TxnStatus::WAITING ==> n.status != TxnStatus::WAITING,
        ensures
            self.steady(self.with_txn(t, n)),
    {
    }

    /// A claim is steady.
    pub proof fn lemma_steady_claim(self, r: EvRef)
        requires
            self.has_ev(r),
        ensures
            self.steady(self.claim(r).0),
    {
    }

    /// Writing back is steady.
    pub proof fn lemma_steady_write_back(self, r: EvRef, value: Seq<u8>)
        requires
            self.has_ev(r),
        ensures
            self.steady(self.write_back(r, value).0),
    {
    }

    /// Taking back an acceptance is steady.
    pub proof fn lemma_steady_reset_accept(self, r: EvRef)
        requires
            self.has_ev(r),
        ensures
            self.steady(self.reset_accept(r).0),
    {
        let e = self.ev(r).with_status(EventStatus::WAITING);
        self.lemma_steady_with_ev(r, e);
        let g1 = self.with_ev(r, e);
        g1.lemma_steady_with_txn(r.txn, self.reset_accept(r).0.txn(r.txn));
        self.lemma_steady_trans(g1, self.reset_accept(r).0);
    }

    /// Visiting a reader is steady.
    pub proof fn lemma_steady_visit_child(self, parent: EvRef, son: EvRef)
        requires
            self.has_ev(son),
        ensures
            self.steady(self.visit_child(parent, son).0),
    {
        let e = self.ev(son);
        if !self.txn(son.txn).dropped {
            match e.status {
                EventStatus::ACCEPTED => {
                    let g1 = self.reset_accept(son).0;
                    self.lemma_steady_reset_accept(son);
                    g1.lemma_steady_with_ev(son, g1.ev(son).with_flags_of(parent, false));
                    self.lemma_steady_trans(g1, self.visit_child(parent, son).0);
                },
                EventStatus::CLAIMED | EventStatus::INQUEUE => {
                    self.lemma_steady_with_ev(
                        son,
                        e.with_status(EventStatus::WAITING).with_flags_of(parent, false),
                    );
                },
                EventStatus::WAITING => {
                    self.lemma_steady_with_ev(son, e.with_flags_of(parent, false));
                },
                _ => {},
            }
        }
    }

    /// Visiting the readers of an event is steady.
    pub proof fn lemma_steady_visit_children(self, parent: EvRef, children: Seq<EvRef>, j: int)
        ensures
            self.steady(self.visit_children(parent, children, j).0),
        decreases children.len() - j,
    {
        if 0 <= j < children.len() {
            if self.has_ev(children[j]) {
                self.lemma_steady_visit_child(parent, children[j]);
                let v = self.visit_child(parent, children[j]);
                v.0.lemma_steady_visit_children(parent, children, j + 1);
                self.lemma_steady_trans(v.0, v.0.visit_children(parent, children, j + 1).0);
            } else {
                self.lemma_steady_visit_children(parent, children, j + 1);
            }
        }
    }

    /// A rollback is steady.
    pub proof fn lemma_steady_cascade(self, stack: Seq<EvRef>, fuel: nat)
        ensures
            self.steady(self.cascade(stack, fuel).0),
        decreases fuel, stack.len(),
    {
        if stack.len() == 0 {
        } else if !self.has_ev(stack.last()) {
            self.lemma_steady_cascade(stack.drop_last(), fuel);
        } else {
            let children = self.ev(stack.last()).read_by;
            let v = self.visit_children(stack.last(), children, 0);
            self.lemma_steady_visit_children(stack.last(), children, 0);
            if v.1.len() <= fuel {
                let rest = stack.drop_last() + v.1;
                v.0.lemma_steady_cascade(rest, (fuel - v.1.len()) as nat);
                self.lemma_steady_trans(v.0, v.0.cascade(rest, (fuel - v.1.len()) as nat).0);
            }
        }
    }

    /// Aborting an event of a transaction that does not wait is steady.
    pub proof fn lemma_steady_abort_event(self, r: EvRef)
        requires
            self.wf(),
            self.has_ev(r),
            self.txn(r.txn).status != TxnStatus::WAITING,
        ensures
            self.steady(self.abort_event(r).0),
    {
        let e = self.ev(r);
        if e.status != EventStatus::ABORTED {
            let g1 = self.with_ev(r, e.with_status(EventStatus::ABORTED));
            self.lemma_restate(r, e.with_status(EventStatus::ABORTED));
            self.lemma_steady_with_ev(r, e.with_status(EventStatus::ABORTED));
            g1.lemma_steady_cascade(seq![r], accepted_total(g1.nodes));
            g1.lemma_cascade(seq![r], accepted_total(g1.nodes));
            let c = g1.cascade(seq![r], accepted_total(g1.nodes));
            self.lemma_steady_trans(g1, c.0);
            assert(c.0.nodes[r.txn as int].same_keys(g1.nodes[r.txn as int]));
            assert(c.0.has_ev(r));
            c.0.lemma_steady_with_ev(r, EvState { has_storage_slot: true, ..c.0.ev(r) });
            self.lemma_steady_trans(c.0, self.abort_event(r).0);
        }
    }

    /// Aborting the events of a transaction that does not wait is steady.
    pub proof fn lemma_steady_abort_events(self, t: usize, j: int, count: int)
        requires
            self.wf(),
            self.has_txn(t),
            count <= self.txn(t).ev_nodes.len(),
            self.txn(t).status != TxnStatus::WAITING,
        ensures
            self.steady(self.abort_events(t, j, count).0),
        decreases count - j,
    {
        if 0 <= j < count {
            let r = EvRef { txn: t, idx: j as usize };
            self.lemma_steady_abort_event(r);
            self.lemma_abort_event(r);
            let a = self.abort_event(r);
            assert(a.0.nodes[t as int].same_keys(self.nodes[t as int]));
            a.0.lemma_steady_abort_events(t, j + 1, count);
            self.lemma_steady_trans(a.0, a.0.abort_events(t, j + 1, count).0);
        }
    }

    /// An attempt to commit is steady.
    pub proof fn lemma_steady_try_commit(self, t: usize, bound: nat)
        requires
            self.has_txn(t),
        ensures
            self.steady(self.try_commit_within(t, bound).0),
        decreases bound - t, 1nat, 0nat,
    {
        if self.can_commit(t) {
            let g1 = self.commit_self(t);
            self.lemma_steady_with_txn(t, g1.txn(t));
            g1.lemma_steady_commit_children(t, g1.txn(t).read_by, 0, bound);
            self.lemma_steady_trans(g1, g1.commit_children(t, g1.txn(t).read_by, 0, bound).0);
        }
    }

    /// Telling the readers of a committed transaction is steady.
    pub proof fn lemma_steady_commit_children(
        self,
        t: usize,
        children: Seq<usize>,
        j: int,
        bound: nat,
    )
        requires
            self.has_txn(t),
        ensures
            self.steady(self.commit_children(t, children, j, bound).0),
        decreases bound - t, 0nat, children.len() - j,
    {
        if 0 <= j < children.len() {
            let c = children[j];
            if t < c && c < bound && self.has_txn(c) {
                let g1 = self.father_committed(c, t);
                self.lemma_steady_with_txn(c, self.txn(c).without_parent(t));
                g1.lemma_steady_try_commit(c, bound);
                let sub = g1.try_commit_within(c, bound);
                self.lemma_steady_trans(g1, sub.0);
                sub.0.lemma_steady_commit_children(t, children, j + 1, bound);
                self.lemma_steady_trans(sub.0, sub.0.commit_children(t, children, j + 1, bound).0);
            } else {
                self.lemma_steady_commit_children(t, children, j + 1, bound);
            }
        }
    }

    /// The notice of an acceptance is steady.
    pub proof fn lemma_steady_notify(self, r: EvRef)
        requires
            self.has_ev(r),
        ensures
            self.steady(self.notify_txn_accept(r).0),
    {
        let n = self.txn(r.txn);
        let g1 = self.with_txn(
            r.txn,
            TxnState {
                unfinished_events: if n.unfinished_events > 0 {
                    (n.unfinished_events - 1) as u16
                } else {
                    0
                },
                ..n
            },
        );
        self.lemma_steady_with_txn(r.txn, g1.txn(r.txn));
        if g1.txn(r.txn).unfinished_events == 0 {
            g1.lemma_steady_try_commit(r.txn, g1.nodes.len());
            self.lemma_steady_trans(g1, g1.try_commit(r.txn).0);
        }
    }

    /// Accepting a result is steady.
    pub proof fn lemma_steady_accept(self, r: EvRef)
        requires
            self.has_ev(r),
        ensures
            self.steady(self.accept(r).0),
    {
        let e = self.ev(r);
        if e.status == EventStatus::CLAIMED {
            let g1 = self.with_ev(r, e.with_status(EventStatus::ACCEPTED));
            self.lemma_steady_with_ev(r, e.with_status(EventStatus::ACCEPTED));
            g1.lemma_steady_notify(r);
            self.lemma_steady_trans(g1, g1.notify_txn_accept(r).0);
        }
    }

    /// Aborting a transaction is steady.
    pub proof fn lemma_steady_abort_txn(self, t: usize)
        requires
            self.wf(),
            self.has_txn(t),
        ensures
            self.steady(self.abort_txn(t).0),
    {
        let n = self.txn(t);
        if n.status == TxnStatus::WAITING {
            let n1 = TxnState { status: TxnStatus::ABORTED, ..n };
            let g1 = self.with_txn(t, n1);
            self.lemma_recount(t, n1);
            assert(self.steady(g1)) by {
                assert forall|u: int, e: int|
                    0 <= u < self.nodes.len() && 0 <= e < self.nodes[u].ev_nodes.len() implies (
                #[trigger] g1.nodes[u].ev_nodes[e]) == self.nodes[u].ev_nodes[e] by {}
            }
            let count = n.ev_nodes.len() as int;
            g1.lemma_steady_abort_events(t, 0, count);
            g1.lemma_abort_events(t, 0, count);
            let a = g1.abort_events(t, 0, count);
            self.lemma_steady_trans(g1, a.0);
            let n2 = TxnState { unfinished_events: 0, ..a.0.txn(t) };
            let g2 = a.0.with_txn(t, n2);
            a.0.lemma_steady_with_txn(t, n2);
            self.lemma_steady_trans(a.0, g2);
            g2.lemma_steady_try_commit(t, g2.nodes.len());
            self.lemma_steady_trans(g2, g2.try_commit(t).0);
        }
    }

    /// Telling the readers is steady.
    pub proof fn lemma_steady_tell_readers(self, r: EvRef, children: Seq<EvRef>, j: int)
        ensures
            self.steady(self.tell_readers(r, children, j)),
        decreases children.len() - j,
    {
        if 0 <= j < children.len() {
            if self.has_ev(children[j]) {
                let e = self.ev(children[j]).with_flags_of(r, true);
                self.lemma_steady_with_ev(children[j], e);
                let g1 = self.with_ev(children[j], e);
                g1.lemma_steady_tell_readers(r, children, j + 1);
                self.lemma_steady_trans(g1, g1.tell_readers(r, children, j + 1));
            } else {
                self.lemma_steady_tell_readers(r, children, j + 1);
            }
        }
    }

    /// Handing the others to the queue is steady.
    pub proof fn lemma_steady_requeue_others(self, children: Seq<EvRef>, chosen: int, j: int)
        ensures
            self.steady(self.requeue_others(children, chosen, j)),
        decreases children.len() - j,
    {
        if 0 <= j < children.len() {
            if j != chosen && self.ready_at(children, j) && self.ev(children[j]).status
                == EventStatus::WAITING {
                let e = self.ev(children[j]).with_status(EventStatus::INQUEUE);
                self.lemma_steady_with_ev(children[j], e);
                let g1 = self.with_ev(children[j], e);
                let g2 = Graph { ready_queue: g1.ready_queue.push(children[j]), ..g1 };
                g2.lemma_steady_requeue_others(children, chosen, j + 1);
                self.lemma_steady_trans(g2, g2.requeue_others(children, chosen, j + 1));
            } else {
                self.lemma_steady_requeue_others(children, chosen, j + 1);
            }
        }
    }

    /// What follows a delivery is steady.
    pub proof fn lemma_steady_get_next(self, r: EvRef)
        requires
            self.wf(),
            self.has_ev(r),
        ensures
            self.steady(self.get_next(r).0),
    {
        let children = self.ev(r).read_by;
        self.lemma_steady_tell_readers(r, children, 0);
        self.lemma_tell_readers(r, children, 0);
        let g1 = self.tell_readers(r, children, 0);
        g1.lemma_best_ready(children, children.len() as int);
        match g1.best_ready(children, children.len() as int) {
            None => {},
            Some(m) => {
                g1.lemma_steady_requeue_others(children, m, 0);
                g1.lemma_requeue_others(children, m, 0);
                let g2 = g1.requeue_others(children, m, 0);
                self.lemma_steady_trans(g1, g2);
                let c = children[m];
                assert(g1.has_ev(c));
                assert(g2.nodes[c.txn as int].same_keys(g1.nodes[c.txn as int]));
                if g2.ev(c).status == EventStatus::WAITING {
                    g2.lemma_steady_with_ev(c, g2.ev(c).with_status(EventStatus::CLAIMED));
                    self.lemma_steady_trans(g2, self.get_next(r).0);
                }
            },
        }
    }

    /// Following up the events of a transaction is steady.
    pub proof fn lemma_steady_follow_up(self, t: usize, j: int, count: int)
        requires
            self.wf(),
            self.has_txn(t),
            count <= self.txn(t).ev_nodes.len(),
        ensures
            self.steady(self.follow_up(t, j, count).0),
        decreases count - j,
    {
        if 0 <= j < count {
            let r = EvRef { txn: t, idx: j as usize };
            self.lemma_get_next(r);
            self.lemma_steady_get_next(r);
            let n = self.get_next(r);
            assert(n.0.nodes[t as int].same_keys(self.nodes[t as int]));
            n.0.lemma_steady_follow_up(t, j + 1, count);
            self.lemma_steady_trans(n.0, n.0.follow_up(t, j + 1, count).0);
        }
    }

    /// A pass that releases what can be released is steady.
    pub proof fn lemma_steady_sweep(self, upto: int)
        requires
            upto <= self.nodes.len(),
        ensures
            self.steady(self.sweep(upto).0),
        decreases upto,
    {
        if upto > 0 {
            self.lemma_steady_sweep(upto - 1);
            let s = self.sweep(upto - 1);
            if s.0.droppable((upto - 1) as usize) {
                let t = (upto - 1) as usize;
                s.0.lemma_steady_with_txn(t, TxnState { dropped: true, ..s.0.txn(t) });
                self.lemma_steady_trans(s.0, s.0.release(t).0);
            }
        }
    }


    /// Taking the result of an event is steady.
    pub proof fn lemma_steady_complete(self, r: EvRef, value: Seq<u8>)
        requires
            self.wf(),
            self.has_ev(r),
        ensures
            self.steady(self.complete(r, value).1),
    {
        let a = self.accept(r);
        if !self.txn(r.txn).dropped && a.1 {
            self.lemma_steady_accept(r);
            self.lemma_accept(r);
            assert(a.0.nodes[r.txn as int].same_keys(self.nodes[r.txn as int]));
            let w = a.0.write_back(r, value);
            a.0.lemma_steady_write_back(r, value);
            a.0.lemma_restate(
                r,
                EvState { has_storage_slot: true, written: value, ..a.0.ev(r) },
            );
            self.lemma_steady_trans(a.0, w.0);
            assert(w.0.nodes[r.txn as int].same_keys(a.0.nodes[r.txn as int]));
            w.0.lemma_steady_get_next(r);
            w.0.lemma_get_next(r);
            let n = w.0.get_next(r);
            self.lemma_steady_trans(w.0, n.0);
            n.0.lemma_steady_sweep(n.0.nodes.len() as int);
            self.lemma_steady_trans(n.0, n.0.collect().0);
        }
    }

    /// Taking the abort of an event is steady.
    pub proof fn lemma_steady_fail(self, r: EvRef)
        requires
            self.wf(),
            self.has_ev(r),
        ensures
            self.steady(self.fail(r).0),
    {
        let a = self.abort_txn(r.txn);
        self.lemma_steady_abort_txn(r.txn);
        self.lemma_abort_txn(r.txn);
        assert(a.0.nodes[r.txn as int].same_keys(self.nodes[r.txn as int]));
        let count = a.0.txn(r.txn).ev_nodes.len() as int;
        a.0.lemma_steady_follow_up(r.txn, 0, count);
        a.0.lemma_follow_up(r.txn, 0, count);
        let n = a.0.follow_up(r.txn, 0, count);
        self.lemma_steady_trans(a.0, n.0);
        n.0.lemma_steady_sweep(n.0.nodes.len() as int);
        self.lemma_steady_trans(n.0, n.0.collect().0);
    }
}

} // verus!
