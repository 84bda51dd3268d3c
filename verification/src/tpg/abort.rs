use crate::database::action::Action;
use crate::external::ffi::Finished;
use crate::tpg::model::{
    accepted_total, lemma_accepted_total_update, lemma_unaccepted_bound, lemma_unaccepted_update,
    unaccepted, EvRef, EvState, EventStatus, Graph, TxnState, TxnStatus,
};
use vstd::prelude::*;

verus! {

impl Graph {
    /// What the rollback of `parent` does to the event `son` that reads
    /// from it.
    ///
    /// An accepted reader used a value that is gone: its acceptance is
    /// taken back, and its own readers are to be visited in turn (the
    /// second part of the result says so).  A claimed or queued reader is
    /// set back to waiting.  In each of these cases, and for a reader that
    /// waits, the reads that `parent` satisfied are marked as not
    /// satisfied.  A reader that is aborted, or not yet started, is left
    /// alone, and so is a reader whose transaction was released.
    pub open spec fn visit_child(self, parent: EvRef, son: EvRef) -> (Graph, bool, Seq<Action>) {
        let e = self.ev(son);
        if self.txn(son.txn).dropped {
            (self, false, Seq::empty())
        } else {
            self.visit_live_child(parent, son)
        }
    }

    /// What the rollback of `parent` does to the event `son` that reads
    /// from it, where the transaction of `son` is alive.
    pub open spec fn visit_live_child(self, parent: EvRef, son: EvRef) -> (
        Graph,
        bool,
        Seq<Action>,
    ) {
        let e = self.ev(son);
        match e.status {
            EventStatus::ACCEPTED => {
                let reset = self.reset_accept(son);
                (
                    reset.0.with_ev(son, reset.0.ev(son).with_flags_of(parent, false)),
                    true,
                    seq![reset.1],
                )
            },
            EventStatus::CLAIMED | EventStatus::INQUEUE => (
                self.with_ev(
                    son,
                    e.with_status(EventStatus::WAITING).with_flags_of(parent, false),
                ),
                false,
                Seq::empty(),
            ),
            EventStatus::WAITING => (
                self.with_ev(son, e.with_flags_of(parent, false)),
                false,
                Seq::empty(),
            ),
            EventStatus::ABORTED | EventStatus::CONSTRUCT => (self, false, Seq::empty()),
        }
    }

    /// What the rollback of `parent` does to its readers `children[j..]`:
    /// the graph, the readers whose acceptance was taken back, and the
    /// changes of the store.
    pub open spec fn visit_children(self, parent: EvRef, children: Seq<EvRef>, j: int) -> (
        Graph,
        Seq<EvRef>,
        Seq<Action>,
    )
        decreases children.len() - j,
    {
        if j < 0 || j >= children.len() {
            (self, Seq::empty(), Seq::empty())
        } else if self.has_ev(children[j]) {
            let v = self.visit_child(parent, children[j]);
            let rest = v.0.visit_children(parent, children, j + 1);
            (
                rest.0,
                (if v.1 {
                    seq![children[j]]
                } else {
                    Seq::empty()
                }) + rest.1,
                v.2 + rest.2,
            )
        } else {
            self.visit_children(parent, children, j + 1)
        }
    }

    /// What the rollback of the events in `stack` gives, the last one
    /// first.  Each reader whose acceptance is taken back is rolled back in
    /// turn.  `fuel` bounds the number of acceptances that can be taken
    /// back; the number of accepted events is enough.
    pub open spec fn cascade(self, stack: Seq<EvRef>, fuel: nat) -> (Graph, Seq<Action>)
        decreases fuel, stack.len(),
    {
        if stack.len() == 0 {
            (self, Seq::empty())
        } else if !self.has_ev(stack.last()) {
            self.cascade(stack.drop_last(), fuel)
        } else {
            let v = self.visit_children(stack.last(), self.ev(stack.last()).read_by, 0);
            if v.1.len() > fuel {
                (v.0, v.2)
            } else {
                let r = v.0.cascade(stack.drop_last() + v.1, (fuel - v.1.len()) as nat);
                (r.0, v.2 + r.1)
            }
        }
    }

    /// What aborting event `r` gives.  The event is aborted for good, the
    /// events that read from it are rolled back, and, where the event
    /// writes, its version is to take the value of the version before it.
    /// An event that is aborted already stays as it is.
    pub open spec fn abort_event(self, r: EvRef) -> (Graph, Seq<Action>) {
        let e = self.ev(r);
        if e.status == EventStatus::ABORTED {
            (self, Seq::empty())
        } else {
            let g1 = self.with_ev(r, e.with_status(EventStatus::ABORTED));
            let c = g1.cascade(seq![r], accepted_total(g1.nodes));
            let e2 = c.0.ev(r);
            if e2.has_write {
                (
                    c.0.with_ev(r, EvState { has_storage_slot: true, ..e2 }),
                    c.1 + seq![
                        Action::CopyLast {
                            key: e2.write,
                            ts: c.0.txn(r.txn).ts,
                            has_slot: e2.has_storage_slot,
                        },
                    ],
                )
            } else {
                c
            }
        }
    }

    /// What aborting the events `j..count` of transaction `t` gives.
    pub open spec fn abort_events(self, t: usize, j: int, count: int) -> (Graph, Seq<Action>)
        decreases count - j,
    {
        if j < 0 || j >= count {
            (self, Seq::empty())
        } else {
            let a = self.abort_event(EvRef { txn: t, idx: j as usize });
            let rest = a.0.abort_events(t, j + 1, count);
            (rest.0, a.1 + rest.1)
        }
    }

    /// What aborting transaction `t` gives.  Only a waiting transaction is
    /// aborted: its events are aborted one by one, none of them is counted
    /// as unfinished any more, and it tries to commit, so that the
    /// transactions that read from it can go on.
    pub open spec fn abort_txn(self, t: usize) -> (Graph, Seq<Action>, Seq<Finished>) {
        let n = self.txn(t);
        if n.status != TxnStatus::WAITING {
            (self, Seq::empty(), Seq::empty())
        } else {
            let g1 = self.with_txn(t, TxnState { status: TxnStatus::ABORTED, ..n });
            let a = g1.abort_events(t, 0, n.ev_nodes.len() as int);
            let g2 = a.0.with_txn(t, TxnState { unfinished_events: 0, ..a.0.txn(t) });
            let c = g2.try_commit(t);
            (c.0, a.1, c.1)
        }
    }

    /// Replacing an event changes the number of accepted events by that
    /// event's share.
    pub proof fn lemma_total_with_ev(self, r: EvRef, e: EvState)
        requires
            self.has_ev(r),
        ensures
            accepted_total(self.with_ev(r, e).nodes) + (if self.ev(r).status
                == EventStatus::ACCEPTED {
                1int
            } else {
                0int
            }) == accepted_total(self.nodes) + (if e.status == EventStatus::ACCEPTED {
                1int
            } else {
                0int
            }),
    {
        let n = self.txn(r.txn);
        let n2 = TxnState { ev_nodes: n.ev_nodes.update(r.idx as int, e), ..n };
        lemma_unaccepted_update(n.ev_nodes, r.idx as int, e);
        lemma_accepted_total_update(self.nodes, r.txn as int, n2);
    }

    /// Replacing the links, state or counter of a transaction leaves the
    /// number of accepted events as it is.
    pub proof fn lemma_total_with_txn(self, t: usize, n: TxnState)
        requires
            self.has_txn(t),
            n.ev_nodes == self.txn(t).ev_nodes,
        ensures
            accepted_total(self.with_txn(t, n).nodes) == accepted_total(self.nodes),
    {
        lemma_accepted_total_update(self.nodes, t as int, n);
    }

    /// Visiting a reader keeps the graph in order, and takes back at most
    /// its own acceptance.
    pub proof fn lemma_visit_child(self, parent: EvRef, son: EvRef)
        requires
            self.wf(),
            self.has_ev(son),
        ensures
            self.visit_child(parent, son).0.wf(),
            self.visit_child(parent, son).0.same_frame(self),
            accepted_total(self.visit_child(parent, son).0.nodes) + (if self.visit_child(
                parent,
                son,
            ).1 {
                1int
            } else {
                0int
            }) == accepted_total(self.nodes),
    {
        let e = self.ev(son);
        assert(self.txn_ok(son.txn));
        assert(self.ev_ok(son));
        if self.txn(son.txn).dropped {
            return ;
        }
        match e.status {
            EventStatus::ACCEPTED => {
                let e1 = e.with_status(EventStatus::WAITING);
                self.lemma_restate(son, e1);
                self.lemma_total_with_ev(son, e1);
                let g1 = self.with_ev(son, e1);
                let n = g1.txn(son.txn);
                let n2 = TxnState {
                    unfinished_events: if n.status == TxnStatus::WAITING && n.unfinished_events
                        < 0xffff {
                        (n.unfinished_events + 1) as u16
                    } else {
                        n.unfinished_events
                    },
                    ..n
                };
                g1.lemma_recount(son.txn, n2);
                g1.lemma_total_with_txn(son.txn, n2);
                let g2 = g1.with_txn(son.txn, n2);
                g2.lemma_same_keys_trans(g1, self);
                let e3 = g2.ev(son).with_flags_of(parent, false);
                g2.lemma_restate(son, e3);
                g2.lemma_total_with_ev(son, e3);
                g2.with_ev(son, e3).lemma_same_keys_trans(g2, self);
            },
            EventStatus::CLAIMED | EventStatus::INQUEUE => {
                let e1 = e.with_status(EventStatus::WAITING).with_flags_of(parent, false);
                self.lemma_restate(son, e1);
                self.lemma_total_with_ev(son, e1);
            },
            EventStatus::WAITING => {
                let e1 = e.with_flags_of(parent, false);
                self.lemma_restate(son, e1);
                self.lemma_total_with_ev(son, e1);
            },
            EventStatus::ABORTED | EventStatus::CONSTRUCT => {},
        }
    }

    /// Visiting the readers of an event keeps the graph in order; the
    /// number of accepted events falls by the number of acceptances taken
    /// back, and each reader that is returned is an event of the graph.
    pub proof fn lemma_visit_children(self, parent: EvRef, children: Seq<EvRef>, j: int)
        requires
            self.wf(),
        ensures
            self.visit_children(parent, children, j).0.wf(),
            self.visit_children(parent, children, j).0.same_frame(self),
            accepted_total(self.visit_children(parent, children, j).0.nodes)
                + self.visit_children(parent, children, j).1.len() == accepted_total(self.nodes),
            forall|i: int|
                0 <= i < self.visit_children(parent, children, j).1.len() ==> self.has_ev(
                    #[trigger] self.visit_children(parent, children, j).1[i],
                ),
        decreases children.len() - j,
    {
        if 0 <= j < children.len() {
            if self.has_ev(children[j]) {
                self.lemma_visit_child(parent, children[j]);
                let v = self.visit_child(parent, children[j]);
                v.0.lemma_visit_children(parent, children, j + 1);
                let rest = v.0.visit_children(parent, children, j + 1);
                rest.0.lemma_same_keys_trans(v.0, self);
            } else {
                self.lemma_visit_children(parent, children, j + 1);
            }
        }
    }

    /// Replacing an event twice is replacing it once.
    pub proof fn lemma_with_ev_twice(self, r: EvRef, a: EvState, b: EvState)
        requires
            self.has_ev(r),
        ensures
            self.with_ev(r, a).with_ev(r, b) == self.with_ev(r, b),
    {
        let g1 = self.with_ev(r, a).with_ev(r, b);
        let g2 = self.with_ev(r, b);
        assert(g1.nodes[r.txn as int].ev_nodes =~= g2.nodes[r.txn as int].ev_nodes);
        assert(g1.nodes =~= g2.nodes);
    }

    /// A rollback keeps the graph in order.
    pub proof fn lemma_cascade(self, stack: Seq<EvRef>, fuel: nat)
        requires
            self.wf(),
        ensures
            self.cascade(stack, fuel).0.wf(),
            self.cascade(stack, fuel).0.same_frame(self),
        decreases fuel, stack.len(),
    {
        if stack.len() > 0 {
            if !self.has_ev(stack.last()) {
                self.lemma_cascade(stack.drop_last(), fuel);
            } else {
                let v = self.visit_children(stack.last(), self.ev(stack.last()).read_by, 0);
                self.lemma_visit_children(stack.last(), self.ev(stack.last()).read_by, 0);
                if v.1.len() <= fuel {
                    v.0.lemma_cascade(stack.drop_last() + v.1, (fuel - v.1.len()) as nat);
                    v.0.cascade(
                        stack.drop_last() + v.1,
                        (fuel - v.1.len()) as nat,
                    ).0.lemma_same_keys_trans(v.0, self);
                }
            }
        }
    }

    /// Aborting an event keeps the graph in order.
    pub proof fn lemma_abort_event(self, r: EvRef)
        requires
            self.wf(),
            self.has_ev(r),
        ensures
            self.abort_event(r).0.wf(),
            self.abort_event(r).0.same_frame(self),
    {
        let e = self.ev(r);
        if e.status != EventStatus::ABORTED {
            let g1 = self.with_ev(r, e.with_status(EventStatus::ABORTED));
            self.lemma_restate(r, e.with_status(EventStatus::ABORTED));
            g1.lemma_cascade(seq![r], accepted_total(g1.nodes));
            let c = g1.cascade(seq![r], accepted_total(g1.nodes));
            c.0.lemma_same_keys_trans(g1, self);
            let e2 = c.0.ev(r);
            if e2.has_write {
                c.0.lemma_restate(r, EvState { has_storage_slot: true, ..e2 });
                c.0.with_ev(r, EvState { has_storage_slot: true, ..e2 }).lemma_same_keys_trans(
                    c.0,
                    self,
                );
            }
        }
    }

    /// Aborting the events of a transaction keeps the graph in order.
    pub proof fn lemma_abort_events(self, t: usize, j: int, count: int)
        requires
            self.wf(),
            self.has_txn(t),
            count <= self.txn(t).ev_nodes.len(),
        ensures
            self.abort_events(t, j, count).0.wf(),
            self.abort_events(t, j, count).0.same_frame(self),
        decreases count - j,
    {
        if 0 <= j < count {
            let r = EvRef { txn: t, idx: j as usize };
            self.lemma_abort_event(r);
            let a = self.abort_event(r);
            assert(a.0.nodes[t as int].same_keys(self.nodes[t as int]));
            a.0.lemma_abort_events(t, j + 1, count);
            a.0.abort_events(t, j + 1, count).0.lemma_same_keys_trans(a.0, self);
        }
    }

    /// Aborting a transaction keeps the graph in order.
    pub proof fn lemma_abort_txn(self, t: usize)
        requires
            self.wf(),
            self.has_txn(t),
        ensures
            self.abort_txn(t).0.wf(),
            self.abort_txn(t).0.same_frame(self),
    {
        let n = self.txn(t);
        if n.status == TxnStatus::WAITING {
            let g1 = self.with_txn(t, TxnState { status: TxnStatus::ABORTED, ..n });
            self.lemma_recount(t, TxnState { status: TxnStatus::ABORTED, ..n });
            g1.lemma_abort_events(t, 0, n.ev_nodes.len() as int);
            let a = g1.abort_events(t, 0, n.ev_nodes.len() as int);
            a.0.lemma_same_keys_trans(g1, self);
            let n2 = TxnState { unfinished_events: 0, ..a.0.txn(t) };
            a.0.lemma_recount(t, n2);
            let g2 = a.0.with_txn(t, n2);
            g2.lemma_same_keys_trans(a.0, self);
            g2.lemma_try_commit(t, g2.nodes.len());
            g2.try_commit(t).0.lemma_same_keys_trans(g2, self);
        }
    }
}

} // verus!
