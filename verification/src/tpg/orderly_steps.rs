use crate::tpg::model::{EvRef, EvState, EventStatus, Graph, TxnState, TxnStatus};
use vstd::prelude::*;

verus! {

impl Graph {
    /// Accepting a result leaves no committed parent awaited.
    pub proof fn lemma_awaits_accept(self, r: EvRef)
        requires
            self.wf(),
            self.mutual(),
            self.has_ev(r),
            self.awaits_pending(Set::empty()),
        ensures
            self.accept(r).0.awaits_pending(Set::empty()),
    {
        let e = self.ev(r);
        if e.status == EventStatus::CLAIMED {
            let e1 = e.with_status(EventStatus::ACCEPTED);
            let g1 = self.with_ev(r, e1);
            self.lemma_restate(r, e1);
            self.lemma_slots_with_ev(r, e1);
            self.lemma_awaits_kept(g1, Set::empty());
            self.lemma_steady_with_ev(r, e1);
            self.lemma_mutual_kept(g1);
            let n = g1.txn(r.txn);
            let n2 = TxnState {
                unfinished_events: if n.unfinished_events > 0 {
                    (n.unfinished_events - 1) as u16
                } else {
                    0
                },
                ..n
            };
            let g2 = g1.with_txn(r.txn, n2);
            g1.lemma_recount(r.txn, n2);
            g1.lemma_slots_with_txn(r.txn, n2);
            g1.lemma_awaits_kept(g2, Set::empty());
            g1.lemma_steady_with_txn(r.txn, n2);
            g1.lemma_mutual_kept(g2);
            if g2.txn(r.txn).unfinished_events == 0 {
                g2.lemma_awaits_try_commit(r.txn, g2.nodes.len(), Set::empty());
            }
        }
    }

    /// Aborting a transaction leaves no committed parent awaited.
    pub proof fn lemma_awaits_abort_txn(self, t: usize)
        requires
            self.wf(),
            self.mutual(),
            self.has_txn(t),
            self.awaits_pending(Set::empty()),
        ensures
            self.abort_txn(t).0.awaits_pending(Set::empty()),
    {
        let n = self.txn(t);
        if n.status == TxnStatus::WAITING {
            let n1 = TxnState { status: TxnStatus::ABORTED, ..n };
            let g1 = self.with_txn(t, n1);
            self.lemma_recount(t, n1);
            self.lemma_steady_with_txn(t, n1);
            self.lemma_mutual_kept(g1);
            assert(g1.awaits_pending(Set::empty())) by {
                assert forall|x: usize, i: int|
                    #![trigger g1.txn(x).read_from[i]]
                    g1.has_txn(x) && 0 <= i < g1.txn(x).read_from.len() implies (g1.txn(
                    x,
                ).read_from[i] matches Some(p) ==> g1.txn(p).status != TxnStatus::COMMITED) by {
                    assert(g1.txn(x).read_from == self.txn(x).read_from);
                    match self.txn(x).read_from[i] {
                        Some(p) => {
                            assert(self.txn_ok(x));
                            if p != t {
                                assert(g1.txn(p) == self.txn(p));
                            }
                        },
                        None => {},
                    }
                }
            }
            let count = n.ev_nodes.len() as int;
            g1.lemma_slots_abort_events(t, 0, count);
            g1.lemma_abort_events(t, 0, count);
            g1.lemma_steady_abort_events(t, 0, count);
            let a = g1.abort_events(t, 0, count);
            g1.lemma_awaits_kept(a.0, Set::empty());
            g1.lemma_mutual_kept(a.0);
            let n2 = TxnState { unfinished_events: 0, ..a.0.txn(t) };
            let g2 = a.0.with_txn(t, n2);
            a.0.lemma_recount(t, n2);
            a.0.lemma_slots_with_txn(t, n2);
            a.0.lemma_awaits_kept(g2, Set::empty());
            a.0.lemma_steady_with_txn(t, n2);
            a.0.lemma_mutual_kept(g2);
            g2.lemma_awaits_try_commit(t, g2.nodes.len(), Set::empty());
        }
    }

    /// A claim keeps the graph in order.
    pub proof fn lemma_orderly_claim(self, r: EvRef)
        requires
            self.wf(),
            self.has_ev(r),
            self.orderly(),
        ensures
            self.claim(r).0.orderly(),
    {
        let after = self.claim(r).0;
        self.lemma_steady_claim(r);
        self.lemma_mutual_kept(after);
        self.lemma_together_kept(after);
        self.lemma_marks_claim(r, Set::empty(), Set::empty());
        self.lemma_slots_with_ev(r, self.ev(r).with_status(EventStatus::CLAIMED));
        self.lemma_awaits_kept(after, Set::empty());
    }

    /// A change of the queue keeps the graph in order.
    pub proof fn lemma_orderly_requeue(self, queue: Seq<EvRef>)
        requires
            self.wf(),
            self.orderly(),
        ensures
            (Graph { ready_queue: queue, ..self }).orderly(),
    {
        let after = Graph { ready_queue: queue, ..self };
        assert(self.steady(after));
        self.lemma_mutual_kept(after);
        self.lemma_together_kept(after);
        self.lemma_marks_same_events(after, Set::empty(), Set::empty());
        assert(self.slots_same(after));
        self.lemma_awaits_kept(after, Set::empty());
    }

    /// A pass that releases what can be released keeps the graph in order.
    pub proof fn lemma_orderly_collect(self)
        requires
            self.wf(),
            self.orderly(),
        ensures
            self.collect().0.orderly(),
    {
        let after = self.collect().0;
        self.lemma_steady_sweep(self.nodes.len() as int);
        self.lemma_mutual_kept(after);
        self.lemma_together_kept(after);
        self.lemma_quiet_sweep(self.nodes.len() as int);
        self.lemma_marks_same_events(after, Set::empty(), Set::empty());
        self.lemma_slots_sweep(self.nodes.len() as int);
        self.lemma_awaits_kept(after, Set::empty());
    }

    /// Shutting the graph down keeps it in order.
    pub proof fn lemma_orderly_teardown(self)
        requires
            self.wf(),
            self.orderly(),
        ensures
            self.teardown().0.orderly(),
    {
        let g = self.unpublish();
        self.lemma_unpublish();
        assert(self.steady(g));
        self.lemma_mutual_kept(g);
        self.lemma_together_kept(g);
        self.lemma_marks_same_events(g, Set::empty(), Set::empty());
        assert(self.slots_same(g));
        self.lemma_awaits_kept(g, Set::empty());
        g.lemma_orderly_collect();
    }

    /// Taking the result of an event keeps the graph in order.
    pub proof fn lemma_orderly_complete(self, r: EvRef, value: Seq<u8>)
        requires
            self.wf(),
            self.has_ev(r),
            self.orderly(),
        ensures
            self.complete(r, value).1.orderly(),
    {
        let after = self.complete(r, value).1;
        self.lemma_steady_complete(r, value);
        self.lemma_mutual_kept(after);
        self.lemma_together_kept(after);
        self.lemma_marks_complete(r, value);
        let a = self.accept(r);
        if !self.txn(r.txn).dropped && a.1 {
            self.lemma_awaits_accept(r);
            self.lemma_accept(r);
            assert(a.0.nodes[r.txn as int].same_keys(self.nodes[r.txn as int]));
            let e = EvState { has_storage_slot: true, written: value, ..a.0.ev(r) };
            a.0.lemma_restate(r, e);
            a.0.lemma_slots_with_ev(r, e);
            let w = a.0.write_back(r, value);
            a.0.lemma_awaits_kept(w.0, Set::empty());
            assert(w.0.nodes[r.txn as int].same_keys(a.0.nodes[r.txn as int]));
            w.0.lemma_slots_get_next(r);
            w.0.lemma_get_next(r);
            let n = w.0.get_next(r);
            w.0.lemma_awaits_kept(n.0, Set::empty());
            n.0.lemma_slots_sweep(n.0.nodes.len() as int);
            n.0.lemma_awaits_kept(n.0.collect().0, Set::empty());
        }
    }

    /// Taking the abort of an event keeps the graph in order.
    pub proof fn lemma_orderly_fail(self, r: EvRef)
        requires
            self.wf(),
            self.has_ev(r),
            self.orderly(),
        ensures
            self.fail(r).0.orderly(),
    {
        let after = self.fail(r).0;
        self.lemma_steady_fail(r);
        self.lemma_mutual_kept(after);
        self.lemma_together_kept(after);
        self.lemma_marks_fail(r);
        let t = r.txn;
        self.lemma_awaits_abort_txn(t);
        self.lemma_abort_txn(t);
        let a = self.abort_txn(t);
        assert(a.0.nodes[t as int].same_keys(self.nodes[t as int]));
        let count = a.0.txn(t).ev_nodes.len() as int;
        a.0.lemma_slots_follow_up(t, 0, count);
        a.0.lemma_follow_up(t, 0, count);
        let n = a.0.follow_up(t, 0, count);
        a.0.lemma_awaits_kept(n.0, Set::empty());
        n.0.lemma_slots_sweep(n.0.nodes.len() as int);
        n.0.lemma_awaits_kept(n.0.collect().0, Set::empty());
    }

    /// Whether `after` is in order if `self` is.
    #[verifier::opaque]
    pub open spec fn orderly_kept(self, after: Graph) -> bool {
        self.orderly() ==> after.orderly()
    }

    /// Taking the answer of the executor keeps the graph in order.
    pub proof fn lemma_orderly_finish(self, r: EvRef, aborted: bool, value: Seq<u8>)
        requires
            self.wf(),
            self.has_ev(r),
        ensures
            aborted ==> self.orderly_kept(self.fail(r).0),
            !aborted ==> self.orderly_kept(self.complete(r, value).1),
    {
        reveal(Graph::orderly_kept);
        if self.orderly() {
            if aborted {
                self.lemma_orderly_fail(r);
            } else {
                self.lemma_orderly_complete(r, value);
            }
        }
    }

    /// A graph that is kept in order is in order if it was.
    pub proof fn lemma_orderly_kept(self, after: Graph)
        requires
            self.orderly_kept(after),
            self.orderly(),
        ensures
            after.orderly(),
    {
        reveal(Graph::orderly_kept);
    }
}

} // verus!
