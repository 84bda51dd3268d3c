use crate::tpg::model::{EvRef, EvState, EventStatus, Graph, TxnStatus};
use crate::tpg::published::pending;
use vstd::prelude::*;

verus! {

impl Graph {
    /// The links are mutual.  The producer of a read has the reader among
    /// its readers, every reader reads from the event that lists it, and
    /// an awaited parent has the transaction that awaits it among its
    /// readers.
    pub open spec fn mutual(self) -> bool {
        &&& forall|r: EvRef, i: int|
            #![trigger self.ev(r).read_from[i]]
            self.has_ev(r) && 0 <= i < self.ev(r).read_from.len() ==> (self.ev(
                r,
            ).read_from[i] matches Some(p) ==> self.ev(p).read_by.contains(r))
        &&& forall|p: EvRef, j: int|
            #![trigger self.ev(p).read_by[j]]
            self.has_ev(p) && 0 <= j < self.ev(p).read_by.len() ==> self.ev(
                self.ev(p).read_by[j],
            ).read_from.contains(Some(p))
        &&& forall|x: usize, i: int|
            #![trigger self.txn(x).read_from[i]]
            self.has_txn(x) && 0 <= i < self.txn(x).read_from.len() ==> (self.txn(
                x,
            ).read_from[i] matches Some(p) ==> self.txn(p).read_by.contains(x))
    }

    /// Events are aborted only with their transaction, and every
    /// transaction has an event.
    pub open spec fn aborted_together(self) -> bool {
        &&& forall|r: EvRef|
            self.has_ev(r) && (#[trigger] self.ev(r)).status == EventStatus::ABORTED ==> self.txn(
                r.txn,
            ).status != TxnStatus::WAITING
        &&& forall|t: int| 0 <= t < self.nodes.len() ==> (#[trigger] self.nodes[t]).ev_nodes.len() > 0
    }

    /// The marks of event `r` are in line with its state.  An event that is
    /// queued, claimed or accepted has every read satisfied.  An event that
    /// waits, unless it is in `loose`, has a read that is not satisfied;
    /// and a read of it is not satisfied only while its producer has not
    /// delivered, or is in `exempt`.
    pub open spec fn marked(self, r: EvRef, exempt: Set<EvRef>, loose: Set<EvRef>) -> bool {
        let e = self.ev(r);
        &&& e.status == EventStatus::INQUEUE || e.status == EventStatus::CLAIMED || e.status
            == EventStatus::ACCEPTED ==> e.no_waiting()
        &&& e.status == EventStatus::WAITING && !loose.contains(r) ==> !e.no_waiting()
        &&& e.status == EventStatus::WAITING ==> forall|i: int|
            0 <= i < e.fulfilled.len() && !(#[trigger] e.fulfilled[i]) ==> (
            e.read_from[i] matches Some(p) && (pending(self.ev(p).status) || exempt.contains(p)))
    }

    /// The marks of every event are in line with its state.
    pub open spec fn marks(self, exempt: Set<EvRef>, loose: Set<EvRef>) -> bool {
        forall|r: EvRef| self.has_ev(r) ==> #[trigger] self.marked(r, exempt, loose)
    }

    /// No transaction awaits a parent that has committed, but for the
    /// parents in `exempt`.
    pub open spec fn awaits_pending(self, exempt: Set<usize>) -> bool {
        forall|t: usize, i: int|
            #![trigger self.txn(t).read_from[i]]
            self.has_txn(t) && 0 <= i < self.txn(t).read_from.len() ==> (self.txn(
                t,
            ).read_from[i] matches Some(p) ==> self.txn(p).status != TxnStatus::COMMITED
                || exempt.contains(p))
    }

    /// What holds between any two steps of an engine whose requests arrive
    /// in time: the links are mutual, events are aborted only with their
    /// transaction, the marks are in line with the states, and only
    /// parents that have not committed are awaited.
    pub open spec fn orderly(self) -> bool {
        &&& self.mutual()
        &&& self.aborted_together()
        &&& self.marks(Set::empty(), Set::empty())
        &&& self.awaits_pending(Set::empty())
    }

    /// What is steady keeps the links mutual.
    pub proof fn lemma_mutual_kept(self, after: Graph)
        requires
            self.wf(),
            self.mutual(),
            self.steady(after),
        ensures
            after.mutual(),
    {
        assert forall|r: EvRef, i: int|
            #![trigger after.ev(r).read_from[i]]
            after.has_ev(r) && 0 <= i < after.ev(r).read_from.len() implies (after.ev(
            r,
        ).read_from[i] matches Some(p) ==> after.ev(p).read_by.contains(r)) by {
            assert(after.nodes[r.txn as int].ev_nodes[r.idx as int].read_from == self.ev(
                r,
            ).read_from);
            match self.ev(r).read_from[i] {
                Some(p) => {
                    assert(self.txn_ok(r.txn));
                    assert(self.ev_ok(r));
                    assert(self.has_ev(p));
                    assert(after.nodes[p.txn as int].ev_nodes[p.idx as int].read_by == self.ev(
                        p,
                    ).read_by);
                },
                None => {},
            }
        }
        assert forall|p: EvRef, j: int|
            #![trigger after.ev(p).read_by[j]]
            after.has_ev(p) && 0 <= j < after.ev(p).read_by.len() implies after.ev(
            after.ev(p).read_by[j],
        ).read_from.contains(Some(p)) by {
            assert(after.nodes[p.txn as int].ev_nodes[p.idx as int].read_by == self.ev(p).read_by);
            let r = self.ev(p).read_by[j];
            assert(self.txn_ok(p.txn));
            assert(self.ev_ok(p));
            assert(self.has_ev(r));
            assert(after.nodes[r.txn as int].ev_nodes[r.idx as int].read_from == self.ev(
                r,
            ).read_from);
        }
        assert forall|x: usize, i: int|
            #![trigger after.txn(x).read_from[i]]
            after.has_txn(x) && 0 <= i < after.txn(x).read_from.len() implies (after.txn(
            x,
        ).read_from[i] matches Some(p) ==> after.txn(p).read_by.contains(x)) by {
            assert(after.nodes[x as int].read_from[i] == self.nodes[x as int].read_from[i]
                || after.nodes[x as int].read_from[i] is None);
            match after.txn(x).read_from[i] {
                Some(p) => {
                    assert(self.txn(x).read_from[i] == Some(p));
                    assert(self.txn_ok(x));
                    assert(after.nodes[p as int].read_by == self.nodes[p as int].read_by);
                },
                None => {},
            }
        }
    }

    /// What is steady keeps events from being aborted without their
    /// transaction.
    pub proof fn lemma_together_kept(self, after: Graph)
        requires
            self.aborted_together(),
            self.steady(after),
        ensures
            after.aborted_together(),
    {
        assert forall|r: EvRef|
            after.has_ev(r) && (#[trigger] after.ev(r)).status
                == EventStatus::ABORTED implies after.txn(r.txn).status != TxnStatus::WAITING by {
            assert(after.nodes[r.txn as int].ev_nodes.len() == self.nodes[r.txn as int].ev_nodes.len());
            assert(after.nodes[r.txn as int].ev_nodes[r.idx as int].status == EventStatus::ABORTED);
            if self.ev(r).status == EventStatus::ABORTED {
                assert(self.txn(r.txn).status != TxnStatus::WAITING);
            }
        }
        assert forall|t: int| 0 <= t < after.nodes.len() implies (
        #[trigger] after.nodes[t]).ev_nodes.len() > 0 by {
            assert(self.nodes[t].ev_nodes.len() > 0);
        }
    }

    /// Marks hold with more events exempt or loose.
    pub proof fn lemma_marks_weaken(
        self,
        exempt: Set<EvRef>,
        loose: Set<EvRef>,
        more_exempt: Set<EvRef>,
        more_loose: Set<EvRef>,
    )
        requires
            self.marks(exempt, loose),
            exempt.subset_of(more_exempt),
            loose.subset_of(more_loose),
        ensures
            self.marks(more_exempt, more_loose),
    {
        assert forall|r: EvRef| self.has_ev(r) implies #[trigger] self.marked(
            r,
            more_exempt,
            more_loose,
        ) by {
            assert(self.marked(r, exempt, loose));
        }
    }

    /// An exemption of events that the graph does not have is none.
    pub proof fn lemma_marks_exempt_none(self, exempt: Set<EvRef>, loose: Set<EvRef>)
        requires
            self.wf(),
            self.marks(exempt, loose),
            forall|r: EvRef| exempt.contains(r) ==> !self.has_ev(r),
        ensures
            self.marks(Set::empty(), loose),
    {
        assert forall|r: EvRef| self.has_ev(r) implies #[trigger] self.marked(
            r,
            Set::empty(),
            loose,
        ) by {
            assert(self.marked(r, exempt, loose));
            assert(self.txn_ok(r.txn));
            assert(self.ev_ok(r));
        }
    }

    /// Where the events are the same, the marks are.
    pub proof fn lemma_marks_same_events(self, after: Graph, exempt: Set<EvRef>, loose: Set<EvRef>)
        requires
            self.wf(),
            self.marks(exempt, loose),
            after.nodes.len() == self.nodes.len(),
            forall|t: int|
                0 <= t < self.nodes.len() ==> (#[trigger] after.nodes[t]).ev_nodes
                    == self.nodes[t].ev_nodes,
        ensures
            after.marks(exempt, loose),
    {
        assert forall|r: EvRef| after.has_ev(r) implies #[trigger] after.marked(
            r,
            exempt,
            loose,
        ) by {
            assert(after.nodes[r.txn as int].ev_nodes == self.nodes[r.txn as int].ev_nodes);
            assert(self.marked(r, exempt, loose));
            assert(self.txn_ok(r.txn));
            assert(self.ev_ok(r));
            let e = self.ev(r);
            if e.status == EventStatus::WAITING {
                assert forall|i: int|
                    0 <= i < e.fulfilled.len() && !(#[trigger] e.fulfilled[i]) implies (
                after.ev(r).read_from[i] matches Some(p) && (pending(after.ev(p).status)
                    || exempt.contains(p))) by {
                    match e.read_from[i] {
                        Some(p) => {
                            assert(self.has_ev(p));
                            assert(after.nodes[p.txn as int].ev_nodes
                                == self.nodes[p.txn as int].ev_nodes);
                        },
                        None => {},
                    }
                }
            }
        }
    }

    /// A change of one event keeps the marks in line, where the new state
    /// and marks of the event are in line, and the event is exempt where it
    /// has delivered.
    pub proof fn lemma_marks_with_ev(
        self,
        r: EvRef,
        e: EvState,
        exempt: Set<EvRef>,
        loose: Set<EvRef>,
    )
        requires
            self.wf(),
            self.has_ev(r),
            self.marks(exempt, loose.insert(r)),
            e.read_from == self.ev(r).read_from,
            e.fulfilled.len() == self.ev(r).fulfilled.len(),
            !pending(e.status) ==> exempt.contains(r) || !pending(self.ev(r).status),
            e.status == EventStatus::INQUEUE || e.status == EventStatus::CLAIMED || e.status
                == EventStatus::ACCEPTED ==> e.no_waiting(),
            e.status == EventStatus::WAITING && !loose.contains(r) ==> !e.no_waiting(),
            e.status == EventStatus::WAITING ==> forall|i: int|
                0 <= i < e.fulfilled.len() && !(#[trigger] e.fulfilled[i]) ==> (
                e.read_from[i] matches Some(p) && (pending(self.ev(p).status) || exempt.contains(
                    p,
                ))),
        ensures
            self.with_ev(r, e).marks(exempt, loose),
    {
        let g = self.with_ev(r, e);
        assert(self.txn_ok(r.txn));
        assert(self.ev_ok(r));
        assert forall|c: EvRef| g.has_ev(c) implies #[trigger] g.marked(c, exempt, loose) by {
            assert(self.has_ev(c));
            assert(self.marked(c, exempt, loose.insert(r)));
            assert(self.txn_ok(c.txn));
            assert(self.ev_ok(c));
            let x = g.ev(c);
            if c == r {
                assert(x == e);
            } else {
                assert(x == self.ev(c));
            }
            if x.status == EventStatus::WAITING {
                assert forall|i: int|
                    0 <= i < x.fulfilled.len() && !(#[trigger] x.fulfilled[i]) implies (
                x.read_from[i] matches Some(p) && (pending(g.ev(p).status) || exempt.contains(
                    p,
                ))) by {
                    match x.read_from[i] {
                        Some(p) => {
                            assert(self.ev(c).read_from[i] == Some(p));
                            assert(self.has_ev(p));
                            if p == r {
                                assert(g.ev(p) == e);
                            } else {
                                assert(g.ev(p) == self.ev(p));
                            }
                        },
                        None => {},
                    }
                }
            }
        }
    }
}

} // verus!
