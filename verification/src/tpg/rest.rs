use crate::tpg::model::{unaccepted, EvRef, EvState, EventStatus, Graph, TxnStatus};
use vstd::prelude::*;

verus! {

/// Where every event is accepted, none is counted as unfinished.
pub proof fn lemma_unaccepted_none(events: Seq<EvState>)
    requires
        forall|e: int| 0 <= e < events.len() ==> (#[trigger] events[e]).status == EventStatus::ACCEPTED,
    ensures
        unaccepted(events) == 0,
    decreases events.len(),
{
    if events.len() > 0 {
        assert forall|e: int| 0 <= e < events.drop_last().len() implies (
        #[trigger] events.drop_last()[e]).status == EventStatus::ACCEPTED by {
            assert(events.drop_last()[e] == events[e]);
        }
        lemma_unaccepted_none(events.drop_last());
        assert(events.last() == events[events.len() - 1]);
    }
}

impl Graph {
    /// Nothing is left to run: no event is under construction, queued or
    /// claimed.
    pub open spec fn at_rest(self) -> bool {
        forall|r: EvRef|
            self.has_ev(r) ==> {
                &&& (#[trigger] self.ev(r)).status != EventStatus::CONSTRUCT
                &&& self.ev(r).status != EventStatus::INQUEUE
                &&& self.ev(r).status != EventStatus::CLAIMED
            }
    }

    /// When nothing is left to run and the marks are in line with the
    /// states, every event has delivered: it is accepted or aborted.
    pub proof fn lemma_rest_delivered(self, r: EvRef)
        requires
            self.wf(),
            self.at_rest(),
            self.marks(Set::empty(), Set::empty()),
            self.has_ev(r),
        ensures
            self.ev(r).status == EventStatus::ACCEPTED || self.ev(r).status == EventStatus::ABORTED,
        decreases r.txn, r.idx,
    {
        let e = self.ev(r);
        assert(self.txn_ok(r.txn));
        assert(self.ev_ok(r));
        assert(self.marked(r, Set::empty(), Set::empty()));
        if e.status == EventStatus::WAITING {
            let i = choose|i: int| 0 <= i < e.fulfilled.len() && !e.fulfilled[i];
            assert(!e.fulfilled[i]);
            match e.read_from[i] {
                Some(p) => {
                    self.lemma_rest_delivered(p);
                },
                None => {},
            }
        }
    }

    /// The engine leaves no transaction behind: when nothing is left to
    /// run, every transaction has committed.  This holds of a graph that
    /// is in order, which the steps of the engine keep so as long as every
    /// request arrives in time.
    pub proof fn lemma_rest_committed(self, t: usize)
        requires
            self.wf(),
            self.sound(),
            self.all_driven(),
            self.orderly(),
            self.at_rest(),
            self.has_txn(t),
        ensures
            self.txn(t).status == TxnStatus::COMMITED,
        decreases t,
    {
        let n = self.txn(t);
        assert(self.txn_ok(t));
        assert(self.settled(t));
        assert(self.nodes[t as int].driven());
        assert forall|i: int| 0 <= i < n.read_from.len() implies n.read_from[i] is None by {
            match n.read_from[i] {
                Some(p) => {
                    self.lemma_rest_committed(p);
                    assert(self.txn(t).read_from[i] == Some(p));
                },
                None => {},
            }
        }
        assert(n.no_waiting());
        if n.status == TxnStatus::WAITING {
            assert forall|e: int| 0 <= e < n.ev_nodes.len() implies (#[trigger] n.ev_nodes[e]).status
                == EventStatus::ACCEPTED by {
                let r = EvRef { txn: t, idx: e as usize };
                self.lemma_rest_delivered(r);
                assert(self.ev(r) == n.ev_nodes[e]);
            }
            lemma_unaccepted_none(n.ev_nodes);
        }
    }
}

} // verus!
