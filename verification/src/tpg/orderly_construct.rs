use crate::ds::transactions::Txn;
use crate::external::ffi::TxnMessage;
use crate::tpg::marks::lemma_no_waiting_same;
use crate::tpg::model::{EvRef, EvState, EventStatus, Graph, TxnStatus};
use crate::tpg::published::pending;
use vstd::prelude::*;

verus! {

impl Graph {
    /// The graph is in order while the events of the newest transaction
    /// `t` are started, from event `j` on: no event of the transaction has
    /// delivered, and those from `j` on are under construction.
    pub open spec fn being_launched(self, t: usize, j: int) -> bool {
        &&& self.orderly()
        &&& self.fed(t)
        &&& forall|e: int|
            0 <= e < self.txn(t).ev_nodes.len() ==> pending(
                (#[trigger] self.txn(t).ev_nodes[e]).status,
            )
        &&& forall|e: int|
            j <= e < self.txn(t).ev_nodes.len() ==> (#[trigger] self.txn(t).ev_nodes[e]).status
                == EventStatus::CONSTRUCT
    }

    /// Starting an event and offering it to the queue keeps the graph in
    /// order.
    pub proof fn lemma_being_started(self, r: EvRef)
        requires
            self.wf(),
            self.has_ev(r),
            self.being_launched(r.txn, r.idx as int),
        ensures
            self.start_and_offer(r).0.being_launched(r.txn, r.idx + 1),
    {
        let t = r.txn;
        let none = Set::<EvRef>::empty();
        let one = none.insert(r);
        let e = self.ev(r);
        assert(self.txn_ok(t));
        assert(self.ev_ok(r));
        assert(self.txn(t).ev_nodes[r.idx as int].status == EventStatus::CONSTRUCT);
        let e1 = EvState {
            status: EventStatus::WAITING,
            fulfilled: Seq::new(e.fulfilled.len(), |i: int| self.delivered(e.read_from[i])),
            ..e
        };
        let g1 = self.start_event(r);
        assert(g1 == self.with_ev(r, e1));
        assert forall|i: int| 0 <= i < e1.fulfilled.len() && !(#[trigger] e1.fulfilled[i]) implies (
        e1.read_from[i] matches Some(p) && (pending(self.ev(p).status) || none.contains(p))) by {
            match e.read_from[i] {
                Some(p) => {
                    assert(self.has_ev(p));
                    assert(self.txn(t).ev_nodes[r.idx as int].read_from[i] == Some(p));
                    if p.txn == t {
                        assert(pending(self.txn(t).ev_nodes[p.idx as int].status));
                    } else {
                        assert(self.txn(p.txn).status == TxnStatus::WAITING);
                        assert(self.ev(p).status != EventStatus::ABORTED);
                    }
                },
                None => {},
            }
        }
        self.lemma_marks_weaken(none, none, none, one);
        self.lemma_marks_restate(r, e1, none, one);
        self.lemma_restate(r, e1);
        self.lemma_steady_with_ev(r, e1);
        self.lemma_mutual_kept(g1);
        self.lemma_together_kept(g1);
        self.lemma_slots_with_ev(r, e1);
        self.lemma_awaits_kept(g1, Set::empty());
        let g2 = g1.offer(r).0;
        assert(g1.ev(r) == e1);
        if !e1.no_waiting() {
            assert(g2 == g1);
            assert forall|x: EvRef| g1.has_ev(x) && one.contains(x) && !none.contains(x) implies (
            #[trigger] g1.ev(x)).placed() by {}
            g1.lemma_marks_tighten(none, one, none);
        } else {
            let e2 = e1.with_status(EventStatus::INQUEUE);
            let g1b = g1.with_ev(r, e2);
            lemma_no_waiting_same(e1, e2);
            assert(g1.marked(r, none, one));
            g1.lemma_marks_with_ev(r, e2, none, none);
            g1.lemma_restate(r, e2);
            g1.lemma_steady_with_ev(r, e2);
            g1.lemma_mutual_kept(g1b);
            g1.lemma_together_kept(g1b);
            g1.lemma_slots_with_ev(r, e2);
            g1.lemma_awaits_kept(g1b, Set::empty());
            g1b.lemma_orderly_requeue(g1.ready_queue.push(r));
            assert(g2 == (Graph { ready_queue: g1.ready_queue.push(r), ..g1b }));
        }
        assert(g2.nodes.len() == self.nodes.len());
        assert forall|x: EvRef| self.has_ev(x) && x != r implies #[trigger] g2.ev(x) == self.ev(
            x,
        ) by {}
        assert forall|x: usize| self.has_txn(x) implies (#[trigger] g2.txn(x)).status == self.txn(
            x,
        ).status by {}
        assert(g2.ev(r).read_from == e.read_from);
        assert(pending(g2.ev(r).status));
        assert(g2.fed(t)) by {
            assert forall|a: int, k: int|
                #![trigger g2.txn(t).ev_nodes[a].read_from[k]]
                0 <= a < g2.txn(t).ev_nodes.len() && 0 <= k < g2.txn(
                    t,
                ).ev_nodes[a].read_from.len() implies (g2.txn(
                t,
            ).ev_nodes[a].read_from[k] matches Some(q) ==> q.txn == t || g2.txn(q.txn).status
                == TxnStatus::WAITING) by {
                let x = EvRef { txn: t, idx: a as usize };
                assert(self.has_ev(x));
                assert(self.ev_ok(x));
                if x != r {
                    assert(g2.ev(x) == self.ev(x));
                }
                match self.txn(t).ev_nodes[a].read_from[k] {
                    Some(q) => {
                        assert(self.has_ev(q));
                    },
                    None => {},
                }
            }
        }
        assert forall|a: int| 0 <= a < g2.txn(t).ev_nodes.len() implies pending(
            (#[trigger] g2.txn(t).ev_nodes[a]).status,
        ) by {
            let x = EvRef { txn: t, idx: a as usize };
            if x != r {
                assert(g2.ev(x) == self.ev(x));
                assert(pending(self.txn(t).ev_nodes[a].status));
            }
        }
        assert forall|a: int| r.idx + 1 <= a < g2.txn(t).ev_nodes.len() implies (#[trigger] g2.txn(
            t,
        ).ev_nodes[a]).status == EventStatus::CONSTRUCT by {
            let x = EvRef { txn: t, idx: a as usize };
            assert(g2.ev(x) == self.ev(x));
            assert(self.txn(t).ev_nodes[a].status == EventStatus::CONSTRUCT);
        }
    }

    /// Starting and offering the events of a transaction keeps the graph
    /// in order.
    pub proof fn lemma_being_launched(self, t: usize, j: int, count: int)
        requires
            self.wf(),
            self.has_txn(t),
            0 <= j <= count,
            count == self.txn(t).ev_nodes.len(),
            self.being_launched(t, j),
        ensures
            self.launch(t, j, count).0.orderly(),
        decreases count - j,
    {
        if j < count {
            let r = EvRef { txn: t, idx: j as usize };
            assert(self.txn_ok(t));
            self.lemma_being_started(r);
            self.lemma_start(r);
            self.start_event(r).lemma_offer(r);
            let s = self.start_and_offer(r);
            assert(s.0.nodes[t as int].same_keys(self.start_event(r).nodes[t as int]));
            assert(self.start_event(r).nodes[t as int].same_keys(self.nodes[t as int]));
            s.0.lemma_being_launched(t, j + 1, count);
        }
    }

    /// The construct thread keeps the graph in order, as long as the
    /// request comes in time.
    pub proof fn lemma_orderly_construct(self, msg: TxnMessage, templates: Vec<Txn>)
        requires
            self.wf(),
            self.sound(),
            self.orderly(),
            self.in_time(msg, templates),
            self.nodes.len() < usize::MAX,
        ensures
            self.construct(msg, templates).0.orderly(),
    {
        if self.accepts(msg, templates) {
            let t = self.nodes.len() as usize;
            let g0 = self.enlisted(msg, templates);
            self.lemma_enlisted(msg, templates);
            self.lemma_sound_enlisted(msg, templates);
            self.lemma_being_enlisted(msg, templates);
            let count = g0.txn(t).ev_nodes.len() as int;
            g0.lemma_being_link_events(t, count);
            g0.lemma_linking_events(t, count);
            let g1 = g0.set_links(t);
            assert(g1.nodes[t as int].same_keys(g0.nodes[t as int]));
            assert(g1.being_launched(t, 0)) by {
                assert forall|e: int| 0 <= e < g1.txn(t).ev_nodes.len() implies pending(
                    (#[trigger] g1.txn(t).ev_nodes[e]).status,
                ) by {
                    assert(g1.txn(t).ev_nodes[e].status == EventStatus::CONSTRUCT);
                }
            }
            g1.lemma_being_launched(t, 0, g1.txn(t).ev_nodes.len() as int);
        }
    }
}

} // verus!
