use crate::database::action::{Action, Source};
use crate::tpg::model::{before, EvRef, EvState, EventStatus, Graph, TxnState, TxnStatus};
use vstd::prelude::*;

verus! {

/// What came of offering an event to the ready queue.
#[derive(Debug, Clone, Copy, PartialEq, Eq, Structural)]
pub enum Enqueue {
    /// Some read is not satisfied; the event stays as it is.
    NotReady,
    /// The event was waiting and went into the queue.
    Enqueued,
    /// The event was ready but claimed already; it was set back to waiting.
    Raced,
    /// The event was ready but neither waiting nor claimed; it stays as it
    /// is.
    Skipped,
}

impl Graph {
    /// Whether the producer of a read has delivered: there is none, or it
    /// is accepted.
    pub open spec fn delivered(self, from: Option<EvRef>) -> bool {
        match from {
            None => true,
            Some(p) => self.ev(p).status == EventStatus::ACCEPTED,
        }
    }

    /// The graph after the linked event `r` was started: it waits, and each
    /// read is marked by whether its producer has delivered.  Only an event
    /// under construction is started.
    pub open spec fn start_event(self, r: EvRef) -> Graph {
        let e = self.ev(r);
        if e.status != EventStatus::CONSTRUCT {
            self
        } else {
            self.with_ev(
                r,
                EvState {
                    status: EventStatus::WAITING,
                    fulfilled: Seq::new(e.fulfilled.len(), |i: int| self.delivered(e.read_from[i])),
                    ..e
                },
            )
        }
    }

    /// What offering event `r` to the ready queue gives.
    pub open spec fn offer(self, r: EvRef) -> (Graph, Enqueue) {
        let e = self.ev(r);
        if !e.no_waiting() {
            (self, Enqueue::NotReady)
        } else if e.status == EventStatus::WAITING {
            (
                Graph {
                    ready_queue: self.ready_queue.push(r),
                    ..self.with_ev(r, e.with_status(EventStatus::INQUEUE))
                },
                Enqueue::Enqueued,
            )
        } else if e.status == EventStatus::CLAIMED {
            (self.with_ev(r, e.with_status(EventStatus::WAITING)), Enqueue::Raced)
        } else {
            (self, Enqueue::Skipped)
        }
    }

    /// What a worker's claim of the queued event `r` gives: the event is
    /// claimed if it is still queued.
    pub open spec fn claim(self, r: EvRef) -> (Graph, bool) {
        let e = self.ev(r);
        if e.status == EventStatus::INQUEUE {
            (self.with_ev(r, e.with_status(EventStatus::CLAIMED)), true)
        } else {
            (self, false)
        }
    }

    /// Where the value of read `i` of event `r` comes from.
    pub open spec fn source(self, r: EvRef, i: int) -> Source {
        match self.ev(r).read_from[i] {
            None => Source::Default,
            Some(p) => Source::Version { key: self.ev(r).reads[i], ts: self.txn(p.txn).ts },
        }
    }

    /// Where the values that event `r` reads come from.
    pub open spec fn read_plan(self, r: EvRef) -> Seq<Source> {
        Seq::new(self.ev(r).reads.len(), |i: int| self.source(r, i))
    }

    /// What writing back the value of event `r` gives: the first time a
    /// version is appended, later the event's version is filled again.
    pub open spec fn write_back(self, r: EvRef, value: Seq<u8>) -> (Graph, Action) {
        let e = self.ev(r);
        let ts = self.txn(r.txn).ts;
        (
            self.with_ev(r, EvState { has_storage_slot: true, written: value, ..e }),
            if e.has_storage_slot {
                Action::Write { key: e.write, ts, value }
            } else {
                Action::Push { key: e.write, ts, value }
            },
        )
    }

    /// What taking back the acceptance of event `r` gives: the event waits
    /// again, its transaction counts it as unfinished, and its version is to
    /// be emptied.
    pub open spec fn reset_accept(self, r: EvRef) -> (Graph, Action) {
        let e = self.ev(r);
        let g1 = self.with_ev(r, e.with_status(EventStatus::WAITING));
        let n = g1.txn(r.txn);
        (
            g1.with_txn(
                r.txn,
                TxnState {
                    unfinished_events: if n.status == TxnStatus::WAITING && n.unfinished_events
                        < 0xffff {
                        (n.unfinished_events + 1) as u16
                    } else {
                        n.unfinished_events
                    },
                    ..n
                },
            ),
            Action::Reset { key: e.write, ts: n.ts },
        )
    }

    /// A change of the state and the marks of an event keeps the graph in
    /// order.
    pub proof fn lemma_restate(self, r: EvRef, e: EvState)
        requires
            self.wf(),
            self.has_ev(r),
            e == (EvState {
                status: e.status,
                fulfilled: e.fulfilled,
                has_storage_slot: e.has_storage_slot,
                written: e.written,
                ..self.ev(r)
            }),
            e.fulfilled.len() == self.ev(r).fulfilled.len(),
        ensures
            self.with_ev(r, e).wf(),
            self.with_ev(r, e).same_frame(self),
    {
        assert(self.txn_ok(r.txn));
        assert(self.ev_ok(r));
        self.lemma_with_ev(r, e);
    }

    /// A change of the state and the counter of a transaction keeps the
    /// graph in order.
    pub proof fn lemma_recount(self, t: usize, n: TxnState)
        requires
            self.wf(),
            self.has_txn(t),
            n == (TxnState {
                status: n.status,
                unfinished_events: n.unfinished_events,
                dropped: n.dropped,
                ..self.txn(t)
            }),
        ensures
            self.with_txn(t, n).wf(),
            self.with_txn(t, n).same_frame(self),
    {
        assert(self.txn_ok(t));
        self.lemma_with_txn(t, n);
    }

    /// A change of the queue to events of the graph keeps the graph in
    /// order.
    pub proof fn lemma_requeue(self, queue: Seq<EvRef>)
        requires
            self.wf(),
            forall|i: int| 0 <= i < queue.len() ==> self.has_ev(#[trigger] queue[i]),
        ensures
            (Graph { ready_queue: queue, ..self }).wf(),
            (Graph { ready_queue: queue, ..self }).same_keys(self),
    {
        let g = Graph { ready_queue: queue, ..self };
        assert forall|t: usize| t < g.nodes.len() implies #[trigger] g.txn_ok(t) by {
            assert(self.txn_ok(t));
            assert forall|x: usize| x < g.txn(t).ev_nodes.len() implies #[trigger] g.ev_ok(
                EvRef { txn: t, idx: x },
            ) by {
                assert(self.ev_ok(EvRef { txn: t, idx: x }));
            }
        }
    }
}

} // verus!
