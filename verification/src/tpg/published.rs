use crate::database::action::{default_table, ordered};
use crate::database::api::{knows, versions_of, Content};
use crate::database::versions::{has_slot, slot_index, slot_state, DataPointState, Record};
use crate::tpg::model::{EvRef, EvState, EventStatus, Graph, TxnState, TxnStatus};
use vstd::prelude::*;

verus! {

/// The states in which an event has not delivered: it is being built,
/// waits, is queued or is claimed.
pub open spec fn pending(s: EventStatus) -> bool {
    s == EventStatus::CONSTRUCT || s == EventStatus::WAITING || s == EventStatus::INQUEUE || s
        == EventStatus::CLAIMED
}

/// As far as the store goes, the two events are alike: they write the same
/// key, hold a version or not alike, have written the same value, and are
/// in the same state, or are both pending.
pub open spec fn same_record(a: EvState, b: EvState) -> bool {
    &&& a.write == b.write
    &&& a.has_write == b.has_write
    &&& a.has_storage_slot == b.has_storage_slot
    &&& a.written == b.written
    &&& a.status == b.status || (pending(a.status) && pending(b.status))
}

impl Graph {
    /// Event `r` belongs to a transaction that is not released.
    pub open spec fn live_ev(self, r: EvRef) -> bool {
        self.has_ev(r) && !self.txn(r.txn).dropped
    }

    /// The versions of the key that event `r` writes.
    pub open spec fn versions(self, content: Content, r: EvRef) -> Seq<Record> {
        versions_of(content, default_table(), self.ev(r).write)
    }

    /// Where event `r` holds a version, the store has it.
    pub open spec fn recorded(self, content: Content, r: EvRef) -> bool {
        self.ev(r).has_storage_slot ==> knows(content, default_table(), self.ev(r).write)
            && has_slot(self.versions(content, r), self.txn(r.txn).ts)
    }

    /// The version of event `r` is as the state of the event asks.  The
    /// version of an accepted event is there and can be read, and holds
    /// the value that the event wrote back.  The version of an aborted
    /// event that writes can be read too: it holds the value before it.
    /// The version of an event that has not delivered, if the event holds
    /// one, is empty.
    pub open spec fn held(self, content: Content, r: EvRef) -> bool {
        let e = self.ev(r);
        let s = self.versions(content, r);
        let state = slot_state(s, self.txn(r.txn).ts);
        &&& self.recorded(content, r)
        &&& e.status == EventStatus::ACCEPTED ==> e.has_storage_slot && state == Some(
            DataPointState::NORMAL,
        ) && s[slot_index(s, self.txn(r.txn).ts)].value == e.written
        &&& e.status == EventStatus::ABORTED && e.has_write ==> e.has_storage_slot && state
            == Some(DataPointState::NORMAL)
        &&& pending(e.status) && e.has_storage_slot ==> state == Some(DataPointState::EMPTY)
    }

    /// No two events of transactions that are alive hold the same version.
    pub open spec fn owners_apart(self) -> bool {
        forall|a: EvRef, b: EvRef|
            #![trigger self.ev(a), self.ev(b)]
            self.live_ev(a) && self.live_ev(b) && a != b && self.ev(a).has_storage_slot
                && self.ev(b).has_storage_slot ==> !(self.ev(a).write == self.ev(b).write
                && self.txn(a.txn).ts == self.txn(b.txn).ts)
    }

    /// The store agrees with the graph: every version that an event of a
    /// live transaction holds is in the store, in the state that the state
    /// of the event asks for, and no version has two holders.
    pub open spec fn published(self, content: Content) -> bool {
        &&& forall|r: EvRef| self.live_ev(r) ==> #[trigger] self.held(content, r)
        &&& self.owners_apart()
    }

    /// The store agrees with the graph but for event `x`, which is being
    /// aborted: its version, if it holds one, is in the store, in whatever
    /// state.
    pub open spec fn published_but(self, content: Content, x: EvRef) -> bool {
        &&& forall|r: EvRef| self.live_ev(r) && r != x ==> #[trigger] self.held(content, r)
        &&& self.live_ev(x) ==> self.recorded(content, x)
        &&& self.owners_apart()
    }

    /// As far as the store goes, the two graphs are alike.
    pub open spec fn same_records(self, after: Graph) -> bool {
        &&& after.nodes.len() == self.nodes.len()
        &&& forall|t: int|
            0 <= t < self.nodes.len() ==> {
                &&& (#[trigger] after.nodes[t]).ev_nodes.len() == self.nodes[t].ev_nodes.len()
                &&& after.nodes[t].ts == self.nodes[t].ts
                &&& after.nodes[t].dropped == self.nodes[t].dropped
            }
        &&& forall|t: int, e: int|
            0 <= t < self.nodes.len() && 0 <= e < self.nodes[t].ev_nodes.len() ==> same_record(
                self.nodes[t].ev_nodes[e],
                #[trigger] after.nodes[t].ev_nodes[e],
            )
    }

    /// Being alike is transitive.
    pub proof fn lemma_same_records_trans(self, mid: Graph, last: Graph)
        requires
            self.same_records(mid),
            mid.same_records(last),
        ensures
            self.same_records(last),
    {
        assert forall|t: int| 0 <= t < self.nodes.len() implies {
            &&& (#[trigger] last.nodes[t]).ev_nodes.len() == self.nodes[t].ev_nodes.len()
            &&& last.nodes[t].ts == self.nodes[t].ts
            &&& last.nodes[t].dropped == self.nodes[t].dropped
        } by {
            assert(mid.nodes[t].ts == self.nodes[t].ts);
        }
        assert forall|t: int, e: int|
            0 <= t < self.nodes.len() && 0 <= e < self.nodes[t].ev_nodes.len() implies same_record(
            self.nodes[t].ev_nodes[e],
            #[trigger] last.nodes[t].ev_nodes[e],
        ) by {
            assert(mid.nodes[t].ts == self.nodes[t].ts);
            assert(same_record(self.nodes[t].ev_nodes[e], mid.nodes[t].ev_nodes[e]));
            assert(same_record(mid.nodes[t].ev_nodes[e], last.nodes[t].ev_nodes[e]));
        }
    }

    /// The store agrees with a graph that is like one that it agrees with.
    pub proof fn lemma_published_alike(self, after: Graph, content: Content)
        requires
            self.same_records(after),
        ensures
            self.published(content) ==> after.published(content),
            forall|x: EvRef| self.published_but(content, x) ==> after.published_but(content, x),
    {
        assert forall|r: EvRef| after.live_ev(r) implies self.live_ev(r) && same_record(
            self.ev(r),
            #[trigger] after.ev(r),
        ) && after.txn(r.txn).ts == self.txn(r.txn).ts by {
            assert(after.nodes[r.txn as int].ts == self.nodes[r.txn as int].ts);
            assert(same_record(
                self.nodes[r.txn as int].ev_nodes[r.idx as int],
                after.nodes[r.txn as int].ev_nodes[r.idx as int],
            ));
        }
        if self.published(content) {
            assert forall|r: EvRef| after.live_ev(r) implies #[trigger] after.held(content, r) by {
                assert(self.held(content, r));
                assert(same_record(self.ev(r), after.ev(r)));
            }
            self.lemma_owners_alike(after);
        }
        assert forall|x: EvRef| self.published_but(content, x) implies after.published_but(
            content,
            x,
        ) by {
            assert forall|r: EvRef| after.live_ev(r) && r != x implies #[trigger] after.held(
                content,
                r,
            ) by {
                assert(self.held(content, r));
                assert(same_record(self.ev(r), after.ev(r)));
            }
            if after.live_ev(x) {
                assert(same_record(self.ev(x), after.ev(x)));
            }
            self.lemma_owners_alike(after);
        }
    }

    /// Graphs that are alike have the same holders.
    pub proof fn lemma_owners_alike(self, after: Graph)
        requires
            self.same_records(after),
            self.owners_apart(),
        ensures
            after.owners_apart(),
    {
        assert forall|a: EvRef, b: EvRef|
            #![trigger after.ev(a), after.ev(b)]
            after.live_ev(a) && after.live_ev(b) && a != b && after.ev(a).has_storage_slot
                && after.ev(b).has_storage_slot implies !(after.ev(a).write == after.ev(b).write
            && after.txn(a.txn).ts == after.txn(b.txn).ts) by {
            assert(after.nodes[a.txn as int].ts == self.nodes[a.txn as int].ts);
            assert(after.nodes[b.txn as int].ts == self.nodes[b.txn as int].ts);
            assert(same_record(
                self.nodes[a.txn as int].ev_nodes[a.idx as int],
                after.nodes[a.txn as int].ev_nodes[a.idx as int],
            ));
            assert(same_record(
                self.nodes[b.txn as int].ev_nodes[b.idx as int],
                after.nodes[b.txn as int].ev_nodes[b.idx as int],
            ));
            assert(self.live_ev(a) && self.live_ev(b));
            assert(self.ev(a).has_storage_slot && self.ev(b).has_storage_slot);
        }
    }

    /// Replacing a transaction by one with the same events, timestamp and
    /// place among the released leaves the graph alike.
    pub proof fn lemma_alike_with_txn(self, t: usize, n: TxnState)
        requires
            self.has_txn(t),
            n.ev_nodes == self.txn(t).ev_nodes,
            n.ts == self.txn(t).ts,
            n.dropped == self.txn(t).dropped,
        ensures
            self.same_records(self.with_txn(t, n)),
    {
    }
}

} // verus!
