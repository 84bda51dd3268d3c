use crate::ds::events::Event;
use crate::database::action::{actions_of, sources_of, Action, DbAction, ReadSource, Source};
use crate::tpg::model::{
    accepted_total, before, template_event, EvRef, EvState, EventStatus, Graph, TxnState,
    TxnStatus,
};
use crate::external::ffi::Finished;
use crate::tpg::steps::Enqueue;
use crate::tpg::txn_node::TxnNode;
use crate::tpg::tpg::Tpg;
use crate::utils::{row_key, ShouldSyncCell};
use vstd::prelude::*;

verus! {

/// An event node: one state access of a transaction, the smallest unit that
/// is scheduled.
pub struct EvNode {
    /// For each read, the event whose write satisfies it.  Fixed once the
    /// transaction is linked.
    pub read_from: Vec<ShouldSyncCell<Option<EvRef>>>,
    /// The events that read this event's write.  Grows while later
    /// transactions are linked.
    pub read_by: Vec<EvRef>,
    /// The owning transaction.
    pub txn: usize,
    pub status: EventStatus,
    /// For each read, whether its producer has delivered.
    pub is_read_from_fulfilled: Vec<bool>,
    /// The row keys to read.
    pub reads: Vec<String>,
    pub write: String,
    pub has_write: bool,
    /// Whether the store holds a version for this event's write: the first
    /// write appends one, later writes fill it again.
    pub has_storage_slot: bool,
    /// The position in the transaction, which routes the executor.
    pub idx: i32,
    /// The value that the event wrote back last.
    pub written: Ghost<Seq<u8>>,
}

impl View for EvNode {
    type V = EvState;

    open spec fn view(&self) -> EvState {
        EvState {
            read_from: self.read_from@.map_values(|c: ShouldSyncCell<Option<EvRef>>| c@),
            read_by: self.read_by@,
            txn: self.txn,
            status: self.status,
            fulfilled: self.is_read_from_fulfilled@,
            reads: self.reads@.map_values(|s: String| s@),
            write: self.write@,
            has_write: self.has_write,
            has_storage_slot: self.has_storage_slot,
            idx: self.idx,
            written: self.written@,
        }
    }
}

/// The request to the executor for one event.
pub struct ExecuteRequest {
    pub txn_req_id: u64,
    pub sa_idx: i32,
    /// The values read, joined by `;`.
    pub value: Vec<u8>,
    pub param_count: i32,
}

/// The values joined, with a `;` between each two.
pub open spec fn joined(values: Seq<Seq<u8>>) -> Seq<u8>
    decreases values.len(),
{
    if values.len() == 0 {
        Seq::empty()
    } else if values.len() == 1 {
        values[0]
    } else {
        joined(values.drop_last()).push(0x3bu8) + values.last()
    }
}

impl EvNode {
    /// Builds the node of position `idx` of transaction `txn` from its
    /// template.  `reads_idx` gives the row slot of each read, `write_idx`
    /// that of the write.  There is no node where `reads_idx` is shorter
    /// than the template's reads.
    pub fn from_template(
        event: &Event,
        idx: i32,
        txn: usize,
        reads_idx: Vec<usize>,
        write_idx: usize,
    ) -> (r: Option<Self>)
        ensures
            reads_idx@.len() < event@.reads.len() ==> r is None,
            reads_idx@.len() >= event@.reads.len() ==> r is Some && r->0@ == template_event(
                event@,
                idx,
                txn,
                reads_idx@,
                write_idx,
            ),
    {
        let reads_length = event.reads.len();
        if reads_idx.len() < reads_length {
            return None;
        }
        let mut read_from: Vec<ShouldSyncCell<Option<EvRef>>> = Vec::with_capacity(reads_length);
        let mut is_read_from_fulfilled: Vec<bool> = Vec::with_capacity(reads_length);
        let mut reads: Vec<String> = Vec::with_capacity(reads_length);
        let mut i: usize = 0;
        while i < reads_length
            invariant
                i <= reads_length,
                reads_length == event.reads@.len(),
                reads_length <= reads_idx@.len(),
                read_from@.len() == i,
                is_read_from_fulfilled@.len() == i,
                reads@.len() == i,
                forall|j: int| 0 <= j < i ==> (#[trigger] read_from@[j])@ == None::<EvRef>,
                forall|j: int| 0 <= j < i ==> !(#[trigger] is_read_from_fulfilled@[j]),
                forall|j: int|
                    0 <= j < i ==> (#[trigger] reads@[j])@ == spec_row_key_of(
                        event.reads@[j]@,
                        reads_idx@[j],
                    ),
            decreases reads_length - i,
        {
            read_from.push(ShouldSyncCell::new(None));
            is_read_from_fulfilled.push(false);
            reads.push(row_key(event.reads[i].as_str(), reads_idx[i]));
            i = i + 1;
        }
        let node = EvNode {
            read_from,
            read_by: Vec::new(),
            txn,
            status: EventStatus::CONSTRUCT,
            is_read_from_fulfilled,
            reads,
            write: row_key(event.write.as_str(), write_idx),
            idx,
            has_write: event.has_write,
            has_storage_slot: false,
            written: Ghost(Seq::empty()),
        };
        proof {
            let want = template_event(event@, idx, txn, reads_idx@, write_idx);
            assert(node@.read_from =~= want.read_from);
            assert(node@.fulfilled =~= want.fulfilled);
            assert(node@.reads =~= want.reads);
            assert(node@.read_by =~= want.read_by);
        }
        Some(node)
    }

    /// Whether the event may be executed: it waits or is queued, and every
    /// read is satisfied.
    pub fn ready(&self) -> (r: bool)
        ensures
            r == self@.ready(),
    {
        match self.status {
            EventStatus::WAITING | EventStatus::INQUEUE => {},
            _ => {
                return false;
            },
        }
        self.no_waiting()
    }

    /// Whether every read is satisfied.  An event without reads waits for
    /// nothing.
    pub fn no_waiting(&self) -> (r: bool)
        ensures
            r == self@.no_waiting(),
    {
        let mut i: usize = 0;
        while i < self.is_read_from_fulfilled.len()
            invariant
                i <= self.is_read_from_fulfilled@.len(),
                forall|j: int| 0 <= j < i ==> self.is_read_from_fulfilled@[j],
            decreases self.is_read_from_fulfilled.len() - i,
        {
            if !self.is_read_from_fulfilled[i] {
                assert(!self@.fulfilled[i as int]);
                return false;
            }
            i = i + 1;
        }
        true
    }

    /// Prepares the call of the executor: the values read are joined by `;`
    /// and go out with the identity of the request `txn_req_id` and the
    /// event's position.
    pub fn execute(&self, txn_req_id: u64, values: &Vec<Vec<u8>>, cnt: i32) -> (r: ExecuteRequest)
        ensures
            r.txn_req_id == txn_req_id,
            r.sa_idx == self@.idx,
            r.param_count == cnt,
            r.value@ == joined(values@.map_values(|v: Vec<u8>| v@)),
    {
        let mut value: Vec<u8> = Vec::new();
        let ghost all = values@.map_values(|v: Vec<u8>| v@);
        let mut i: usize = 0;
        while i < values.len()
            invariant
                i <= values@.len(),
                all == values@.map_values(|v: Vec<u8>| v@),
                value@ == joined(all.take(i as int)),
            decreases values.len() - i,
        {
            if i != 0 {
                value.push(0x3bu8);
            }
            let ghost head = value@;
            let part = &values[i];
            let mut j: usize = 0;
            while j < part.len()
                invariant
                    j <= part@.len(),
                    value@ == head + part@.take(j as int),
                decreases part.len() - j,
            {
                value.push(part[j]);
                assert(value@ =~= head + part@.take(j + 1));
                j = j + 1;
            }
            proof {
                assert(part@.take(part@.len() as int) =~= part@);
                let upto = all.take(i + 1);
                assert(upto.drop_last() =~= all.take(i as int));
                assert(upto.last() == part@);
                if i == 0 {
                    assert(value@ =~= part@);
                }
            }
            i = i + 1;
        }
        assert(all.take(values@.len() as int) =~= all);
        ExecuteRequest { txn_req_id, sa_idx: self.idx, value, param_count: cnt }
    }

    /// The first read of `key`.
    fn read_position(&self, key: &str) -> (r: Option<usize>)
        ensures
            r matches Some(i) ==> i < self@.reads.len() && self@.reads[i as int] == key@
                && forall|j: int| 0 <= j < i ==> self@.reads[j] != key@,
            r is None ==> !self@.reads.contains(key@),
    {
        let wanted = key.to_owned();
        let mut i: usize = 0;
        while i < self.reads.len()
            invariant
                i <= self.reads@.len(),
                wanted@ == key@,
                forall|j: int| 0 <= j < i ==> self@.reads[j] != key@,
            decreases self.reads.len() - i,
        {
            if self.reads[i] == wanted {
                return Some(i);
            }
            i = i + 1;
        }
        None
    }

    /// Marks the first read of `key` as satisfied and returns what the mark
    /// was.
    pub fn set_fulfilled_by_key(&mut self, key: &str) -> (r: bool)
        requires
            old(self)@.aligned(),
            old(self)@.reads.contains(key@),
        ensures
            final(self)@ == (EvState {
                fulfilled: old(self)@.fulfilled.update(first_read(old(self)@.reads, key@), true),
                ..old(self)@
            }),
            r == old(self)@.fulfilled[first_read(old(self)@.reads, key@)],
    {
        self.swap_by_key(key, true)
    }

    /// Marks read `idx` as satisfied and returns what the mark was.
    /// `target` is not consulted: the mark set is always `true`.
    pub fn set_fulfilled_by_idx(&mut self, idx: usize, target: bool) -> (r: bool)
        requires
            idx < old(self)@.fulfilled.len(),
        ensures
            final(self)@ == (EvState {
                fulfilled: old(self)@.fulfilled.update(idx as int, true),
                ..old(self)@
            }),
            r == old(self)@.fulfilled[idx as int],
    {
        let was = self.is_read_from_fulfilled[idx];
        self.is_read_from_fulfilled[idx] = true;
        was
    }

    /// Marks the first read of `key` as not satisfied and returns what the
    /// mark was.
    pub fn set_unfulfilled_by_key(&mut self, key: &str) -> (r: bool)
        requires
            old(self)@.aligned(),
            old(self)@.reads.contains(key@),
        ensures
            final(self)@ == (EvState {
                fulfilled: old(self)@.fulfilled.update(first_read(old(self)@.reads, key@), false),
                ..old(self)@
            }),
            r == old(self)@.fulfilled[first_read(old(self)@.reads, key@)],
    {
        self.swap_by_key(key, false)
    }

    fn swap_by_key(&mut self, key: &str, value: bool) -> (r: bool)
        requires
            old(self)@.aligned(),
            old(self)@.reads.contains(key@),
        ensures
            final(self)@ == (EvState {
                fulfilled: old(self)@.fulfilled.update(first_read(old(self)@.reads, key@), value),
                ..old(self)@
            }),
            r == old(self)@.fulfilled[first_read(old(self)@.reads, key@)],
    {
        match self.read_position(key) {
            Some(idx) => {
                proof {
                    old(self)@.reads.index_of_first_ensures(key@);
                    let first = first_read(old(self)@.reads, key@);
                    assert(first == idx) by {
                        if first < idx {
                            assert(old(self)@.reads[first] != key@);
                        }
                    }
                }
                let was = self.is_read_from_fulfilled[idx];
                self.is_read_from_fulfilled[idx] = value;
                was
            },
            None => false,
        }
    }

    /// Sets the mark of every read that `parent` satisfies to `value`.
    pub fn mark_parent(&mut self, parent: EvRef, value: bool)
        requires
            old(self)@.aligned(),
        ensures
            final(self)@ == old(self)@.with_flags_of(parent, value),
    {
        let mut i: usize = 0;
        while i < self.read_from.len()
            invariant
                i <= self@.read_from.len(),
                self@.aligned(),
                self@ == (EvState { fulfilled: self@.fulfilled, ..old(self)@ }),
                self@.fulfilled.len() == old(self)@.fulfilled.len(),
                forall|j: int|
                    0 <= j < self@.fulfilled.len() ==> self@.fulfilled[j] == if j < i
                        && old(self)@.read_from[j] == Some(parent) {
                        value
                    } else {
                        old(self)@.fulfilled[j]
                    },
            decreases self.read_from.len() - i,
        {
            let from = *self.read_from[i].read();
            let hit = match from {
                Some(p) => p.txn == parent.txn && p.idx == parent.idx,
                None => false,
            };
            if hit {
                self.is_read_from_fulfilled[i] = value;
            }
            i = i + 1;
        }
        assert(self@.fulfilled =~= old(self)@.with_flags_of(parent, value).fulfilled);
    }

    /// Starts the linked event `r`: it waits, and each read is marked by
    /// whether its producer has delivered, that is whether there is none or
    /// it is accepted.  Only an event under construction is started; any
    /// other event is left as it is.
    pub fn start(g: &mut Tpg, r: EvRef)
        requires
            old(g)@.wf(),
            old(g)@.has_ev(r),
        ensures
            old(g)@.sound() ==> final(g)@.sound(),
            final(g)@ == old(g)@.start_event(r),
            final(g)@.wf(),
            final(g)@.same_frame(old(g)@),
    {
        proof {
            if g@.sound() {
                g@.lemma_sound_start(r);
            }
        }
        proof {
            assert(g@.txn_ok(r.txn));
            assert(g@.ev_ok(r));
        }
        match g.nodes[r.txn].ev_nodes[r.idx].status {
            EventStatus::CONSTRUCT => {},
            _ => {
                return ;
            },
        }
        let count = g.nodes[r.txn].ev_nodes[r.idx].read_from.len();
        let mut marks: Vec<bool> = Vec::with_capacity(count);
        let mut i: usize = 0;
        while i < count
            invariant
                i <= count,
                g@ == old(g)@,
                g@.wf(),
                g@.has_ev(r),
                g@.ev_ok(r),
                count == g@.ev(r).read_from.len(),
                marks@.len() == i,
                forall|j: int| 0 <= j < i ==> marks@[j] == g@.delivered(g@.ev(r).read_from[j]),
            decreases count - i,
        {
            let from = *g.nodes[r.txn].ev_nodes[r.idx].read_from[i].read();
            let delivered = match from {
                None => true,
                Some(p) => {
                    assert(g@.ev(r).read_from[i as int] == Some(p));
                    match g.nodes[p.txn].ev_nodes[p.idx].status {
                        EventStatus::ACCEPTED => true,
                        _ => false,
                    }
                },
            };
            marks.push(delivered);
            i = i + 1;
        }
        let ghost want = old(g)@.start_event(r);
        proof {
            assert(marks@ =~= want.ev(r).fulfilled);
            g@.lemma_restate(r, want.ev(r));
        }
        g.nodes[r.txn].ev_nodes[r.idx].status = EventStatus::WAITING;
        g.nodes[r.txn].ev_nodes[r.idx].is_read_from_fulfilled = marks;
        proof {
            Tpg::lemma_event_changed(old(g), g, r);
        }
    }

    /// Offers event `r` to the ready queue.  An event with every read
    /// satisfied goes into the queue if it waits; if a worker has claimed it
    /// meanwhile, it is set back to waiting, and the race is reported.
    pub fn offer(g: &mut Tpg, r: EvRef) -> (outcome: Enqueue)
        requires
            old(g)@.wf(),
            old(g)@.has_ev(r),
        ensures
            old(g)@.sound() ==> final(g)@.sound(),
            final(g)@ == old(g)@.offer(r).0,
            outcome == old(g)@.offer(r).1,
            final(g)@.wf(),
            final(g)@.same_keys(old(g)@),
            final(g)@.state_last_modify == old(g)@.state_last_modify,
    {
        proof {
            if g@.sound() {
                g@.lemma_sound_offer(r);
            }
        }
        if !g.nodes[r.txn].ev_nodes[r.idx].no_waiting() {
            return Enqueue::NotReady;
        }
        proof {
            g@.lemma_restate(r, g@.ev(r).with_status(EventStatus::INQUEUE));
        }
        match g.exchange_status(r, EventStatus::WAITING, EventStatus::INQUEUE) {
            Ok(_) => {
                proof {
                    g@.lemma_requeue(g@.ready_queue.push(r));
                    (Graph { ready_queue: g@.ready_queue.push(r), ..g@ }).lemma_same_keys_trans(
                        g@,
                        old(g)@,
                    );
                }
                g.ready_queue.push_back(r);
                Enqueue::Enqueued
            },
            Err(EventStatus::CLAIMED) => {
                proof {
                    g@.lemma_restate(r, g@.ev(r).with_status(EventStatus::WAITING));
                }
                g.set_status(r, EventStatus::WAITING);
                Enqueue::Raced
            },
            Err(_) => Enqueue::Skipped,
        }
    }

    /// Claims the queued event `r` for a worker.  The claim fails where the
    /// event is not queued any more.
    pub fn claim(g: &mut Tpg, r: EvRef) -> (claimed: bool)
        requires
            old(g)@.wf(),
            old(g)@.has_ev(r),
        ensures
            old(g)@.sound() ==> final(g)@.sound(),
            final(g)@ == old(g)@.claim(r).0,
            claimed == old(g)@.claim(r).1,
            final(g)@.wf(),
            final(g)@.same_frame(old(g)@),
    {
        proof {
            if g@.sound() {
                g@.lemma_sound_claim(r);
            }
        }
        proof {
            g@.lemma_restate(r, g@.ev(r).with_status(EventStatus::CLAIMED));
        }
        match g.exchange_status(r, EventStatus::INQUEUE, EventStatus::CLAIMED) {
            Ok(_) => true,
            Err(_) => false,
        }
    }

    /// Writes back the value that event `r` produced: the change of the
    /// store that publishes it.  The first time the event appends a version;
    /// an event that is executed again fills its version.
    pub fn write_back(g: &mut Tpg, r: EvRef, value: &Vec<u8>) -> (action: DbAction)
        requires
            old(g)@.wf(),
            old(g)@.has_ev(r),
        ensures
            old(g)@.sound() ==> final(g)@.sound(),
            final(g)@ == old(g)@.write_back(r, value@).0,
            action@ == old(g)@.write_back(r, value@).1,
            final(g)@.wf(),
            final(g)@.same_frame(old(g)@),
    {
        proof {
            if g@.sound() {
                g@.lemma_sound_write_back(r, value@);
            }
        }
        proof {
            g@.lemma_restate(
                r,
                EvState { has_storage_slot: true, written: value@, ..g@.ev(r) },
            );
        }
        let key = g.nodes[r.txn].ev_nodes[r.idx].write.clone();
        let ts = g.nodes[r.txn].ts;
        let had = g.nodes[r.txn].ev_nodes[r.idx].has_storage_slot;
        g.nodes[r.txn].ev_nodes[r.idx].has_storage_slot = true;
        g.nodes[r.txn].ev_nodes[r.idx].written = Ghost(value@);
        proof {
            Tpg::lemma_event_changed(old(g), g, r);
        }
        if had {
            DbAction::Write { key, ts, value: value.clone() }
        } else {
            DbAction::Push { key, ts, value: value.clone() }
        }
    }

    /// Takes back the acceptance of event `r`, whose producer was rolled
    /// back: the event waits again, its transaction counts it as unfinished,
    /// and the change of the store that empties its version is returned.
    pub fn reset_accept(g: &mut Tpg, r: EvRef) -> (action: DbAction)
        requires
            old(g)@.wf(),
            old(g)@.has_ev(r),
        ensures
            old(g)@.sound() && old(g)@.ev(r).status == EventStatus::ACCEPTED ==> final(g)@.sound(),
            final(g)@ == old(g)@.reset_accept(r).0,
            action@ == old(g)@.reset_accept(r).1,
            final(g)@.wf(),
            final(g)@.same_frame(old(g)@),
    {
        proof {
            if g@.sound() && g@.ev(r).status == EventStatus::ACCEPTED {
                g@.lemma_sound_reset_accept(r);
            }
        }
        proof {
            g@.lemma_restate(r, g@.ev(r).with_status(EventStatus::WAITING));
        }
        let key = g.nodes[r.txn].ev_nodes[r.idx].write.clone();
        let ts = g.nodes[r.txn].ts;
        g.set_status(r, EventStatus::WAITING);
        let ghost g1 = g@;
        let node = &g.nodes[r.txn];
        let waiting = match node.status {
            TxnStatus::WAITING => true,
            _ => false,
        };
        let count = if waiting && node.unfinished_events < 0xffff {
            node.unfinished_events + 1
        } else {
            node.unfinished_events
        };
        proof {
            g1.lemma_recount(r.txn, TxnState { unfinished_events: count, ..g1.txn(r.txn) });
            g1.with_txn(
                r.txn,
                TxnState { unfinished_events: count, ..g1.txn(r.txn) },
            ).lemma_same_keys_trans(g1, old(g)@);
        }
        let ghost mid = *g;
        g.nodes[r.txn].unfinished_events = count;
        proof {
            Tpg::lemma_txn_changed(&mid, g, r.txn);
        }
        DbAction::Reset { key, ts }
    }

    /// Tells the transaction of `r` that the event was accepted: it counts
    /// one event less and tries to commit when none is left.  Transactions
    /// that commit are reported in `out`.
    pub fn notify_txn_accept(g: &mut Tpg, r: EvRef, out: &mut Vec<Finished>)
        requires
            old(g)@.wf(),
            old(g)@.has_ev(r),
        ensures
            final(g)@ == old(g)@.notify_txn_accept(r).0,
            final(out)@ == old(out)@ + old(g)@.notify_txn_accept(r).1,
            final(g)@.wf(),
            final(g)@.same_frame(old(g)@),
    {
        let ghost n = g@.txn(r.txn);
        proof {
            g@.lemma_recount(
                r.txn,
                TxnState {
                    unfinished_events: if n.unfinished_events > 0 {
                        (n.unfinished_events - 1) as u16
                    } else {
                        0
                    },
                    ..n
                },
            );
        }
        g.nodes[r.txn].event_accepted();
        proof {
            Tpg::lemma_txn_changed(old(g), g, r.txn);
        }
        let ghost g1 = g@;
        if g.nodes[r.txn].unfinished_events == 0 {
            TxnNode::try_commit(g, r.txn, out);
            proof {
                g@.lemma_same_keys_trans(g1, old(g)@);
            }
        } else {
            assert(out@ + Seq::<Finished>::empty() =~= out@);
        }
    }

    /// Accepts the result of event `r` and returns whether it did.  Only a
    /// claimed event is accepted: one that was set back or aborted while it
    /// was executed stays as it is, and its result is to be discarded.
    pub fn accept(g: &mut Tpg, r: EvRef, out: &mut Vec<Finished>) -> (accepted: bool)
        requires
            old(g)@.wf(),
            old(g)@.has_ev(r),
        ensures
            old(g)@.sound() ==> final(g)@.sound() && old(g)@.committed_stay(final(g)@),
            final(g)@ == old(g)@.accept(r).0,
            accepted == old(g)@.accept(r).1,
            final(out)@ == old(out)@ + old(g)@.accept(r).2,
            final(g)@.wf(),
            final(g)@.same_frame(old(g)@),
    {
        proof {
            if g@.sound() {
                g@.lemma_sound_accept(r);
            }
        }
        proof {
            g@.lemma_restate(r, g@.ev(r).with_status(EventStatus::ACCEPTED));
        }
        match g.exchange_status(r, EventStatus::CLAIMED, EventStatus::ACCEPTED) {
            Ok(_) => {
                let ghost g1 = g@;
                Self::notify_txn_accept(g, r, out);
                proof {
                    g@.lemma_same_keys_trans(g1, old(g)@);
                }
                true
            },
            Err(_) => {
                assert(out@ + Seq::<Finished>::empty() =~= out@);
                false
            },
        }
    }

    /// Visits the reader `son` of the event `parent` that is rolled back,
    /// and returns whether the reader's acceptance was taken back.
    fn visit_child(g: &mut Tpg, parent: EvRef, son: EvRef, actions: &mut Vec<DbAction>) -> (reset:
        bool)
        requires
            old(g)@.wf(),
            old(g)@.has_ev(son),
        ensures
            final(g)@ == old(g)@.visit_child(parent, son).0,
            reset == old(g)@.visit_child(parent, son).1,
            actions_of(final(actions)@) == actions_of(old(actions)@) + old(g)@.visit_child(
                parent,
                son,
            ).2,
            final(g)@.wf(),
            final(g)@.same_frame(old(g)@),
    {
        proof {
            assert(g@.txn_ok(son.txn));
            assert(g@.ev_ok(son));
            g@.lemma_visit_child(parent, son);
        }
        let ghost acts = actions_of(actions@);
        if g.nodes[son.txn].dropped {
            assert(acts + Seq::<Action>::empty() =~= acts);
            return false;
        }
        match g.nodes[son.txn].ev_nodes[son.idx].status {
            EventStatus::ACCEPTED => {
                let action = Self::reset_accept(g, son);
                proof {
                    assert(g@.txn_ok(son.txn));
                    assert(g@.ev_ok(son));
                }
                g.mark_parent(son, parent, false);
                actions.push(action);
                assert(actions_of(actions@) =~= acts + seq![action@]);
                true
            },
            EventStatus::CLAIMED | EventStatus::INQUEUE => {
                g.set_status(son, EventStatus::WAITING);
                g.mark_parent(son, parent, false);
                proof {
                    old(g)@.lemma_with_ev_twice(
                        son,
                        old(g)@.ev(son).with_status(EventStatus::WAITING),
                        old(g)@.ev(son).with_status(EventStatus::WAITING).with_flags_of(
                            parent,
                            false,
                        ),
                    );
                    assert(acts + Seq::<Action>::empty() =~= acts);
                }
                false
            },
            EventStatus::WAITING => {
                g.mark_parent(son, parent, false);
                assert(acts + Seq::<Action>::empty() =~= acts);
                false
            },
            _ => {
                assert(acts + Seq::<Action>::empty() =~= acts);
                false
            },
        }
    }

    /// Visits the readers of the event `parent` that is rolled back.  The
    /// readers whose acceptance was taken back are pushed on `stack`.
    fn visit_children(
        g: &mut Tpg,
        parent: EvRef,
        stack: &mut Vec<EvRef>,
        actions: &mut Vec<DbAction>,
    )
        requires
            old(g)@.wf(),
            old(g)@.has_ev(parent),
        ensures
            final(g)@ == old(g)@.visit_children(parent, old(g)@.ev(parent).read_by, 0).0,
            final(stack)@ == old(stack)@ + old(g)@.visit_children(
                parent,
                old(g)@.ev(parent).read_by,
                0,
            ).1,
            actions_of(final(actions)@) == actions_of(old(actions)@) + old(g)@.visit_children(
                parent,
                old(g)@.ev(parent).read_by,
                0,
            ).2,
            final(g)@.wf(),
            final(g)@.same_frame(old(g)@),
    {
        let ghost g_p = g@;
        let ghost stack_p = stack@;
        let ghost acts_p = actions_of(actions@);
        let children = g.nodes[parent.txn].ev_nodes[parent.idx].read_by.clone();
        assert(children@ =~= g_p.ev(parent).read_by);
        let ghost v = g_p.visit_children(parent, children@, 0);
        let mut j: usize = 0;
        while j < children.len()
            invariant
                j <= children@.len(),
                g_p.wf(),
                g_p.has_ev(parent),
                children@ == g_p.ev(parent).read_by,
                g@.wf(),
                g@.same_frame(g_p),
                v == g_p.visit_children(parent, children@, 0),
                g@.visit_children(parent, children@, j as int).0 == v.0,
                stack@ + g@.visit_children(parent, children@, j as int).1 == stack_p + v.1,
                actions_of(actions@) + g@.visit_children(parent, children@, j as int).2 == acts_p
                    + v.2,
            decreases children.len() - j,
        {
            let son = children[j];
            let ghost g_j = g@;
            let ghost stack_j = stack@;
            let ghost acts_j = actions_of(actions@);
            proof {
                assert(g_p.txn_ok(parent.txn));
                assert(g_p.ev_ok(parent));
                assert(g_p.has_ev(g_p.ev(parent).read_by[j as int]));
                assert(g_p.nodes[son.txn as int].same_keys(g@.nodes[son.txn as int]));
                assert(g@.has_ev(son));
            }
            let reset = Self::visit_child(g, parent, son, actions);
            if reset {
                stack.push(son);
            }
            proof {
                let step = g_j.visit_child(parent, son);
                let tail = step.0.visit_children(parent, children@, j + 1);
                let grown = if step.1 {
                    seq![son]
                } else {
                    Seq::<EvRef>::empty()
                };
                assert(g_j.visit_children(parent, children@, j as int) == (
                    tail.0,
                    grown + tail.1,
                    step.2 + tail.2,
                ));
                assert(stack@ =~= stack_j + grown);
                assert(stack@ + tail.1 =~= stack_j + (grown + tail.1));
                assert(actions_of(actions@) + tail.2 =~= acts_j + (step.2 + tail.2));
                g@.lemma_same_keys_trans(g_j, g_p);
            }
            j = j + 1;
        }
        proof {
            assert(stack@ + Seq::<EvRef>::empty() =~= stack@);
            assert(actions_of(actions@) + Seq::<Action>::empty() =~= actions_of(actions@));
        }
    }

    /// Rolls back the events on `stack`, the last one first, and with each
    /// the readers whose acceptance is taken back.
    fn cascade(g: &mut Tpg, stack: Vec<EvRef>, actions: &mut Vec<DbAction>)
        requires
            old(g)@.wf(),
            forall|i: int| 0 <= i < stack@.len() ==> old(g)@.has_ev(#[trigger] stack@[i]),
        ensures
            final(g)@ == old(g)@.cascade(stack@, accepted_total(old(g)@.nodes)).0,
            actions_of(final(actions)@) == actions_of(old(actions)@) + old(g)@.cascade(
                stack@,
                accepted_total(old(g)@.nodes),
            ).1,
            final(g)@.wf(),
            final(g)@.same_frame(old(g)@),
    {
        let mut stack = stack;
        let ghost g1 = g@;
        let ghost mut fuel = accepted_total(g1.nodes);
        let ghost all = g1.cascade(stack@, fuel);
        let ghost acts0 = actions_of(actions@);
        while stack.len() != 0
            invariant
                g1.wf(),
                g@.wf(),
                g@.same_frame(g1),
                forall|i: int| 0 <= i < stack@.len() ==> g@.has_ev(#[trigger] stack@[i]),
                fuel >= accepted_total(g@.nodes),
                g@.cascade(stack@, fuel).0 == all.0,
                actions_of(actions@) + g@.cascade(stack@, fuel).1 == acts0 + all.1,
            decreases accepted_total(g@.nodes), stack@.len(),
        {
            let ghost g_p = g@;
            let ghost stack_p = stack@;
            let ghost acts_p = actions_of(actions@);
            let parent = match stack.pop() {
                Some(p) => p,
                None => EvRef { txn: 0, idx: 0 },
            };
            let ghost rest = stack@;
            assert(rest =~= stack_p.drop_last());
            assert(parent == stack_p.last());
            let ghost v = g_p.visit_children(parent, g_p.ev(parent).read_by, 0);
            proof {
                g_p.lemma_visit_children(parent, g_p.ev(parent).read_by, 0);
            }
            Self::visit_children(g, parent, &mut stack, actions);
            proof {
                assert(v.1.len() <= fuel);
                let next = v.0.cascade(rest + v.1, (fuel - v.1.len()) as nat);
                assert(g_p.cascade(stack_p, fuel) == (next.0, v.2 + next.1));
                assert(actions_of(actions@) + next.1 =~= acts_p + (v.2 + next.1));
                fuel = (fuel - v.1.len()) as nat;
                g@.lemma_same_keys_trans(g_p, g1);
                assert forall|i: int| 0 <= i < stack@.len() implies g@.has_ev(
                    #[trigger] stack@[i],
                ) by {
                    if i < rest.len() {
                        assert(stack@[i] == stack_p[i]);
                        assert(g_p.has_ev(stack_p[i]));
                    } else {
                        assert(stack@[i] == v.1[i - rest.len()]);
                        assert(g_p.has_ev(v.1[i - rest.len()]));
                    }
                    assert(g_p.nodes[stack@[i].txn as int].same_keys(
                        g@.nodes[stack@[i].txn as int],
                    ));
                }
            }
        }
        proof {
            assert(stack@ =~= Seq::<EvRef>::empty());
            assert(actions_of(actions@) + Seq::<Action>::empty() =~= actions_of(actions@));
        }
    }

    /// Aborts event `r` and rolls back what was built on it.
    ///
    /// The event is aborted for good.  Then its readers are visited, and in
    /// turn the readers of each reader whose acceptance is taken back: an
    /// accepted reader waits again and its version is emptied, a claimed or
    /// queued reader waits again, and each of them is marked as not
    /// satisfied by the event that was rolled back.  Last, where the event
    /// writes, its version takes the value of the version before it, so
    /// that readers find a value.  The changes of the store are appended to
    /// `actions`.  An event that is aborted already stays as it is.
    pub fn abort(g: &mut Tpg, r: EvRef, actions: &mut Vec<DbAction>)
        requires
            old(g)@.wf(),
            old(g)@.has_ev(r),
        ensures
            old(g)@.sound() && old(g)@.txn(r.txn).status != TxnStatus::WAITING ==> final(g)@.sound(),
            final(g)@ == old(g)@.abort_event(r).0,
            actions_of(final(actions)@) == actions_of(old(actions)@) + old(g)@.abort_event(r).1,
            final(g)@.wf(),
            final(g)@.same_frame(old(g)@),
    {
        proof {
            if g@.sound() && g@.txn(r.txn).status != TxnStatus::WAITING {
                g@.lemma_sound_abort_event(r);
            }
        }
        proof {
            old(g)@.lemma_abort_event(r);
        }
        let ghost acts0 = actions_of(actions@);
        match g.nodes[r.txn].ev_nodes[r.idx].status {
            EventStatus::ABORTED => {
                assert(acts0 + Seq::<Action>::empty() =~= acts0);
                return ;
            },
            _ => {},
        }
        proof {
            g@.lemma_restate(r, g@.ev(r).with_status(EventStatus::ABORTED));
        }
        g.set_status(r, EventStatus::ABORTED);
        let ghost g1 = g@;
        let mut stack: Vec<EvRef> = Vec::new();
        stack.push(r);
        assert(stack@ =~= seq![r]);
        Self::cascade(g, stack, actions);
        let ghost g_c = g@;
        let ghost acts_c = actions_of(actions@);
        proof {
            g@.lemma_same_keys_trans(g1, old(g)@);
            assert(g@.nodes[r.txn as int].same_keys(old(g)@.nodes[r.txn as int]));
        }
        if g.nodes[r.txn].ev_nodes[r.idx].has_write {
            let key = g.nodes[r.txn].ev_nodes[r.idx].write.clone();
            let ts = g.nodes[r.txn].ts;
            let had = g.nodes[r.txn].ev_nodes[r.idx].has_storage_slot;
            proof {
                g@.lemma_restate(r, EvState { has_storage_slot: true, ..g@.ev(r) });
            }
            let ghost mid = *g;
            g.nodes[r.txn].ev_nodes[r.idx].has_storage_slot = true;
            proof {
                Tpg::lemma_event_changed(&mid, g, r);
                g@.lemma_same_keys_trans(g_c, old(g)@);
            }
            actions.push(DbAction::CopyLast { key, ts, has_slot: had });
            proof {
                let last = Action::CopyLast {
                    key: g_c.ev(r).write,
                    ts: g_c.txn(r.txn).ts,
                    has_slot: had,
                };
                assert(actions_of(actions@) =~= acts_c + seq![last]);
                let rolled = g1.cascade(seq![r], accepted_total(g1.nodes));
                assert(acts0 + (rolled.1 + seq![last]) =~= acts0 + rolled.1 + seq![last]);
            }
        }
    }

    /// Tells the transaction of `r` that the executor has aborted the
    /// event: the transaction is aborted.
    pub fn notify_txn_abort(
        g: &mut Tpg,
        r: EvRef,
        actions: &mut Vec<DbAction>,
        out: &mut Vec<Finished>,
    )
        requires
            old(g)@.wf(),
            old(g)@.has_ev(r),
        ensures
            old(g)@.sound() ==> final(g)@.sound() && old(g)@.committed_stay(final(g)@),
            final(g)@ == old(g)@.abort_txn(r.txn).0,
            actions_of(final(actions)@) == actions_of(old(actions)@) + old(g)@.abort_txn(r.txn).1,
            final(out)@ == old(out)@ + old(g)@.abort_txn(r.txn).2,
            final(g)@.wf(),
            final(g)@.same_frame(old(g)@),
    {
        TxnNode::abort(g, r.txn, actions, out);
    }

    /// Follows up the delivery of event `r`, which is accepted, or aborted
    /// with a value copied forward.
    ///
    /// Every reader of `r` is told, which marks the reads that `r`
    /// satisfies.  Of the readers that are ready now, the one whose
    /// transaction has the least timestamp (the first of several) is
    /// claimed for the worker at hand and returned, unless it is queued
    /// already; the others that wait go into the ready queue.
    pub fn get_next_option_push_others_ready(g: &mut Tpg, r: EvRef) -> (next: Option<EvRef>)
        requires
            old(g)@.wf(),
            old(g)@.has_ev(r),
        ensures
            old(g)@.sound() ==> final(g)@.sound(),
            final(g)@ == old(g)@.get_next(r).0,
            next == old(g)@.get_next(r).1,
            final(g)@.wf(),
            final(g)@.same_keys(old(g)@),
            final(g)@.state_last_modify == old(g)@.state_last_modify,
            next matches Some(c) ==> final(g)@.has_ev(c),
    {
        proof {
            if g@.sound() {
                g@.lemma_sound_get_next(r);
            }
        }
        proof {
            old(g)@.lemma_get_next(r);
            assert(g@.txn_ok(r.txn));
            assert(g@.ev_ok(r));
        }
        let children = g.nodes[r.txn].ev_nodes[r.idx].read_by.clone();
        assert(children@ =~= old(g)@.ev(r).read_by);
        let ghost g0 = old(g)@;
        let ghost told = g0.tell_readers(r, children@, 0);
        let mut j: usize = 0;
        while j < children.len()
            invariant
                j <= children@.len(),
                g0.wf(),
                g0.has_ev(r),
                g0.ev_ok(r),
                children@ == g0.ev(r).read_by,
                g@.wf(),
                g@.same_frame(g0),
                told == g0.tell_readers(r, children@, 0),
                g@.tell_readers(r, children@, j as int) == told,
            decreases children.len() - j,
        {
            let c = children[j];
            proof {
                assert(g0.has_ev(g0.ev(r).read_by[j as int]));
                assert(g0.nodes[c.txn as int].same_keys(g@.nodes[c.txn as int]));
                assert(g@.txn_ok(c.txn));
                assert(g@.ev_ok(c));
                g@.lemma_restate(c, g@.ev(c).with_flags_of(r, true));
                g@.with_ev(c, g@.ev(c).with_flags_of(r, true)).lemma_same_keys_trans(g@, g0);
            }
            g.mark_parent(c, r, true);
            j = j + 1;
        }
        assert(g@ == told);
        let mut best: Option<usize> = None;
        let mut j: usize = 0;
        while j < children.len()
            invariant
                j <= children@.len(),
                g@ == told,
                g@.wf(),
                g@.same_frame(g0),
                g0.wf(),
                g0.has_ev(r),
                g0.ev_ok(r),
                children@ == g0.ev(r).read_by,
                match best {
                    Some(b) => g@.best_ready(children@, j as int) == Some(b as int) && b < j,
                    None => g@.best_ready(children@, j as int) is None,
                },
            decreases children.len() - j,
        {
            let c = children[j];
            proof {
                assert(g0.has_ev(g0.ev(r).read_by[j as int]));
                assert(g0.nodes[c.txn as int].same_keys(g@.nodes[c.txn as int]));
                g@.lemma_best_ready(children@, j as int);
            }
            if g.nodes[c.txn].ev_nodes[c.idx].ready() {
                match best {
                    None => {
                        best = Some(j);
                    },
                    Some(b) => {
                        let held = children[b];
                        proof {
                            assert(g@.ready_at(children@, b as int));
                        }
                        if g.nodes[c.txn].ts < g.nodes[held.txn].ts {
                            best = Some(j);
                        }
                    },
                }
            }
            j = j + 1;
        }
        let chosen = match best {
            None => {
                return None;
            },
            Some(m) => m,
        };
        proof {
            told.lemma_best_ready(children@, children@.len() as int);
            told.lemma_requeue_others(children@, chosen as int, 0);
        }
        let ghost others = told.requeue_others(children@, chosen as int, 0);
        let mut j: usize = 0;
        while j < children.len()
            invariant
                j <= children@.len(),
                chosen < children@.len(),
                told.wf(),
                g0.wf(),
                g0.has_ev(r),
                g0.ev_ok(r),
                told.same_frame(g0),
                children@ == g0.ev(r).read_by,
                g@.wf(),
                g@.same_keys(told),
                g@.state_last_modify == told.state_last_modify,
                others == told.requeue_others(children@, chosen as int, 0),
                g@.requeue_others(children@, chosen as int, j as int) == others,
            decreases children.len() - j,
        {
            let c = children[j];
            proof {
                assert(g0.has_ev(g0.ev(r).read_by[j as int]));
                assert(g0.nodes[c.txn as int].same_keys(told.nodes[c.txn as int]));
                assert(told.nodes[c.txn as int].same_keys(g@.nodes[c.txn as int]));
            }
            if j != chosen && g.nodes[c.txn].ev_nodes[c.idx].ready() {
                match g.nodes[c.txn].ev_nodes[c.idx].status {
                    EventStatus::WAITING => {
                        let ghost g_j = g@;
                        proof {
                            g@.lemma_restate(c, g@.ev(c).with_status(EventStatus::INQUEUE));
                            let g1 = g@.with_ev(c, g@.ev(c).with_status(EventStatus::INQUEUE));
                            g1.lemma_requeue(g1.ready_queue.push(c));
                            (Graph {
                                ready_queue: g1.ready_queue.push(c),
                                ..g1
                            }).lemma_same_keys_trans(g1, g_j);
                            (Graph {
                                ready_queue: g1.ready_queue.push(c),
                                ..g1
                            }).lemma_same_keys_trans(g_j, told);
                        }
                        g.set_status(c, EventStatus::INQUEUE);
                        g.ready_queue.push_back(c);
                    },
                    _ => {},
                }
            }
            j = j + 1;
        }
        assert(g@ == others);
        let c = children[chosen];
        proof {
            assert(g0.has_ev(g0.ev(r).read_by[chosen as int]));
            assert(g0.nodes[c.txn as int].same_keys(told.nodes[c.txn as int]));
            assert(told.nodes[c.txn as int].same_keys(g@.nodes[c.txn as int]));
        }
        match g.exchange_status(c, EventStatus::WAITING, EventStatus::CLAIMED) {
            Ok(_) => Some(c),
            Err(_) => None,
        }
    }

    /// Says where the values that event `r` reads come from: for each
    /// read, the version that its producer wrote, or the default value where
    /// the key has no producer.
    pub fn read_plan(g: &Tpg, r: EvRef) -> (plan: Vec<ReadSource>)
        requires
            g@.wf(),
            g@.has_ev(r),
        ensures
            sources_of(plan@) == g@.read_plan(r),
    {
        proof {
            assert(g@.txn_ok(r.txn));
            assert(g@.ev_ok(r));
        }
        let node = &g.nodes[r.txn].ev_nodes[r.idx];
        let mut plan: Vec<ReadSource> = Vec::new();
        let mut i: usize = 0;
        while i < node.reads.len()
            invariant
                i <= node@.reads.len(),
                g@.wf(),
                g@.has_ev(r),
                g@.ev_ok(r),
                node@ == g@.ev(r),
                plan@.len() == i,
                forall|j: int| 0 <= j < i ==> (#[trigger] plan@[j])@ == g@.source(r, j),
            decreases node.reads.len() - i,
        {
            let from = *node.read_from[i].read();
            let source = match from {
                None => ReadSource::Default,
                Some(p) => {
                    assert(g@.ev(r).read_from[i as int] == Some(p));
                    ReadSource::Version { key: node.reads[i].clone(), ts: g.nodes[p.txn].ts }
                },
            };
            plan.push(source);
            i = i + 1;
        }
        assert(sources_of(plan@) =~= g@.read_plan(r));
        plan
    }

    /// Records `son` as a reader of `parent`.  The event joins the parent's
    /// readers; its transaction joins the readers of the parent's
    /// transaction, unless it is that transaction or is among them already.
    pub fn add_read_by(g: &mut Tpg, parent: EvRef, son: EvRef)
        requires
            old(g)@.wf(),
            old(g)@.has_ev(parent),
            old(g)@.has_ev(son),
            before(parent, son),
        ensures
            final(g)@ == old(g)@.add_read_by(parent, son),
            final(g)@.wf(),
            final(g)@.same_frame(old(g)@),
    {
        proof {
            g@.lemma_add_read_by(parent, son);
        }
        g.nodes[parent.txn].ev_nodes[parent.idx].read_by.push(son);
        proof {
            Tpg::lemma_event_changed(old(g), g, parent);
        }
        let ghost mid = *g;
        if parent.txn != son.txn {
            if !holds_value(&g.nodes[parent.txn].read_by, son.txn) {
                g.nodes[parent.txn].read_by.push(son.txn);
                proof {
                    Tpg::lemma_txn_changed(&mid, g, parent.txn);
                }
            }
        }
    }
}

/// Whether `v` holds `x`.
pub fn holds_value(v: &Vec<usize>, x: usize) -> (r: bool)
    ensures
        r == v@.contains(x),
{
    let mut i: usize = 0;
    while i < v.len()
        invariant
            i <= v@.len(),
            forall|j: int| 0 <= j < i ==> v@[j] != x,
        decreases v.len() - i,
    {
        if v[i] == x {
            return true;
        }
        i = i + 1;
    }
    false
}

/// The position of the first read of `key`.
pub open spec fn first_read(reads: Seq<Seq<char>>, key: Seq<char>) -> int {
    match reads.index_of_first(key) {
        Some(i) => i,
        None => 0,
    }
}

/// The row key of `key` for a row slot held in a `usize`.
pub open spec fn spec_row_key_of(key: Seq<char>, row: usize) -> Seq<char> {
    crate::utils::spec_row_key(key, row as nat)
}

} // verus!
