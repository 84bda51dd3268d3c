use crate::ds::events::EventSpec;
use crate::ds::transactions::Txn;
use crate::external::ffi::TxnMessage;
use crate::utils::spec_row_key;
use vstd::prelude::*;

verus! {

/// The states of an event.
#[derive(Debug, Clone, Copy, PartialEq, Eq, Structural)]
pub enum EventStatus {
    /// The owning transaction is being built and linked.
    CONSTRUCT,
    /// Ready, and handed to the ready queue.
    INQUEUE,
    /// Linked; waits for the events it reads from.
    WAITING,
    /// Reserved by one worker, which executes it.
    CLAIMED,
    /// Executed; its write is published.
    ACCEPTED,
    /// Rolled back for good, with its transaction.
    ABORTED,
}

impl EventStatus {
    /// Stores `new` if the state is `current`.  Returns the state that was
    /// found: in `Ok` where it was `current` and `new` was stored, in `Err`
    /// where it was another and nothing was stored.
    pub fn compare_exchange(&mut self, current: EventStatus, new: EventStatus) -> (r: Result<
        EventStatus,
        EventStatus,
    >)
        ensures
            *old(self) == current ==> *final(self) == new && r == Ok::<EventStatus, EventStatus>(
                current,
            ),
            *old(self) != current ==> *final(self) == *old(self) && r == Err::<
                EventStatus,
                EventStatus,
            >(*old(self)),
    {
        let found = *self;
        if found == current {
            *self = new;
            Ok(found)
        } else {
            Err(found)
        }
    }
}

/// The states of a transaction.
#[derive(Debug, Clone, Copy, PartialEq, Eq, Structural)]
pub enum TxnStatus {
    /// Some event is unfinished, or some parent has not committed.
    WAITING,
    /// Done; an aborted transaction commits too, once its parents have.
    COMMITED,
    /// Aborted by the executor; not yet committed.
    ABORTED,
}

/// A handle on an event: the transaction's place in the graph and the
/// event's place in the transaction.
#[derive(Debug, Clone, Copy, PartialEq, Eq, Structural)]
pub struct EvRef {
    pub txn: usize,
    pub idx: usize,
}

/// An event node as the contracts see it.
pub ghost struct EvState {
    /// For each read, the event whose write satisfies it, if there is one.
    pub read_from: Seq<Option<EvRef>>,
    /// The events that read this event's write.
    pub read_by: Seq<EvRef>,
    /// The owning transaction.
    pub txn: usize,
    pub status: EventStatus,
    /// For each read, whether its producer has delivered.
    pub fulfilled: Seq<bool>,
    /// The row keys read, the write key among them.
    pub reads: Seq<Seq<char>>,
    pub write: Seq<char>,
    pub has_write: bool,
    /// Whether the store holds a version for this event's write.
    pub has_storage_slot: bool,
    pub idx: i32,
    /// The value that the event wrote back last.
    pub written: Seq<u8>,
}

/// A transaction node as the contracts see it.
pub ghost struct TxnState {
    /// Parents that have not committed yet, one slot per read.
    pub read_from: Seq<Option<usize>>,
    /// The slot of each read key.
    pub read_from_index_map: Map<Seq<char>, usize>,
    /// The transactions that read from this one.
    pub read_by: Seq<usize>,
    /// For each key written, the transaction that wrote it just before.
    pub cover: Map<Seq<char>, Option<usize>>,
    /// For each key written, the transaction that wrote it next.
    pub covered_by: Map<Seq<char>, Option<usize>>,
    pub status: TxnStatus,
    pub ev_nodes: Seq<EvState>,
    pub txn_req_id: u64,
    pub ts: u64,
    pub unfinished_events: u16,
    /// Whether the node was released, with its versions.
    pub dropped: bool,
    /// Every parent that was ever awaited, in the order in which the
    /// transaction was linked to them.
    pub parents: Seq<usize>,
}

/// The graph as the contracts see it.
pub ghost struct Graph {
    pub nodes: Seq<TxnState>,
    /// For each row key, the last event that writes it and its transaction.
    pub state_last_modify: Map<Seq<char>, Option<(EvRef, usize)>>,
    /// The events handed out for execution, oldest first.
    pub ready_queue: Seq<EvRef>,
}

/// The transaction of an entry of the index of last writers.
pub open spec fn last_writer(entry: Option<(EvRef, usize)>) -> Option<usize> {
    match entry {
        Some(w) => Some(w.1),
        None => None,
    }
}

/// Whether event `a` was made before event `b`.
pub open spec fn before(a: EvRef, b: EvRef) -> bool {
    a.txn < b.txn || (a.txn == b.txn && a.idx < b.idx)
}

/// The number of events that are not accepted.
pub open spec fn unaccepted(events: Seq<EvState>) -> nat
    decreases events.len(),
{
    if events.len() == 0 {
        0
    } else {
        unaccepted(events.drop_last()) + if events.last().status == EventStatus::ACCEPTED {
            0nat
        } else {
            1nat
        }
    }
}

/// The number of accepted events of all transactions.
pub open spec fn accepted_total(nodes: Seq<TxnState>) -> nat
    decreases nodes.len(),
{
    if nodes.len() == 0 {
        0
    } else {
        (accepted_total(nodes.drop_last()) + nodes.last().ev_nodes.len() - unaccepted(
            nodes.last().ev_nodes,
        )) as nat
    }
}

pub proof fn lemma_unaccepted_bound(events: Seq<EvState>)
    ensures
        unaccepted(events) <= events.len(),
    decreases events.len(),
{
    if events.len() > 0 {
        lemma_unaccepted_bound(events.drop_last());
    }
}

/// Changing one event changes the count by that event's share.
pub proof fn lemma_unaccepted_update(events: Seq<EvState>, e: int, new: EvState)
    requires
        0 <= e < events.len(),
    ensures
        unaccepted(events.update(e, new)) + (if events[e].status == EventStatus::ACCEPTED {
            0int
        } else {
            1int
        }) == unaccepted(events) + (if new.status == EventStatus::ACCEPTED {
            0int
        } else {
            1int
        }),
    decreases events.len(),
{
    let updated = events.update(e, new);
    if e == events.len() - 1 {
        assert(updated.drop_last() =~= events.drop_last());
    } else {
        assert(updated.drop_last() =~= events.drop_last().update(e, new));
        lemma_unaccepted_update(events.drop_last(), e, new);
    }
}

/// Changing one transaction changes the total by that transaction's share.
pub proof fn lemma_accepted_total_update(nodes: Seq<TxnState>, t: int, new: TxnState)
    requires
        0 <= t < nodes.len(),
    ensures
        accepted_total(nodes.update(t, new)) + nodes[t].ev_nodes.len() - unaccepted(
            nodes[t].ev_nodes,
        ) == accepted_total(nodes) + new.ev_nodes.len() - unaccepted(new.ev_nodes),
    decreases nodes.len(),
{
    let updated = nodes.update(t, new);
    lemma_unaccepted_bound(nodes[t].ev_nodes);
    lemma_unaccepted_bound(new.ev_nodes);
    lemma_unaccepted_bound(nodes.last().ev_nodes);
    if t == nodes.len() - 1 {
        assert(updated.drop_last() =~= nodes.drop_last());
    } else {
        assert(updated.drop_last() =~= nodes.drop_last().update(t, new));
        lemma_accepted_total_update(nodes.drop_last(), t, new);
    }
}

impl EvState {
    /// Every read is satisfied.
    pub open spec fn no_waiting(self) -> bool {
        forall|i: int| 0 <= i < self.fulfilled.len() ==> self.fulfilled[i]
    }

    /// The event may be executed: it waits or is queued, and every read is
    /// satisfied.
    pub open spec fn ready(self) -> bool {
        (self.status == EventStatus::WAITING || self.status == EventStatus::INQUEUE)
            && self.no_waiting()
    }

    /// The lists that belong to the reads have one entry for each read.
    pub open spec fn aligned(self) -> bool {
        self.read_from.len() == self.reads.len() && self.fulfilled.len() == self.reads.len()
    }

    /// The event with the flag of every read that `parent` satisfies set to
    /// `value`.
    pub open spec fn with_flags_of(self, parent: EvRef, value: bool) -> EvState {
        EvState {
            fulfilled: Seq::new(
                self.fulfilled.len(),
                |i: int|
                    if i < self.read_from.len() && self.read_from[i] == Some(parent) {
                        value
                    } else {
                        self.fulfilled[i]
                    },
            ),
            ..self
        }
    }

    pub open spec fn with_status(self, status: EventStatus) -> EvState {
        EvState { status, ..self }
    }
}

impl TxnState {
    /// No parent is left to wait for.
    pub open spec fn no_waiting(self) -> bool {
        forall|i: int| 0 <= i < self.read_from.len() ==> self.read_from[i] is None
    }

    /// No link to an earlier writer is left.
    pub open spec fn cover_cleared(self) -> bool {
        forall|k: Seq<char>| self.cover.contains_key(k) ==> self.cover[k] is None
    }

    /// The transaction with every slot that holds `father` cleared.
    pub open spec fn without_parent(self, father: usize) -> TxnState {
        TxnState {
            read_from: Seq::new(
                self.read_from.len(),
                |i: int|
                    if self.read_from[i] == Some(father) {
                        None
                    } else {
                        self.read_from[i]
                    },
            ),
            ..self
        }
    }

    /// Whether some slot holds `father`.
    pub open spec fn waits_for(self, father: usize) -> bool {
        exists|i: int| 0 <= i < self.read_from.len() && self.read_from[i] == Some(father)
    }

    /// Whether `key` is written by one of the events.
    pub open spec fn writes(self, key: Seq<char>) -> bool {
        exists|e: int|
            0 <= e < self.ev_nodes.len() && (#[trigger] self.ev_nodes[e]).has_write
                && self.ev_nodes[e].write == key
    }

    /// Whether this transaction holds a link to transaction `t`.
    pub open spec fn holds(self, t: usize) -> bool {
        ||| self.waits_for(t)
        ||| self.read_by.contains(t)
        ||| exists|k: Seq<char>| self.cover.contains_key(k) && #[trigger] self.cover[k] == Some(t)
        ||| exists|k: Seq<char>|
            self.covered_by.contains_key(k) && #[trigger] self.covered_by[k] == Some(t)
    }
}

impl Graph {
    pub open spec fn has_txn(self, t: usize) -> bool {
        t < self.nodes.len()
    }

    pub open spec fn has_ev(self, r: EvRef) -> bool {
        r.txn < self.nodes.len() && r.idx < self.nodes[r.txn as int].ev_nodes.len()
    }

    pub open spec fn txn(self, t: usize) -> TxnState {
        self.nodes[t as int]
    }

    pub open spec fn ev(self, r: EvRef) -> EvState {
        self.nodes[r.txn as int].ev_nodes[r.idx as int]
    }

    pub open spec fn with_txn(self, t: usize, node: TxnState) -> Graph {
        Graph { nodes: self.nodes.update(t as int, node), ..self }
    }

    pub open spec fn with_ev(self, r: EvRef, e: EvState) -> Graph {
        self.with_txn(
            r.txn,
            TxnState { ev_nodes: self.txn(r.txn).ev_nodes.update(r.idx as int, e), ..self.txn(
                r.txn,
            ) },
        )
    }

    /// Whether anything that is still alive holds a link to transaction `t`:
    /// the index of last writers, or another transaction.
    pub open spec fn referenced(self, t: usize) -> bool {
        ||| exists|k: Seq<char>|
            self.state_last_modify.contains_key(k) && last_writer(
                #[trigger] self.state_last_modify[k],
            ) == Some(t)
        ||| exists|u: int|
            0 <= u < self.nodes.len() && !(#[trigger] self.nodes[u]).dropped && self.nodes[u].holds(
                t,
            )
    }

    /// Whether transaction `t` can be released: it has committed and nothing
    /// that is alive holds a link to it.
    pub open spec fn droppable(self, t: usize) -> bool {
        &&& self.has_txn(t)
        &&& !self.txn(t).dropped
        &&& self.txn(t).status == TxnStatus::COMMITED
        &&& !self.referenced(t)
    }
}

impl Graph {
    /// The links of event `r` are in order: its lists are aligned with its
    /// reads, it reads only from events made before it, and it is read only
    /// by events made after it.
    pub open spec fn ev_ok(self, r: EvRef) -> bool {
        let e = self.ev(r);
        &&& e.txn == r.txn
        &&& e.idx == r.idx
        &&& e.aligned()
        &&& forall|i: int|
            0 <= i < e.read_from.len() ==> ((#[trigger] e.read_from[i]) matches Some(p)
                ==> self.has_ev(p) && before(p, r))
        &&& forall|j: int|
            0 <= j < e.read_by.len() ==> self.has_ev(#[trigger] e.read_by[j]) && before(
                r,
                e.read_by[j],
            )
    }

    /// The links of transaction `t` are in order: its parents were made
    /// before it and its children after it, every key it reads has a slot,
    /// and the links to other writers are kept under keys that it writes.
    pub open spec fn txn_ok(self, t: usize) -> bool {
        let n = self.txn(t);
        &&& n.ev_nodes.len() <= 0xffff
        &&& forall|e: usize| e < n.ev_nodes.len() ==> #[trigger] self.ev_ok(EvRef { txn: t, idx: e })
        &&& forall|i: int|
            0 <= i < n.read_from.len() ==> ((#[trigger] n.read_from[i]) matches Some(p) ==> p < t)
        &&& forall|j: int|
            0 <= j < n.read_by.len() ==> t < (#[trigger] n.read_by[j]) < self.nodes.len()
        &&& forall|k: Seq<char>| #[trigger]
            n.cover.contains_key(k) ==> n.writes(k) && (n.cover[k] matches Some(p) ==> p < t)
        &&& forall|k: Seq<char>| #[trigger]
            n.covered_by.contains_key(k) ==> n.writes(k) && (n.covered_by[k] matches Some(u) ==> t
                < u < self.nodes.len())
        &&& forall|e: int, i: int|
            0 <= e < n.ev_nodes.len() && 0 <= i < n.ev_nodes[e].reads.len()
                ==> n.read_from_index_map.contains_key(#[trigger] n.ev_nodes[e].reads[i])
        &&& forall|k: Seq<char>| #[trigger]
            n.read_from_index_map.contains_key(k) ==> n.read_from_index_map[k] < n.read_from.len()
        &&& forall|e: int|
            0 <= e < n.ev_nodes.len() && (#[trigger] n.ev_nodes[e]).has_write
                ==> n.cover.contains_key(n.ev_nodes[e].write)
    }

    /// The structural invariant of the graph: every link leads to a node
    /// that exists, and links run from older nodes to newer ones.
    pub open spec fn wf(self) -> bool {
        &&& self.nodes.len() <= usize::MAX
        &&& forall|t: usize| t < self.nodes.len() ==> #[trigger] self.txn_ok(t)
        &&& forall|k: Seq<char>| #[trigger]
            self.state_last_modify.contains_key(k) ==> (self.state_last_modify[k] matches Some(w)
                ==> self.has_ev(w.0) && w.0.txn == w.1 && self.ev(w.0).has_write && self.ev(
                w.0,
            ).write == k)
        &&& forall|i: int| 0 <= i < self.ready_queue.len() ==> self.has_ev(#[trigger] self.ready_queue[i])
    }

}

/// An event that is built from the template `event` for transaction `txn`:
/// nothing is linked, nothing is fulfilled, and each key is the row key that
/// the message chose.
pub open spec fn template_event(
    event: EventSpec,
    idx: i32,
    txn: usize,
    reads_idx: Seq<usize>,
    write_idx: usize,
) -> EvState {
    EvState {
        read_from: Seq::new(event.reads.len(), |i: int| None::<EvRef>),
        read_by: Seq::empty(),
        txn,
        status: EventStatus::CONSTRUCT,
        fulfilled: Seq::new(event.reads.len(), |i: int| false),
        reads: Seq::new(event.reads.len(), |i: int| spec_row_key(event.reads[i], reads_idx[i] as nat)),
        write: spec_row_key(event.write, write_idx as nat),
        has_write: event.has_write,
        has_storage_slot: false,
        idx,
        written: Seq::empty(),
    }
}

/// Whether a message gives a row slot for every key of every event of the
/// template `es`, which has no more events than a transaction can count.
pub open spec fn message_fits(
    reads_idx: Seq<Seq<usize>>,
    write_idx: Seq<usize>,
    es: Seq<EventSpec>,
) -> bool {
    &&& es.len() <= 0xffff
    &&& reads_idx.len() >= es.len()
    &&& write_idx.len() >= es.len()
    &&& forall|e: int| 0 <= e < es.len() ==> (#[trigger] reads_idx[e]).len() >= es[e].reads.len()
}

/// The events of a transaction that is built from the template `es`.
pub open spec fn fresh_events(
    es: Seq<EventSpec>,
    id: usize,
    reads_idx: Seq<Seq<usize>>,
    write_idx: Seq<usize>,
) -> Seq<EvState> {
    Seq::new(
        es.len(),
        |e: int| template_event(es[e], e as i32, id, reads_idx[e], write_idx[e]),
    )
}

/// The keys that the events read, event after event.
pub open spec fn flat_reads(events: Seq<EvState>) -> Seq<Seq<char>>
    decreases events.len(),
{
    if events.len() == 0 {
        Seq::empty()
    } else {
        flat_reads(events.drop_last()) + events.last().reads
    }
}

/// The last position of `key` in `keys`.
pub open spec fn last_position(keys: Seq<Seq<char>>, key: Seq<char>) -> int
    decreases keys.len(),
{
    if keys.len() == 0 {
        0
    } else if keys.last() == key {
        keys.len() - 1
    } else {
        last_position(keys.drop_last(), key)
    }
}

/// The slot of each key in `keys`: its last position.
pub open spec fn slots_of(keys: Seq<Seq<char>>) -> Map<Seq<char>, usize> {
    Map::new(|k: Seq<char>| keys.contains(k), |k: Seq<char>| last_position(keys, k) as usize)
}

/// The keys that the events write, each without an earlier writer.
pub open spec fn blank_cover(events: Seq<EvState>) -> Map<Seq<char>, Option<usize>> {
    Map::new(
        |k: Seq<char>|
            exists|e: int|
                0 <= e < events.len() && (#[trigger] events[e]).has_write && events[e].write == k,
        |k: Seq<char>| None::<usize>,
    )
}

/// A transaction as it is built from a message: it waits, nothing is
/// linked, and every event is unfinished.
pub open spec fn fresh_txn(
    es: Seq<EventSpec>,
    id: usize,
    ts: u64,
    txn_req_id: u64,
    reads_idx: Seq<Seq<usize>>,
    write_idx: Seq<usize>,
) -> TxnState {
    let events = fresh_events(es, id, reads_idx, write_idx);
    let keys = flat_reads(events);
    TxnState {
        read_from: Seq::new(keys.len(), |i: int| None::<usize>),
        read_from_index_map: slots_of(keys),
        read_by: Seq::empty(),
        cover: blank_cover(events),
        covered_by: Map::empty(),
        status: TxnStatus::WAITING,
        ev_nodes: events,
        txn_req_id,
        ts,
        unfinished_events: es.len() as u16,
        dropped: false,
        parents: Seq::empty(),
    }
}

pub proof fn lemma_last_position(keys: Seq<Seq<char>>, key: Seq<char>)
    requires
        keys.contains(key),
    ensures
        0 <= last_position(keys, key) < keys.len(),
        keys[last_position(keys, key)] == key,
    decreases keys.len(),
{
    if keys.last() != key {
        let i = choose|i: int| 0 <= i < keys.len() && keys[i] == key;
        assert(keys.drop_last()[i] == key);
        lemma_last_position(keys.drop_last(), key);
    }
}

pub proof fn lemma_slots_push(keys: Seq<Seq<char>>, key: Seq<char>)
    requires
        keys.len() <= usize::MAX,
    ensures
        slots_of(keys.push(key)) == slots_of(keys).insert(key, keys.len() as usize),
{
    let more = keys.push(key);
    assert(more.drop_last() =~= keys);
    assert forall|k: Seq<char>| more.contains(k) <==> (keys.contains(k) || k == key) by {
        if keys.contains(k) {
            let i = choose|i: int| 0 <= i < keys.len() && keys[i] == k;
            assert(more[i] == k);
        }
        if k == key {
            assert(more[keys.len() as int] == k);
        }
        if more.contains(k) {
            let i = choose|i: int| 0 <= i < more.len() && more[i] == k;
            if i < keys.len() {
                assert(keys[i] == k);
            }
        }
    }
    assert(slots_of(more) =~= slots_of(keys).insert(key, keys.len() as usize));
}

pub proof fn lemma_flat_reads_contains(events: Seq<EvState>, e: int, i: int)
    requires
        0 <= e < events.len(),
        0 <= i < events[e].reads.len(),
    ensures
        flat_reads(events).contains(events[e].reads[i]),
    decreases events.len(),
{
    let flat = flat_reads(events);
    let head = flat_reads(events.drop_last());
    if e == events.len() - 1 {
        assert(flat[head.len() + i] == events[e].reads[i]);
    } else {
        lemma_flat_reads_contains(events.drop_last(), e, i);
        let at = choose|at: int| 0 <= at < head.len() && head[at] == events[e].reads[i];
        assert(flat[at] == events[e].reads[i]);
    }
}

impl Graph {
    /// The two graphs have the same transactions and events with the same
    /// keys, and indexes over the same keys.
    pub open spec fn same_keys(self, other: Graph) -> bool {
        &&& self.nodes.len() == other.nodes.len()
        &&& self.state_last_modify.dom() == other.state_last_modify.dom()
        &&& forall|t: int|
            0 <= t < self.nodes.len() ==> (#[trigger] self.nodes[t]).same_keys(other.nodes[t])
    }

    /// The two graphs differ at most in the nodes: in their links, states
    /// and counters, not in the keys of their events, and not in the index
    /// or the queue.
    pub open spec fn same_frame(self, other: Graph) -> bool {
        &&& self.same_keys(other)
        &&& self.state_last_modify == other.state_last_modify
        &&& self.ready_queue == other.ready_queue
    }

    /// Replacing an event by one with the same keys and links in order
    /// keeps the graph in order.
    pub proof fn lemma_with_ev(self, r: EvRef, e: EvState)
        requires
            self.wf(),
            self.has_ev(r),
            e.txn == r.txn,
            e.idx == r.idx,
            e.aligned(),
            e.reads == self.ev(r).reads,
            e.write == self.ev(r).write,
            e.has_write == self.ev(r).has_write,
            forall|i: int|
                0 <= i < e.read_from.len() ==> ((#[trigger] e.read_from[i]) matches Some(p)
                    ==> self.has_ev(p) && before(p, r)),
            forall|j: int|
                0 <= j < e.read_by.len() ==> self.has_ev(#[trigger] e.read_by[j]) && before(
                    r,
                    e.read_by[j],
                ),
        ensures
            self.with_ev(r, e).wf(),
            self.with_ev(r, e).same_frame(self),
    {
        let g = self.with_ev(r, e);
        assert(self.txn_ok(r.txn));
        assert(self.ev_ok(r));
        assert forall|t: int| 0 <= t < g.nodes.len() implies (#[trigger] g.nodes[t]).same_keys(
            self.nodes[t],
        ) by {
            assert(self.txn_ok(t as usize));
        }
        assert forall|t: usize| t < g.nodes.len() implies #[trigger] g.txn_ok(t) by {
            assert(self.txn_ok(t));
            lemma_writes_same(g.nodes[t as int], self.nodes[t as int]);
            assert forall|x: usize| x < g.txn(t).ev_nodes.len() implies #[trigger] g.ev_ok(
                EvRef { txn: t, idx: x },
            ) by {
                assert(self.ev_ok(EvRef { txn: t, idx: x }));
            }
        }
    }

    /// Replacing the links of a transaction by links in order keeps the
    /// graph in order.
    pub proof fn lemma_with_txn(self, t: usize, n: TxnState)
        requires
            self.wf(),
            self.has_txn(t),
            n.ev_nodes == self.txn(t).ev_nodes,
            n.txn_req_id == self.txn(t).txn_req_id,
            n.ts == self.txn(t).ts,
            n.read_from_index_map == self.txn(t).read_from_index_map,
            n.read_from.len() == self.txn(t).read_from.len(),
            forall|i: int|
                0 <= i < n.read_from.len() ==> ((#[trigger] n.read_from[i]) matches Some(p) ==> p
                    < t),
            forall|j: int| 0 <= j < n.read_by.len() ==> t < (#[trigger] n.read_by[j]) < self.nodes.len(),
            forall|k: Seq<char>| #[trigger]
                n.cover.contains_key(k) ==> n.writes(k) && (n.cover[k] matches Some(p) ==> p < t),
            forall|k: Seq<char>| #[trigger]
                n.covered_by.contains_key(k) ==> n.writes(k) && (n.covered_by[k] matches Some(u)
                    ==> t < u < self.nodes.len()),
            forall|e: int|
                0 <= e < n.ev_nodes.len() && (#[trigger] n.ev_nodes[e]).has_write
                    ==> n.cover.contains_key(n.ev_nodes[e].write),
        ensures
            self.with_txn(t, n).wf(),
            self.with_txn(t, n).same_frame(self),
    {
        let g = self.with_txn(t, n);
        assert forall|u: int| 0 <= u < g.nodes.len() implies (#[trigger] g.nodes[u]).same_keys(
            self.nodes[u],
        ) by {
            assert(self.txn_ok(u as usize));
        }
        assert forall|u: usize| u < g.nodes.len() implies #[trigger] g.txn_ok(u) by {
            assert(self.txn_ok(u));
            assert forall|x: usize| x < g.txn(u).ev_nodes.len() implies #[trigger] g.ev_ok(
                EvRef { txn: u, idx: x },
            ) by {
                assert(self.ev_ok(EvRef { txn: u, idx: x }));
            }
        }
    }

    /// Having the same keys is transitive.
    pub proof fn lemma_same_keys_trans(self, mid: Graph, last: Graph)
        requires
            self.same_keys(mid),
            mid.same_keys(last),
        ensures
            self.same_keys(last),
    {
        assert forall|t: int| 0 <= t < self.nodes.len() implies (#[trigger] self.nodes[t]).same_keys(
            last.nodes[t],
        ) by {
            assert(self.nodes[t].same_keys(mid.nodes[t]));
            assert(mid.nodes[t].same_keys(last.nodes[t]));
        }
    }
}

impl TxnState {
    /// The two transactions have the same events with the same keys, and
    /// the same slots.
    pub open spec fn same_keys(self, other: TxnState) -> bool {
        &&& self.ev_nodes.len() == other.ev_nodes.len()
        &&& self.read_from_index_map == other.read_from_index_map
        &&& self.read_from.len() == other.read_from.len()
        &&& self.txn_req_id == other.txn_req_id
        &&& self.ts == other.ts
        &&& forall|e: int|
            0 <= e < self.ev_nodes.len() ==> {
                &&& (#[trigger] self.ev_nodes[e]).reads == other.ev_nodes[e].reads
                &&& self.ev_nodes[e].write == other.ev_nodes[e].write
                &&& self.ev_nodes[e].has_write == other.ev_nodes[e].has_write
                &&& self.ev_nodes[e].idx == other.ev_nodes[e].idx
                &&& self.ev_nodes[e].txn == other.ev_nodes[e].txn
            }
    }
}

/// Transactions with the same keys write the same keys.
pub proof fn lemma_writes_same(a: TxnState, b: TxnState)
    requires
        a.same_keys(b),
    ensures
        forall|k: Seq<char>| a.writes(k) == b.writes(k),
{
    assert forall|k: Seq<char>| a.writes(k) == b.writes(k) by {
        if a.writes(k) {
            let e = choose|e: int|
                0 <= e < a.ev_nodes.len() && (#[trigger] a.ev_nodes[e]).has_write
                    && a.ev_nodes[e].write == k;
            assert(b.ev_nodes[e].has_write && b.ev_nodes[e].write == k);
        }
        if b.writes(k) {
            let e = choose|e: int|
                0 <= e < b.ev_nodes.len() && (#[trigger] b.ev_nodes[e]).has_write
                    && b.ev_nodes[e].write == k;
            assert(a.ev_nodes[e].has_write && a.ev_nodes[e].write == k);
        }
    }
}

} // verus!
