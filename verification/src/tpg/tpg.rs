use crate::database::api::{is_row_below, is_row_of, lemma_row_below_step, lemma_row_of_step};
use crate::ds::transactions::Txn;
use crate::external::ffi::TxnMessage;
use crate::tpg::ev_node::EvNode;
use crate::tpg::model::{
    fresh_txn, last_writer, lemma_flat_reads_contains, lemma_last_position, message_fits, EvRef,
    EvState, Graph, TxnState,
};
use crate::database::action::{actions_of, Action, DbAction};
use crate::tpg::model::TxnStatus;
use crate::tpg::txn_node::TxnNode;
use crate::utils::{row_key, spec_row_key};
use std::collections::VecDeque;
use vstd::hash_map::StringHashMap;
use vstd::prelude::*;

verus! {

/// The transactional parallel graph: the transactions with their events,
/// the index of last writers, and the queue of events that are ready.
pub struct Tpg {
    /// The events that are ready for a worker, oldest first.
    pub ready_queue: VecDeque<EvRef>,
    /// For each row key, the last event that writes it and its transaction.
    pub state_last_modify: StringHashMap<Option<(EvRef, usize)>>,
    /// The transactions, in the order of their arrival.  A transaction's
    /// place here is its handle.
    pub nodes: Vec<TxnNode>,
}

impl View for Tpg {
    type V = Graph;

    open spec fn view(&self) -> Graph {
        Graph {
            nodes: self.nodes@.map_values(|n: TxnNode| n@),
            state_last_modify: self.state_last_modify@,
            ready_queue: self.ready_queue@,
        }
    }
}

/// The index over the row keys of `keys`, none of them written yet.
pub open spec fn blank_index(keys: Seq<&str>, rows: usize) -> Map<Seq<char>, Option<(EvRef, usize)>> {
    Map::new(|k: Seq<char>| is_row_of(keys, rows, k), |k: Seq<char>| None::<(EvRef, usize)>)
}

impl Tpg {
    /// A graph without transactions over the logical keys `keys`, each with
    /// `max_state_records` row slots.
    pub fn new(keys: Vec<&str>, max_state_records: usize) -> (r: Self)
        ensures
            r@.wf(),
            r@.sound(),
            r@.all_driven(),
            r@.orderly(),
            forall|content: crate::database::api::Content| #[trigger] r@.published(content),
            r@.nodes.len() == 0,
            r@.ready_queue.len() == 0,
            r@.state_last_modify == blank_index(keys@, max_state_records),
    {
        let mut state_map: StringHashMap<Option<(EvRef, usize)>> = StringHashMap::new();
        let mut i: usize = 0;
        while i < keys.len()
            invariant
                i <= keys.len(),
                forall|k: Seq<char>|
                    state_map@.contains_key(k) <==> is_row_of(
                        keys@.take(i as int),
                        max_state_records,
                        k,
                    ),
                forall|k: Seq<char>| #[trigger] state_map@.contains_key(k) ==> state_map@[k] is None,
            decreases keys.len() - i,
        {
            let mut j: usize = 0;
            while j < max_state_records
                invariant
                    i < keys.len(),
                    j <= max_state_records,
                    forall|k: Seq<char>|
                        state_map@.contains_key(k) <==> (is_row_of(
                            keys@.take(i as int),
                            max_state_records,
                            k,
                        ) || is_row_below(keys@[i as int]@, j as nat, k)),
                    forall|k: Seq<char>| #[trigger]
                        state_map@.contains_key(k) ==> state_map@[k] is None,
                decreases max_state_records - j,
            {
                let ghost before = state_map@;
                state_map.insert(row_key(keys[i], j), None);
                proof {
                    let done = keys@.take(i as int);
                    assert forall|k: Seq<char>|
                        state_map@.contains_key(k) <==> (is_row_of(done, max_state_records, k)
                            || is_row_below(keys@[i as int]@, (j + 1) as nat, k)) by {
                        assert(before.contains_key(k) <==> (is_row_of(done, max_state_records, k)
                            || is_row_below(keys@[i as int]@, j as nat, k)));
                        lemma_row_below_step(keys@[i as int]@, j as nat, k);
                    }
                }
                j = j + 1;
            }
            proof {
                assert forall|k: Seq<char>|
                    state_map@.contains_key(k) <==> is_row_of(
                        keys@.take(i + 1),
                        max_state_records,
                        k,
                    ) by {
                    lemma_row_of_step(keys@, i as int, max_state_records, k);
                }
            }
            i = i + 1;
        }
        let r = Tpg { ready_queue: VecDeque::new(), state_last_modify: state_map, nodes: Vec::new() };
        proof {
            assert(keys@.take(keys@.len() as int) =~= keys@);
            assert(r@.state_last_modify =~= blank_index(keys@, max_state_records));
        }
        r
    }

    /// The number of transactions that the graph has seen.
    pub fn len(&self) -> (r: usize)
        ensures
            r == self@.nodes.len(),
    {
        self.nodes.len()
    }

    /// The event that `r` names.
    pub fn event(&self, r: EvRef) -> (e: &EvNode)
        requires
            self@.has_ev(r),
        ensures
            e@ == self@.ev(r),
    {
        &self.nodes[r.txn].ev_nodes[r.idx]
    }

    /// The transaction at place `t`.
    pub fn txn(&self, t: usize) -> (n: &TxnNode)
        requires
            self@.has_txn(t),
        ensures
            n@ == self@.txn(t),
    {
        &self.nodes[t]
    }

    /// Whether the index of last writers has the row key `key`.
    pub fn knows_key(&self, key: &str) -> (r: bool)
        ensures
            r == self@.state_last_modify.contains_key(key@),
    {
        self.state_last_modify.contains_key(key)
    }

    /// Whether the index has every key that the events of `node` read or
    /// write.
    pub fn knows_keys_of(&self, node: &TxnNode) -> (r: bool)
        ensures
            r == self@.knows_keys_of(node@),
    {
        let mut e: usize = 0;
        while e < node.ev_nodes.len()
            invariant
                e <= node.ev_nodes@.len(),
                forall|x: int, i: int|
                    0 <= x < e && 0 <= i < node@.ev_nodes[x].reads.len()
                        ==> self@.state_last_modify.contains_key(
                        #[trigger] node@.ev_nodes[x].reads[i],
                    ),
                forall|x: int|
                    0 <= x < e && (#[trigger] node@.ev_nodes[x]).has_write
                        ==> self@.state_last_modify.contains_key(node@.ev_nodes[x].write),
            decreases node.ev_nodes.len() - e,
        {
            let event = &node.ev_nodes[e];
            assert(event@ == node@.ev_nodes[e as int]);
            let mut i: usize = 0;
            while i < event.reads.len()
                invariant
                    i <= event.reads@.len(),
                    e < node.ev_nodes@.len(),
                    event@ == node@.ev_nodes[e as int],
                    forall|j: int|
                        0 <= j < i ==> self@.state_last_modify.contains_key(
                            #[trigger] event@.reads[j],
                        ),
                decreases event.reads.len() - i,
            {
                if !self.knows_key(event.reads[i].as_str()) {
                    assert(!self@.state_last_modify.contains_key(
                        node@.ev_nodes[e as int].reads[i as int],
                    ));
                    return false;
                }
                i = i + 1;
            }
            if event.has_write && !self.knows_key(event.write.as_str()) {
                assert(node@.ev_nodes[e as int].has_write);
                return false;
            }
            e = e + 1;
        }
        true
    }

    /// Adds the transaction that `msg` asks for to the graph, not yet
    /// linked, and returns its place.  Nothing is added where the message
    /// fits no template, or where the index lacks a key of the transaction.
    pub fn enlist(&mut self, msg: TxnMessage, templates: &Vec<Txn>) -> (r: Option<usize>)
        requires
            old(self)@.wf(),
            old(self)@.nodes.len() < usize::MAX,
        ensures
            final(self)@.wf(),
            r is Some <==> old(self)@.accepts(msg, *templates),
            r is None ==> final(self)@ == old(self)@,
            old(self)@.sound() ==> final(self)@.sound(),
            r matches Some(t) ==> final(self)@.txn(t).status == TxnStatus::WAITING,
            r matches Some(t) ==> final(self)@ == old(self)@.enlisted(msg, *templates)
                && t == old(self)@.nodes.len() && final(self)@.newest(t) && final(self)@.keys_known(
                t,
            ) && final(self)@.index_behind(EvRef { txn: t, idx: 0 }),
    {
        proof {
            if self@.sound() && self@.accepts(msg, *templates) {
                self@.lemma_sound_enlisted(msg, *templates);
            }
        }
        let id = self.nodes.len();
        let ghost fresh = fresh_txn(
            templates@[msg.type_idx as int].events(),
            id,
            msg.ts,
            msg.txn_req_id,
            msg.reads_idx@.map_values(|v: Vec<usize>| v@),
            msg.write_idx@,
        );
        assert(fresh == old(self)@.message_txn(msg, *templates));
        match TxnNode::from_message(msg, templates, id) {
            Some(node) => {
                if !self.knows_keys_of(&node) {
                    return None;
                }
                self.nodes.push(node);
                proof {
                    let g0 = old(self)@;
                    let g = self@;
                    assert(g.nodes =~= g0.nodes.push(fresh));
                    assert forall|i: int| 0 <= i < g.ready_queue.len() implies g.has_ev(
                        #[trigger] g.ready_queue[i],
                    ) by {
                        assert(g0.has_ev(g0.ready_queue[i]));
                    }
                    assert forall|t: usize| t < g.nodes.len() implies #[trigger] g.txn_ok(t) by {
                        if t < id {
                            assert(g0.txn_ok(t));
                            assert forall|x: usize|
                                x < g.txn(t).ev_nodes.len() implies #[trigger] g.ev_ok(
                                EvRef { txn: t, idx: x },
                            ) by {
                                assert(g0.ev_ok(EvRef { txn: t, idx: x }));
                            }
                        } else {
                            assert forall|e: int, i: int|
                                0 <= e < fresh.ev_nodes.len() && 0 <= i
                                    < fresh.ev_nodes[e].reads.len() implies fresh.read_from_index_map.contains_key(
                            #[trigger] fresh.ev_nodes[e].reads[i]) by {
                                lemma_flat_reads_contains(fresh.ev_nodes, e, i);
                            }
                            assert forall|k: Seq<char>| #[trigger]
                                fresh.read_from_index_map.contains_key(
                                    k,
                                ) implies fresh.read_from_index_map[k] < fresh.read_from.len() by {
                                lemma_last_position(crate::tpg::model::flat_reads(fresh.ev_nodes), k);
                            }
                        }
                    }
                }
                Some(id)
            },
            None => None,
        }
    }

    /// The graph is the old one but for event `r`.
    pub proof fn lemma_event_changed(before: &Tpg, after: &Tpg, r: EvRef)
        requires
            before@.has_ev(r),
            after.ready_queue == before.ready_queue,
            after.state_last_modify == before.state_last_modify,
            after.nodes@.len() == before.nodes@.len(),
            forall|t: int|
                0 <= t < before.nodes@.len() && t != r.txn ==> after.nodes@[t] == before.nodes@[t],
            after.nodes@[r.txn as int]@ == (TxnState {
                ev_nodes: after.nodes@[r.txn as int]@.ev_nodes,
                ..before.nodes@[r.txn as int]@
            }),
            after.nodes@[r.txn as int].ev_nodes@.len() == before.nodes@[r.txn as int].ev_nodes@.len(),
            forall|e: int|
                0 <= e < before.nodes@[r.txn as int].ev_nodes@.len() && e != r.idx
                    ==> after.nodes@[r.txn as int].ev_nodes@[e] == before.nodes@[r.txn as int].ev_nodes@[e],
        ensures
            after@ == before@.with_ev(r, after@.ev(r)),
    {
        let want = before@.with_ev(r, after@.ev(r));
        assert(after@.nodes[r.txn as int].ev_nodes =~= want.nodes[r.txn as int].ev_nodes);
        assert(after@.nodes =~= want.nodes);
    }

    /// The graph is the old one but for transaction `t`.
    pub proof fn lemma_txn_changed(before: &Tpg, after: &Tpg, t: usize)
        requires
            before@.has_txn(t),
            after.ready_queue == before.ready_queue,
            after.state_last_modify == before.state_last_modify,
            after.nodes@.len() == before.nodes@.len(),
            forall|u: int|
                0 <= u < before.nodes@.len() && u != t ==> after.nodes@[u] == before.nodes@[u],
        ensures
            after@ == before@.with_txn(t, after@.txn(t)),
    {
        let want = before@.with_txn(t, after@.txn(t));
        assert(after@.nodes =~= want.nodes);
    }

    /// Sets what read `i` of event `r` reads from.
    pub(crate) fn set_read_from(&mut self, r: EvRef, i: usize, from: Option<EvRef>)
        requires
            old(self)@.has_ev(r),
            i < old(self)@.ev(r).read_from.len(),
        ensures
            final(self)@ == old(self)@.with_ev(
                r,
                EvState {
                    read_from: old(self)@.ev(r).read_from.update(i as int, from),
                    ..old(self)@.ev(r)
                },
            ),
    {
        *self.nodes[r.txn].ev_nodes[r.idx].read_from[i].write() = from;
        proof {
            Self::lemma_event_changed(old(self), self, r);
            assert(self@.ev(r).read_from =~= old(self)@.ev(r).read_from.update(i as int, from));
        }
    }

    /// Moves event `r` from the state `current` to the state `new`, if it
    /// is in that state.  Returns the state that was found, in `Ok` where
    /// the event was moved.
    pub(crate) fn exchange_status(
        &mut self,
        r: EvRef,
        current: crate::tpg::model::EventStatus,
        new: crate::tpg::model::EventStatus,
    ) -> (found: Result<crate::tpg::model::EventStatus, crate::tpg::model::EventStatus>)
        requires
            old(self)@.has_ev(r),
        ensures
            old(self)@.ev(r).status == current ==> found == Ok::<
                crate::tpg::model::EventStatus,
                crate::tpg::model::EventStatus,
            >(current) && final(self)@ == old(self)@.with_ev(
                r,
                old(self)@.ev(r).with_status(new),
            ),
            old(self)@.ev(r).status != current ==> found == Err::<
                crate::tpg::model::EventStatus,
                crate::tpg::model::EventStatus,
            >(old(self)@.ev(r).status) && final(self)@ == old(self)@,
    {
        let found = self.nodes[r.txn].ev_nodes[r.idx].status.compare_exchange(current, new);
        proof {
            Self::lemma_event_changed(old(self), self, r);
            if found is Err {
                assert(self@.ev(r) == old(self)@.ev(r));
                assert(self@.nodes[r.txn as int].ev_nodes =~= old(self)@.nodes[r.txn as int].ev_nodes);
                assert(self@.nodes =~= old(self)@.nodes);
            }
        }
        found
    }

    /// Sets the state of event `r`.
    pub(crate) fn set_status(&mut self, r: EvRef, status: crate::tpg::model::EventStatus)
        requires
            old(self)@.has_ev(r),
        ensures
            final(self)@ == old(self)@.with_ev(r, old(self)@.ev(r).with_status(status)),
    {
        self.nodes[r.txn].ev_nodes[r.idx].status = status;
        proof {
            Self::lemma_event_changed(old(self), self, r);
        }
    }

    /// Makes transaction `t` await the parent `parent` in slot `slot`.
    pub(crate) fn await_parent(&mut self, t: usize, slot: usize, parent: usize)
        requires
            old(self)@.has_txn(t),
            slot < old(self)@.txn(t).read_from.len(),
        ensures
            final(self)@ == old(self)@.with_txn(
                t,
                TxnState {
                    read_from: old(self)@.txn(t).read_from.update(slot as int, Some(parent)),
                    parents: old(self)@.txn(t).parents.push(parent),
                    ..old(self)@.txn(t)
                },
            ),
    {
        *self.nodes[t].read_from[slot].write() = Some(parent);
        let ghost known = self.nodes@[t as int].parents@.push(parent);
        self.nodes[t].parents = Ghost(known);
        proof {
            Self::lemma_txn_changed(old(self), self, t);
            assert(self@.txn(t).read_from =~= old(self)@.txn(t).read_from.update(
                slot as int,
                Some(parent),
            ));
        }
    }

    /// Sets the earlier writer of `key` that transaction `t` covers.
    pub(crate) fn set_cover(&mut self, t: usize, key: &String, writer: Option<usize>)
        requires
            old(self)@.has_txn(t),
        ensures
            final(self)@ == old(self)@.with_txn(
                t,
                TxnState {
                    cover: old(self)@.txn(t).cover.insert(key@, writer),
                    ..old(self)@.txn(t)
                },
            ),
    {
        self.nodes[t].cover.insert(key.clone(), writer);
        proof {
            Self::lemma_txn_changed(old(self), self, t);
        }
    }

    /// Records `son` as the next writer of `key` after transaction `t`.
    pub(crate) fn set_covered_by(&mut self, t: usize, key: &String, son: usize)
        requires
            old(self)@.has_txn(t),
        ensures
            final(self)@ == old(self)@.with_txn(
                t,
                TxnState {
                    covered_by: old(self)@.txn(t).covered_by.insert(key@, Some(son)),
                    ..old(self)@.txn(t)
                },
            ),
    {
        self.nodes[t].add_covered_by(key, son);
        proof {
            Self::lemma_txn_changed(old(self), self, t);
        }
    }

    /// The last writer of `key`, if the index has the key and the key was
    /// written.
    pub fn last_modify(&self, key: &str) -> (r: Option<(EvRef, usize)>)
        ensures
            r == (if self@.state_last_modify.contains_key(key@) {
                self@.state_last_modify[key@]
            } else {
                None
            }),
    {
        match self.state_last_modify.get(key) {
            Some(entry) => *entry,
            None => None,
        }
    }

    /// Sets the mark of every read of event `son` that `parent` satisfies.
    pub(crate) fn mark_parent(&mut self, son: EvRef, parent: EvRef, value: bool)
        requires
            old(self)@.has_ev(son),
            old(self)@.ev(son).aligned(),
        ensures
            final(self)@ == old(self)@.with_ev(
                son,
                old(self)@.ev(son).with_flags_of(parent, value),
            ),
    {
        self.nodes[son.txn].ev_nodes[son.idx].mark_parent(parent, value);
        proof {
            Self::lemma_event_changed(old(self), self, son);
        }
    }

    /// Whether transaction `t`, which is not linked yet, has come in time:
    /// it has an event, and the last writer of each key that it reads
    /// still waits.
    pub fn came_in_time(&self, t: usize) -> (r: bool)
        requires
            self@.wf(),
            self@.has_txn(t),
        ensures
            r == self@.came_in_time(t),
    {
        let count = self.nodes[t].ev_nodes.len();
        if count == 0 {
            return false;
        }
        let mut e: usize = 0;
        while e < count
            invariant
                e <= count,
                self@.wf(),
                self@.has_txn(t),
                count == self@.txn(t).ev_nodes.len(),
                forall|a: int, i: int|
                    0 <= a < e && 0 <= i < self@.txn(t).ev_nodes[a].reads.len() ==> self@.waited_for(
                        #[trigger] self@.txn(t).ev_nodes[a].reads[i],
                    ),
            decreases count - e,
        {
            let reads = self.nodes[t].ev_nodes[e].reads.len();
            let mut i: usize = 0;
            while i < reads
                invariant
                    e < count,
                    i <= reads,
                    self@.wf(),
                    self@.has_txn(t),
                    count == self@.txn(t).ev_nodes.len(),
                    reads == self@.txn(t).ev_nodes[e as int].reads.len(),
                    forall|a: int, i: int|
                        0 <= a < e && 0 <= i < self@.txn(t).ev_nodes[a].reads.len()
                            ==> self@.waited_for(#[trigger] self@.txn(t).ev_nodes[a].reads[i]),
                    forall|b: int|
                        0 <= b < i ==> self@.waited_for(
                            #[trigger] self@.txn(t).ev_nodes[e as int].reads[b],
                        ),
                decreases reads - i,
            {
                let late = match self.last_modify(self.nodes[t].ev_nodes[e].reads[i].as_str()) {
                    Some(w) => match self.nodes[w.1].status {
                        TxnStatus::WAITING => false,
                        _ => true,
                    },
                    None => false,
                };
                if late {
                    proof {
                        let k = self@.txn(t).ev_nodes[e as int].reads[i as int];
                        assert(self@.txn(t).reads_key(k));
                        assert(!self@.waited_for(k));
                    }
                    return false;
                }
                i = i + 1;
            }
            e = e + 1;
        }
        proof {
            assert forall|k: Seq<char>|
                #![trigger self@.state_last_modify[k]]
                self@.txn(t).reads_key(k) && self@.state_last_modify.contains_key(k) implies (
            self@.state_last_modify[k] matches Some(w) ==> self@.txn(w.1).status
                == TxnStatus::WAITING) by {
                let (a, i) = choose|a: int, i: int|
                    0 <= a < self@.txn(t).ev_nodes.len() && 0 <= i < self@.txn(
                        t,
                    ).ev_nodes[a].reads.len() && #[trigger] self@.txn(t).ev_nodes[a].reads[i] == k;
                assert(self@.waited_for(self@.txn(t).ev_nodes[a].reads[i]));
            }
        }
        true
    }

    /// Whether anything that is alive holds a link to transaction `t`: the
    /// index of last writers, or a transaction that is not released.
    pub fn is_referenced(&self, t: usize) -> (r: bool)
        requires
            self@.wf(),
            self@.has_txn(t),
        ensures
            r == self@.referenced(t),
    {
        let node = &self.nodes[t];
        let mut e: usize = 0;
        while e < node.ev_nodes.len()
            invariant
                e <= node.ev_nodes@.len(),
                node@ == self@.txn(t),
                forall|x: int|
                    0 <= x < e && (#[trigger] node@.ev_nodes[x]).has_write ==> !(
                    self@.state_last_modify.contains_key(node@.ev_nodes[x].write) && last_writer(
                        self@.state_last_modify[node@.ev_nodes[x].write],
                    ) == Some(t)),
            decreases node.ev_nodes.len() - e,
        {
            if node.ev_nodes[e].has_write {
                let key = node.ev_nodes[e].write.as_str();
                match self.state_last_modify.get(key) {
                    Some(Some(w)) => {
                        if w.1 == t {
                            assert(self@.state_last_modify.contains_key(key@) && last_writer(
                                self@.state_last_modify[key@],
                            ) == Some(t));
                            return true;
                        }
                    },
                    _ => {},
                }
            }
            e = e + 1;
        }
        proof {
            assert forall|k: Seq<char>|
                self@.state_last_modify.contains_key(k) implies last_writer(
                #[trigger] self@.state_last_modify[k]) != Some(t) by {
                if last_writer(self@.state_last_modify[k]) == Some(t) {
                    let w = self@.state_last_modify[k]->0;
                    assert(self@.ev(w.0).has_write && self@.ev(w.0).write == k);
                    assert(node@.ev_nodes[w.0.idx as int].has_write);
                }
            }
        }
        let mut u: usize = 0;
        while u < self.nodes.len()
            invariant
                u <= self.nodes@.len(),
                self@.wf(),
                forall|x: int|
                    0 <= x < u ==> (#[trigger] self@.nodes[x]).dropped || !self@.nodes[x].holds(t),
            decreases self.nodes.len() - u,
        {
            proof {
                assert(self@.txn_ok(u));
            }
            if !self.nodes[u].dropped && self.nodes[u].holds_link(t) {
                assert(!self@.nodes[u as int].dropped && self@.nodes[u as int].holds(t));
                return true;
            }
            u = u + 1;
        }
        false
    }

    /// Whether transaction `t` can be released: it has committed, it is not
    /// released yet, and nothing that is alive holds a link to it.
    pub fn is_droppable(&self, t: usize) -> (r: bool)
        requires
            self@.wf(),
        ensures
            r == self@.droppable(t),
    {
        if t >= self.nodes.len() {
            return false;
        }
        if self.nodes[t].dropped {
            return false;
        }
        match self.nodes[t].status {
            TxnStatus::COMMITED => !self.is_referenced(t),
            _ => false,
        }
    }

    /// Releases every transaction that can be released, in one pass from
    /// the oldest to the newest, and returns how many went.  The releases
    /// of their versions are appended to `actions`.
    pub fn collect(&mut self, actions: &mut Vec<DbAction>) -> (gone: usize)
        requires
            old(self)@.wf(),
        ensures
            final(self)@ == old(self)@.collect().0,
            actions_of(final(actions)@) == actions_of(old(actions)@) + old(self)@.collect().1,
            old(self)@.sound() ==> final(self)@.sound() && old(self)@.committed_stay(final(self)@),
            old(self)@.all_driven() ==> final(self)@.all_driven(),
            old(self)@.orderly() ==> final(self)@.orderly(),
            final(self)@.wf(),
            final(self)@.same_frame(old(self)@),
            gone == old(self)@.released_in(old(self)@.nodes.len() as int),
    {
        let ghost g0 = self@;
        let ghost acts0 = actions_of(actions@);
        proof {
            if g0.sound() {
                g0.lemma_sound_sweep(g0.nodes.len() as int);
                g0.lemma_dropped_stay(g0.collect().0);
            }
            g0.lemma_drives_sweep(g0.nodes.len() as int);
            g0.lemma_driven_kept(g0.collect().0);
            if g0.orderly() {
                g0.lemma_orderly_collect();
            }
        }
        let mut gone: usize = 0;
        let mut t: usize = 0;
        assert(acts0 + Seq::<Action>::empty() =~= acts0);
        while t < self.nodes.len()
            invariant
                t <= g0.nodes.len(),
                gone <= t,
                gone == g0.released_in(t as int),
                g0.wf(),
                self@.wf(),
                self@.same_frame(g0),
                self@ == g0.sweep(t as int).0,
                actions_of(actions@) == acts0 + g0.sweep(t as int).1,
            decreases g0.nodes.len() - t,
        {
            let ghost g_t = self@;
            let ghost acts = actions_of(actions@);
            if self.is_droppable(t) {
                TxnNode::release(self, t, actions);
                gone = gone + 1;
                proof {
                    let r = g_t.release(t);
                    assert(acts0 + (g0.sweep(t as int).1 + r.1) =~= acts0 + g0.sweep(t as int).1
                        + r.1);
                    self@.lemma_same_keys_trans(g_t, g0);
                }
            }
            t = t + 1;
        }
        gone
    }

    /// Shuts the graph down: no key has a last writer any more, and what
    /// can be released is released.
    pub fn teardown(&mut self, actions: &mut Vec<DbAction>) -> (gone: usize)
        requires
            old(self)@.wf(),
        ensures
            final(self)@ == old(self)@.teardown().0,
            actions_of(final(actions)@) == actions_of(old(actions)@) + old(self)@.teardown().1,
            old(self)@.sound() ==> final(self)@.sound(),
            old(self)@.all_driven() ==> final(self)@.all_driven(),
            old(self)@.orderly() ==> final(self)@.orderly(),
            final(self)@.wf(),
            final(self)@.same_keys(old(self)@),
            final(self)@.ready_queue == old(self)@.ready_queue,
            gone == old(self)@.unpublish().released_in(old(self)@.nodes.len() as int),
    {
        let ghost g0 = self@;
        proof {
            g0.lemma_unpublish();
            if g0.orderly() {
                g0.lemma_orderly_teardown();
            }
            if g0.sound() {
                g0.lemma_sound_unpublish();
            }
            g0.lemma_driven_kept(g0.unpublish());
        }
        let mut t: usize = 0;
        while t < self.nodes.len()
            invariant
                t <= g0.nodes.len(),
                g0.wf(),
                g0 == old(self)@,
                self.nodes == old(self).nodes,
                self.ready_queue == old(self).ready_queue,
                self@.state_last_modify.dom() == g0.state_last_modify.dom(),
                forall|k: Seq<char>| #[trigger]
                    self@.state_last_modify.contains_key(k) ==> self@.state_last_modify[k] == (
                    match g0.state_last_modify[k] {
                        Some(w) => if w.1 < t {
                            None
                        } else {
                            Some(w)
                        },
                        None => None,
                    }),
            decreases g0.nodes.len() - t,
        {
            let mut e: usize = 0;
            while e < self.nodes[t].ev_nodes.len()
                invariant
                    t < g0.nodes.len(),
                    e <= g0.txn(t).ev_nodes.len(),
                    g0.wf(),
                    g0 == old(self)@,
                    self.nodes == old(self).nodes,
                    self.ready_queue == old(self).ready_queue,
                    self@.state_last_modify.dom() == g0.state_last_modify.dom(),
                    forall|k: Seq<char>| #[trigger]
                        self@.state_last_modify.contains_key(k) ==> self@.state_last_modify[k] == (
                        match g0.state_last_modify[k] {
                            Some(w) => if w.1 < t || (w.1 == t && w.0.idx < e) {
                                None
                            } else {
                                Some(w)
                            },
                            None => None,
                        }),
                decreases g0.txn(t).ev_nodes.len() - e,
            {
                if self.nodes[t].ev_nodes[e].has_write {
                    let key = self.nodes[t].ev_nodes[e].write.clone();
                    let hit = match self.state_last_modify.get(key.as_str()) {
                        Some(Some(w)) => w.1 == t && w.0.idx == e,
                        _ => false,
                    };
                    if hit {
                        self.state_last_modify.insert(key, None);
                        assert(self@.state_last_modify.dom() =~= g0.state_last_modify.dom());
                    }
                }
                proof {
                    assert forall|k: Seq<char>| #[trigger]
                        self@.state_last_modify.contains_key(k) implies self@.state_last_modify[k]
                        == (match g0.state_last_modify[k] {
                        Some(w) => if w.1 < t || (w.1 == t && w.0.idx < e + 1) {
                            None
                        } else {
                            Some(w)
                        },
                        None => None,
                    }) by {
                        match g0.state_last_modify[k] {
                            Some(w) => {
                                assert(g0.state_last_modify.contains_key(k));
                                assert(g0.ev(w.0).has_write && g0.ev(w.0).write == k);
                            },
                            None => {},
                        }
                    }
                }
                e = e + 1;
            }
            proof {
                assert forall|k: Seq<char>| #[trigger]
                    self@.state_last_modify.contains_key(k) implies self@.state_last_modify[k] == (
                match g0.state_last_modify[k] {
                    Some(w) => if w.1 < t + 1 {
                        None
                    } else {
                        Some(w)
                    },
                    None => None,
                }) by {
                    match g0.state_last_modify[k] {
                        Some(w) => {
                            assert(g0.state_last_modify.contains_key(k));
                            assert(g0.has_ev(w.0));
                            assert(w.0.txn == w.1);
                        },
                        None => {},
                    }
                }
            }
            t = t + 1;
        }
        proof {
            assert(self@.state_last_modify =~= g0.unpublish().state_last_modify) by {
                assert forall|k: Seq<char>| #[trigger]
                    self@.state_last_modify.contains_key(k) implies self@.state_last_modify[k]
                    is None by {
                    match g0.state_last_modify[k] {
                        Some(w) => {
                            assert(g0.state_last_modify.contains_key(k));
                            assert(g0.has_ev(w.0));
                        },
                        None => {},
                    }
                }
            }
            assert(self@ == g0.unpublish());
        }
        let gone = self.collect(actions);
        proof {
            self@.lemma_same_keys_trans(g0.unpublish(), g0);
        }
        gone
    }
}

} // verus!
