use crate::ds::events::Event;
use crate::ds::transactions::Txn;
use crate::external::ffi::{Finished, Outcome, TxnMessage};
use crate::database::action::{actions_of, Action, DbAction};
use crate::tpg::ev_node::EvNode;
use crate::tpg::model::{
    blank_cover, flat_reads, fresh_events, fresh_txn, lemma_slots_push, message_fits, slots_of,
    template_event, EvRef, EvState, Graph, TxnState, TxnStatus,
};
use crate::tpg::tpg::Tpg;
use crate::utils::ShouldSyncCell;
use vstd::hash_map::StringHashMap;
use vstd::prelude::*;

verus! {

/// A transaction node: the events of one request and the links to the
/// transactions that it depends on and that depend on it.
pub struct TxnNode {
    /// The parents that this transaction still waits for, one slot for each
    /// key read.  A slot is set while the transaction is linked and cleared
    /// when the parent commits.
    pub read_from: Vec<ShouldSyncCell<Option<usize>>>,
    /// The slot of each key read.
    pub read_from_index_map: StringHashMap<usize>,
    /// The transactions that read from this one.  Grows while later
    /// transactions are linked and is never cut.
    pub read_by: Vec<usize>,
    /// For each key written, the transaction that wrote it just before.
    /// Cleared when this transaction commits.
    pub cover: StringHashMap<Option<usize>>,
    /// For each key written, the transaction that wrote it next.
    pub covered_by: StringHashMap<Option<usize>>,
    pub status: TxnStatus,
    pub ev_nodes: Vec<EvNode>,
    /// The identity under which the outcome is reported.
    pub txn_req_id: u64,
    /// The arrival timestamp.
    pub ts: u64,
    /// The events that are not accepted, while the transaction waits.
    pub unfinished_events: u16,
    /// Whether the node was released, with the versions it wrote.
    pub dropped: bool,
    /// Every parent that was ever awaited.  The slots forget a parent when
    /// it commits; this list does not.
    pub parents: Ghost<Seq<usize>>,
}

impl View for TxnNode {
    type V = TxnState;

    open spec fn view(&self) -> TxnState {
        TxnState {
            read_from: self.read_from@.map_values(|c: ShouldSyncCell<Option<usize>>| c@),
            read_from_index_map: self.read_from_index_map@,
            read_by: self.read_by@,
            cover: self.cover@,
            covered_by: self.covered_by@,
            status: self.status,
            ev_nodes: self.ev_nodes@.map_values(|e: EvNode| e@),
            txn_req_id: self.txn_req_id,
            ts: self.ts,
            unfinished_events: self.unfinished_events,
            dropped: self.dropped,
            parents: self.parents@,
        }
    }
}

impl TxnNode {
    /// Builds the node of a request from the template that it names.  `id`
    /// is the place that the node will take in the graph.
    ///
    /// There is no node where the message names no template, where the
    /// template has more events than a transaction can count, or where the
    /// message does not give a row slot for every key of every event.
    pub fn from_message(msg: TxnMessage, templates: &Vec<Txn>, id: usize) -> (r: Option<Self>)
        ensures
            r is Some <==> msg.type_idx < templates@.len() && message_fits(
                msg.reads_idx@.map_values(|v: Vec<usize>| v@),
                msg.write_idx@,
                templates@[msg.type_idx as int].events(),
            ),
            r matches Some(node) ==> node@ == fresh_txn(
                templates@[msg.type_idx as int].events(),
                id,
                msg.ts,
                msg.txn_req_id,
                msg.reads_idx@.map_values(|v: Vec<usize>| v@),
                msg.write_idx@,
            ),
    {
        if msg.type_idx as usize >= templates.len() {
            return None;
        }
        let tpl = &templates[msg.type_idx as usize];
        let count = tpl.es.len();
        if count > 0xffff || msg.reads_idx.len() < count || msg.write_idx.len() < count {
            return None;
        }
        let ghost es = tpl.events();
        let ghost reads_idx = msg.reads_idx@.map_values(|v: Vec<usize>| v@);
        let ghost want = fresh_events(es, id, reads_idx, msg.write_idx@);
        let mut ev_nodes: Vec<EvNode> = Vec::new();
        let mut e: usize = 0;
        while e < count
            invariant
                e <= count,
                count == tpl.es@.len(),
                count <= 0xffff,
                count <= msg.reads_idx@.len(),
                count <= msg.write_idx@.len(),
                es == tpl.events(),
                msg.type_idx < templates@.len(),
                es == templates@[msg.type_idx as int].events(),
                reads_idx == msg.reads_idx@.map_values(|v: Vec<usize>| v@),
                want == fresh_events(es, id, reads_idx, msg.write_idx@),
                ev_nodes@.len() == e,
                forall|j: int| 0 <= j < e ==> (#[trigger] ev_nodes@[j])@ == want[j],
                forall|j: int| 0 <= j < e ==> (#[trigger] reads_idx[j]).len() >= es[j].reads.len(),
            decreases count - e,
        {
            let rows = msg.reads_idx[e].clone();
            assert(rows@ =~= reads_idx[e as int]);
            match EvNode::from_template(&tpl.es[e], e as i32, id, rows, msg.write_idx[e]) {
                Some(node) => {
                    ev_nodes.push(node);
                },
                None => {
                    assert(reads_idx[e as int].len() < es[e as int].reads.len());
                    assert(!message_fits(reads_idx, msg.write_idx@, es));
                    return None;
                },
            }
            e = e + 1;
        }
        let ghost events = ev_nodes@.map_values(|n: EvNode| n@);
        assert(events =~= want);
        assert(message_fits(reads_idx, msg.write_idx@, es));

        let mut index_map: StringHashMap<usize> = StringHashMap::new();
        let mut read_from_array: Vec<ShouldSyncCell<Option<usize>>> = Vec::new();
        let mut cover: StringHashMap<Option<usize>> = StringHashMap::new();
        let mut e: usize = 0;
        assert(index_map@ =~= slots_of(Seq::<Seq<char>>::empty()));
        assert(cover@ =~= blank_cover(events.take(0)));
        while e < count
            invariant
                e <= count,
                count == ev_nodes@.len(),
                events == ev_nodes@.map_values(|n: EvNode| n@),
                read_from_array@.len() == flat_reads(events.take(e as int)).len(),
                forall|j: int|
                    0 <= j < read_from_array@.len() ==> (#[trigger] read_from_array@[j])@
                        == None::<usize>,
                index_map@ == slots_of(flat_reads(events.take(e as int))),
                cover@ == blank_cover(events.take(e as int)),
            decreases count - e,
        {
            let node = &ev_nodes[e];
            let ghost head = flat_reads(events.take(e as int));
            let mut i: usize = 0;
            while i < node.reads.len()
                invariant
                    i <= node.reads@.len(),
                    e < events.len(),
                    node@ == events[e as int],
                    read_from_array@.len() == head.len() + i,
                    forall|j: int|
                        0 <= j < read_from_array@.len() ==> (#[trigger] read_from_array@[j])@
                            == None::<usize>,
                    index_map@ == slots_of(head + node@.reads.take(i as int)),
                decreases node.reads.len() - i,
            {
                let ghost sofar = head + node@.reads.take(i as int);
                let at = read_from_array.len();
                proof {
                    assert(sofar.len() == at);
                    lemma_slots_push(sofar, node@.reads[i as int]);
                    assert(sofar.push(node@.reads[i as int]) =~= head + node@.reads.take(i + 1));
                }
                index_map.insert(node.reads[i].clone(), at);
                read_from_array.push(ShouldSyncCell::new(None));
                i = i + 1;
            }
            if node.has_write {
                cover.insert(node.write.clone(), None);
            }
            proof {
                let upto = events.take(e + 1);
                assert(upto.drop_last() =~= events.take(e as int));
                assert(upto.last() == node@);
                assert(node@.reads.take(node@.reads.len() as int) =~= node@.reads);
                assert(cover@ =~= blank_cover(upto)) by {
                    let prev = events.take(e as int);
                    assert forall|k: Seq<char>| #[trigger]
                        cover@.contains_key(k) <==> blank_cover(upto).contains_key(k) by {
                        if blank_cover(prev).contains_key(k) {
                            let w = choose|w: int|
                                0 <= w < prev.len() && (#[trigger] prev[w]).has_write
                                    && prev[w].write == k;
                            assert(upto[w].has_write && upto[w].write == k);
                        }
                        if node.has_write && k == node@.write {
                            assert(upto[e as int].has_write && upto[e as int].write == k);
                        }
                        if blank_cover(upto).contains_key(k) {
                            let w = choose|w: int|
                                0 <= w < upto.len() && (#[trigger] upto[w]).has_write
                                    && upto[w].write == k;
                            if w < e {
                                assert(prev[w].has_write && prev[w].write == k);
                            }
                        }
                    }
                }
            }
            e = e + 1;
        }
        assert(events.take(count as int) =~= events);
        let node = TxnNode {
            read_from: read_from_array,
            read_from_index_map: index_map,
            read_by: Vec::new(),
            cover,
            covered_by: StringHashMap::new(),
            status: TxnStatus::WAITING,
            ev_nodes,
            txn_req_id: msg.txn_req_id,
            ts: msg.ts,
            unfinished_events: count as u16,
            dropped: false,
            parents: Ghost(Seq::empty()),
        };
        proof {
            let goal = fresh_txn(es, id, msg.ts, msg.txn_req_id, reads_idx, msg.write_idx@);
            assert(node@.read_from =~= goal.read_from);
            assert(node@.read_by =~= goal.read_by);
            assert(node@.covered_by =~= goal.covered_by);
        }
        Some(node)
    }

    /// Whether no parent is left to wait for.
    pub fn no_waiting(&self) -> (r: bool)
        ensures
            r == self@.no_waiting(),
    {
        let mut i: usize = 0;
        while i < self.read_from.len()
            invariant
                i <= self.read_from@.len(),
                forall|j: int| 0 <= j < i ==> self@.read_from[j] is None,
            decreases self.read_from.len() - i,
        {
            if self.read_from[i].read().is_some() {
                assert(self@.read_from[i as int] is Some);
                return false;
            }
            i = i + 1;
        }
        true
    }

    /// The slot of the parent that is awaited for the key `state`.
    pub fn read_from_by_state(&self, state: &str) -> (r: &ShouldSyncCell<Option<usize>>)
        requires
            self@.read_from_index_map.contains_key(state@),
            self@.read_from_index_map[state@] < self@.read_from.len(),
        ensures
            r@ == self@.read_from[self@.read_from_index_map[state@] as int],
    {
        let slot = match self.read_from_index_map.get(state) {
            Some(slot) => *slot,
            None => 0,
        };
        &self.read_from[slot]
    }

    /// Counts one event as accepted.
    pub fn event_accepted(&mut self)
        ensures
            final(self)@ == (TxnState {
                unfinished_events: if old(self)@.unfinished_events > 0 {
                    (old(self)@.unfinished_events - 1) as u16
                } else {
                    0
                },
                ..old(self)@
            }),
    {
        if self.unfinished_events > 0 {
            self.unfinished_events = self.unfinished_events - 1;
        }
    }

    /// Records `son` as the next writer of `key`.
    pub fn add_covered_by(&mut self, key: &String, son: usize)
        ensures
            final(self)@ == (TxnState {
                covered_by: old(self)@.covered_by.insert(key@, Some(son)),
                ..old(self)@
            }),
    {
        self.covered_by.insert(key.clone(), Some(son));
    }

    /// Takes note that the parent `father` has committed: every slot that
    /// holds it is cleared.  Says whether there was one.
    pub fn father_committed(&mut self, father: usize) -> (found: bool)
        ensures
            final(self)@ == old(self)@.without_parent(father),
            found == old(self)@.waits_for(father),
    {
        let mut found = false;
        let mut i: usize = 0;
        while i < self.read_from.len()
            invariant
                i <= self@.read_from.len(),
                self@ == (TxnState { read_from: self@.read_from, ..old(self)@ }),
                self@.read_from.len() == old(self)@.read_from.len(),
                forall|j: int|
                    0 <= j < self@.read_from.len() ==> self@.read_from[j] == if j < i
                        && old(self)@.read_from[j] == Some(father) {
                        None
                    } else {
                        old(self)@.read_from[j]
                    },
                found == exists|j: int| 0 <= j < i && old(self)@.read_from[j] == Some(father),
            decreases self.read_from.len() - i,
        {
            let held = *self.read_from[i].read();
            let hit = match held {
                Some(p) => p == father,
                None => false,
            };
            if hit {
                *self.read_from[i].write() = None;
                found = true;
                assert(old(self)@.read_from[i as int] == Some(father));
            }
            i = i + 1;
        }
        assert(self@.read_from =~= old(self)@.without_parent(father).read_from);
        found
    }

    /// Links transaction `t`, the newest one, into the graph.
    ///
    /// Event by event, each read is linked to the last writer of its key:
    /// the event reads from that event and is recorded among its readers,
    /// and the writer's transaction becomes the parent awaited for the key
    /// (the first one stays).  Then the event's write is linked: the last
    /// writer of the key covers and is covered, and the event is published
    /// as the last writer.  Links within the transaction bind events only.
    pub fn set_links(g: &mut Tpg, t: usize)
        requires
            old(g)@.wf(),
            old(g)@.has_txn(t),
            old(g)@.newest(t),
            old(g)@.index_behind(EvRef { txn: t, idx: 0 }),
            old(g)@.keys_known(t),
        ensures
            old(g)@.sound() && old(g)@.txn(t).status == TxnStatus::WAITING ==> final(g)@.sound()
                && old(g)@.committed_stay(final(g)@),
            final(g)@ == old(g)@.set_links(t),
            final(g)@.wf(),
            final(g)@.same_keys(old(g)@),
            final(g)@.ready_queue == old(g)@.ready_queue,
    {
        proof {
            if g@.sound() && g@.txn(t).status == TxnStatus::WAITING {
                g@.lemma_linking_events(t, g@.txn(t).ev_nodes.len() as int);
            }
        }
        let count = g.nodes[t].ev_nodes.len();
        let mut e: usize = 0;
        while e < count
            invariant
                e <= count,
                count == old(g)@.txn(t).ev_nodes.len(),
                old(g)@.has_txn(t),
                old(g)@.keys_known(t),
                g@ == old(g)@.link_events(t, e as int),
                g@.wf(),
                g@.newest(t),
                g@.same_keys(old(g)@),
                g@.ready_queue == old(g)@.ready_queue,
                g@.index_behind(EvRef { txn: t, idx: e }),
            decreases count - e,
        {
            let r = EvRef { txn: t, idx: e };
            let ghost g_e = g@;
            proof {
                assert(g@.nodes[t as int].same_keys(old(g)@.nodes[t as int]));
            }
            let reads = g.nodes[t].ev_nodes[e].reads.len();
            let mut i: usize = 0;
            while i < reads
                invariant
                    i <= reads,
                    r == (EvRef { txn: t, idx: e }),
                    g_e.has_ev(r),
                    reads == g_e.ev(r).reads.len(),
                    old(g)@.keys_known(t),
                    old(g)@.has_txn(t),
                    g_e.same_keys(old(g)@),
                    g@ == g_e.link_reads(r, i as int),
                    g@.wf(),
                    g@.newest(t),
                    g@.same_frame(g_e),
                    g@.index_behind(r),
                decreases reads - i,
            {
                let ghost g_i = g@;
                proof {
                    assert(g@.nodes[t as int].same_keys(g_e.nodes[t as int]));
                    assert(g_e.nodes[t as int].same_keys(old(g)@.nodes[t as int]));
                    assert(g@.ev(r).reads[i as int] == old(g)@.txn(t).ev_nodes[e as int].reads[i as int]);
                    assert(old(g)@.state_last_modify.contains_key(
                        old(g)@.txn(t).ev_nodes[e as int].reads[i as int],
                    ));
                    assert(g@.state_last_modify.dom() == old(g)@.state_last_modify.dom());
                    assert(g@.state_last_modify.contains_key(g@.ev(r).reads[i as int]));
                    g@.lemma_link_read(r, i as int);
                    assert(g@.txn_ok(t));
                    assert(g@.ev_ok(r));
                }
                let key = g.nodes[t].ev_nodes[e].reads[i].clone();
                match g.last_modify(key.as_str()) {
                    Some(w) => {
                        g.set_read_from(r, i, Some(w.0));
                        proof {
                            let e1 = EvState {
                                read_from: g_i.ev(r).read_from.update(i as int, Some(w.0)),
                                ..g_i.ev(r)
                            };
                            g_i.lemma_with_ev(r, e1);
                        }
                        crate::tpg::ev_node::EvNode::add_read_by(g, w.0, r);
                        let ghost g2 = g@;
                        if w.1 != t {
                            proof {
                                assert(g2.txn_ok(t));
                                assert(g2.nodes[t as int].same_keys(g_i.nodes[t as int]));
                                assert(g2.txn(t).ev_nodes[e as int].reads[i as int] == key@);
                            }
                            let slot = match g.nodes[t].read_from_index_map.get(key.as_str()) {
                                Some(slot) => *slot,
                                None => 0,
                            };
                            if g.nodes[t].read_from[slot].read().is_none() {
                                g.await_parent(t, slot, w.1);
                            }
                        }
                    },
                    None => {
                        g.set_read_from(r, i, None);
                    },
                }
                proof {
                    g@.lemma_same_keys_trans(g_i, g_e);
                }
                i = i + 1;
            }
            let ghost g_r = g@;
            proof {
                assert(g@.nodes[t as int].same_keys(g_e.nodes[t as int]));
                assert(g_e.nodes[t as int].same_keys(old(g)@.nodes[t as int]));
                assert(old(g)@.txn(t).ev_nodes[e as int].has_write ==> old(
                    g,
                )@.state_last_modify.contains_key(old(g)@.txn(t).ev_nodes[e as int].write));
                assert(g@.state_last_modify.dom() == old(g)@.state_last_modify.dom());
                g@.lemma_link_write(r);
                assert(g@.txn_ok(t));
                assert(g@.ev_ok(r));
            }
            if g.nodes[t].ev_nodes[e].has_write {
                let key = g.nodes[t].ev_nodes[e].write.clone();
                match g.last_modify(key.as_str()) {
                    Some(w) => {
                        if w.1 != t {
                            g.set_cover(t, &key, Some(w.1));
                            g.set_covered_by(w.1, &key, t);
                        }
                    },
                    None => {},
                }
                g.state_last_modify.insert(key, Some((r, t)));
            }
            proof {
                assert(g@ == g_r.link_write(r));
                g@.lemma_same_keys_trans(g_r, g_e);
                g@.lemma_same_keys_trans(g_e, old(g)@);
                assert(g@.index_behind(EvRef { txn: t, idx: (e + 1) as usize }));
            }
            e = e + 1;
        }
    }

    /// Tries to commit transaction `t` and returns whether it did.
    ///
    /// A transaction commits when it waits or is aborted, none of its
    /// events is unfinished and none of its parents is awaited.  It then
    /// clears its links to earlier writers, reports itself in `out`, and
    /// tells each transaction that reads from it, which clears the slots
    /// that hold it and tries to commit in turn.
    pub fn try_commit(g: &mut Tpg, t: usize, out: &mut Vec<Finished>) -> (committed: bool)
        requires
            old(g)@.wf(),
            old(g)@.has_txn(t),
        ensures
            old(g)@.sound() ==> final(g)@.sound() && old(g)@.committed_stay(final(g)@),
            final(g)@ == old(g)@.try_commit(t).0,
            final(out)@ == old(out)@ + old(g)@.try_commit(t).1,
            committed == old(g)@.can_commit(t),
            final(g)@.wf(),
            final(g)@.same_frame(old(g)@),
        decreases old(g)@.nodes.len() - t,
    {
        proof {
            if g@.sound() {
                g@.lemma_sound_try_commit(t, g@.nodes.len());
            }
        }
        let ghost bound = g@.nodes.len();
        proof {
            g@.lemma_try_commit(t, bound);
            assert(g@.txn_ok(t));
        }
        let node = &g.nodes[t];
        let open = match node.status {
            TxnStatus::WAITING | TxnStatus::ABORTED => true,
            TxnStatus::COMMITED => false,
        };
        if !(open && node.unfinished_events == 0 && node.no_waiting()) {
            assert(out@ + Seq::<Finished>::empty() =~= out@);
            return false;
        }
        let report = Finished {
            txn_req_id: node.txn_req_id,
            outcome: match node.status {
                TxnStatus::ABORTED => Outcome::ABORTED,
                _ => Outcome::SUCCESS,
            },
        };
        g.nodes[t].status = TxnStatus::COMMITED;
        let count = g.nodes[t].ev_nodes.len();
        let mut e: usize = 0;
        while e < count
            invariant
                e <= count,
                old(g)@.wf(),
                old(g)@.has_txn(t),
                count == old(g)@.txn(t).ev_nodes.len(),
                g.ready_queue == old(g).ready_queue,
                g.state_last_modify == old(g).state_last_modify,
                g.nodes@.len() == old(g).nodes@.len(),
                forall|u: int| 0 <= u < g.nodes@.len() && u != t ==> g.nodes@[u] == old(g).nodes@[u],
                g@.txn(t) == (TxnState {
                    status: TxnStatus::COMMITED,
                    cover: g@.txn(t).cover,
                    ..old(g)@.txn(t)
                }),
                g@.txn(t).cover.dom() == old(g)@.txn(t).cover.dom(),
                forall|k: Seq<char>| #[trigger]
                    g@.txn(t).cover.contains_key(k) ==> g@.txn(t).cover[k] == if exists|x: int|
                        0 <= x < e && (#[trigger] old(g)@.txn(t).ev_nodes[x]).has_write && old(
                            g,
                        )@.txn(t).ev_nodes[x].write == k {
                        None
                    } else {
                        old(g)@.txn(t).cover[k]
                    },
            decreases count - e,
        {
            if g.nodes[t].ev_nodes[e].has_write {
                let key = g.nodes[t].ev_nodes[e].write.clone();
                proof {
                    assert(old(g)@.txn_ok(t));
                    assert(old(g)@.txn(t).ev_nodes[e as int].has_write);
                    assert(old(g)@.txn(t).cover.contains_key(key@));
                }
                g.nodes[t].cover.insert(key, None);
                proof {
                    assert(g@.txn(t).cover.dom() =~= old(g)@.txn(t).cover.dom());
                }
            }
            e = e + 1;
        }
        let ghost g1 = old(g)@.commit_self(t);
        proof {
            assert(old(g)@.txn_ok(t));
            assert(g@.txn(t).cover =~= g1.txn(t).cover) by {
                assert forall|k: Seq<char>| #[trigger]
                    g@.txn(t).cover.contains_key(k) implies g@.txn(t).cover[k] is None by {
                    assert(old(g)@.txn(t).cover.contains_key(k));
                    assert(old(g)@.txn(t).writes(k));
                }
            }
            Tpg::lemma_txn_changed(old(g), g, t);
            assert(g@ == g1);
            old(g)@.lemma_commit_self(t);
            assert(g1.txn_ok(t));
        }
        out.push(report);
        assert(out@ =~= old(out)@ + seq![old(g)@.finished(t)]);
        let children = g.nodes[t].read_by.clone();
        assert(children@ =~= g1.txn(t).read_by);
        let ghost all = g1.commit_children(t, children@, 0, bound);
        let mut j: usize = 0;
        while j < children.len()
            invariant
                j <= children@.len(),
                bound == old(g)@.nodes.len(),
                g1.wf(),
                g1.has_txn(t),
                children@ == g1.txn(t).read_by,
                g1.same_frame(old(g)@),
                g@.wf(),
                g@.same_frame(g1),
                all == g1.commit_children(t, children@, 0, bound),
                g@.commit_children(t, children@, j as int, bound).0 == all.0,
                out@ + g@.commit_children(t, children@, j as int, bound).1 == old(out)@ + seq![
                    old(g)@.finished(t),
                ] + all.1,
            decreases children.len() - j,
        {
            let c = children[j];
            let ghost g_j = g@;
            let ghost out_j = out@;
            proof {
                assert(g1.txn_ok(t));
                assert(t < g1.txn(t).read_by[j as int] < g1.nodes.len());
                g@.lemma_father_committed(c, t);
            }
            let ghost mid = *g;
            g.nodes[c].father_committed(t);
            proof {
                Tpg::lemma_txn_changed(&mid, g, c);
                assert(g@ == g_j.father_committed(c, t));
            }
            Self::try_commit(g, c, out);
            proof {
                let sub = g_j.father_committed(c, t).try_commit_within(c, bound);
                let rest = sub.0.commit_children(t, children@, j + 1, bound);
                assert(g@ == sub.0);
                assert(out@ == out_j + sub.1);
                assert(g_j.commit_children(t, children@, j as int, bound) == (
                    rest.0,
                    sub.1 + rest.1,
                ));
                assert(out@ + rest.1 =~= out_j + (sub.1 + rest.1));
                g@.lemma_same_keys_trans(g_j, g1);
            }
            j = j + 1;
        }
        proof {
            assert(out@ + Seq::<Finished>::empty() =~= out@);
            assert(old(out)@ + seq![old(g)@.finished(t)] + all.1 =~= old(out)@ + (seq![
                old(g)@.finished(t),
            ] + all.1));
            g@.lemma_same_keys_trans(g1, old(g)@);
        }
        true
    }

    /// Aborts transaction `t`, on the word of the executor.
    ///
    /// Only a waiting transaction is aborted.  Each of its events is aborted
    /// and what was built on it rolled back; no event counts as unfinished
    /// any more; and the transaction tries to commit, so that the
    /// transactions that read from it can go on.  The changes of the store
    /// are appended to `actions`, the transactions that commit to `out`.
    pub fn abort(g: &mut Tpg, t: usize, actions: &mut Vec<DbAction>, out: &mut Vec<Finished>)
        requires
            old(g)@.wf(),
            old(g)@.has_txn(t),
        ensures
            old(g)@.sound() ==> final(g)@.sound() && old(g)@.committed_stay(final(g)@),
            final(g)@ == old(g)@.abort_txn(t).0,
            actions_of(final(actions)@) == actions_of(old(actions)@) + old(g)@.abort_txn(t).1,
            final(out)@ == old(out)@ + old(g)@.abort_txn(t).2,
            final(g)@.wf(),
            final(g)@.same_frame(old(g)@),
    {
        proof {
            if g@.sound() {
                g@.lemma_sound_abort_txn(t);
            }
        }
        proof {
            old(g)@.lemma_abort_txn(t);
        }
        let ghost acts0 = actions_of(actions@);
        match g.nodes[t].status {
            TxnStatus::WAITING => {},
            _ => {
                assert(acts0 + Seq::<Action>::empty() =~= acts0);
                assert(out@ + Seq::<Finished>::empty() =~= out@);
                return ;
            },
        }
        proof {
            g@.lemma_recount(t, TxnState { status: TxnStatus::ABORTED, ..g@.txn(t) });
        }
        g.nodes[t].status = TxnStatus::ABORTED;
        proof {
            Tpg::lemma_txn_changed(old(g), g, t);
        }
        let ghost g1 = g@;
        let count = g.nodes[t].ev_nodes.len();
        let ghost all = g1.abort_events(t, 0, count as int);
        let mut j: usize = 0;
        while j < count
            invariant
                j <= count,
                g1.wf(),
                g1.has_txn(t),
                count == g1.txn(t).ev_nodes.len(),
                g@.wf(),
                g@.same_frame(g1),
                all == g1.abort_events(t, 0, count as int),
                g@.abort_events(t, j as int, count as int).0 == all.0,
                actions_of(actions@) + g@.abort_events(t, j as int, count as int).1 == acts0
                    + all.1,
            decreases count - j,
        {
            let r = EvRef { txn: t, idx: j };
            let ghost g_j = g@;
            let ghost acts_j = actions_of(actions@);
            proof {
                assert(g@.nodes[t as int].same_keys(g1.nodes[t as int]));
            }
            EvNode::abort(g, r, actions);
            proof {
                let step = g_j.abort_event(r);
                let tail = step.0.abort_events(t, j + 1, count as int);
                assert(g_j.abort_events(t, j as int, count as int) == (tail.0, step.1 + tail.1));
                assert(actions_of(actions@) + tail.1 =~= acts_j + (step.1 + tail.1));
                g@.lemma_same_keys_trans(g_j, g1);
            }
            j = j + 1;
        }
        proof {
            assert(actions_of(actions@) + Seq::<Action>::empty() =~= actions_of(actions@));
            g@.lemma_recount(t, TxnState { unfinished_events: 0, ..g@.txn(t) });
        }
        let ghost mid = *g;
        g.nodes[t].unfinished_events = 0;
        proof {
            Tpg::lemma_txn_changed(&mid, g, t);
        }
        Self::try_commit(g, t, out);
    }

    /// Whether this transaction holds a link to transaction `t`: as a
    /// parent that it awaits, as one of its readers, or as the writer
    /// before or after it of one of its keys.
    pub fn holds_link(&self, t: usize) -> (r: bool)
        requires
            forall|k: Seq<char>| #[trigger] self@.cover.contains_key(k) ==> self@.writes(k),
            forall|k: Seq<char>| #[trigger] self@.covered_by.contains_key(k) ==> self@.writes(k),
        ensures
            r == self@.holds(t),
    {
        let mut i: usize = 0;
        while i < self.read_from.len()
            invariant
                i <= self.read_from@.len(),
                forall|j: int| 0 <= j < i ==> self@.read_from[j] != Some(t),
            decreases self.read_from.len() - i,
        {
            let held = *self.read_from[i].read();
            match held {
                Some(p) => {
                    if p == t {
                        assert(self@.read_from[i as int] == Some(t));
                        return true;
                    }
                },
                None => {},
            }
            i = i + 1;
        }
        if crate::tpg::ev_node::holds_value(&self.read_by, t) {
            return true;
        }
        let mut e: usize = 0;
        while e < self.ev_nodes.len()
            invariant
                e <= self.ev_nodes@.len(),
                !self@.waits_for(t),
                !self@.read_by.contains(t),
                forall|x: int|
                    0 <= x < e && (#[trigger] self@.ev_nodes[x]).has_write ==> {
                        &&& !(self@.cover.contains_key(self@.ev_nodes[x].write)
                            && self@.cover[self@.ev_nodes[x].write] == Some(t))
                        &&& !(self@.covered_by.contains_key(self@.ev_nodes[x].write)
                            && self@.covered_by[self@.ev_nodes[x].write] == Some(t))
                    },
            decreases self.ev_nodes.len() - e,
        {
            if self.ev_nodes[e].has_write {
                let key = self.ev_nodes[e].write.as_str();
                assert(key@ == self@.ev_nodes[e as int].write);
                match self.cover.get(key) {
                    Some(Some(p)) => {
                        if *p == t {
                            assert(self@.cover.contains_key(key@) && self@.cover[key@] == Some(t));
                            return true;
                        }
                    },
                    _ => {},
                }
                match self.covered_by.get(key) {
                    Some(Some(p)) => {
                        if *p == t {
                            assert(self@.covered_by.contains_key(key@) && self@.covered_by[key@]
                                == Some(t));
                            return true;
                        }
                    },
                    _ => {},
                }
            }
            e = e + 1;
        }
        proof {
            assert forall|k: Seq<char>|
                self@.cover.contains_key(k) implies #[trigger] self@.cover[k] != Some(t) by {
                assert(self@.writes(k));
            }
            assert forall|k: Seq<char>|
                self@.covered_by.contains_key(k) implies #[trigger] self@.covered_by[k] != Some(
                t,
            ) by {
                assert(self@.writes(k));
            }
        }
        false
    }

    /// Releases transaction `t`, which has committed and is held by
    /// nothing: the node is marked as gone, and the release of the version
    /// of each of its events that holds one is appended to `actions`.
    pub fn release(g: &mut Tpg, t: usize, actions: &mut Vec<DbAction>)
        requires
            old(g)@.wf(),
            old(g)@.droppable(t),
        ensures
            old(g)@.sound() ==> final(g)@.sound(),
            final(g)@ == old(g)@.release(t).0,
            actions_of(final(actions)@) == actions_of(old(actions)@) + old(g)@.release(t).1,
            final(g)@.wf(),
            final(g)@.same_frame(old(g)@),
    {
        proof {
            if g@.sound() {
                g@.lemma_sound_release(t);
            }
        }
        proof {
            old(g)@.lemma_release(t);
        }
        let ghost acts0 = actions_of(actions@);
        let node = &g.nodes[t];
        let mut e: usize = 0;
        while e < node.ev_nodes.len()
            invariant
                e <= node.ev_nodes@.len(),
                node@ == old(g)@.txn(t),
                actions_of(actions@) == acts0 + old(g)@.releases(t, e as int),
            decreases node.ev_nodes.len() - e,
        {
            let ghost acts = actions_of(actions@);
            if node.ev_nodes[e].has_storage_slot {
                let action = DbAction::Release { key: node.ev_nodes[e].write.clone(), ts: node.ts };
                actions.push(action);
                assert(actions_of(actions@) =~= acts + seq![action@]);
                assert(acts0 + (old(g)@.releases(t, e as int) + seq![action@]) =~= acts0 + old(
                    g,
                )@.releases(t, e as int) + seq![action@]);
            } else {
                assert(acts0 + (old(g)@.releases(t, e as int) + Seq::<Action>::empty()) =~= acts0
                    + old(g)@.releases(t, e as int));
            }
            e = e + 1;
        }
        g.nodes[t].dropped = true;
        proof {
            Tpg::lemma_txn_changed(old(g), g, t);
        }
    }
}

} // verus!
