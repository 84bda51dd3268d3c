use crate::ds::transactions::Txn;
use crate::external::ffi::TxnMessage;
use crate::tpg::model::{EvRef, EvState, EventStatus, Graph, TxnState, TxnStatus};
use vstd::prelude::*;

verus! {

impl Graph {
    /// The events of the newest transaction `t` can be linked from event
    /// `idx` on: the graph is in order and sound, the transaction waits,
    /// the index has its keys, and the index names none of its events from
    /// `idx` on.
    pub open spec fn linkable(self, t: usize, idx: usize) -> bool {
        &&& self.wf()
        &&& self.sound()
        &&& self.has_txn(t)
        &&& self.newest(t)
        &&& self.index_behind(EvRef { txn: t, idx })
        &&& self.txn(t).status == TxnStatus::WAITING
        &&& self.keys_known(t)
    }

    /// Linking the reads of an event keeps the graph linkable.
    pub proof fn lemma_linking_reads(self, r: EvRef, upto: int)
        requires
            self.linkable(r.txn, r.idx),
            self.has_ev(r),
            0 <= upto <= self.ev(r).reads.len(),
        ensures
            self.link_reads(r, upto).linkable(r.txn, r.idx),
            self.link_reads(r, upto).same_frame(self),
            self.committed_stay(self.link_reads(r, upto)),
        decreases upto,
    {
        if upto > 0 {
            self.lemma_linking_reads(r, upto - 1);
            let g1 = self.link_reads(r, upto - 1);
            assert(g1.nodes[r.txn as int].same_keys(self.nodes[r.txn as int]));
            assert(g1.ev(r).reads[upto - 1] == self.ev(r).reads[upto - 1]);
            assert(self.state_last_modify.contains_key(
                self.txn(r.txn).ev_nodes[r.idx as int].reads[upto - 1],
            ));
            g1.lemma_link_read(r, upto - 1);
            g1.lemma_sound_link_read(r, upto - 1);
            let g2 = g1.link_read(r, upto - 1);
            g2.lemma_same_keys_trans(g1, self);
            self.lemma_committed_stay_trans(g1, g2);
            g2.lemma_keys_known(self, r.txn);
        } else {
            self.lemma_sound_events_stay_self();
        }
    }

    /// Nothing changes where nothing is done.
    pub proof fn lemma_sound_events_stay_self(self)
        ensures
            self.committed_stay(self),
            self.same_keys(self),
    {
        assert forall|t: int| 0 <= t < self.nodes.len() implies (#[trigger] self.nodes[t]).same_keys(
            self.nodes[t],
        ) by {}
    }

    /// A graph with the same keys knows the keys of a transaction if the
    /// other does.
    pub proof fn lemma_keys_known(self, other: Graph, t: usize)
        requires
            self.same_keys(other),
            other.has_txn(t),
            other.keys_known(t),
        ensures
            self.keys_known(t),
    {
        assert(self.nodes[t as int].same_keys(other.nodes[t as int]));
        let n = self.txn(t);
        let o = other.txn(t);
        assert forall|e: int, i: int|
            0 <= e < n.ev_nodes.len() && 0 <= i
                < n.ev_nodes[e].reads.len() implies self.state_last_modify.contains_key(
            #[trigger] n.ev_nodes[e].reads[i],
        ) by {
            assert(n.ev_nodes[e].reads == o.ev_nodes[e].reads);
            assert(other.state_last_modify.contains_key(o.ev_nodes[e].reads[i]));
        }
        assert forall|e: int|
            0 <= e < n.ev_nodes.len() && (
            #[trigger] n.ev_nodes[e]).has_write implies self.state_last_modify.contains_key(
            n.ev_nodes[e].write,
        ) by {
            assert(o.ev_nodes[e].has_write);
        }
    }

    /// Linking an event keeps the graph linkable, from the next event on.
    pub proof fn lemma_linking_event(self, r: EvRef)
        requires
            self.linkable(r.txn, r.idx),
            self.has_ev(r),
        ensures
            self.link_event(r).linkable(r.txn, (r.idx + 1) as usize),
            self.link_event(r).same_keys(self),
            self.link_event(r).ready_queue == self.ready_queue,
            self.committed_stay(self.link_event(r)),
    {
        assert(self.txn_ok(r.txn));
        let count = self.ev(r).reads.len() as int;
        self.lemma_linking_reads(r, count);
        let g1 = self.link_reads(r, count);
        assert(g1.nodes[r.txn as int].same_keys(self.nodes[r.txn as int]));
        assert(self.txn(r.txn).ev_nodes[r.idx as int].has_write
            ==> self.state_last_modify.contains_key(self.txn(r.txn).ev_nodes[r.idx as int].write));
        g1.lemma_link_write(r);
        g1.lemma_sound_link_write(r);
        let g2 = g1.link_write(r);
        g2.lemma_same_keys_trans(g1, self);
        self.lemma_committed_stay_trans(g1, g2);
        g2.lemma_keys_known(self, r.txn);
        assert(g2.index_behind(EvRef { txn: r.txn, idx: (r.idx + 1) as usize }));
    }

    /// Linking the events of a transaction keeps the graph linkable.
    pub proof fn lemma_linking_events(self, t: usize, upto: int)
        requires
            self.linkable(t, 0),
            0 <= upto <= self.txn(t).ev_nodes.len(),
        ensures
            self.link_events(t, upto).linkable(t, upto as usize),
            self.link_events(t, upto).same_keys(self),
            self.link_events(t, upto).ready_queue == self.ready_queue,
            self.committed_stay(self.link_events(t, upto)),
        decreases upto,
    {
        if upto > 0 {
            self.lemma_linking_events(t, upto - 1);
            let g1 = self.link_events(t, upto - 1);
            let r = EvRef { txn: t, idx: (upto - 1) as usize };
            assert(g1.nodes[t as int].same_keys(self.nodes[t as int]));
            assert(self.txn_ok(t));
            g1.lemma_linking_event(r);
            let g2 = g1.link_event(r);
            g2.lemma_same_keys_trans(g1, self);
            self.lemma_committed_stay_trans(g1, g2);
        } else {
            self.lemma_sound_events_stay_self();
        }
    }

    /// Starting and offering the events of a transaction keeps the graph
    /// in order and sound.
    pub proof fn lemma_sound_launch(self, t: usize, j: int, count: int)
        requires
            self.wf(),
            self.sound(),
            self.has_txn(t),
            count <= self.txn(t).ev_nodes.len(),
        ensures
            self.launch(t, j, count).0.wf(),
            self.launch(t, j, count).0.sound(),
            self.links_kept(self.launch(t, j, count).0),
            self.launch(t, j, count).0.same_keys(self),
        decreases count - j,
    {
        if 0 <= j < count {
            let r = EvRef { txn: t, idx: j as usize };
            self.lemma_start(r);
            self.lemma_sound_start(r);
            let g1 = self.start_event(r);
            assert(g1.nodes[t as int].same_keys(self.nodes[t as int]));
            g1.lemma_offer(r);
            g1.lemma_sound_offer(r);
            let g2 = g1.offer(r).0;
            self.lemma_links_kept_trans(g1, g2);
            g2.lemma_same_keys_trans(g1, self);
            assert(g2.nodes[t as int].same_keys(self.nodes[t as int]));
            g2.lemma_sound_launch(t, j + 1, count);
            let g3 = g2.launch(t, j + 1, count).0;
            self.lemma_links_kept_trans(g2, g3);
            g3.lemma_same_keys_trans(g2, self);
        } else {
            self.lemma_sound_requeue(self.ready_queue);
            self.lemma_sound_events_stay_self();
        }
    }

    /// Starting an event keeps the graph in order.
    pub proof fn lemma_start(self, r: EvRef)
        requires
            self.wf(),
            self.has_ev(r),
        ensures
            self.start_event(r).wf(),
            self.start_event(r).same_frame(self),
    {
        if self.ev(r).status == EventStatus::CONSTRUCT {
            self.lemma_restate(r, self.start_event(r).ev(r));
        } else {
            self.lemma_sound_events_stay_self();
        }
    }

    /// Offering an event keeps the graph in order.
    pub proof fn lemma_offer(self, r: EvRef)
        requires
            self.wf(),
            self.has_ev(r),
        ensures
            self.offer(r).0.wf(),
            self.offer(r).0.same_keys(self),
            self.offer(r).0.state_last_modify == self.state_last_modify,
    {
        let e = self.ev(r);
        if e.no_waiting() && e.status == EventStatus::WAITING {
            let g1 = self.with_ev(r, e.with_status(EventStatus::INQUEUE));
            self.lemma_restate(r, e.with_status(EventStatus::INQUEUE));
            g1.lemma_requeue(self.ready_queue.push(r));
            self.offer(r).0.lemma_same_keys_trans(g1, self);
        } else if e.no_waiting() && e.status == EventStatus::CLAIMED {
            self.lemma_restate(r, e.with_status(EventStatus::WAITING));
        } else {
            self.lemma_sound_events_stay_self();
        }
    }

    /// What the construct thread makes of a request keeps the graph in
    /// order and sound, and what has committed stays committed.
    pub proof fn lemma_sound_construct(self, msg: TxnMessage, templates: Vec<Txn>)
        requires
            self.wf(),
            self.sound(),
            self.nodes.len() < usize::MAX,
        ensures
            self.construct(msg, templates).0.sound(),
            self.committed_stay(self.construct(msg, templates).0),
    {
        if self.accepts(msg, templates) {
            let t = self.nodes.len() as usize;
            let g0 = self.enlisted(msg, templates);
            self.lemma_sound_enlisted(msg, templates);
            self.lemma_enlisted(msg, templates);
            g0.lemma_linking_events(t, g0.txn(t).ev_nodes.len() as int);
            let g1 = g0.set_links(t);
            assert(g1.nodes[t as int].same_keys(g0.nodes[t as int]));
            g1.lemma_sound_launch(t, 0, g1.txn(t).ev_nodes.len() as int);
            let g2 = g1.launch(t, 0, g1.txn(t).ev_nodes.len() as int).0;
            g1.lemma_sound_events_stay(g2);
            assert forall|u: int|
                0 <= u < self.nodes.len() && (#[trigger] self.nodes[u]).status
                    == TxnStatus::COMMITED implies g2.nodes[u].status == TxnStatus::COMMITED by {
                assert(g0.nodes[u] == self.nodes[u]);
                assert(g1.nodes[u].status == TxnStatus::COMMITED);
            }
        } else {
            self.lemma_sound_events_stay_self();
        }
    }

    /// Adding the transaction of a legal message keeps the graph in order,
    /// and makes it linkable but for soundness.
    pub proof fn lemma_enlisted(self, msg: TxnMessage, templates: Vec<Txn>)
        requires
            self.wf(),
            self.accepts(msg, templates),
            self.nodes.len() < usize::MAX,
        ensures
            self.enlisted(msg, templates).wf(),
            self.enlisted(msg, templates).newest(self.nodes.len() as usize),
            self.enlisted(msg, templates).keys_known(self.nodes.len() as usize),
            self.enlisted(msg, templates).index_behind(
                EvRef { txn: self.nodes.len() as usize, idx: 0 },
            ),
    {
        let g = self.enlisted(msg, templates);
        let fresh = self.message_txn(msg, templates);
        let id = self.nodes.len() as usize;
        assert forall|i: int| 0 <= i < g.ready_queue.len() implies g.has_ev(
            #[trigger] g.ready_queue[i],
        ) by {
            assert(self.has_ev(self.ready_queue[i]));
        }
        assert forall|t: usize| t < g.nodes.len() implies #[trigger] g.txn_ok(t) by {
            if t < id {
                assert(self.txn_ok(t));
                assert forall|x: usize| x < g.txn(t).ev_nodes.len() implies #[trigger] g.ev_ok(
                    EvRef { txn: t, idx: x },
                ) by {
                    assert(self.ev_ok(EvRef { txn: t, idx: x }));
                }
            } else {
                assert forall|e: int, i: int|
                    0 <= e < fresh.ev_nodes.len() && 0 <= i
                        < fresh.ev_nodes[e].reads.len() implies fresh.read_from_index_map.contains_key(
                #[trigger] fresh.ev_nodes[e].reads[i]) by {
                    crate::tpg::model::lemma_flat_reads_contains(fresh.ev_nodes, e, i);
                }
                assert forall|k: Seq<char>| #[trigger]
                    fresh.read_from_index_map.contains_key(
                        k,
                    ) implies fresh.read_from_index_map[k] < fresh.read_from.len() by {
                    crate::tpg::model::lemma_last_position(
                        crate::tpg::model::flat_reads(fresh.ev_nodes),
                        k,
                    );
                }
            }
        }
    }

    /// Following up the events of a transaction keeps the graph sound.
    pub proof fn lemma_sound_follow_up(self, t: usize, j: int, count: int)
        requires
            self.wf(),
            self.sound(),
            self.has_txn(t),
            count <= self.txn(t).ev_nodes.len(),
        ensures
            self.follow_up(t, j, count).0.sound(),
            self.links_kept(self.follow_up(t, j, count).0),
        decreases count - j,
    {
        if 0 <= j < count {
            let r = EvRef { txn: t, idx: j as usize };
            self.lemma_get_next(r);
            self.lemma_sound_get_next(r);
            let n = self.get_next(r);
            assert(n.0.nodes[t as int].same_keys(self.nodes[t as int]));
            n.0.lemma_sound_follow_up(t, j + 1, count);
            self.lemma_links_kept_trans(n.0, n.0.follow_up(t, j + 1, count).0);
        } else {
            self.lemma_sound_requeue(self.ready_queue);
        }
    }

    /// Taking the word that the executor has completed an event keeps the
    /// graph sound, and what has committed stays committed.
    pub proof fn lemma_sound_complete(self, r: EvRef, value: Seq<u8>)
        requires
            self.wf(),
            self.sound(),
            self.has_ev(r),
        ensures
            self.complete(r, value).1.sound(),
            self.committed_stay(self.complete(r, value).1),
    {
        let a = self.accept(r);
        if !self.txn(r.txn).dropped && a.1 {
            self.lemma_accept(r);
            self.lemma_sound_accept(r);
            assert(a.0.nodes[r.txn as int].same_keys(self.nodes[r.txn as int]));
            a.0.lemma_restate(
                r,
                EvState { has_storage_slot: true, written: value, ..a.0.ev(r) },
            );
            a.0.lemma_sound_write_back(r, value);
            let w = a.0.write_back(r, value);
            assert(w.0.nodes[r.txn as int].same_keys(a.0.nodes[r.txn as int]));
            w.0.lemma_get_next(r);
            w.0.lemma_sound_get_next(r);
            let n = w.0.get_next(r);
            n.0.lemma_sound_sweep(n.0.nodes.len() as int);
            let c = n.0.collect();
            a.0.lemma_links_kept_trans(w.0, n.0);
            a.0.lemma_sound_events_stay(n.0);
            self.lemma_committed_stay_trans(a.0, n.0);
            n.0.lemma_dropped_stay(c.0);
            self.lemma_committed_stay_trans(n.0, c.0);
        } else {
            self.lemma_sound_events_stay_self();
        }
    }

    /// Where only releases differ, what has committed stays committed.
    pub proof fn lemma_dropped_stay(self, after: Graph)
        requires
            self.links_kept_but_dropped(after),
        ensures
            self.committed_stay(after),
    {
        assert forall|t: int|
            0 <= t < self.nodes.len() && (#[trigger] self.nodes[t]).status
                == TxnStatus::COMMITED implies after.nodes[t].status == TxnStatus::COMMITED by {
            assert(after.nodes[t] == (TxnState { dropped: after.nodes[t].dropped, ..self.nodes[t] }));
        }
    }

    /// Taking the word that the executor has aborted an event keeps the
    /// graph sound, and what has committed stays committed.
    pub proof fn lemma_sound_fail(self, r: EvRef)
        requires
            self.wf(),
            self.sound(),
            self.has_ev(r),
        ensures
            self.fail(r).0.sound(),
            self.committed_stay(self.fail(r).0),
    {
        self.lemma_abort_txn(r.txn);
        self.lemma_sound_abort_txn(r.txn);
        let a = self.abort_txn(r.txn);
        assert(a.0.nodes[r.txn as int].same_keys(self.nodes[r.txn as int]));
        let count = a.0.txn(r.txn).ev_nodes.len() as int;
        a.0.lemma_sound_follow_up(r.txn, 0, count);
        let n = a.0.follow_up(r.txn, 0, count);
        a.0.lemma_sound_events_stay(n.0);
        self.lemma_committed_stay_trans(a.0, n.0);
        n.0.lemma_sound_sweep(n.0.nodes.len() as int);
        let c = n.0.collect();
        n.0.lemma_dropped_stay(c.0);
        self.lemma_committed_stay_trans(n.0, c.0);
    }

    /// Accepting the result of an event keeps the graph in order.
    pub proof fn lemma_accept(self, r: EvRef)
        requires
            self.wf(),
            self.has_ev(r),
        ensures
            self.accept(r).0.wf(),
            self.accept(r).0.same_frame(self),
    {
        let e = self.ev(r);
        if e.status == EventStatus::CLAIMED {
            let e1 = e.with_status(EventStatus::ACCEPTED);
            let g1 = self.with_ev(r, e1);
            self.lemma_restate(r, e1);
            let n = g1.txn(r.txn);
            let n2 = TxnState {
                unfinished_events: if n.unfinished_events > 0 {
                    (n.unfinished_events - 1) as u16
                } else {
                    0
                },
                ..n
            };
            let g2 = g1.with_txn(r.txn, n2);
            g1.lemma_recount(r.txn, n2);
            g2.lemma_same_keys_trans(g1, self);
            if g2.txn(r.txn).unfinished_events == 0 {
                g2.lemma_try_commit(r.txn, g2.nodes.len());
                g2.try_commit(r.txn).0.lemma_same_keys_trans(g2, self);
            }
        } else {
            self.lemma_sound_events_stay_self();
        }
    }
}

} // verus!
