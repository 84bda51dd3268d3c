use crate::ds::transactions::Txn;
use crate::external::ffi::TxnMessage;
use crate::tpg::model::{
    before, last_writer, unaccepted, EvRef, EvState, EventStatus, Graph, TxnState, TxnStatus,
};
use vstd::prelude::*;

verus! {

/// Where no event is accepted, every event counts.
pub proof fn lemma_unaccepted_all(events: Seq<EvState>)
    requires
        forall|e: int| 0 <= e < events.len() ==> (#[trigger] events[e]).status
            != EventStatus::ACCEPTED,
    ensures
        unaccepted(events) == events.len(),
    decreases events.len(),
{
    if events.len() > 0 {
        assert forall|e: int| 0 <= e < events.drop_last().len() implies (
        #[trigger] events.drop_last()[e]).status != EventStatus::ACCEPTED by {
            assert(events[e].status != EventStatus::ACCEPTED);
        }
        lemma_unaccepted_all(events.drop_last());
    }
}

impl Graph {
    /// Releasing a transaction that can be released keeps the graph sound.
    pub proof fn lemma_sound_release(self, t: usize)
        requires
            self.sound(),
            self.droppable(t),
        ensures
            self.release(t).0.sound(),
            self.links_kept_but_dropped(self.release(t).0),
    {
        let n = TxnState { dropped: true, ..self.txn(t) };
        assert(self.settled(t));
        assert(self.with_txn(t, n).settled(t));
        self.lemma_sound_with_txn(t, n);
    }

    /// The two graphs differ at most in which transactions are released.
    pub open spec fn links_kept_but_dropped(self, after: Graph) -> bool {
        &&& after.nodes.len() == self.nodes.len()
        &&& after.state_last_modify == self.state_last_modify
        &&& after.ready_queue == self.ready_queue
        &&& forall|t: int|
            0 <= t < self.nodes.len() ==> (#[trigger] after.nodes[t]) == (TxnState {
                dropped: after.nodes[t].dropped,
                ..self.nodes[t]
            }) && (self.nodes[t].dropped ==> after.nodes[t].dropped)
    }

    /// A pass that releases what can be released keeps the graph sound.
    pub proof fn lemma_sound_sweep(self, upto: int)
        requires
            self.sound(),
            upto <= self.nodes.len(),
        ensures
            self.sweep(upto).0.sound(),
            self.links_kept_but_dropped(self.sweep(upto).0),
        decreases upto,
    {
        if upto > 0 {
            self.lemma_sound_sweep(upto - 1);
            let s = self.sweep(upto - 1);
            if s.0.droppable((upto - 1) as usize) {
                s.0.lemma_sound_release((upto - 1) as usize);
                let r = s.0.release((upto - 1) as usize);
                assert forall|t: int| 0 <= t < self.nodes.len() implies (#[trigger] r.0.nodes[t])
                    == (TxnState { dropped: r.0.nodes[t].dropped, ..self.nodes[t] }) && (
                self.nodes[t].dropped ==> r.0.nodes[t].dropped) by {
                    assert(s.0.nodes[t] == (TxnState {
                        dropped: s.0.nodes[t].dropped,
                        ..self.nodes[t]
                    }));
                }
            }
        }
    }

    /// Clearing the index keeps the graph sound.
    pub proof fn lemma_sound_unpublish(self)
        requires
            self.sound(),
        ensures
            self.unpublish().sound(),
    {
        let after = self.unpublish();
        assert forall|t: usize| t < after.nodes.len() implies #[trigger] after.settled(t) by {
            assert(self.settled(t));
        }
    }

    /// Adding the transaction of a legal message keeps the graph sound.
    pub proof fn lemma_sound_enlisted(self, msg: TxnMessage, templates: Vec<Txn>)
        requires
            self.wf(),
            self.sound(),
            self.accepts(msg, templates),
            self.nodes.len() < usize::MAX,
        ensures
            self.enlisted(msg, templates).sound(),
            self.enlisted(msg, templates).txn(self.nodes.len() as usize).status
                == TxnStatus::WAITING,
    {
        let after = self.enlisted(msg, templates);
        let t = self.nodes.len() as usize;
        let fresh = self.message_txn(msg, templates);
        assert forall|u: usize| u < after.nodes.len() implies #[trigger] after.settled(u) by {
            if u < t {
                assert(self.settled(u));
                assert(self.txn_ok(u));
                assert(after.txn(u) == self.txn(u));
            } else {
                assert(after.txn(u) == fresh);
                lemma_unaccepted_all(fresh.ev_nodes);
            }
        }
    }

    /// Recording a reader keeps the graph sound.
    pub proof fn lemma_sound_add_read_by(self, parent: EvRef, son: EvRef)
        requires
            self.wf(),
            self.sound(),
            self.has_ev(parent),
            self.has_ev(son),
            before(parent, son),
        ensures
            self.add_read_by(parent, son).sound(),
            self.links_kept(self.add_read_by(parent, son)),
    {
        let e1 = EvState { read_by: self.ev(parent).read_by.push(son), ..self.ev(parent) };
        let g1 = self.with_ev(parent, e1);
        self.lemma_sound_restate(parent, e1);
        if parent.txn != son.txn && !g1.txn(parent.txn).read_by.contains(son.txn) {
            let n2 = TxnState {
                read_by: g1.txn(parent.txn).read_by.push(son.txn),
                ..g1.txn(parent.txn)
            };
            let g2 = g1.with_txn(parent.txn, n2);
            assert forall|t: int| 0 <= t < g1.nodes.len() implies (#[trigger] g2.nodes[t]).same_links(
                g1.nodes[t],
            ) && g2.nodes[t].counted() by {
                assert(g1.settled(t as usize));
            }
            g1.lemma_sound_events(g2);
            self.lemma_links_kept_trans(g1, g2);
        }
    }

    /// Linking a read of an event of the newest transaction, which waits,
    /// keeps the graph sound.
    pub proof fn lemma_sound_link_read(self, r: EvRef, i: int)
        requires
            self.wf(),
            self.sound(),
            self.has_ev(r),
            self.newest(r.txn),
            self.index_behind(r),
            self.txn(r.txn).status == TxnStatus::WAITING,
            0 <= i < self.ev(r).reads.len(),
            self.state_last_modify.contains_key(self.ev(r).reads[i]),
        ensures
            self.link_read(r, i).sound(),
            self.link_read(r, i).txn(r.txn).status == TxnStatus::WAITING,
            self.committed_stay(self.link_read(r, i)),
    {
        let key = self.ev(r).reads[i];
        assert(self.txn_ok(r.txn));
        assert(self.ev_ok(r));
        match self.state_last_modify[key] {
            Some(w) => {
                let e1 = EvState {
                    read_from: self.ev(r).read_from.update(i, Some(w.0)),
                    ..self.ev(r)
                };
                let g1 = self.with_ev(r, e1);
                self.lemma_with_ev(r, e1);
                self.lemma_sound_restate(r, e1);
                g1.lemma_add_read_by(w.0, r);
                g1.lemma_sound_add_read_by(w.0, r);
                let g2 = g1.add_read_by(w.0, r);
                self.lemma_links_kept_trans(g1, g2);
                self.lemma_sound_events_stay(g2);
                assert(g2.nodes[r.txn as int].same_links(self.nodes[r.txn as int]));
                let slot = g2.txn(r.txn).read_from_index_map[key] as int;
                if w.1 != r.txn && g2.txn(r.txn).read_from[slot] is None {
                    let o = g2.txn(r.txn);
                    let n3 = TxnState {
                        read_from: o.read_from.update(slot, Some(w.1)),
                        parents: o.parents.push(w.1),
                        ..o
                    };
                    let g3 = g2.with_txn(r.txn, n3);
                    assert(g2.txn_ok(r.txn));
                    assert(g2.nodes[r.txn as int].same_keys(self.nodes[r.txn as int]));
                    assert(g2.txn(r.txn).ev_nodes[r.idx as int].reads[i] == key);
                    assert(0 <= slot < o.read_from.len());
                    assert(g2.settled(r.txn));
                    assert(n3.read_from[slot] == Some(w.1));
                    assert forall|x: int| 0 <= x < n3.parents.len() implies (
                    #[trigger] n3.parents[x]) < r.txn && (n3.waits_for(n3.parents[x]) || g3.txn(
                        n3.parents[x],
                    ).status == TxnStatus::COMMITED) by {
                        if x < o.parents.len() {
                            let p = o.parents[x];
                            if o.waits_for(p) {
                                let s = choose|s: int|
                                    0 <= s < o.read_from.len() && o.read_from[s] == Some(p);
                                assert(n3.read_from[s] == Some(p));
                            }
                        }
                    }
                    assert forall|k: Seq<char>| #[trigger] n3.covered_by.contains_key(k) implies (
                    n3.covered_by[k] matches Some(c) ==> c < g3.nodes.len() && ((g3.txn(
                        c,
                    ).cover.contains_key(k) && g3.txn(c).cover[k] == Some(r.txn)) || g3.txn(
                        c,
                    ).status == TxnStatus::COMMITED)) by {
                        assert(o.covered_by.contains_key(k));
                    }
                    assert(g3.settled(r.txn));
                    g2.lemma_sound_with_txn(r.txn, n3);
                    self.lemma_committed_stay_trans(g2, g3);
                }
            },
            None => {
                let e1 = EvState { read_from: self.ev(r).read_from.update(i, None), ..self.ev(r) };
                self.lemma_sound_restate(r, e1);
                self.lemma_sound_events_stay(self.with_ev(r, e1));
            },
        }
    }

    /// Linking the write of an event of the newest transaction, which
    /// waits, keeps the graph sound.
    pub proof fn lemma_sound_link_write(self, r: EvRef)
        requires
            self.wf(),
            self.sound(),
            self.has_ev(r),
            self.newest(r.txn),
            self.index_behind(r),
            self.txn(r.txn).status == TxnStatus::WAITING,
            self.ev(r).has_write ==> self.state_last_modify.contains_key(self.ev(r).write),
        ensures
            self.link_write(r).sound(),
            self.link_write(r).txn(r.txn).status == TxnStatus::WAITING,
            self.committed_stay(self.link_write(r)),
    {
        let e = self.ev(r);
        let t = r.txn;
        assert(self.txn_ok(t));
        assert(self.ev_ok(r));
        if e.has_write {
            let key = e.write;
            let after = self.link_write(r);
            assert forall|u: usize| u < after.nodes.len() implies #[trigger] after.settled(u) by {
                assert(self.settled(u));
                assert(self.txn_ok(u));
                let o = self.txn(u);
                let n = after.txn(u);
                assert(n.parents == o.parents);
                assert(n.read_from == o.read_from);
                assert(n.status == o.status);
                assert(n.ev_nodes == o.ev_nodes);
                assert(n.unfinished_events == o.unfinished_events);
                assert forall|x: int| 0 <= x < n.parents.len() implies (#[trigger] n.parents[x])
                    < u && (n.waits_for(n.parents[x]) || after.txn(n.parents[x]).status
                    == TxnStatus::COMMITED) by {
                    assert(after.txn(o.parents[x]).status == self.txn(o.parents[x]).status);
                }
                assert forall|k: Seq<char>| #[trigger]
                    n.cover.contains_key(k) && n.cover[k] is Some implies after.state_last_modify.contains_key(
                    k,
                ) && (last_writer(after.state_last_modify[k]) matches Some(x) ==> x >= u) by {
                    if k != key {
                        assert(o.cover.contains_key(k) && o.cover[k] is Some);
                    }
                }
                assert forall|k: Seq<char>| #[trigger] n.covered_by.contains_key(k) implies (
                n.covered_by[k] matches Some(c) ==> c < after.nodes.len() && ((after.txn(
                    c,
                ).cover.contains_key(k) && after.txn(c).cover[k] == Some(u)) || after.txn(
                    c,
                ).status == TxnStatus::COMMITED)) by {
                    match n.covered_by[k] {
                        Some(c) => {
                            if o.covered_by.contains_key(k) && o.covered_by[k] == Some(c) {
                                assert(after.txn(c).status == self.txn(c).status);
                                if c == t && k == key && self.txn(c).status
                                    != TxnStatus::COMMITED {
                                    // The newest transaction covered `u` for
                                    // this key, so it was its last writer.
                                    assert(self.txn(t).cover.contains_key(k) && self.txn(
                                        t,
                                    ).cover[k] is Some);
                                    assert(self.settled(t));
                                    assert(self.state_last_modify.contains_key(k));
                                }
                            }
                        },
                        None => {},
                    }
                }
            }
            assert forall|u: int|
                0 <= u < self.nodes.len() && (#[trigger] self.nodes[u]).status
                    == TxnStatus::COMMITED implies after.nodes[u].status
                == TxnStatus::COMMITED by {
                assert(after.txn(u as usize).status == self.txn(u as usize).status);
            }
        } else {
            assert forall|u: int|
                0 <= u < self.nodes.len() && (#[trigger] self.nodes[u]).status
                    == TxnStatus::COMMITED implies self.nodes[u].status == TxnStatus::COMMITED by {}
        }
    }
}

} // verus!
