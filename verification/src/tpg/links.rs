use crate::ds::transactions::Txn;
use crate::external::ffi::TxnMessage;
use crate::tpg::model::{
    before, fresh_txn, last_writer, message_fits, EvRef, EvState, Graph, TxnState,
};
use vstd::prelude::*;

verus! {

impl Graph {
    /// Transaction `t` is the newest one.
    pub open spec fn newest(self, t: usize) -> bool {
        t + 1 == self.nodes.len()
    }

    /// Every entry of the index that names transaction `r.txn` names an
    /// event of it that comes before `r`.
    pub open spec fn index_behind(self, r: EvRef) -> bool {
        forall|k: Seq<char>| #[trigger]
            self.state_last_modify.contains_key(k) ==> (self.state_last_modify[k] matches Some(w)
                ==> (w.1 == r.txn ==> w.0.idx < r.idx))
    }

    /// The node that the message `msg` asks for, at the place that the next
    /// transaction takes.
    pub open spec fn message_txn(self, msg: TxnMessage, templates: Vec<Txn>) -> TxnState {
        fresh_txn(
            templates@[msg.type_idx as int].events(),
            self.nodes.len() as usize,
            msg.ts,
            msg.txn_req_id,
            msg.reads_idx@.map_values(|v: Vec<usize>| v@),
            msg.write_idx@,
        )
    }

    /// Whether the message `msg` is legal: it names a template, gives a row
    /// slot for every key of every event, and asks only for keys that the
    /// index has.
    pub open spec fn accepts(self, msg: TxnMessage, templates: Vec<Txn>) -> bool {
        &&& msg.type_idx < templates@.len()
        &&& message_fits(
            msg.reads_idx@.map_values(|v: Vec<usize>| v@),
            msg.write_idx@,
            templates@[msg.type_idx as int].events(),
        )
        &&& self.knows_keys_of(self.message_txn(msg, templates))
    }

    /// The graph with the node that `msg` asks for, not yet linked.
    pub open spec fn enlisted(self, msg: TxnMessage, templates: Vec<Txn>) -> Graph {
        Graph { nodes: self.nodes.push(self.message_txn(msg, templates)), ..self }
    }

    /// The index has every key that the events of `n` read or write.
    pub open spec fn knows_keys_of(self, n: TxnState) -> bool {
        &&& forall|e: int, i: int|
            0 <= e < n.ev_nodes.len() && 0 <= i < n.ev_nodes[e].reads.len()
                ==> self.state_last_modify.contains_key(#[trigger] n.ev_nodes[e].reads[i])
        &&& forall|e: int|
            0 <= e < n.ev_nodes.len() && (#[trigger] n.ev_nodes[e]).has_write
                ==> self.state_last_modify.contains_key(n.ev_nodes[e].write)
    }

    /// The index has every key that the events of transaction `t` read or
    /// write.
    pub open spec fn keys_known(self, t: usize) -> bool {
        self.knows_keys_of(self.txn(t))
    }

    /// The graph after `son` was recorded as a reader of `parent`: the
    /// event joins the parent's readers, and its transaction joins the
    /// readers of the parent's transaction unless it is that transaction or
    /// is among them.
    pub open spec fn add_read_by(self, parent: EvRef, son: EvRef) -> Graph {
        let g1 = self.with_ev(
            parent,
            EvState { read_by: self.ev(parent).read_by.push(son), ..self.ev(parent) },
        );
        if parent.txn != son.txn && !g1.txn(parent.txn).read_by.contains(son.txn) {
            g1.with_txn(
                parent.txn,
                TxnState { read_by: g1.txn(parent.txn).read_by.push(son.txn), ..g1.txn(
                    parent.txn,
                ) },
            )
        } else {
            g1
        }
    }

    /// The graph after read `i` of event `r` was linked to the last writer
    /// of its key.  Where the key has one, the event reads from it, and the
    /// writer's transaction becomes the parent awaited for the key, unless
    /// it is the event's own transaction or the key has a parent.
    pub open spec fn link_read(self, r: EvRef, i: int) -> Graph {
        let key = self.ev(r).reads[i];
        match self.state_last_modify[key] {
            Some(w) => {
                let g1 = self.with_ev(
                    r,
                    EvState { read_from: self.ev(r).read_from.update(i, Some(w.0)), ..self.ev(r) },
                );
                let g2 = g1.add_read_by(w.0, r);
                let slot = g2.txn(r.txn).read_from_index_map[key] as int;
                if w.1 != r.txn && g2.txn(r.txn).read_from[slot] is None {
                    g2.with_txn(
                        r.txn,
                        TxnState {
                            read_from: g2.txn(r.txn).read_from.update(slot, Some(w.1)),
                            parents: g2.txn(r.txn).parents.push(w.1),
                            ..g2.txn(r.txn)
                        },
                    )
                } else {
                    g2
                }
            },
            None => self.with_ev(
                r,
                EvState { read_from: self.ev(r).read_from.update(i, None), ..self.ev(r) },
            ),
        }
    }

    /// The graph after the first `upto` reads of event `r` were linked.
    pub open spec fn link_reads(self, r: EvRef, upto: int) -> Graph
        decreases upto,
    {
        if upto <= 0 {
            self
        } else {
            self.link_reads(r, upto - 1).link_read(r, upto - 1)
        }
    }

    /// The graph after the write of event `r` was linked: the last writer
    /// of the key, if it is another transaction, covers and is covered, and
    /// the event becomes the last writer.
    pub open spec fn link_write(self, r: EvRef) -> Graph {
        let e = self.ev(r);
        if !e.has_write {
            self
        } else {
            let key = e.write;
            let g1 = match self.state_last_modify[key] {
                Some(w) => if w.1 != r.txn {
                    let g0 = self.with_txn(
                        r.txn,
                        TxnState { cover: self.txn(r.txn).cover.insert(key, Some(w.1)), ..self.txn(
                            r.txn,
                        ) },
                    );
                    g0.with_txn(
                        w.1,
                        TxnState {
                            covered_by: g0.txn(w.1).covered_by.insert(key, Some(r.txn)),
                            ..g0.txn(w.1)
                        },
                    )
                } else {
                    self
                },
                None => self,
            };
            Graph { state_last_modify: g1.state_last_modify.insert(key, Some((r, r.txn))), ..g1 }
        }
    }

    /// The graph after event `r` was linked: its reads, then its write.
    pub open spec fn link_event(self, r: EvRef) -> Graph {
        self.link_reads(r, self.ev(r).reads.len() as int).link_write(r)
    }

    /// The graph after the first `upto` events of transaction `t` were
    /// linked.
    pub open spec fn link_events(self, t: usize, upto: int) -> Graph
        decreases upto,
    {
        if upto <= 0 {
            self
        } else {
            self.link_events(t, upto - 1).link_event(EvRef { txn: t, idx: (upto - 1) as usize })
        }
    }

    /// The graph after transaction `t` was linked.
    pub open spec fn set_links(self, t: usize) -> Graph {
        self.link_events(t, self.txn(t).ev_nodes.len() as int)
    }

    /// Recording a reader that was made after its parent keeps the graph in
    /// order.
    pub proof fn lemma_add_read_by(self, parent: EvRef, son: EvRef)
        requires
            self.wf(),
            self.has_ev(parent),
            self.has_ev(son),
            before(parent, son),
        ensures
            self.add_read_by(parent, son).wf(),
            self.add_read_by(parent, son).same_frame(self),
    {
        let e1 = EvState { read_by: self.ev(parent).read_by.push(son), ..self.ev(parent) };
        let g1 = self.with_ev(parent, e1);
        assert(self.txn_ok(parent.txn));
        assert(self.ev_ok(parent));
        self.lemma_with_ev(parent, e1);
        if parent.txn != son.txn && !g1.txn(parent.txn).read_by.contains(son.txn) {
            let n2 = TxnState {
                read_by: g1.txn(parent.txn).read_by.push(son.txn),
                ..g1.txn(parent.txn)
            };
            assert(g1.txn_ok(parent.txn));
            g1.lemma_with_txn(parent.txn, n2);
            g1.with_txn(parent.txn, n2).lemma_same_keys_trans(g1, self);
        }
    }

    /// Linking a read of an event of the newest transaction keeps the graph
    /// in order.
    pub proof fn lemma_link_read(self, r: EvRef, i: int)
        requires
            self.wf(),
            self.has_ev(r),
            self.newest(r.txn),
            self.index_behind(r),
            0 <= i < self.ev(r).reads.len(),
            self.state_last_modify.contains_key(self.ev(r).reads[i]),
        ensures
            self.link_read(r, i).wf(),
            self.link_read(r, i).same_frame(self),
    {
        let key = self.ev(r).reads[i];
        assert(self.txn_ok(r.txn));
        assert(self.ev_ok(r));
        match self.state_last_modify[key] {
            Some(w) => {
                let e1 = EvState {
                    read_from: self.ev(r).read_from.update(i, Some(w.0)),
                    ..self.ev(r)
                };
                let g1 = self.with_ev(r, e1);
                self.lemma_with_ev(r, e1);
                g1.lemma_add_read_by(w.0, r);
                let g2 = g1.add_read_by(w.0, r);
                g2.lemma_same_keys_trans(g1, self);
                let slot = g2.txn(r.txn).read_from_index_map[key] as int;
                if w.1 != r.txn && g2.txn(r.txn).read_from[slot] is None {
                    let n3 = TxnState {
                        read_from: g2.txn(r.txn).read_from.update(slot, Some(w.1)),
                        parents: g2.txn(r.txn).parents.push(w.1),
                        ..g2.txn(r.txn)
                    };
                    assert(g2.txn_ok(r.txn));
                    assert(g2.nodes[r.txn as int].same_keys(self.nodes[r.txn as int]));
                    assert(g2.txn(r.txn).ev_nodes[r.idx as int].reads[i] == key);
                    g2.lemma_with_txn(r.txn, n3);
                    g2.with_txn(r.txn, n3).lemma_same_keys_trans(g2, self);
                }
            },
            None => {
                let e1 = EvState { read_from: self.ev(r).read_from.update(i, None), ..self.ev(r) };
                self.lemma_with_ev(r, e1);
            },
        }
    }

    /// Linking the write of an event of the newest transaction keeps the
    /// graph in order, and makes the event the last writer of its key.
    pub proof fn lemma_link_write(self, r: EvRef)
        requires
            self.wf(),
            self.has_ev(r),
            self.newest(r.txn),
            self.index_behind(r),
            self.ev(r).has_write ==> self.state_last_modify.contains_key(self.ev(r).write),
        ensures
            self.link_write(r).wf(),
            self.link_write(r).same_keys(self),
            self.link_write(r).ready_queue == self.ready_queue,
            forall|next: EvRef|
                next.txn == r.txn && next.idx > r.idx ==> self.link_write(r).index_behind(next),
    {
        let e = self.ev(r);
        assert(self.txn_ok(r.txn));
        assert(self.ev_ok(r));
        if e.has_write {
            let key = e.write;
            let g1 = match self.state_last_modify[key] {
                Some(w) => if w.1 != r.txn {
                    let n0 = TxnState {
                        cover: self.txn(r.txn).cover.insert(key, Some(w.1)),
                        ..self.txn(r.txn)
                    };
                    assert(self.txn(r.txn).ev_nodes[r.idx as int].has_write);
                    assert(n0.writes(key));
                    self.lemma_with_txn(r.txn, n0);
                    let g0 = self.with_txn(r.txn, n0);
                    let n1 = TxnState {
                        covered_by: g0.txn(w.1).covered_by.insert(key, Some(r.txn)),
                        ..g0.txn(w.1)
                    };
                    assert(g0.txn_ok(w.1));
                    assert(g0.ev(w.0).has_write && g0.ev(w.0).write == key);
                    assert(g0.txn(w.1).ev_nodes[w.0.idx as int].has_write);
                    assert(n1.writes(key));
                    g0.lemma_with_txn(w.1, n1);
                    g0.with_txn(w.1, n1).lemma_same_keys_trans(g0, self);
                    g0.with_txn(w.1, n1)
                } else {
                    self
                },
                None => self,
            };
            let g2 = self.link_write(r);
            assert(g2.state_last_modify.dom() =~= self.state_last_modify.dom());
            assert forall|t: usize| t < g2.nodes.len() implies #[trigger] g2.txn_ok(t) by {
                assert(g1.txn_ok(t));
                assert forall|x: usize| x < g2.txn(t).ev_nodes.len() implies #[trigger] g2.ev_ok(
                    EvRef { txn: t, idx: x },
                ) by {
                    assert(g1.ev_ok(EvRef { txn: t, idx: x }));
                }
            }
            assert(g1.nodes[r.txn as int].same_keys(self.nodes[r.txn as int]));
        }
    }
}

} // verus!
