use crate::ds::transactions::Txn;
use crate::external::ffi::TxnMessage;
use crate::tpg::model::{accepted_total, EvRef, EvState, EventStatus, Graph, TxnState, TxnStatus};
use vstd::prelude::*;

verus! {

impl TxnState {
    /// A transaction that has not committed has something to wait for.
    /// While it waits, one of its events is unfinished or one of its
    /// parents is awaited; once it is aborted, none of its events counts
    /// any more, and one of its parents is awaited.  A waiting transaction
    /// without events is left out: nothing would ever make it commit.
    pub open spec fn driven(self) -> bool {
        &&& self.status == TxnStatus::WAITING ==> self.unfinished_events > 0 || !self.no_waiting()
            || self.ev_nodes.len() == 0
        &&& self.status == TxnStatus::ABORTED ==> self.unfinished_events == 0
            && !self.no_waiting()
    }
}

impl Graph {
    /// Every transaction that has not committed has something to wait for.
    pub open spec fn all_driven(self) -> bool {
        forall|t: int| 0 <= t < self.nodes.len() ==> (#[trigger] self.nodes[t]).driven()
    }

    /// Every transaction but `x` that has not committed has something to
    /// wait for; if `x` is aborted, none of its events counts any more.
    pub open spec fn driven_but(self, x: usize) -> bool {
        &&& forall|t: int|
            0 <= t < self.nodes.len() && t != x ==> (#[trigger] self.nodes[t]).driven()
        &&& self.has_txn(x) && self.txn(x).status == TxnStatus::ABORTED ==> self.txn(
            x,
        ).unfinished_events == 0
    }

    /// Each transaction that has something to wait for in `self`, or has
    /// committed, is so in `after`; and a transaction that is aborted in
    /// both counts no more events in `after` than in `self`.
    pub open spec fn drives(self, after: Graph) -> bool {
        &&& after.nodes.len() == self.nodes.len()
        &&& forall|t: int|
            0 <= t < self.nodes.len() ==> {
                &&& (#[trigger] self.nodes[t]).driven() ==> after.nodes[t].driven()
                &&& after.nodes[t].status == self.nodes[t].status
                &&& self.nodes[t].status == TxnStatus::ABORTED ==> after.nodes[t].unfinished_events
                    == self.nodes[t].unfinished_events
            }
    }

    /// Driving is transitive.
    pub proof fn lemma_drives_trans(self, mid: Graph, last: Graph)
        requires
            self.drives(mid),
            mid.drives(last),
        ensures
            self.drives(last),
    {
        assert forall|t: int| 0 <= t < self.nodes.len() implies {
            &&& (#[trigger] self.nodes[t]).driven() ==> last.nodes[t].driven()
            &&& last.nodes[t].status == self.nodes[t].status
            &&& self.nodes[t].status == TxnStatus::ABORTED ==> last.nodes[t].unfinished_events
                == self.nodes[t].unfinished_events
        } by {
            assert(mid.nodes[t].status == self.nodes[t].status);
            assert(last.nodes[t].status == mid.nodes[t].status);
        }
    }

    /// What drives keeps everything driven.
    pub proof fn lemma_driven_kept(self, after: Graph)
        requires
            self.drives(after),
        ensures
            self.all_driven() ==> after.all_driven(),
            forall|x: usize| self.driven_but(x) ==> after.driven_but(x),
    {
        if self.all_driven() {
            assert forall|t: int| 0 <= t < after.nodes.len() implies (
            #[trigger] after.nodes[t]).driven() by {
                assert(self.nodes[t].driven());
            }
        }
        assert forall|x: usize| self.driven_but(x) implies after.driven_but(x) by {
            assert forall|t: int| 0 <= t < after.nodes.len() && t != x implies (
            #[trigger] after.nodes[t]).driven() by {
                assert(self.nodes[t].driven());
            }
            if after.has_txn(x) {
                assert(after.nodes[x as int].status == self.nodes[x as int].status);
            }
        }
    }

    /// A change of an event drives the graph.
    pub proof fn lemma_drives_with_ev(self, r: EvRef, e: EvState)
        requires
            self.has_ev(r),
        ensures
            self.drives(self.with_ev(r, e)),
    {
    }

    /// Taking back an acceptance drives the graph: the event counts again.
    pub proof fn lemma_drives_reset_accept(self, r: EvRef)
        requires
            self.has_ev(r),
        ensures
            self.drives(self.reset_accept(r).0),
    {
    }

    /// Visiting a reader drives the graph.
    pub proof fn lemma_drives_visit_child(self, parent: EvRef, son: EvRef)
        requires
            self.has_ev(son),
        ensures
            self.drives(self.visit_child(parent, son).0),
    {
        let e = self.ev(son);
        if !self.txn(son.txn).dropped && e.status == EventStatus::ACCEPTED {
            let g1 = self.reset_accept(son).0;
            self.lemma_drives_reset_accept(son);
            g1.lemma_drives_with_ev(son, g1.ev(son).with_flags_of(parent, false));
            self.lemma_drives_trans(g1, self.visit_child(parent, son).0);
        }
    }

    /// Visiting the readers of an event drives the graph.
    pub proof fn lemma_drives_visit_children(self, parent: EvRef, children: Seq<EvRef>, j: int)
        ensures
            self.drives(self.visit_children(parent, children, j).0),
        decreases children.len() - j,
    {
        if 0 <= j < children.len() {
            if self.has_ev(children[j]) {
                self.lemma_drives_visit_child(parent, children[j]);
                let v = self.visit_child(parent, children[j]);
                v.0.lemma_drives_visit_children(parent, children, j + 1);
                self.lemma_drives_trans(v.0, v.0.visit_children(parent, children, j + 1).0);
            } else {
                self.lemma_drives_visit_children(parent, children, j + 1);
            }
        }
    }

    /// A rollback drives the graph.
    pub proof fn lemma_drives_cascade(self, stack: Seq<EvRef>, fuel: nat)
        ensures
            self.drives(self.cascade(stack, fuel).0),
        decreases fuel, stack.len(),
    {
        if stack.len() == 0 {
        } else if !self.has_ev(stack.last()) {
            self.lemma_drives_cascade(stack.drop_last(), fuel);
        } else {
            let children = self.ev(stack.last()).read_by;
            let v = self.visit_children(stack.last(), children, 0);
            self.lemma_drives_visit_children(stack.last(), children, 0);
            if v.1.len() <= fuel {
                let rest = stack.drop_last() + v.1;
                v.0.lemma_drives_cascade(rest, (fuel - v.1.len()) as nat);
                self.lemma_drives_trans(v.0, v.0.cascade(rest, (fuel - v.1.len()) as nat).0);
            }
        }
    }

    /// Aborting an event drives the graph.
    pub proof fn lemma_drives_abort_event(self, r: EvRef)
        requires
            self.wf(),
            self.has_ev(r),
        ensures
            self.drives(self.abort_event(r).0),
    {
        let e = self.ev(r);
        if e.status != EventStatus::ABORTED {
            let g1 = self.with_ev(r, e.with_status(EventStatus::ABORTED));
            self.lemma_restate(r, e.with_status(EventStatus::ABORTED));
            g1.lemma_drives_cascade(seq![r], accepted_total(g1.nodes));
            g1.lemma_cascade(seq![r], accepted_total(g1.nodes));
            let c = g1.cascade(seq![r], accepted_total(g1.nodes));
            self.lemma_drives_trans(g1, c.0);
            assert(c.0.nodes[r.txn as int].same_keys(g1.nodes[r.txn as int]));
            assert(c.0.has_ev(r));
            c.0.lemma_drives_with_ev(r, EvState { has_storage_slot: true, ..c.0.ev(r) });
            self.lemma_drives_trans(c.0, self.abort_event(r).0);
        }
    }

    /// Aborting the events of a transaction drives the graph.
    pub proof fn lemma_drives_abort_events(self, t: usize, j: int, count: int)
        requires
            self.wf(),
            self.has_txn(t),
            count <= self.txn(t).ev_nodes.len(),
        ensures
            self.drives(self.abort_events(t, j, count).0),
        decreases count - j,
    {
        if 0 <= j < count {
            let r = EvRef { txn: t, idx: j as usize };
            self.lemma_drives_abort_event(r);
            self.lemma_abort_event(r);
            let a = self.abort_event(r);
            assert(a.0.nodes[t as int].same_keys(self.nodes[t as int]));
            a.0.lemma_drives_abort_events(t, j + 1, count);
            self.lemma_drives_trans(a.0, a.0.abort_events(t, j + 1, count).0);
        }
    }

    /// An attempt to commit a transaction leaves every transaction driven,
    /// where every other one was.
    pub proof fn lemma_driven_try_commit(self, t: usize, bound: nat)
        requires
            self.wf(),
            self.has_txn(t),
            self.driven_but(t),
        ensures
            self.try_commit_within(t, bound).0.all_driven(),
        decreases bound - t, 1nat, 0nat,
    {
        if self.can_commit(t) {
            let g1 = self.commit_self(t);
            self.lemma_commit_self(t);
            assert forall|u: int| 0 <= u < g1.nodes.len() implies (#[trigger] g1.nodes[u]).driven() by {
                if u != t {
                    assert(self.nodes[u].driven());
                }
            }
            g1.lemma_driven_commit_children(t, g1.txn(t).read_by, 0, bound);
        } else {
            assert forall|u: int| 0 <= u < self.nodes.len() implies (
            #[trigger] self.nodes[u]).driven() by {
                if u != t {
                } else {
                    assert(self.txn_ok(t));
                }
            }
        }
    }

    /// Telling the readers of a committed transaction leaves every
    /// transaction driven.
    pub proof fn lemma_driven_commit_children(
        self,
        t: usize,
        children: Seq<usize>,
        j: int,
        bound: nat,
    )
        requires
            self.wf(),
            self.has_txn(t),
            self.all_driven(),
        ensures
            self.commit_children(t, children, j, bound).0.all_driven(),
        decreases bound - t, 0nat, children.len() - j,
    {
        if 0 <= j < children.len() {
            let c = children[j];
            if t < c && c < bound && self.has_txn(c) {
                let g1 = self.father_committed(c, t);
                self.lemma_father_committed(c, t);
                assert(g1.driven_but(c)) by {
                    assert forall|u: int| 0 <= u < g1.nodes.len() && u != c implies (
                    #[trigger] g1.nodes[u]).driven() by {
                        assert(self.nodes[u].driven());
                    }
                    assert(self.nodes[c as int].driven());
                }
                g1.lemma_driven_try_commit(c, bound);
                g1.lemma_try_commit(c, bound);
                let sub = g1.try_commit_within(c, bound);
                sub.0.lemma_driven_commit_children(t, children, j + 1, bound);
            } else {
                self.lemma_driven_commit_children(t, children, j + 1, bound);
            }
        }
    }

    /// Accepting the result of an event leaves every transaction driven.
    pub proof fn lemma_driven_accept(self, r: EvRef)
        requires
            self.wf(),
            self.has_ev(r),
            self.all_driven(),
        ensures
            self.accept(r).0.all_driven(),
    {
        let e = self.ev(r);
        if e.status == EventStatus::CLAIMED {
            let e1 = e.with_status(EventStatus::ACCEPTED);
            let g1 = self.with_ev(r, e1);
            self.lemma_restate(r, e1);
            let n = g1.txn(r.txn);
            let n2 = TxnState {
                unfinished_events: if n.unfinished_events > 0 {
                    (n.unfinished_events - 1) as u16
                } else {
                    0
                },
                ..n
            };
            let g2 = g1.with_txn(r.txn, n2);
            g1.lemma_recount(r.txn, n2);
            assert(self.nodes[r.txn as int].driven());
            assert(g2.driven_but(r.txn)) by {
                assert forall|u: int| 0 <= u < g2.nodes.len() && u != r.txn implies (
                #[trigger] g2.nodes[u]).driven() by {
                    assert(self.nodes[u].driven());
                }
            }
            if g2.txn(r.txn).unfinished_events == 0 {
                g2.lemma_driven_try_commit(r.txn, g2.nodes.len());
            } else {
                assert forall|u: int| 0 <= u < g2.nodes.len() implies (
                #[trigger] g2.nodes[u]).driven() by {
                    if u != r.txn {
                        assert(self.nodes[u].driven());
                    }
                }
            }
        }
    }

    /// Aborting a transaction leaves every transaction driven.
    pub proof fn lemma_driven_abort_txn(self, t: usize)
        requires
            self.wf(),
            self.has_txn(t),
            self.all_driven(),
        ensures
            self.abort_txn(t).0.all_driven(),
    {
        let n = self.txn(t);
        if n.status == TxnStatus::WAITING {
            let n1 = TxnState { status: TxnStatus::ABORTED, ..n };
            let g1 = self.with_txn(t, n1);
            self.lemma_recount(t, n1);
            let count = n.ev_nodes.len() as int;
            g1.lemma_drives_abort_events(t, 0, count);
            g1.lemma_abort_events(t, 0, count);
            let a = g1.abort_events(t, 0, count);
            let n2 = TxnState { unfinished_events: 0, ..a.0.txn(t) };
            let g2 = a.0.with_txn(t, n2);
            a.0.lemma_recount(t, n2);
            assert(g2.driven_but(t)) by {
                assert forall|u: int| 0 <= u < g2.nodes.len() && u != t implies (
                #[trigger] g2.nodes[u]).driven() by {
                    assert(self.nodes[u].driven());
                    assert(g1.nodes[u].driven());
                    assert(a.0.nodes[u].driven());
                }
            }
            g2.lemma_driven_try_commit(t, g2.nodes.len());
        }
    }

    /// Telling the readers that an event has delivered drives the graph.
    pub proof fn lemma_drives_tell_readers(self, r: EvRef, children: Seq<EvRef>, j: int)
        ensures
            self.drives(self.tell_readers(r, children, j)),
        decreases children.len() - j,
    {
        if 0 <= j < children.len() {
            if self.has_ev(children[j]) {
                let g1 = self.with_ev(children[j], self.ev(children[j]).with_flags_of(r, true));
                g1.lemma_drives_tell_readers(r, children, j + 1);
                self.lemma_drives_trans(g1, g1.tell_readers(r, children, j + 1));
            } else {
                self.lemma_drives_tell_readers(r, children, j + 1);
            }
        }
    }

    /// Handing the others to the queue drives the graph.
    pub proof fn lemma_drives_requeue_others(self, children: Seq<EvRef>, chosen: int, j: int)
        ensures
            self.drives(self.requeue_others(children, chosen, j)),
        decreases children.len() - j,
    {
        if 0 <= j < children.len() {
            if j != chosen && self.ready_at(children, j) && self.ev(children[j]).status
                == EventStatus::WAITING {
                let g1 = self.with_ev(
                    children[j],
                    self.ev(children[j]).with_status(EventStatus::INQUEUE),
                );
                let g2 = Graph { ready_queue: g1.ready_queue.push(children[j]), ..g1 };
                g2.lemma_drives_requeue_others(children, chosen, j + 1);
                self.lemma_drives_trans(g2, g2.requeue_others(children, chosen, j + 1));
            } else {
                self.lemma_drives_requeue_others(children, chosen, j + 1);
            }
        }
    }

    /// What follows a delivery drives the graph.
    pub proof fn lemma_drives_get_next(self, r: EvRef)
        requires
            self.wf(),
            self.has_ev(r),
        ensures
            self.drives(self.get_next(r).0),
    {
        let children = self.ev(r).read_by;
        self.lemma_drives_tell_readers(r, children, 0);
        self.lemma_tell_readers(r, children, 0);
        let g1 = self.tell_readers(r, children, 0);
        g1.lemma_best_ready(children, children.len() as int);
        match g1.best_ready(children, children.len() as int) {
            None => {},
            Some(m) => {
                g1.lemma_drives_requeue_others(children, m, 0);
                g1.lemma_requeue_others(children, m, 0);
                let g2 = g1.requeue_others(children, m, 0);
                self.lemma_drives_trans(g1, g2);
                let c = children[m];
                assert(g1.has_ev(c));
                assert(g2.nodes[c.txn as int].same_keys(g1.nodes[c.txn as int]));
                if g2.ev(c).status == EventStatus::WAITING {
                    self.lemma_drives_trans(g2, self.get_next(r).0);
                }
            },
        }
    }

    /// Following up the events of a transaction drives the graph.
    pub proof fn lemma_drives_follow_up(self, t: usize, j: int, count: int)
        requires
            self.wf(),
            self.has_txn(t),
            count <= self.txn(t).ev_nodes.len(),
        ensures
            self.drives(self.follow_up(t, j, count).0),
        decreases count - j,
    {
        if 0 <= j < count {
            let r = EvRef { txn: t, idx: j as usize };
            self.lemma_get_next(r);
            self.lemma_drives_get_next(r);
            let n = self.get_next(r);
            assert(n.0.nodes[t as int].same_keys(self.nodes[t as int]));
            n.0.lemma_drives_follow_up(t, j + 1, count);
            self.lemma_drives_trans(n.0, n.0.follow_up(t, j + 1, count).0);
        }
    }

    /// A pass that releases what can be released drives the graph.
    pub proof fn lemma_drives_sweep(self, upto: int)
        requires
            upto <= self.nodes.len(),
        ensures
            self.drives(self.sweep(upto).0),
        decreases upto,
    {
        if upto > 0 {
            self.lemma_drives_sweep(upto - 1);
            let s = self.sweep(upto - 1);
            if s.0.droppable((upto - 1) as usize) {
                self.lemma_drives_trans(s.0, s.0.release((upto - 1) as usize).0);
            }
        }
    }

    /// Starting and offering the events of a transaction drives the graph.
    pub proof fn lemma_drives_launch(self, t: usize, j: int, count: int)
        requires
            self.has_txn(t),
            count <= self.txn(t).ev_nodes.len(),
        ensures
            self.drives(self.launch(t, j, count).0),
        decreases count - j,
    {
        if 0 <= j < count {
            let r = EvRef { txn: t, idx: j as usize };
            let g1 = self.start_event(r);
            let g2 = g1.offer(r).0;
            self.lemma_drives_trans(g1, g2);
            g2.lemma_drives_launch(t, j + 1, count);
            self.lemma_drives_trans(g2, g2.launch(t, j + 1, count).0);
        }
    }

    /// Linking a read drives the graph: it may give the transaction a
    /// parent to wait for.
    pub proof fn lemma_drives_link_read(self, r: EvRef, i: int)
        requires
            self.wf(),
            self.has_ev(r),
            self.txn(r.txn).status == TxnStatus::WAITING,
            0 <= i < self.ev(r).reads.len(),
            self.state_last_modify.contains_key(self.ev(r).reads[i]),
        ensures
            self.drives(self.link_read(r, i)),
    {
        let key = self.ev(r).reads[i];
        assert(self.txn_ok(r.txn));
        assert(self.ev_ok(r));
        match self.state_last_modify[key] {
            Some(w) => {
                let g1 = self.with_ev(
                    r,
                    EvState { read_from: self.ev(r).read_from.update(i, Some(w.0)), ..self.ev(r) },
                );
                assert(self.has_ev(w.0));
                let g2 = g1.add_read_by(w.0, r);
                self.lemma_drives_trans(g1, g2);
                let slot = g2.txn(r.txn).read_from_index_map[key] as int;
                if w.1 != r.txn && g2.txn(r.txn).read_from[slot] is None {
                    let g3 = self.link_read(r, i);
                    assert(0 <= slot < g2.txn(r.txn).read_from.len());
                    assert(g3.txn(r.txn).read_from[slot] is Some);
                    assert(!g3.txn(r.txn).no_waiting());
                    assert(g2.drives(g3));
                    self.lemma_drives_trans(g2, g3);
                }
            },
            None => {},
        }
    }

    /// Linking the events of a transaction drives the graph.
    pub proof fn lemma_drives_link_events(self, t: usize, upto: int)
        requires
            self.linkable(t, 0),
            0 <= upto <= self.txn(t).ev_nodes.len(),
        ensures
            self.drives(self.link_events(t, upto)),
        decreases upto,
    {
        if upto > 0 {
            self.lemma_drives_link_events(t, upto - 1);
            self.lemma_linking_events(t, upto - 1);
            let g1 = self.link_events(t, upto - 1);
            let r = EvRef { txn: t, idx: (upto - 1) as usize };
            assert(g1.nodes[t as int].same_keys(self.nodes[t as int]));
            assert(g1.txn_ok(t));
            let count = g1.ev(r).reads.len() as int;
            g1.lemma_drives_link_reads(r, count);
            g1.lemma_linking_reads(r, count);
            let g2 = g1.link_reads(r, count);
            assert(g2.nodes[t as int].same_keys(g1.nodes[t as int]));
            assert(self.txn(t).ev_nodes[upto - 1].has_write
                ==> self.state_last_modify.contains_key(self.txn(t).ev_nodes[upto - 1].write));
            g2.lemma_drives_link_write(r);
            g1.lemma_drives_trans(g2, g2.link_write(r));
            self.lemma_drives_trans(g1, g1.link_event(r));
        }
    }

    /// Linking the reads of an event drives the graph.
    pub proof fn lemma_drives_link_reads(self, r: EvRef, upto: int)
        requires
            self.linkable(r.txn, r.idx),
            self.has_ev(r),
            0 <= upto <= self.ev(r).reads.len(),
        ensures
            self.drives(self.link_reads(r, upto)),
        decreases upto,
    {
        if upto > 0 {
            self.lemma_drives_link_reads(r, upto - 1);
            self.lemma_linking_reads(r, upto - 1);
            let g1 = self.link_reads(r, upto - 1);
            assert(g1.nodes[r.txn as int].same_keys(self.nodes[r.txn as int]));
            assert(self.state_last_modify.contains_key(
                self.txn(r.txn).ev_nodes[r.idx as int].reads[upto - 1],
            ));
            g1.lemma_drives_link_read(r, upto - 1);
            self.lemma_drives_trans(g1, g1.link_read(r, upto - 1));
        }
    }

    /// Linking the write of an event drives the graph.
    pub proof fn lemma_drives_link_write(self, r: EvRef)
        requires
            self.wf(),
            self.has_ev(r),
            self.ev(r).has_write ==> self.state_last_modify.contains_key(self.ev(r).write),
        ensures
            self.drives(self.link_write(r)),
    {
        let e = self.ev(r);
        if e.has_write {
            match self.state_last_modify[e.write] {
                Some(w) => {
                    assert(self.has_ev(w.0));
                },
                None => {},
            }
        }
    }

    /// What the construct thread makes of a request leaves every
    /// transaction driven.
    pub proof fn lemma_driven_construct(self, msg: TxnMessage, templates: Vec<Txn>)
        requires
            self.wf(),
            self.sound(),
            self.all_driven(),
            self.nodes.len() < usize::MAX,
        ensures
            self.construct(msg, templates).0.all_driven(),
    {
        if self.accepts(msg, templates) {
            let t = self.nodes.len() as usize;
            let g0 = self.enlisted(msg, templates);
            let fresh = self.message_txn(msg, templates);
            self.lemma_enlisted(msg, templates);
            self.lemma_sound_enlisted(msg, templates);
            assert forall|u: int| 0 <= u < g0.nodes.len() implies (#[trigger] g0.nodes[u]).driven() by {
                if u < t {
                    assert(self.nodes[u].driven());
                } else {
                    assert(g0.nodes[u] == fresh);
                }
            }
            let count = g0.txn(t).ev_nodes.len() as int;
            g0.lemma_drives_link_events(t, count);
            g0.lemma_linking_events(t, count);
            let g1 = g0.set_links(t);
            g0.lemma_driven_kept(g1);
            assert(g1.nodes[t as int].same_keys(g0.nodes[t as int]));
            g1.lemma_drives_launch(t, 0, g1.txn(t).ev_nodes.len() as int);
            g1.lemma_driven_kept(g1.launch(t, 0, g1.txn(t).ev_nodes.len() as int).0);
        }
    }

    /// Taking the word that the executor has completed an event leaves
    /// every transaction driven.
    pub proof fn lemma_driven_complete(self, r: EvRef, value: Seq<u8>)
        requires
            self.wf(),
            self.has_ev(r),
            self.all_driven(),
        ensures
            self.complete(r, value).1.all_driven(),
    {
        let a = self.accept(r);
        if !self.txn(r.txn).dropped && a.1 {
            self.lemma_accept(r);
            self.lemma_driven_accept(r);
            assert(a.0.nodes[r.txn as int].same_keys(self.nodes[r.txn as int]));
            a.0.lemma_restate(
                r,
                EvState { has_storage_slot: true, written: value, ..a.0.ev(r) },
            );
            let w = a.0.write_back(r, value);
            a.0.lemma_driven_kept(w.0);
            assert(w.0.nodes[r.txn as int].same_keys(a.0.nodes[r.txn as int]));
            w.0.lemma_drives_get_next(r);
            let n = w.0.get_next(r);
            w.0.lemma_driven_kept(n.0);
            n.0.lemma_drives_sweep(n.0.nodes.len() as int);
            n.0.lemma_driven_kept(n.0.collect().0);
        }
    }

    /// Taking the word that the executor has aborted an event leaves every
    /// transaction driven.
    pub proof fn lemma_driven_fail(self, r: EvRef)
        requires
            self.wf(),
            self.has_ev(r),
            self.all_driven(),
        ensures
            self.fail(r).0.all_driven(),
    {
        self.lemma_abort_txn(r.txn);
        self.lemma_driven_abort_txn(r.txn);
        let a = self.abort_txn(r.txn);
        assert(a.0.nodes[r.txn as int].same_keys(self.nodes[r.txn as int]));
        let count = a.0.txn(r.txn).ev_nodes.len() as int;
        a.0.lemma_drives_follow_up(r.txn, 0, count);
        a.0.lemma_follow_up(r.txn, 0, count);
        let n = a.0.follow_up(r.txn, 0, count);
        a.0.lemma_driven_kept(n.0);
        n.0.lemma_drives_sweep(n.0.nodes.len() as int);
        n.0.lemma_driven_kept(n.0.collect().0);
    }

    /// No transaction is forgotten.  A transaction that waits has an event
    /// that is not finished or a parent that has not committed, as long as
    /// it has events at all; and a transaction that is aborted awaits a
    /// parent.  Whatever has neither has committed.
    pub proof fn lemma_nothing_left_behind(self, t: usize)
        requires
            self.all_driven(),
            self.has_txn(t),
            self.txn(t).ev_nodes.len() > 0,
            self.txn(t).no_waiting(),
            self.txn(t).unfinished_events == 0,
        ensures
            self.txn(t).status == TxnStatus::COMMITED,
    {
        assert(self.nodes[t as int].driven());
    }
}

} // verus!
