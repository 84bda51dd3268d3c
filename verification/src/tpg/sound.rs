use crate::tpg::model::{
    accepted_total, last_writer, lemma_unaccepted_bound, lemma_unaccepted_update, unaccepted,
    EvRef, EvState, EventStatus, Graph, TxnState, TxnStatus,
};
use vstd::prelude::*;

verus! {

impl TxnState {
    /// While the transaction waits, its counter is the number of events
    /// that are not accepted.
    pub open spec fn counted(self) -> bool {
        self.status == TxnStatus::WAITING ==> self.unfinished_events == unaccepted(self.ev_nodes)
    }

    /// The two transactions differ at most in their events, in the counter
    /// of unfinished events and in their readers.
    pub open spec fn same_links(self, other: TxnState) -> bool {
        self == (TxnState {
            ev_nodes: self.ev_nodes,
            unfinished_events: self.unfinished_events,
            read_by: self.read_by,
            ..other
        })
    }
}

impl Graph {
    /// What holds of transaction `t` between any two steps of the engine.
    ///
    /// While it waits, its counter is right.  Once it has committed, it
    /// awaits no parent and covers no writer.  It is released only after it
    /// has committed.  Each parent that it ever awaited is still awaited or
    /// has committed.  Each writer that it covers was the last writer when
    /// the link was made.  And each transaction that wrote one of its keys
    /// next still covers it or has committed.
    pub open spec fn settled(self, t: usize) -> bool {
        let n = self.txn(t);
        &&& n.counted()
        &&& n.status == TxnStatus::COMMITED ==> n.no_waiting() && n.cover_cleared()
        &&& n.dropped ==> n.status == TxnStatus::COMMITED
        &&& forall|i: int|
            0 <= i < n.parents.len() ==> (#[trigger] n.parents[i]) < t && (n.waits_for(n.parents[i])
                || self.txn(n.parents[i]).status == TxnStatus::COMMITED)
        &&& forall|k: Seq<char>| #[trigger]
            n.cover.contains_key(k) && n.cover[k] is Some ==> self.state_last_modify.contains_key(k)
                && (last_writer(self.state_last_modify[k]) matches Some(x) ==> x >= t)
        &&& forall|k: Seq<char>| #[trigger]
            n.covered_by.contains_key(k) ==> (n.covered_by[k] matches Some(c) ==> c
                < self.nodes.len() && ((self.txn(c).cover.contains_key(k) && self.txn(c).cover[k]
                == Some(t)) || self.txn(c).status == TxnStatus::COMMITED))
    }

    /// What holds of the graph between any two steps of the engine.
    pub open spec fn sound(self) -> bool {
        &&& self.nodes.len() <= usize::MAX
        &&& forall|t: usize| t < self.nodes.len() ==> #[trigger] self.settled(t)
    }

    /// Every transaction that has committed in `self` has committed in
    /// `later`.
    pub open spec fn committed_stay(self, later: Graph) -> bool {
        forall|t: int|
            0 <= t < self.nodes.len() && (#[trigger] self.nodes[t]).status == TxnStatus::COMMITED
                ==> later.nodes[t].status == TxnStatus::COMMITED
    }

    /// The two graphs have the same links, states and index: they differ
    /// at most in the events, the counters and the queue.
    pub open spec fn links_kept(self, after: Graph) -> bool {
        &&& after.nodes.len() == self.nodes.len()
        &&& after.state_last_modify == self.state_last_modify
        &&& forall|t: int|
            0 <= t < self.nodes.len() ==> (#[trigger] after.nodes[t]).same_links(self.nodes[t])
    }

    /// Every counter is right.
    pub open spec fn all_counted(self) -> bool {
        forall|t: int| 0 <= t < self.nodes.len() ==> (#[trigger] self.nodes[t]).counted()
    }

    /// Keeping the links is transitive.
    pub proof fn lemma_links_kept_trans(self, mid: Graph, last: Graph)
        requires
            self.links_kept(mid),
            mid.links_kept(last),
        ensures
            self.links_kept(last),
    {
        assert forall|t: int| 0 <= t < self.nodes.len() implies (#[trigger] last.nodes[t]).same_links(
            self.nodes[t],
        ) by {
            assert(mid.nodes[t].same_links(self.nodes[t]));
            assert(last.nodes[t].same_links(mid.nodes[t]));
        }
    }

    /// A change of events and counters that leaves every counter right
    /// keeps the graph sound.
    pub proof fn lemma_sound_events(self, after: Graph)
        requires
            self.sound(),
            self.links_kept(after),
            after.all_counted(),
        ensures
            after.sound(),
            self.committed_stay(after),
    {
        assert forall|t: usize| t < after.nodes.len() implies #[trigger] after.settled(t) by {
            assert(self.settled(t));
            let n = after.txn(t);
            let o = self.txn(t);
            assert(after.nodes[t as int].same_links(self.nodes[t as int]));
            assert(after.nodes[t as int].counted());
            assert forall|i: int| 0 <= i < n.parents.len() implies (#[trigger] n.parents[i]) < t
                && (n.waits_for(n.parents[i]) || after.txn(n.parents[i]).status
                == TxnStatus::COMMITED) by {
                assert(o.parents[i] < t);
                assert(after.nodes[n.parents[i] as int].same_links(self.nodes[n.parents[i] as int]));
            }
            assert forall|k: Seq<char>| #[trigger] n.covered_by.contains_key(k) implies (
            n.covered_by[k] matches Some(c) ==> c < after.nodes.len() && ((after.txn(
                c,
            ).cover.contains_key(k) && after.txn(c).cover[k] == Some(t)) || after.txn(c).status
                == TxnStatus::COMMITED)) by {
                assert(o.covered_by.contains_key(k));
                match n.covered_by[k] {
                    Some(c) => {
                        assert(after.nodes[c as int].same_links(self.nodes[c as int]));
                    },
                    None => {},
                }
            }
        }
        assert forall|t: int|
            0 <= t < self.nodes.len() && (#[trigger] self.nodes[t]).status
                == TxnStatus::COMMITED implies after.nodes[t].status == TxnStatus::COMMITED by {
            assert(after.nodes[t].same_links(self.nodes[t]));
        }
    }

    /// A change of an event that does not make or unmake its acceptance,
    /// or whose transaction does not wait, keeps the graph sound.
    pub proof fn lemma_sound_restate(self, r: EvRef, e: EvState)
        requires
            self.sound(),
            self.has_ev(r),
            (e.status == EventStatus::ACCEPTED) == (self.ev(r).status == EventStatus::ACCEPTED)
                || self.txn(r.txn).status != TxnStatus::WAITING,
        ensures
            self.with_ev(r, e).sound(),
            self.links_kept(self.with_ev(r, e)),
    {
        let after = self.with_ev(r, e);
        assert forall|t: int| 0 <= t < self.nodes.len() implies (#[trigger] after.nodes[t]).same_links(
            self.nodes[t],
        ) && after.nodes[t].counted() by {
            assert(self.settled(t as usize));
            if t == r.txn {
                lemma_unaccepted_update(self.nodes[t].ev_nodes, r.idx as int, e);
            }
        }
        self.lemma_sound_events(after);
    }

    /// A change of the queue keeps the graph sound.
    pub proof fn lemma_sound_requeue(self, queue: Seq<EvRef>)
        requires
            self.sound(),
        ensures
            (Graph { ready_queue: queue, ..self }).sound(),
            self.links_kept(Graph { ready_queue: queue, ..self }),
    {
        let after = Graph { ready_queue: queue, ..self };
        assert forall|t: int| 0 <= t < self.nodes.len() implies (#[trigger] after.nodes[t]).same_links(
            self.nodes[t],
        ) && after.nodes[t].counted() by {
            assert(self.settled(t as usize));
        }
        self.lemma_sound_events(after);
    }

    /// Starting an event keeps the graph sound.
    pub proof fn lemma_sound_start(self, r: EvRef)
        requires
            self.sound(),
            self.has_ev(r),
        ensures
            self.start_event(r).sound(),
            self.links_kept(self.start_event(r)),
    {
        self.lemma_sound_restate(r, self.start_event(r).ev(r));
    }

    /// Offering an event to the ready queue keeps the graph sound.
    pub proof fn lemma_sound_offer(self, r: EvRef)
        requires
            self.sound(),
            self.has_ev(r),
        ensures
            self.offer(r).0.sound(),
            self.links_kept(self.offer(r).0),
    {
        let e = self.ev(r);
        if e.no_waiting() && e.status == EventStatus::WAITING {
            let g1 = self.with_ev(r, e.with_status(EventStatus::INQUEUE));
            self.lemma_sound_restate(r, e.with_status(EventStatus::INQUEUE));
            g1.lemma_sound_requeue(self.ready_queue.push(r));
            self.lemma_links_kept_trans(g1, self.offer(r).0);
        } else if e.no_waiting() && e.status == EventStatus::CLAIMED {
            self.lemma_sound_restate(r, e.with_status(EventStatus::WAITING));
        } else {
            self.lemma_sound_requeue(self.ready_queue);
        }
    }

    /// Claiming an event keeps the graph sound.
    pub proof fn lemma_sound_claim(self, r: EvRef)
        requires
            self.sound(),
            self.has_ev(r),
        ensures
            self.claim(r).0.sound(),
            self.links_kept(self.claim(r).0),
    {
        if self.ev(r).status == EventStatus::INQUEUE {
            self.lemma_sound_restate(r, self.ev(r).with_status(EventStatus::CLAIMED));
        } else {
            self.lemma_sound_requeue(self.ready_queue);
        }
    }

    /// Writing back keeps the graph sound.
    pub proof fn lemma_sound_write_back(self, r: EvRef, value: Seq<u8>)
        requires
            self.sound(),
            self.has_ev(r),
        ensures
            self.write_back(r, value).0.sound(),
            self.links_kept(self.write_back(r, value).0),
    {
        self.lemma_sound_restate(
            r,
            EvState { has_storage_slot: true, written: value, ..self.ev(r) },
        );
    }

    /// Taking back the acceptance of an accepted event keeps the graph
    /// sound: the event counts as unfinished again.
    pub proof fn lemma_sound_reset_accept(self, r: EvRef)
        requires
            self.wf(),
            self.sound(),
            self.has_ev(r),
            self.ev(r).status == EventStatus::ACCEPTED,
        ensures
            self.reset_accept(r).0.sound(),
            self.links_kept(self.reset_accept(r).0),
    {
        let after = self.reset_accept(r).0;
        let e1 = self.ev(r).with_status(EventStatus::WAITING);
        assert(self.txn_ok(r.txn));
        assert forall|t: int| 0 <= t < self.nodes.len() implies (#[trigger] after.nodes[t]).same_links(
            self.nodes[t],
        ) && after.nodes[t].counted() by {
            assert(self.settled(t as usize));
            if t == r.txn {
                lemma_unaccepted_update(self.nodes[t].ev_nodes, r.idx as int, e1);
                lemma_unaccepted_bound(self.nodes[t].ev_nodes.update(r.idx as int, e1));
            }
        }
        self.lemma_sound_events(after);
    }

    /// Visiting a reader keeps the graph sound.
    pub proof fn lemma_sound_visit_child(self, parent: EvRef, son: EvRef)
        requires
            self.wf(),
            self.sound(),
            self.has_ev(son),
        ensures
            self.visit_child(parent, son).0.sound(),
            self.links_kept(self.visit_child(parent, son).0),
    {
        let e = self.ev(son);
        if self.txn(son.txn).dropped {
            self.lemma_sound_requeue(self.ready_queue);
            return ;
        }
        match e.status {
            EventStatus::ACCEPTED => {
                self.lemma_sound_reset_accept(son);
                let g1 = self.reset_accept(son).0;
                g1.lemma_sound_restate(son, g1.ev(son).with_flags_of(parent, false));
                self.lemma_links_kept_trans(g1, self.visit_child(parent, son).0);
            },
            EventStatus::CLAIMED | EventStatus::INQUEUE => {
                self.lemma_sound_restate(
                    son,
                    e.with_status(EventStatus::WAITING).with_flags_of(parent, false),
                );
            },
            EventStatus::WAITING => {
                self.lemma_sound_restate(son, e.with_flags_of(parent, false));
            },
            EventStatus::ABORTED | EventStatus::CONSTRUCT => {
                self.lemma_sound_requeue(self.ready_queue);
            },
        }
    }

    /// Visiting the readers of an event keeps the graph sound.
    pub proof fn lemma_sound_visit_children(self, parent: EvRef, children: Seq<EvRef>, j: int)
        requires
            self.wf(),
            self.sound(),
        ensures
            self.visit_children(parent, children, j).0.sound(),
            self.links_kept(self.visit_children(parent, children, j).0),
        decreases children.len() - j,
    {
        if 0 <= j < children.len() {
            if self.has_ev(children[j]) {
                self.lemma_sound_visit_child(parent, children[j]);
                self.lemma_visit_child(parent, children[j]);
                let v = self.visit_child(parent, children[j]);
                v.0.lemma_sound_visit_children(parent, children, j + 1);
                self.lemma_links_kept_trans(v.0, v.0.visit_children(parent, children, j + 1).0);
            } else {
                self.lemma_sound_visit_children(parent, children, j + 1);
            }
        } else {
            self.lemma_sound_requeue(self.ready_queue);
        }
    }

    /// A rollback keeps the graph sound.
    pub proof fn lemma_sound_cascade(self, stack: Seq<EvRef>, fuel: nat)
        requires
            self.wf(),
            self.sound(),
        ensures
            self.cascade(stack, fuel).0.sound(),
            self.links_kept(self.cascade(stack, fuel).0),
        decreases fuel, stack.len(),
    {
        if stack.len() == 0 {
            self.lemma_sound_requeue(self.ready_queue);
        } else if !self.has_ev(stack.last()) {
            self.lemma_sound_cascade(stack.drop_last(), fuel);
        } else {
            let children = self.ev(stack.last()).read_by;
            let v = self.visit_children(stack.last(), children, 0);
            self.lemma_sound_visit_children(stack.last(), children, 0);
            self.lemma_visit_children(stack.last(), children, 0);
            if v.1.len() <= fuel {
                let rest = stack.drop_last() + v.1;
                v.0.lemma_sound_cascade(rest, (fuel - v.1.len()) as nat);
                self.lemma_links_kept_trans(
                    v.0,
                    v.0.cascade(rest, (fuel - v.1.len()) as nat).0,
                );
            }
        }
    }

    /// Aborting an event of a transaction that does not wait keeps the
    /// graph sound.
    pub proof fn lemma_sound_abort_event(self, r: EvRef)
        requires
            self.wf(),
            self.sound(),
            self.has_ev(r),
            self.txn(r.txn).status != TxnStatus::WAITING,
        ensures
            self.abort_event(r).0.sound(),
            self.links_kept(self.abort_event(r).0),
    {
        let e = self.ev(r);
        if e.status == EventStatus::ABORTED {
            self.lemma_sound_requeue(self.ready_queue);
        } else {
            let g1 = self.with_ev(r, e.with_status(EventStatus::ABORTED));
            self.lemma_sound_restate(r, e.with_status(EventStatus::ABORTED));
            self.lemma_restate(r, e.with_status(EventStatus::ABORTED));
            g1.lemma_sound_cascade(seq![r], accepted_total(g1.nodes));
            g1.lemma_cascade(seq![r], accepted_total(g1.nodes));
            let c = g1.cascade(seq![r], accepted_total(g1.nodes));
            self.lemma_links_kept_trans(g1, c.0);
            let e2 = c.0.ev(r);
            if e2.has_write {
                assert(c.0.nodes[r.txn as int].same_keys(self.nodes[r.txn as int]));
                c.0.lemma_sound_restate(r, EvState { has_storage_slot: true, ..e2 });
                self.lemma_links_kept_trans(c.0, self.abort_event(r).0);
            }
        }
    }

    /// Aborting the events of a transaction that does not wait keeps the
    /// graph sound.
    pub proof fn lemma_sound_abort_events(self, t: usize, j: int, count: int)
        requires
            self.wf(),
            self.sound(),
            self.has_txn(t),
            count <= self.txn(t).ev_nodes.len(),
            self.txn(t).status != TxnStatus::WAITING,
        ensures
            self.abort_events(t, j, count).0.sound(),
            self.links_kept(self.abort_events(t, j, count).0),
        decreases count - j,
    {
        if 0 <= j < count {
            let r = EvRef { txn: t, idx: j as usize };
            self.lemma_sound_abort_event(r);
            self.lemma_abort_event(r);
            let a = self.abort_event(r);
            assert(a.0.nodes[t as int].same_links(self.nodes[t as int]));
            assert(a.0.nodes[t as int].same_keys(self.nodes[t as int]));
            a.0.lemma_sound_abort_events(t, j + 1, count);
            self.lemma_links_kept_trans(a.0, a.0.abort_events(t, j + 1, count).0);
        } else {
            self.lemma_sound_requeue(self.ready_queue);
        }
    }

    /// Telling the readers keeps the graph sound.
    pub proof fn lemma_sound_tell_readers(self, r: EvRef, children: Seq<EvRef>, j: int)
        requires
            self.wf(),
            self.sound(),
        ensures
            self.tell_readers(r, children, j).sound(),
            self.links_kept(self.tell_readers(r, children, j)),
        decreases children.len() - j,
    {
        if 0 <= j < children.len() {
            if self.has_ev(children[j]) {
                let e = self.ev(children[j]).with_flags_of(r, true);
                self.lemma_sound_restate(children[j], e);
                self.lemma_restate(children[j], e);
                let g1 = self.with_ev(children[j], e);
                g1.lemma_sound_tell_readers(r, children, j + 1);
                self.lemma_links_kept_trans(g1, g1.tell_readers(r, children, j + 1));
            } else {
                self.lemma_sound_tell_readers(r, children, j + 1);
            }
        } else {
            self.lemma_sound_requeue(self.ready_queue);
        }
    }

    /// Handing the others to the queue keeps the graph sound.
    pub proof fn lemma_sound_requeue_others(self, children: Seq<EvRef>, chosen: int, j: int)
        requires
            self.wf(),
            self.sound(),
        ensures
            self.requeue_others(children, chosen, j).sound(),
            self.links_kept(self.requeue_others(children, chosen, j)),
        decreases children.len() - j,
    {
        if 0 <= j < children.len() {
            if j != chosen && self.ready_at(children, j) && self.ev(children[j]).status
                == EventStatus::WAITING {
                let e = self.ev(children[j]).with_status(EventStatus::INQUEUE);
                self.lemma_sound_restate(children[j], e);
                self.lemma_restate(children[j], e);
                let g1 = self.with_ev(children[j], e);
                g1.lemma_sound_requeue(g1.ready_queue.push(children[j]));
                g1.lemma_requeue(g1.ready_queue.push(children[j]));
                let g2 = Graph { ready_queue: g1.ready_queue.push(children[j]), ..g1 };
                self.lemma_links_kept_trans(g1, g2);
                g2.lemma_sound_requeue_others(children, chosen, j + 1);
                self.lemma_links_kept_trans(g2, g2.requeue_others(children, chosen, j + 1));
            } else {
                self.lemma_sound_requeue_others(children, chosen, j + 1);
            }
        } else {
            self.lemma_sound_requeue(self.ready_queue);
        }
    }

    /// What follows a delivery keeps the graph sound.
    pub proof fn lemma_sound_get_next(self, r: EvRef)
        requires
            self.wf(),
            self.sound(),
            self.has_ev(r),
        ensures
            self.get_next(r).0.sound(),
            self.links_kept(self.get_next(r).0),
    {
        let children = self.ev(r).read_by;
        self.lemma_sound_tell_readers(r, children, 0);
        self.lemma_tell_readers(r, children, 0);
        let g1 = self.tell_readers(r, children, 0);
        g1.lemma_best_ready(children, children.len() as int);
        match g1.best_ready(children, children.len() as int) {
            None => {},
            Some(m) => {
                g1.lemma_sound_requeue_others(children, m, 0);
                g1.lemma_requeue_others(children, m, 0);
                let g2 = g1.requeue_others(children, m, 0);
                self.lemma_links_kept_trans(g1, g2);
                let c = children[m];
                assert(g1.has_ev(c));
                assert(g2.nodes[c.txn as int].same_keys(g1.nodes[c.txn as int]));
                if g2.ev(c).status == EventStatus::WAITING {
                    g2.lemma_sound_restate(c, g2.ev(c).with_status(EventStatus::CLAIMED));
                    self.lemma_links_kept_trans(g2, self.get_next(r).0);
                }
            },
        }
    }

    /// What has committed stays committed over two steps.
    pub proof fn lemma_committed_stay_trans(self, mid: Graph, last: Graph)
        requires
            self.committed_stay(mid),
            mid.committed_stay(last),
            self.nodes.len() <= mid.nodes.len(),
        ensures
            self.committed_stay(last),
    {
        assert forall|t: int|
            0 <= t < self.nodes.len() && (#[trigger] self.nodes[t]).status
                == TxnStatus::COMMITED implies last.nodes[t].status == TxnStatus::COMMITED by {
            assert(mid.nodes[t].status == TxnStatus::COMMITED);
        }
    }
}

} // verus!
