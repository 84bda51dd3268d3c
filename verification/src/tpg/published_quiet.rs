use crate::tpg::model::{EvRef, EvState, EventStatus, Graph, TxnState, TxnStatus};
use crate::tpg::published::{pending, same_record};
use vstd::prelude::*;

verus! {

impl Graph {
    /// Claiming an event leaves the graph alike.
    pub proof fn lemma_alike_claim(self, r: EvRef)
        requires
            self.has_ev(r),
        ensures
            self.same_records(self.claim(r).0),
    {
    }

    /// An attempt to commit leaves the graph alike.
    pub proof fn lemma_alike_try_commit(self, t: usize, bound: nat)
        requires
            self.has_txn(t),
        ensures
            self.same_records(self.try_commit_within(t, bound).0),
        decreases bound - t, 1nat, 0nat,
    {
        if self.can_commit(t) {
            let g1 = self.commit_self(t);
            g1.lemma_alike_commit_children(t, g1.txn(t).read_by, 0, bound);
            self.lemma_same_records_trans(
                g1,
                g1.commit_children(t, g1.txn(t).read_by, 0, bound).0,
            );
        }
    }

    /// Telling the readers of a committed transaction leaves the graph
    /// alike.
    pub proof fn lemma_alike_commit_children(
        self,
        t: usize,
        children: Seq<usize>,
        j: int,
        bound: nat,
    )
        requires
            self.has_txn(t),
        ensures
            self.same_records(self.commit_children(t, children, j, bound).0),
        decreases bound - t, 0nat, children.len() - j,
    {
        if 0 <= j < children.len() {
            let c = children[j];
            if t < c && c < bound && self.has_txn(c) {
                let g1 = self.father_committed(c, t);
                g1.lemma_alike_try_commit(c, bound);
                let sub = g1.try_commit_within(c, bound);
                self.lemma_same_records_trans(g1, sub.0);
                sub.0.lemma_alike_commit_children(t, children, j + 1, bound);
                self.lemma_same_records_trans(
                    sub.0,
                    sub.0.commit_children(t, children, j + 1, bound).0,
                );
            } else {
                self.lemma_alike_commit_children(t, children, j + 1, bound);
            }
        }
    }

    /// Telling a transaction that an event was accepted leaves the graph
    /// alike.
    pub proof fn lemma_alike_notify(self, r: EvRef)
        requires
            self.has_ev(r),
        ensures
            self.same_records(self.notify_txn_accept(r).0),
    {
        let n = self.txn(r.txn);
        let g1 = self.with_txn(
            r.txn,
            TxnState {
                unfinished_events: if n.unfinished_events > 0 {
                    (n.unfinished_events - 1) as u16
                } else {
                    0
                },
                ..n
            },
        );
        if g1.txn(r.txn).unfinished_events == 0 {
            g1.lemma_alike_try_commit(r.txn, g1.nodes.len());
            self.lemma_same_records_trans(g1, g1.try_commit(r.txn).0);
        }
    }

    /// Telling the readers that an event has delivered leaves the graph
    /// alike.
    pub proof fn lemma_alike_tell_readers(self, r: EvRef, children: Seq<EvRef>, j: int)
        ensures
            self.same_records(self.tell_readers(r, children, j)),
        decreases children.len() - j,
    {
        if 0 <= j < children.len() {
            if self.has_ev(children[j]) {
                let g1 = self.with_ev(children[j], self.ev(children[j]).with_flags_of(r, true));
                g1.lemma_alike_tell_readers(r, children, j + 1);
                self.lemma_same_records_trans(g1, g1.tell_readers(r, children, j + 1));
            } else {
                self.lemma_alike_tell_readers(r, children, j + 1);
            }
        }
    }

    /// Handing the others to the queue leaves the graph alike.
    pub proof fn lemma_alike_requeue_others(self, children: Seq<EvRef>, chosen: int, j: int)
        ensures
            self.same_records(self.requeue_others(children, chosen, j)),
        decreases children.len() - j,
    {
        if 0 <= j < children.len() {
            if j != chosen && self.ready_at(children, j) && self.ev(children[j]).status
                == EventStatus::WAITING {
                let g1 = self.with_ev(
                    children[j],
                    self.ev(children[j]).with_status(EventStatus::INQUEUE),
                );
                let g2 = Graph { ready_queue: g1.ready_queue.push(children[j]), ..g1 };
                g2.lemma_alike_requeue_others(children, chosen, j + 1);
                self.lemma_same_records_trans(g2, g2.requeue_others(children, chosen, j + 1));
            } else {
                self.lemma_alike_requeue_others(children, chosen, j + 1);
            }
        }
    }

    /// What follows a delivery leaves the graph alike.
    pub proof fn lemma_alike_get_next(self, r: EvRef)
        requires
            self.wf(),
            self.has_ev(r),
        ensures
            self.same_records(self.get_next(r).0),
    {
        let children = self.ev(r).read_by;
        self.lemma_alike_tell_readers(r, children, 0);
        self.lemma_tell_readers(r, children, 0);
        let g1 = self.tell_readers(r, children, 0);
        g1.lemma_best_ready(children, children.len() as int);
        match g1.best_ready(children, children.len() as int) {
            None => {},
            Some(m) => {
                g1.lemma_alike_requeue_others(children, m, 0);
                g1.lemma_requeue_others(children, m, 0);
                let g2 = g1.requeue_others(children, m, 0);
                self.lemma_same_records_trans(g1, g2);
                let c = children[m];
                assert(g1.has_ev(c));
                assert(g2.nodes[c.txn as int].same_keys(g1.nodes[c.txn as int]));
                if g2.ev(c).status == EventStatus::WAITING {
                    self.lemma_same_records_trans(g2, self.get_next(r).0);
                }
            },
        }
    }

    /// Following up the events of a transaction leaves the graph alike.
    pub proof fn lemma_alike_follow_up(self, t: usize, j: int, count: int)
        requires
            self.wf(),
            self.has_txn(t),
            count <= self.txn(t).ev_nodes.len(),
        ensures
            self.same_records(self.follow_up(t, j, count).0),
        decreases count - j,
    {
        if 0 <= j < count {
            let r = EvRef { txn: t, idx: j as usize };
            self.lemma_get_next(r);
            self.lemma_alike_get_next(r);
            let n = self.get_next(r);
            assert(n.0.nodes[t as int].same_keys(self.nodes[t as int]));
            n.0.lemma_alike_follow_up(t, j + 1, count);
            self.lemma_same_records_trans(n.0, n.0.follow_up(t, j + 1, count).0);
        }
    }

    /// Starting and offering the events of a transaction leaves the graph
    /// alike.
    pub proof fn lemma_alike_launch(self, t: usize, j: int, count: int)
        requires
            self.has_txn(t),
            count <= self.txn(t).ev_nodes.len(),
        ensures
            self.same_records(self.launch(t, j, count).0),
        decreases count - j,
    {
        if 0 <= j < count {
            let r = EvRef { txn: t, idx: j as usize };
            let g1 = self.start_event(r);
            let g2 = g1.offer(r).0;
            self.lemma_same_records_trans(g1, g2);
            g2.lemma_alike_launch(t, j + 1, count);
            self.lemma_same_records_trans(g2, g2.launch(t, j + 1, count).0);
        }
    }

    /// Recording a reader leaves the graph alike.
    pub proof fn lemma_alike_add_read_by(self, parent: EvRef, son: EvRef)
        requires
            self.has_ev(parent),
        ensures
            self.same_records(self.add_read_by(parent, son)),
    {
    }

    /// Linking a read leaves the graph alike.
    pub proof fn lemma_alike_link_read(self, r: EvRef, i: int)
        requires
            self.wf(),
            self.has_ev(r),
            0 <= i < self.ev(r).reads.len(),
            self.state_last_modify.contains_key(self.ev(r).reads[i]),
        ensures
            self.same_records(self.link_read(r, i)),
    {
        let key = self.ev(r).reads[i];
        match self.state_last_modify[key] {
            Some(w) => {
                let g1 = self.with_ev(
                    r,
                    EvState { read_from: self.ev(r).read_from.update(i, Some(w.0)), ..self.ev(r) },
                );
                assert(self.has_ev(w.0));
                g1.lemma_alike_add_read_by(w.0, r);
                let g2 = g1.add_read_by(w.0, r);
                self.lemma_same_records_trans(g1, g2);
                self.lemma_same_records_trans(g2, self.link_read(r, i));
            },
            None => {},
        }
    }

    /// Linking the reads of an event leaves the graph alike.
    pub proof fn lemma_alike_link_reads(self, r: EvRef, upto: int)
        requires
            self.linkable(r.txn, r.idx),
            self.has_ev(r),
            0 <= upto <= self.ev(r).reads.len(),
        ensures
            self.same_records(self.link_reads(r, upto)),
        decreases upto,
    {
        if upto > 0 {
            self.lemma_alike_link_reads(r, upto - 1);
            self.lemma_linking_reads(r, upto - 1);
            let g1 = self.link_reads(r, upto - 1);
            assert(g1.nodes[r.txn as int].same_keys(self.nodes[r.txn as int]));
            assert(self.state_last_modify.contains_key(
                self.txn(r.txn).ev_nodes[r.idx as int].reads[upto - 1],
            ));
            g1.lemma_alike_link_read(r, upto - 1);
            self.lemma_same_records_trans(g1, g1.link_read(r, upto - 1));
        }
    }

    /// Linking the write of an event leaves the graph alike.
    pub proof fn lemma_alike_link_write(self, r: EvRef)
        requires
            self.wf(),
            self.has_ev(r),
            self.ev(r).has_write ==> self.state_last_modify.contains_key(self.ev(r).write),
        ensures
            self.same_records(self.link_write(r)),
    {
        let e = self.ev(r);
        if e.has_write {
            match self.state_last_modify[e.write] {
                Some(w) => {
                    assert(self.has_ev(w.0));
                },
                None => {},
            }
        }
    }

    /// Linking the events of a transaction leaves the graph alike.
    pub proof fn lemma_alike_link_events(self, t: usize, upto: int)
        requires
            self.linkable(t, 0),
            0 <= upto <= self.txn(t).ev_nodes.len(),
        ensures
            self.same_records(self.link_events(t, upto)),
        decreases upto,
    {
        if upto > 0 {
            self.lemma_alike_link_events(t, upto - 1);
            self.lemma_linking_events(t, upto - 1);
            let g1 = self.link_events(t, upto - 1);
            let r = EvRef { txn: t, idx: (upto - 1) as usize };
            assert(g1.nodes[t as int].same_keys(self.nodes[t as int]));
            assert(g1.txn_ok(t));
            let count = g1.ev(r).reads.len() as int;
            g1.lemma_alike_link_reads(r, count);
            g1.lemma_linking_reads(r, count);
            let g2 = g1.link_reads(r, count);
            assert(g2.nodes[t as int].same_keys(g1.nodes[t as int]));
            assert(self.txn(t).ev_nodes[upto - 1].has_write
                ==> self.state_last_modify.contains_key(self.txn(t).ev_nodes[upto - 1].write));
            g2.lemma_alike_link_write(r);
            g1.lemma_same_records_trans(g2, g2.link_write(r));
            self.lemma_same_records_trans(g1, g1.link_event(r));
        }
    }
}

} // verus!
