use crate::tpg::model::{EvRef, EvState, EventStatus, Graph, TxnState, TxnStatus};
use vstd::prelude::*;

verus! {

impl Graph {
    /// The graph after the readers `children[j..]` of event `r` were told
    /// that `r` has delivered: the reads that `r` satisfies are marked.
    pub open spec fn tell_readers(self, r: EvRef, children: Seq<EvRef>, j: int) -> Graph
        decreases children.len() - j,
    {
        if j < 0 || j >= children.len() {
            self
        } else if self.has_ev(children[j]) {
            self.with_ev(
                children[j],
                self.ev(children[j]).with_flags_of(r, true),
            ).tell_readers(r, children, j + 1)
        } else {
            self.tell_readers(r, children, j + 1)
        }
    }

    /// Whether the event at position `j` of `children` is ready.
    pub open spec fn ready_at(self, children: Seq<EvRef>, j: int) -> bool {
        self.has_ev(children[j]) && self.ev(children[j]).ready()
    }

    /// Among the first `upto` of `children`, the position of the ready
    /// event whose transaction has the least timestamp; of several such,
    /// the first.
    pub open spec fn best_ready(self, children: Seq<EvRef>, upto: int) -> Option<int>
        decreases upto,
    {
        if upto <= 0 {
            None
        } else {
            let prev = self.best_ready(children, upto - 1);
            if self.ready_at(children, upto - 1) {
                match prev {
                    None => Some(upto - 1),
                    Some(b) => if self.txn(children[upto - 1].txn).ts < self.txn(
                        children[b].txn,
                    ).ts {
                        Some(upto - 1)
                    } else {
                        prev
                    },
                }
            } else {
                prev
            }
        }
    }

    /// The graph after the ready events among `children[j..]`, but for the
    /// one at position `chosen`, were handed to the queue.  An event that
    /// is queued already stays where it is.
    pub open spec fn requeue_others(self, children: Seq<EvRef>, chosen: int, j: int) -> Graph
        decreases children.len() - j,
    {
        if j < 0 || j >= children.len() {
            self
        } else if j != chosen && self.ready_at(children, j) && self.ev(children[j]).status
            == EventStatus::WAITING {
            (Graph {
                ready_queue: self.ready_queue.push(children[j]),
                ..self.with_ev(children[j], self.ev(children[j]).with_status(EventStatus::INQUEUE))
            }).requeue_others(children, chosen, j + 1)
        } else {
            self.requeue_others(children, chosen, j + 1)
        }
    }

    /// What follows the delivery of event `r`: its readers are told; of
    /// those that are ready now, the one whose transaction has the least
    /// timestamp is claimed for the worker at hand, if it still waits, and
    /// the others go to the queue.
    pub open spec fn get_next(self, r: EvRef) -> (Graph, Option<EvRef>) {
        let children = self.ev(r).read_by;
        let g1 = self.tell_readers(r, children, 0);
        match g1.best_ready(children, children.len() as int) {
            None => (g1, None),
            Some(m) => {
                let g2 = g1.requeue_others(children, m, 0);
                let c = children[m];
                if g2.ev(c).status == EventStatus::WAITING {
                    (g2.with_ev(c, g2.ev(c).with_status(EventStatus::CLAIMED)), Some(c))
                } else {
                    (g2, None)
                }
            },
        }
    }

    /// Telling the readers keeps the graph in order.
    pub proof fn lemma_tell_readers(self, r: EvRef, children: Seq<EvRef>, j: int)
        requires
            self.wf(),
        ensures
            self.tell_readers(r, children, j).wf(),
            self.tell_readers(r, children, j).same_frame(self),
        decreases children.len() - j,
    {
        if 0 <= j < children.len() {
            if self.has_ev(children[j]) {
                let e = self.ev(children[j]).with_flags_of(r, true);
                self.lemma_restate(children[j], e);
                let g1 = self.with_ev(children[j], e);
                g1.lemma_tell_readers(r, children, j + 1);
                g1.tell_readers(r, children, j + 1).lemma_same_keys_trans(g1, self);
            } else {
                self.lemma_tell_readers(r, children, j + 1);
            }
        }
    }

    /// The best ready event is one of the events looked at, and it is
    /// ready.
    pub proof fn lemma_best_ready(self, children: Seq<EvRef>, upto: int)
        requires
            upto <= children.len(),
        ensures
            self.best_ready(children, upto) matches Some(m) ==> 0 <= m < upto && self.ready_at(
                children,
                m,
            ),
            self.best_ready(children, upto) is None ==> forall|j: int|
                0 <= j < upto ==> !self.ready_at(children, j),
            self.best_ready(children, upto) matches Some(m) ==> forall|j: int|
                0 <= j < upto && self.ready_at(children, j) ==> self.txn(children[m].txn).ts
                    <= self.txn(children[j].txn).ts,
        decreases upto,
    {
        if upto > 0 {
            self.lemma_best_ready(children, upto - 1);
        }
    }

    /// Handing the others to the queue keeps the graph in order.
    pub proof fn lemma_requeue_others(self, children: Seq<EvRef>, chosen: int, j: int)
        requires
            self.wf(),
        ensures
            self.requeue_others(children, chosen, j).wf(),
            self.requeue_others(children, chosen, j).same_keys(self),
            self.requeue_others(children, chosen, j).state_last_modify == self.state_last_modify,
        decreases children.len() - j,
    {
        if 0 <= j < children.len() {
            if j != chosen && self.ready_at(children, j) && self.ev(children[j]).status
                == EventStatus::WAITING {
                let e = self.ev(children[j]).with_status(EventStatus::INQUEUE);
                self.lemma_restate(children[j], e);
                let g1 = self.with_ev(children[j], e);
                g1.lemma_requeue(g1.ready_queue.push(children[j]));
                let g2 = Graph { ready_queue: g1.ready_queue.push(children[j]), ..g1 };
                g2.lemma_same_keys_trans(g1, self);
                g2.lemma_requeue_others(children, chosen, j + 1);
                g2.requeue_others(children, chosen, j + 1).lemma_same_keys_trans(g2, self);
            } else {
                self.lemma_requeue_others(children, chosen, j + 1);
            }
        }
    }

    /// What follows a delivery keeps the graph in order; the event that is
    /// handed back is an event of the graph.
    pub proof fn lemma_get_next(self, r: EvRef)
        requires
            self.wf(),
            self.has_ev(r),
        ensures
            self.get_next(r).0.wf(),
            self.get_next(r).0.same_keys(self),
            self.get_next(r).0.state_last_modify == self.state_last_modify,
            self.get_next(r).1 matches Some(c) ==> self.has_ev(c),
    {
        let children = self.ev(r).read_by;
        self.lemma_tell_readers(r, children, 0);
        let g1 = self.tell_readers(r, children, 0);
        g1.lemma_best_ready(children, children.len() as int);
        match g1.best_ready(children, children.len() as int) {
            None => {},
            Some(m) => {
                g1.lemma_requeue_others(children, m, 0);
                let g2 = g1.requeue_others(children, m, 0);
                g2.lemma_same_keys_trans(g1, self);
                let c = children[m];
                assert(g1.has_ev(c));
                assert(g1.nodes[c.txn as int].same_keys(self.nodes[c.txn as int]));
                assert(g2.nodes[c.txn as int].same_keys(g1.nodes[c.txn as int]));
                if g2.ev(c).status == EventStatus::WAITING {
                    g2.lemma_restate(c, g2.ev(c).with_status(EventStatus::CLAIMED));
                    g2.with_ev(
                        c,
                        g2.ev(c).with_status(EventStatus::CLAIMED),
                    ).lemma_same_keys_trans(g2, self);
                }
            },
        }
    }
}

} // verus!
