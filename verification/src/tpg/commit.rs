use crate::external::ffi::{Finished, Outcome};
use crate::tpg::model::{EvRef, EvState, EventStatus, Graph, TxnState, TxnStatus};
use vstd::prelude::*;

verus! {

impl Graph {
    /// Whether transaction `t` can commit: it waits or is aborted, no event
    /// is unfinished, and no parent is awaited.
    pub open spec fn can_commit(self, t: usize) -> bool {
        let n = self.txn(t);
        &&& self.has_txn(t)
        &&& n.status == TxnStatus::WAITING || n.status == TxnStatus::ABORTED
        &&& n.unfinished_events == 0
        &&& n.no_waiting()
    }

    /// The report that transaction `t` is done.
    pub open spec fn finished(self, t: usize) -> Finished {
        Finished {
            txn_req_id: self.txn(t).txn_req_id,
            outcome: if self.txn(t).status == TxnStatus::ABORTED {
                Outcome::ABORTED
            } else {
                Outcome::SUCCESS
            },
        }
    }

    /// The graph after transaction `t` has committed itself: its links to
    /// earlier writers are cleared.
    pub open spec fn commit_self(self, t: usize) -> Graph {
        let n = self.txn(t);
        self.with_txn(
            t,
            TxnState {
                status: TxnStatus::COMMITED,
                cover: n.cover.map_values(|w: Option<usize>| None::<usize>),
                ..n
            },
        )
    }

    /// The graph after transaction `c` took note that its parent `father`
    /// has committed.
    pub open spec fn father_committed(self, c: usize, father: usize) -> Graph {
        self.with_txn(c, self.txn(c).without_parent(father))
    }

    /// What an attempt to commit transaction `t` gives, in a graph of at
    /// most `bound` transactions: the graph and the reports, in the order
    /// in which the transactions commit.  A transaction that commits tells
    /// every transaction that reads from it, which then tries in turn.
    pub open spec fn try_commit_within(self, t: usize, bound: nat) -> (Graph, Seq<Finished>)
        decreases bound - t, 1nat, 0nat,
    {
        if !self.can_commit(t) {
            (self, Seq::empty())
        } else {
            let g1 = self.commit_self(t);
            let rest = g1.commit_children(t, g1.txn(t).read_by, 0, bound);
            (rest.0, seq![self.finished(t)] + rest.1)
        }
    }

    /// What telling the readers `children[j..]` of the committed
    /// transaction `t` gives.
    pub open spec fn commit_children(
        self,
        t: usize,
        children: Seq<usize>,
        j: int,
        bound: nat,
    ) -> (Graph, Seq<Finished>)
        decreases bound - t, 0nat, children.len() - j,
    {
        if j < 0 || j >= children.len() {
            (self, Seq::empty())
        } else {
            let c = children[j];
            if t < c && c < bound && self.has_txn(c) {
                let sub = self.father_committed(c, t).try_commit_within(c, bound);
                let rest = sub.0.commit_children(t, children, j + 1, bound);
                (rest.0, sub.1 + rest.1)
            } else {
                self.commit_children(t, children, j + 1, bound)
            }
        }
    }

    /// What an attempt to commit transaction `t` gives.
    pub open spec fn try_commit(self, t: usize) -> (Graph, Seq<Finished>) {
        self.try_commit_within(t, self.nodes.len())
    }

    /// What the notice that event `r` was accepted gives: the transaction
    /// counts one event less, and tries to commit when none is left.
    pub open spec fn notify_txn_accept(self, r: EvRef) -> (Graph, Seq<Finished>) {
        let n = self.txn(r.txn);
        let g1 = self.with_txn(
            r.txn,
            TxnState {
                unfinished_events: if n.unfinished_events > 0 {
                    (n.unfinished_events - 1) as u16
                } else {
                    0
                },
                ..n
            },
        );
        if g1.txn(r.txn).unfinished_events == 0 {
            g1.try_commit(r.txn)
        } else {
            (g1, Seq::empty())
        }
    }

    /// What accepting the result of event `r` gives.  Only a claimed event
    /// is accepted; its transaction is then told.
    pub open spec fn accept(self, r: EvRef) -> (Graph, bool, Seq<Finished>) {
        let e = self.ev(r);
        if e.status == EventStatus::CLAIMED {
            let done = self.with_ev(r, e.with_status(EventStatus::ACCEPTED)).notify_txn_accept(r);
            (done.0, true, done.1)
        } else {
            (self, false, Seq::empty())
        }
    }

    /// Committing a transaction itself keeps the graph in order.
    pub proof fn lemma_commit_self(self, t: usize)
        requires
            self.wf(),
            self.has_txn(t),
        ensures
            self.commit_self(t).wf(),
            self.commit_self(t).same_frame(self),
    {
        assert(self.txn_ok(t));
        let n = self.commit_self(t).txn(t);
        assert forall|k: Seq<char>| #[trigger] n.cover.contains_key(k) implies n.writes(k) && (
        n.cover[k] matches Some(p) ==> p < t) by {
            assert(self.txn(t).cover.contains_key(k));
        }
        assert forall|e: int|
            0 <= e < n.ev_nodes.len() && (#[trigger] n.ev_nodes[e]).has_write implies n.cover.contains_key(
            n.ev_nodes[e].write,
        ) by {
            assert(self.txn(t).cover.contains_key(self.txn(t).ev_nodes[e].write));
        }
        self.lemma_with_txn(t, n);
    }

    /// Taking note of a committed parent keeps the graph in order.
    pub proof fn lemma_father_committed(self, c: usize, father: usize)
        requires
            self.wf(),
            self.has_txn(c),
        ensures
            self.father_committed(c, father).wf(),
            self.father_committed(c, father).same_frame(self),
    {
        assert(self.txn_ok(c));
        self.lemma_with_txn(c, self.txn(c).without_parent(father));
    }

    /// An attempt to commit keeps the graph in order.
    pub proof fn lemma_try_commit(self, t: usize, bound: nat)
        requires
            self.wf(),
            self.has_txn(t),
        ensures
            self.try_commit_within(t, bound).0.wf(),
            self.try_commit_within(t, bound).0.same_frame(self),
        decreases bound - t, 1nat, 0nat,
    {
        if self.can_commit(t) {
            self.lemma_commit_self(t);
            let g1 = self.commit_self(t);
            g1.lemma_commit_children(t, g1.txn(t).read_by, 0, bound);
            g1.commit_children(t, g1.txn(t).read_by, 0, bound).0.lemma_same_keys_trans(g1, self);
        }
    }

    /// Telling the readers of a committed transaction keeps the graph in
    /// order.
    pub proof fn lemma_commit_children(self, t: usize, children: Seq<usize>, j: int, bound: nat)
        requires
            self.wf(),
            self.has_txn(t),
        ensures
            self.commit_children(t, children, j, bound).0.wf(),
            self.commit_children(t, children, j, bound).0.same_frame(self),
        decreases bound - t, 0nat, children.len() - j,
    {
        if 0 <= j < children.len() {
            let c = children[j];
            if t < c && c < bound && self.has_txn(c) {
                self.lemma_father_committed(c, t);
                let g1 = self.father_committed(c, t);
                g1.lemma_try_commit(c, bound);
                let sub = g1.try_commit_within(c, bound);
                sub.0.lemma_same_keys_trans(g1, self);
                sub.0.lemma_commit_children(t, children, j + 1, bound);
                sub.0.commit_children(t, children, j + 1, bound).0.lemma_same_keys_trans(
                    sub.0,
                    self,
                );
            } else {
                self.lemma_commit_children(t, children, j + 1, bound);
            }
        }
    }
}

} // verus!
