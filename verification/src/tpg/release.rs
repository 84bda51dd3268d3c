use crate::database::action::Action;
use crate::tpg::model::{last_writer, EvRef, EvState, Graph, TxnState, TxnStatus};
use vstd::prelude::*;

verus! {

impl Graph {
    /// The releases of the versions that the first `upto` events of
    /// transaction `t` hold.
    pub open spec fn releases(self, t: usize, upto: int) -> Seq<Action>
        decreases upto,
    {
        if upto <= 0 {
            Seq::empty()
        } else {
            let e = self.txn(t).ev_nodes[upto - 1];
            self.releases(t, upto - 1) + if e.has_storage_slot {
                seq![Action::Release { key: e.write, ts: self.txn(t).ts }]
            } else {
                Seq::empty()
            }
        }
    }

    /// What releasing transaction `t` gives: the node is marked as gone,
    /// and the version of every event that holds one is to be released.
    pub open spec fn release(self, t: usize) -> (Graph, Seq<Action>) {
        (
            self.with_txn(t, TxnState { dropped: true, ..self.txn(t) }),
            self.releases(t, self.txn(t).ev_nodes.len() as int),
        )
    }

    /// What one pass over the first `upto` transactions gives, in which
    /// each transaction that can be released is released.  The pass goes
    /// from the oldest to the newest, so that a transaction that is held
    /// only by one released before it goes in the same pass.
    pub open spec fn sweep(self, upto: int) -> (Graph, Seq<Action>)
        decreases upto,
    {
        if upto <= 0 {
            (self, Seq::empty())
        } else {
            let s = self.sweep(upto - 1);
            if s.0.droppable((upto - 1) as usize) {
                let r = s.0.release((upto - 1) as usize);
                (r.0, s.1 + r.1)
            } else {
                s
            }
        }
    }

    /// The number of transactions that a pass over the first `upto`
    /// transactions releases.
    pub open spec fn released_in(self, upto: int) -> nat
        decreases upto,
    {
        if upto <= 0 {
            0
        } else if self.sweep(upto - 1).0.droppable((upto - 1) as usize) {
            self.released_in(upto - 1) + 1
        } else {
            self.released_in(upto - 1)
        }
    }

    /// What one pass over all transactions gives.
    pub open spec fn collect(self) -> (Graph, Seq<Action>) {
        self.sweep(self.nodes.len() as int)
    }

    /// The graph with no key written by anybody.
    pub open spec fn unpublish(self) -> Graph {
        Graph {
            state_last_modify: self.state_last_modify.map_values(
                |w: Option<(EvRef, usize)>| None::<(EvRef, usize)>,
            ),
            ..self
        }
    }

    /// What shutting the graph down gives: nothing is the last writer of a
    /// key any more, and what can be released is released.
    pub open spec fn teardown(self) -> (Graph, Seq<Action>) {
        self.unpublish().collect()
    }

    /// Releasing a transaction keeps the graph in order.
    pub proof fn lemma_release(self, t: usize)
        requires
            self.wf(),
            self.has_txn(t),
        ensures
            self.release(t).0.wf(),
            self.release(t).0.same_frame(self),
    {
        self.lemma_recount(t, TxnState { dropped: true, ..self.txn(t) });
    }

    /// A pass keeps the graph in order.
    pub proof fn lemma_sweep(self, upto: int)
        requires
            self.wf(),
            upto <= self.nodes.len(),
        ensures
            self.sweep(upto).0.wf(),
            self.sweep(upto).0.same_frame(self),
        decreases upto,
    {
        if upto > 0 {
            self.lemma_sweep(upto - 1);
            let s = self.sweep(upto - 1);
            if s.0.droppable((upto - 1) as usize) {
                s.0.lemma_release((upto - 1) as usize);
                s.0.release((upto - 1) as usize).0.lemma_same_keys_trans(s.0, self);
            }
        }
    }

    /// Clearing the index keeps the graph in order.
    pub proof fn lemma_unpublish(self)
        requires
            self.wf(),
        ensures
            self.unpublish().wf(),
            self.unpublish().same_keys(self),
            self.unpublish().ready_queue == self.ready_queue,
    {
        let g = self.unpublish();
        assert(g.state_last_modify.dom() =~= self.state_last_modify.dom());
        assert forall|t: usize| t < g.nodes.len() implies #[trigger] g.txn_ok(t) by {
            assert(self.txn_ok(t));
            assert forall|x: usize| x < g.txn(t).ev_nodes.len() implies #[trigger] g.ev_ok(
                EvRef { txn: t, idx: x },
            ) by {
                assert(self.ev_ok(EvRef { txn: t, idx: x }));
            }
        }
    }
}

} // verus!
