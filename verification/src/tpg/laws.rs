use crate::database::action::{fetched, Fault, Source};
use crate::database::api::Content;
use crate::tpg::model::{unaccepted, EvRef, EventStatus, Graph, TxnStatus};
use crate::tpg::steps::Enqueue;
use vstd::prelude::*;

verus! {

impl Graph {
    /// Transaction `b` has awaited transaction `a`: when `b` was linked, it
    /// read a key that `a` was the last to write.
    pub open spec fn awaited(self, b: usize, a: usize) -> bool {
        self.has_txn(b) && self.txn(b).parents.contains(a)
    }

    /// Each transaction of `path` has awaited the one before it.
    pub open spec fn chain(self, path: Seq<usize>) -> bool {
        forall|i: int| 0 <= i < path.len() - 1 ==> self.awaited(#[trigger] path[i + 1], path[i])
    }

    /// Commitment follows dependency.  Where a transaction has committed,
    /// every transaction that it depends on, through any chain of awaited
    /// parents, has committed, and was made before it.  Since a committed
    /// transaction stays committed, a transaction never commits before one
    /// that it depends on.
    pub proof fn lemma_commit_order(self, path: Seq<usize>)
        requires
            self.sound(),
            path.len() >= 1,
            self.chain(path),
            self.has_txn(path.last()),
            self.txn(path.last()).status == TxnStatus::COMMITED,
        ensures
            forall|i: int|
                0 <= i < path.len() ==> self.has_txn(#[trigger] path[i]) && self.txn(
                    path[i],
                ).status == TxnStatus::COMMITED,
            forall|i: int| 0 <= i < path.len() - 1 ==> (#[trigger] path[i]) < path[i + 1],
        decreases path.len(),
    {
        if path.len() > 1 {
            let b = path.last();
            let a = path[path.len() - 2];
            assert(self.awaited(path[path.len() - 2 + 1], path[path.len() - 2]));
            assert(self.settled(b));
            let n = self.txn(b);
            let i = choose|i: int| 0 <= i < n.parents.len() && n.parents[i] == a;
            assert(n.parents[i] < b);
            assert(!n.waits_for(a)) by {
                if n.waits_for(a) {
                    let s = choose|s: int| 0 <= s < n.read_from.len() && n.read_from[s] == Some(a);
                    assert(n.read_from[s] is None);
                }
            }
            let head = path.drop_last();
            assert forall|i: int| 0 <= i < head.len() - 1 implies self.awaited(
                #[trigger] head[i + 1],
                head[i],
            ) by {
                assert(self.awaited(path[i + 1], path[i]));
            }
            self.lemma_commit_order(head);
            assert forall|i: int| 0 <= i < path.len() implies self.has_txn(#[trigger] path[i])
                && self.txn(path[i]).status == TxnStatus::COMMITED by {
                if i < head.len() {
                    assert(head[i] == path[i]);
                }
            }
            assert forall|i: int| 0 <= i < path.len() - 1 implies (#[trigger] path[i]) < path[i
                + 1] by {
                if i < head.len() - 1 {
                    assert(head[i] == path[i]);
                    assert(head[i] < head[i + 1]);
                }
            }
        }
    }

    /// A transaction can be released only when it is done with and nobody
    /// depends on it any more.  It has committed, awaits no parent and
    /// covers no writer.  No transaction that is alive awaits it or covers
    /// it: every reader has given up its link to it.  And each transaction
    /// that wrote one of its keys next, if it is alive, has committed.
    pub proof fn lemma_release_safe(self, t: usize)
        requires
            self.wf(),
            self.sound(),
            self.droppable(t),
        ensures
            self.txn(t).status == TxnStatus::COMMITED,
            self.txn(t).no_waiting(),
            self.txn(t).cover_cleared(),
            forall|c: int|
                0 <= c < self.nodes.len() && !(#[trigger] self.nodes[c]).dropped ==> {
                    &&& !self.nodes[c].waits_for(t)
                    &&& forall|k: Seq<char>|
                        self.nodes[c].cover.contains_key(k) ==> #[trigger] self.nodes[c].cover[k]
                            != Some(t)
                },
            forall|j: int|
                0 <= j < self.txn(t).read_by.len() && !self.txn(
                    #[trigger] self.txn(t).read_by[j],
                ).dropped ==> !self.txn(self.txn(t).read_by[j]).waits_for(t),
            forall|k: Seq<char>| #[trigger]
                self.txn(t).covered_by.contains_key(k) ==> (self.txn(t).covered_by[k] matches Some(
                    c,
                ) ==> self.has_txn(c) && (self.txn(c).dropped || self.txn(c).status
                    == TxnStatus::COMMITED)),
    {
        assert(self.settled(t));
        assert(self.txn_ok(t));
        assert forall|c: int|
            0 <= c < self.nodes.len() && !(#[trigger] self.nodes[c]).dropped implies {
            &&& !self.nodes[c].waits_for(t)
            &&& forall|k: Seq<char>|
                self.nodes[c].cover.contains_key(k) ==> #[trigger] self.nodes[c].cover[k] != Some(
                    t,
                )
        } by {
            assert(!self.nodes[c].holds(t));
        }
        assert forall|j: int|
            0 <= j < self.txn(t).read_by.len() && !self.txn(
                #[trigger] self.txn(t).read_by[j],
            ).dropped implies !self.txn(self.txn(t).read_by[j]).waits_for(t) by {
            let c = self.txn(t).read_by[j];
            assert(!self.nodes[c as int].dropped);
        }
        assert forall|k: Seq<char>| #[trigger]
            self.txn(t).covered_by.contains_key(k) implies (self.txn(t).covered_by[k] matches Some(
            c,
        ) ==> self.has_txn(c) && (self.txn(c).dropped || self.txn(c).status
            == TxnStatus::COMMITED)) by {
            match self.txn(t).covered_by[k] {
                Some(c) => {
                    if !self.txn(c).dropped && self.txn(c).status != TxnStatus::COMMITED {
                        assert(self.txn(c).cover.contains_key(k) && self.txn(c).cover[k] == Some(
                            t,
                        ));
                        assert(self.nodes[c as int].holds(t));
                    }
                },
                None => {},
            }
        }
    }

    /// A transaction that is released has committed, and so has every
    /// transaction that it ever depended on.
    pub proof fn lemma_released_committed(self, t: usize)
        requires
            self.sound(),
            self.has_txn(t),
            self.txn(t).dropped,
        ensures
            self.txn(t).status == TxnStatus::COMMITED,
            self.txn(t).no_waiting(),
            self.txn(t).cover_cleared(),
            forall|a: usize| self.awaited(t, a) ==> self.txn(a).status == TxnStatus::COMMITED,
    {
        assert(self.settled(t));
        assert forall|a: usize| self.awaited(t, a) implies self.txn(a).status
            == TxnStatus::COMMITED by {
            self.lemma_commit_order(seq![a, t]);
            assert(seq![a, t][0] == a);
        }
    }

    /// While a transaction waits, its counter of unfinished events is the
    /// number of its events that are not accepted.
    pub proof fn lemma_unfinished_events(self, t: usize)
        requires
            self.sound(),
            self.has_txn(t),
            self.txn(t).status == TxnStatus::WAITING,
        ensures
            self.txn(t).unfinished_events == unaccepted(self.txn(t).ev_nodes),
    {
        assert(self.settled(t));
    }

    /// An event without reads waits for nothing: once it is started, it is
    /// ready.
    pub proof fn lemma_no_reads_ready(self, r: EvRef)
        requires
            self.has_ev(r),
            self.ev(r).aligned(),
            self.ev(r).reads.len() == 0,
            self.ev(r).status == EventStatus::CONSTRUCT,
        ensures
            self.start_event(r).ev(r).ready(),
            self.start_and_offer(r).1 == Enqueue::Enqueued,
    {
    }

    /// A read whose key nobody wrote takes the default value, whatever the
    /// store holds.
    pub proof fn lemma_unwritten_key_reads_default(
        self,
        r: EvRef,
        i: int,
        content: Content,
    )
        requires
            self.has_ev(r),
            0 <= i < self.ev(r).reads.len(),
            self.ev(r).aligned(),
            self.ev(r).read_from[i] is None,
        ensures
            self.read_plan(r)[i] == Source::Default,
            fetched(content, self.read_plan(r)[i]) == Ok::<
                Seq<u8>,
                Fault,
            >(seq![0u8]),
    {
    }
}

} // verus!
