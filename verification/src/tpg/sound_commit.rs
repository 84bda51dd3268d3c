use crate::tpg::model::{
    lemma_unaccepted_update, unaccepted, EvRef, EvState, EventStatus, Graph, TxnState, TxnStatus,
};
use vstd::prelude::*;

verus! {

impl Graph {
    /// A change of one transaction that keeps what the others rely on
    /// keeps the graph sound: the transaction keeps its place among the
    /// committed, and the writers that it covers stay covered unless it has
    /// committed.
    pub proof fn lemma_sound_with_txn(self, t: usize, n: TxnState)
        requires
            self.sound(),
            self.has_txn(t),
            self.with_txn(t, n).settled(t),
            self.txn(t).status == TxnStatus::COMMITED ==> n.status == TxnStatus::COMMITED,
            n.status == TxnStatus::COMMITED || forall|k: Seq<char>|
                self.txn(t).cover.contains_key(k) ==> n.cover.contains_key(k) && n.cover[k]
                    == #[trigger] self.txn(t).cover[k],
        ensures
            self.with_txn(t, n).sound(),
            self.committed_stay(self.with_txn(t, n)),
    {
        let after = self.with_txn(t, n);
        assert forall|u: usize| u < after.nodes.len() implies #[trigger] after.settled(u) by {
            if u != t {
                assert(self.settled(u));
                let m = self.txn(u);
                assert forall|i: int| 0 <= i < m.parents.len() implies (#[trigger] m.parents[i])
                    < u && (m.waits_for(m.parents[i]) || after.txn(m.parents[i]).status
                    == TxnStatus::COMMITED) by {}
                assert forall|k: Seq<char>| #[trigger] m.covered_by.contains_key(k) implies (
                m.covered_by[k] matches Some(c) ==> c < after.nodes.len() && ((after.txn(
                    c,
                ).cover.contains_key(k) && after.txn(c).cover[k] == Some(u)) || after.txn(
                    c,
                ).status == TxnStatus::COMMITED)) by {
                    match m.covered_by[k] {
                        Some(c) => {
                            if c == t && n.status != TxnStatus::COMMITED {
                                if self.txn(t).cover.contains_key(k) && self.txn(t).cover[k]
                                    == Some(u) {
                                    assert(n.cover[k] == self.txn(t).cover[k]);
                                }
                            }
                        },
                        None => {},
                    }
                }
            }
        }
    }

    /// Committing a transaction that can commit keeps the graph sound.
    pub proof fn lemma_sound_commit_self(self, t: usize)
        requires
            self.wf(),
            self.sound(),
            self.can_commit(t),
        ensures
            self.commit_self(t).sound(),
            self.committed_stay(self.commit_self(t)),
            self.commit_self(t).txn(t).status == TxnStatus::COMMITED,
    {
        let after = self.commit_self(t);
        let n = after.txn(t);
        assert(self.settled(t));
        assert(self.txn_ok(t));
        assert(n.parents == self.txn(t).parents);
        assert forall|k: Seq<char>| #[trigger] n.covered_by.contains_key(k) implies (
        n.covered_by[k] matches Some(c) ==> c < after.nodes.len() && ((after.txn(
            c,
        ).cover.contains_key(k) && after.txn(c).cover[k] == Some(t)) || after.txn(c).status
            == TxnStatus::COMMITED)) by {
            assert(self.txn(t).covered_by.contains_key(k));
        }
        assert(after.settled(t));
        self.lemma_sound_with_txn(t, n);
    }

    /// Taking note of a parent that has committed keeps the graph sound.
    pub proof fn lemma_sound_father_committed(self, c: usize, father: usize)
        requires
            self.wf(),
            self.sound(),
            self.has_txn(c),
            self.has_txn(father),
            self.txn(father).status == TxnStatus::COMMITED,
            father != c,
        ensures
            self.father_committed(c, father).sound(),
            self.committed_stay(self.father_committed(c, father)),
    {
        let after = self.father_committed(c, father);
        let o = self.txn(c);
        let n = after.txn(c);
        assert(self.settled(c));
        assert(self.txn_ok(c));
        assert forall|i: int| 0 <= i < n.parents.len() implies (#[trigger] n.parents[i]) < c && (
        n.waits_for(n.parents[i]) || after.txn(n.parents[i]).status == TxnStatus::COMMITED) by {
            let p = o.parents[i];
            if p != father && o.waits_for(p) {
                let s = choose|s: int| 0 <= s < o.read_from.len() && o.read_from[s] == Some(p);
                assert(n.read_from[s] == Some(p));
            }
        }
        assert forall|k: Seq<char>| #[trigger] n.covered_by.contains_key(k) implies (
        n.covered_by[k] matches Some(x) ==> x < after.nodes.len() && ((after.txn(
            x,
        ).cover.contains_key(k) && after.txn(x).cover[k] == Some(c)) || after.txn(x).status
            == TxnStatus::COMMITED)) by {
            assert(o.covered_by.contains_key(k));
        }
        assert(after.settled(c));
        self.lemma_sound_with_txn(c, n);
    }

    /// An attempt to commit keeps the graph sound.
    pub proof fn lemma_sound_try_commit(self, t: usize, bound: nat)
        requires
            self.wf(),
            self.sound(),
            self.has_txn(t),
        ensures
            self.try_commit_within(t, bound).0.sound(),
            self.committed_stay(self.try_commit_within(t, bound).0),
        decreases bound - t, 1nat, 0nat,
    {
        if self.can_commit(t) {
            self.lemma_sound_commit_self(t);
            self.lemma_commit_self(t);
            let g1 = self.commit_self(t);
            g1.lemma_sound_commit_children(t, g1.txn(t).read_by, 0, bound);
            self.lemma_committed_stay_trans(
                g1,
                g1.commit_children(t, g1.txn(t).read_by, 0, bound).0,
            );
        }
    }

    /// Telling the readers of a committed transaction keeps the graph
    /// sound.
    pub proof fn lemma_sound_commit_children(
        self,
        t: usize,
        children: Seq<usize>,
        j: int,
        bound: nat,
    )
        requires
            self.wf(),
            self.sound(),
            self.has_txn(t),
            self.txn(t).status == TxnStatus::COMMITED,
        ensures
            self.commit_children(t, children, j, bound).0.sound(),
            self.committed_stay(self.commit_children(t, children, j, bound).0),
        decreases bound - t, 0nat, children.len() - j,
    {
        if 0 <= j < children.len() {
            let c = children[j];
            if t < c && c < bound && self.has_txn(c) {
                self.lemma_sound_father_committed(c, t);
                self.lemma_father_committed(c, t);
                let g1 = self.father_committed(c, t);
                g1.lemma_sound_try_commit(c, bound);
                g1.lemma_try_commit(c, bound);
                let sub = g1.try_commit_within(c, bound);
                self.lemma_committed_stay_trans(g1, sub.0);
                sub.0.lemma_sound_commit_children(t, children, j + 1, bound);
                self.lemma_committed_stay_trans(
                    sub.0,
                    sub.0.commit_children(t, children, j + 1, bound).0,
                );
            } else {
                self.lemma_sound_commit_children(t, children, j + 1, bound);
            }
        }
    }

    /// Accepting the result of an event keeps the graph sound: the event
    /// counts as finished, and its transaction commits if it can.
    pub proof fn lemma_sound_accept(self, r: EvRef)
        requires
            self.wf(),
            self.sound(),
            self.has_ev(r),
        ensures
            self.accept(r).0.sound(),
            self.committed_stay(self.accept(r).0),
    {
        let e = self.ev(r);
        if e.status == EventStatus::CLAIMED {
            let e1 = e.with_status(EventStatus::ACCEPTED);
            let g1 = self.with_ev(r, e1);
            self.lemma_restate(r, e1);
            let n = g1.txn(r.txn);
            let n2 = TxnState {
                unfinished_events: if n.unfinished_events > 0 {
                    (n.unfinished_events - 1) as u16
                } else {
                    0
                },
                ..n
            };
            let g2 = g1.with_txn(r.txn, n2);
            g1.lemma_recount(r.txn, n2);
            assert forall|t: int| 0 <= t < self.nodes.len() implies (#[trigger] g2.nodes[t]).same_links(
                self.nodes[t],
            ) && g2.nodes[t].counted() by {
                assert(self.settled(t as usize));
                if t == r.txn {
                    lemma_unaccepted_update(self.nodes[t].ev_nodes, r.idx as int, e1);
                }
            }
            self.lemma_sound_events(g2);
            if g2.txn(r.txn).unfinished_events == 0 {
                g2.lemma_sound_try_commit(r.txn, g2.nodes.len());
                self.lemma_committed_stay_trans(g2, g2.try_commit(r.txn).0);
            }
        }
    }

    /// Aborting a transaction keeps the graph sound.
    pub proof fn lemma_sound_abort_txn(self, t: usize)
        requires
            self.wf(),
            self.sound(),
            self.has_txn(t),
        ensures
            self.abort_txn(t).0.sound(),
            self.committed_stay(self.abort_txn(t).0),
    {
        let n = self.txn(t);
        if n.status == TxnStatus::WAITING {
            let n1 = TxnState { status: TxnStatus::ABORTED, ..n };
            let g1 = self.with_txn(t, n1);
            assert(self.settled(t));
            assert(g1.settled(t)) by {
                assert forall|k: Seq<char>| #[trigger] n1.covered_by.contains_key(k) implies (
                n1.covered_by[k] matches Some(c) ==> c < g1.nodes.len() && ((g1.txn(
                    c,
                ).cover.contains_key(k) && g1.txn(c).cover[k] == Some(t)) || g1.txn(c).status
                    == TxnStatus::COMMITED)) by {
                    assert(n.covered_by.contains_key(k));
                    assert(self.txn_ok(t));
                }
            }
            self.lemma_sound_with_txn(t, n1);
            self.lemma_recount(t, n1);
            let count = n.ev_nodes.len() as int;
            g1.lemma_sound_abort_events(t, 0, count);
            g1.lemma_abort_events(t, 0, count);
            let a = g1.abort_events(t, 0, count);
            assert(a.0.nodes[t as int].same_links(g1.nodes[t as int]));
            g1.lemma_sound_events_stay(a.0);
            self.lemma_committed_stay_trans(g1, a.0);
            let n2 = TxnState { unfinished_events: 0, ..a.0.txn(t) };
            let g2 = a.0.with_txn(t, n2);
            assert forall|u: int| 0 <= u < a.0.nodes.len() implies (#[trigger] g2.nodes[u]).same_links(
                a.0.nodes[u],
            ) && g2.nodes[u].counted() by {
                assert(a.0.settled(u as usize));
            }
            a.0.lemma_sound_events(g2);
            a.0.lemma_recount(t, n2);
            self.lemma_committed_stay_trans(a.0, g2);
            g2.lemma_sound_try_commit(t, g2.nodes.len());
            self.lemma_committed_stay_trans(g2, g2.try_commit(t).0);
        }
    }

    /// Where the links are kept, what has committed stays committed.
    pub proof fn lemma_sound_events_stay(self, after: Graph)
        requires
            self.links_kept(after),
        ensures
            self.committed_stay(after),
    {
        assert forall|t: int|
            0 <= t < self.nodes.len() && (#[trigger] self.nodes[t]).status
                == TxnStatus::COMMITED implies after.nodes[t].status == TxnStatus::COMMITED by {
            assert(after.nodes[t].same_links(self.nodes[t]));
        }
    }
}

} // verus!
