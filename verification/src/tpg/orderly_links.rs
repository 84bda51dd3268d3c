use crate::ds::transactions::Txn;
use crate::external::ffi::TxnMessage;
use crate::tpg::model::{before, EvRef, EvState, EventStatus, Graph, TxnState, TxnStatus};
use crate::tpg::published::pending;
use vstd::prelude::*;

verus! {

impl TxnState {
    /// Whether one of the events reads `key`.
    pub open spec fn reads_key(self, key: Seq<char>) -> bool {
        exists|e: int, i: int|
            0 <= e < self.ev_nodes.len() && 0 <= i < self.ev_nodes[e].reads.len()
                && #[trigger] self.ev_nodes[e].reads[i] == key
    }
}

impl Graph {
    /// Transaction `t` comes in time: the last writer of each key that it
    /// reads, unless it is the transaction itself, still waits.
    pub open spec fn timely(self, t: usize) -> bool {
        forall|k: Seq<char>|
            #![trigger self.state_last_modify[k]]
            self.txn(t).reads_key(k) && self.state_last_modify.contains_key(k) ==> (
            self.state_last_modify[k] matches Some(w) ==> w.1 == t || self.txn(w.1).status
                == TxnStatus::WAITING)
    }

    /// Every producer of an event of transaction `t` is an event of the
    /// transaction itself or of one that still waits.
    pub open spec fn fed(self, t: usize) -> bool {
        forall|e: int, i: int|
            #![trigger self.txn(t).ev_nodes[e].read_from[i]]
            0 <= e < self.txn(t).ev_nodes.len() && 0 <= i < self.txn(t).ev_nodes[e].read_from.len()
                ==> (self.txn(t).ev_nodes[e].read_from[i] matches Some(p) ==> p.txn == t
                || self.txn(p.txn).status == TxnStatus::WAITING)
    }

    /// The reads of transaction `t` from read `upto` of event `idx` on are
    /// not linked yet.
    pub open spec fn unlinked_from(self, t: usize, idx: int, upto: int) -> bool {
        forall|e: int, i: int|
            #![trigger self.txn(t).ev_nodes[e].read_from[i]]
            0 <= e < self.txn(t).ev_nodes.len() && 0 <= i < self.txn(t).ev_nodes[e].read_from.len()
                && (e > idx || (e == idx && i >= upto)) ==> self.txn(
                t,
            ).ev_nodes[e].read_from[i] is None
    }

    /// Every event of transaction `t` is under construction.
    pub open spec fn building(self, t: usize) -> bool {
        forall|e: int|
            0 <= e < self.txn(t).ev_nodes.len() ==> (#[trigger] self.txn(t).ev_nodes[e]).status
                == EventStatus::CONSTRUCT
    }

    /// The graph is in order while the newest transaction `t`, which comes
    /// in time, is linked.
    pub open spec fn being_linked(self, t: usize, idx: int, upto: int) -> bool {
        &&& self.orderly()
        &&& self.building(t)
        &&& self.unlinked_from(t, idx, upto)
        &&& self.timely(t)
        &&& self.fed(t)
    }

    /// Linking a read keeps the graph in order.
    pub proof fn lemma_being_link_read(self, r: EvRef, i: int)
        requires
            self.linkable(r.txn, r.idx),
            self.has_ev(r),
            0 <= i < self.ev(r).reads.len(),
            self.being_linked(r.txn, r.idx as int, i),
        ensures
            self.link_read(r, i).being_linked(r.txn, r.idx as int, i + 1),
    {
        let t = r.txn;
        let g = self.link_read(r, i);
        let key = self.ev(r).reads[i];
        assert(self.txn_ok(t));
        assert(self.ev_ok(r));
        assert(self.state_last_modify.contains_key(key));
        self.lemma_link_read(r, i);
        assert(self.txn(t).ev_nodes[r.idx as int].read_from[i] is None);
        assert(self.txn(t).reads_key(key)) by {
            assert(self.txn(t).ev_nodes[r.idx as int].reads[i] == key);
        }
        match self.state_last_modify[key] {
            None => {
                assert(self.ev(r).read_from.update(i, None) =~= self.ev(r).read_from);
                assert(self.txn(t).ev_nodes.update(r.idx as int, self.ev(r)) =~= self.txn(
                    t,
                ).ev_nodes);
                assert(self.nodes.update(t as int, self.txn(t)) =~= self.nodes);
                assert(g == self);
            },
            Some(w) => {
                let p = w.0;
                assert(self.has_ev(p) && p.txn == w.1);
                assert(before(p, r));
                assert(w.1 == t || self.txn(w.1).status == TxnStatus::WAITING);
                self.lemma_link_read_shape(r, i, w);
                self.lemma_link_read_mutual(r, i, w);
                self.lemma_link_read_marks(r, i, w);
                self.lemma_link_read_rest(r, i, w);
            },
        }
    }

    /// What linking a read to the last writer `w` changes: the reader
    /// reads from the writer, the writer has one more reader, and the
    /// transactions keep their states.
    pub proof fn lemma_link_read_shape(self, r: EvRef, i: int, w: (EvRef, usize))
        requires
            self.wf(),
            self.has_ev(r),
            self.newest(r.txn),
            0 <= i < self.ev(r).reads.len(),
            self.state_last_modify.contains_key(self.ev(r).reads[i]),
            self.state_last_modify[self.ev(r).reads[i]] == Some(w),
            before(w.0, r),
        ensures
            ({
                let g = self.link_read(r, i);
                &&& g.nodes.len() == self.nodes.len()
                &&& g.ev(r) == (EvState {
                    read_from: self.ev(r).read_from.update(i, Some(w.0)),
                    ..self.ev(r)
                })
                &&& g.ev(w.0) == (EvState {
                    read_by: self.ev(w.0).read_by.push(r),
                    ..self.ev(w.0)
                })
                &&& forall|x: EvRef|
                    self.has_ev(x) && x != r && x != w.0 ==> #[trigger] g.ev(x) == self.ev(x)
                &&& forall|x: usize|
                    self.has_txn(x) ==> {
                        &&& (#[trigger] g.txn(x)).status == self.txn(x).status
                        &&& g.txn(x).ev_nodes.len() == self.txn(x).ev_nodes.len()
                        &&& x != r.txn ==> g.txn(x).read_from == self.txn(x).read_from
                        &&& x != w.1 ==> g.txn(x).read_by == self.txn(x).read_by
                    }
                &&& g.txn(w.1).read_by == self.txn(w.1).read_by || (w.1 != r.txn && g.txn(
                    w.1,
                ).read_by == self.txn(w.1).read_by.push(r.txn))
                &&& w.1 != r.txn ==> g.txn(w.1).read_by.contains(r.txn)
                &&& g.txn(r.txn).read_from.len() == self.txn(r.txn).read_from.len()
                &&& forall|s: int|
                    0 <= s < self.txn(r.txn).read_from.len() ==> (#[trigger] g.txn(
                        r.txn,
                    ).read_from[s]) == self.txn(r.txn).read_from[s] || (w.1 != r.txn && g.txn(
                        r.txn,
                    ).read_from[s] == Some(w.1))
                &&& g.state_last_modify == self.state_last_modify
            }),
    {
        let g = self.link_read(r, i);
        let p = w.0;
        assert(self.txn_ok(r.txn));
        assert(self.ev_ok(r));
        assert(self.has_ev(p) && p.txn == w.1);
        let e1 = EvState { read_from: self.ev(r).read_from.update(i, Some(p)), ..self.ev(r) };
        let g1 = self.with_ev(r, e1);
        let g2 = g1.add_read_by(p, r);
        assert(g1.ev(p) == self.ev(p));
        let e2 = EvState { read_by: g1.ev(p).read_by.push(r), ..g1.ev(p) };
        let g1b = g1.with_ev(p, e2);
        assert(g1b.ev(r) == e1);
        assert(g1b.ev(p) == e2);
        if p.txn != r.txn && !g1b.txn(p.txn).read_by.contains(r.txn) {
            assert(g2.txn(p.txn).read_by == self.txn(p.txn).read_by.push(r.txn));
            assert(g2.txn(p.txn).read_by[self.txn(p.txn).read_by.len() as int] == r.txn);
        }
        assert(g2.ev(r) == e1);
        assert(g2.ev(p) == e2);
        assert forall|x: EvRef| self.has_ev(x) && x != r && x != p implies #[trigger] g.ev(x)
            == self.ev(x) by {
            assert(g1.ev(x) == self.ev(x));
            assert(g1b.ev(x) == self.ev(x));
            assert(g2.ev(x) == self.ev(x));
        }
    }

    /// Linking a read keeps the links mutual.
    pub proof fn lemma_link_read_mutual(self, r: EvRef, i: int, w: (EvRef, usize))
        requires
            self.wf(),
            self.mutual(),
            self.has_ev(r),
            self.newest(r.txn),
            0 <= i < self.ev(r).reads.len(),
            self.state_last_modify.contains_key(self.ev(r).reads[i]),
            self.state_last_modify[self.ev(r).reads[i]] == Some(w),
            before(w.0, r),
            self.ev(r).read_from[i] is None,
            self.link_read(r, i).wf(),
        ensures
            self.link_read(r, i).mutual(),
    {
        let g = self.link_read(r, i);
        let p = w.0;
        self.lemma_link_read_shape(r, i, w);
        assert(self.txn_ok(r.txn));
        assert(self.ev_ok(r));
        assert(self.has_ev(p) && p.txn == w.1);
        assert forall|x: EvRef, k: int|
            #![trigger g.ev(x).read_from[k]]
            g.has_ev(x) && 0 <= k < g.ev(x).read_from.len() implies (g.ev(
            x,
        ).read_from[k] matches Some(q) ==> g.ev(q).read_by.contains(x)) by {
            assert(self.has_ev(x));
            assert(self.txn_ok(x.txn));
            assert(self.ev_ok(x));
            match g.ev(x).read_from[k] {
                Some(q) => {
                    if x == r && k == i {
                        assert(q == p);
                        assert(g.ev(p).read_by[self.ev(p).read_by.len() as int] == r);
                    } else {
                        if x == r {
                            assert(self.ev(x).read_from[k] == Some(q));
                        } else if x == p {
                            assert(self.ev(x).read_from[k] == Some(q));
                        } else {
                            assert(g.ev(x) == self.ev(x));
                        }
                        assert(self.ev(x).read_from[k] == Some(q));
                        assert(self.has_ev(q));
                        assert(self.ev(q).read_by.contains(x));
                        let j = choose|j: int|
                            0 <= j < self.ev(q).read_by.len() && self.ev(q).read_by[j] == x;
                        if q == p {
                            assert(g.ev(q).read_by[j] == x);
                        } else if q == r {
                            assert(g.ev(q).read_by == self.ev(q).read_by);
                        } else {
                            assert(g.ev(q) == self.ev(q));
                        }
                    }
                },
                None => {},
            }
        }
        assert forall|q: EvRef, j: int|
            #![trigger g.ev(q).read_by[j]]
            g.has_ev(q) && 0 <= j < g.ev(q).read_by.len() implies g.ev(
            g.ev(q).read_by[j],
        ).read_from.contains(Some(q)) by {
            assert(self.has_ev(q));
            assert(self.txn_ok(q.txn));
            assert(self.ev_ok(q));
            let x = g.ev(q).read_by[j];
            if q == p && j == self.ev(p).read_by.len() {
                assert(x == r);
                assert(g.ev(r).read_from[i] == Some(p));
            } else {
                if q == p {
                    assert(self.ev(q).read_by[j] == x);
                } else if q == r {
                    assert(g.ev(q).read_by == self.ev(q).read_by);
                } else {
                    assert(g.ev(q) == self.ev(q));
                }
                assert(self.ev(q).read_by[j] == x);
                assert(self.has_ev(x));
                assert(self.ev(x).read_from.contains(Some(q)));
                let k = choose|k: int|
                    0 <= k < self.ev(x).read_from.len() && self.ev(x).read_from[k] == Some(q);
                if x == r {
                    assert(k != i);
                    assert(g.ev(x).read_from[k] == Some(q));
                } else if x == p {
                    assert(g.ev(x).read_from == self.ev(x).read_from);
                    assert(g.ev(x).read_from[k] == Some(q));
                } else {
                    assert(g.ev(x) == self.ev(x));
                }
            }
        }
        assert forall|x: usize, s: int|
            #![trigger g.txn(x).read_from[s]]
            g.has_txn(x) && 0 <= s < g.txn(x).read_from.len() implies (g.txn(
            x,
        ).read_from[s] matches Some(q) ==> g.txn(q).read_by.contains(x)) by {
            assert(self.has_txn(x));
            assert(self.txn_ok(x));
            match g.txn(x).read_from[s] {
                Some(q) => {
                    if self.txn(x).read_from[s] == Some(q) {
                        assert(self.txn(q).read_by.contains(x));
                        let j = choose|j: int|
                            0 <= j < self.txn(q).read_by.len() && self.txn(q).read_by[j] == x;
                        if q == w.1 {
                            assert(g.txn(q).read_by[j] == x);
                        } else {
                            assert(g.txn(q).read_by == self.txn(q).read_by);
                        }
                    } else {
                        assert(x == r.txn);
                        assert(g.txn(r.txn).read_from[s] == self.txn(r.txn).read_from[s] || (w.1
                            != r.txn && g.txn(r.txn).read_from[s] == Some(w.1)));
                        assert(q == w.1);
                    }
                },
                None => {},
            }
        }
    }

    /// Linking a read of an event under construction keeps the marks in
    /// line.
    pub proof fn lemma_link_read_marks(self, r: EvRef, i: int, w: (EvRef, usize))
        requires
            self.wf(),
            self.marks(Set::empty(), Set::empty()),
            self.has_ev(r),
            self.newest(r.txn),
            0 <= i < self.ev(r).reads.len(),
            self.state_last_modify.contains_key(self.ev(r).reads[i]),
            self.state_last_modify[self.ev(r).reads[i]] == Some(w),
            before(w.0, r),
            self.ev(r).status == EventStatus::CONSTRUCT,
        ensures
            self.link_read(r, i).marks(Set::empty(), Set::empty()),
    {
        let g = self.link_read(r, i);
        let p = w.0;
        let none = Set::<EvRef>::empty();
        self.lemma_link_read_shape(r, i, w);
        assert forall|x: EvRef| g.has_ev(x) implies #[trigger] g.marked(x, none, none) by {
            assert(self.has_ev(x));
            assert(self.marked(x, none, none));
            assert(self.txn_ok(x.txn));
            assert(self.ev_ok(x));
            if x == r {
            } else {
                if x != p {
                    assert(g.ev(x) == self.ev(x));
                }
                let e = g.ev(x);
                crate::tpg::marks::lemma_no_waiting_same(e, self.ev(x));
                if e.status == EventStatus::WAITING {
                    assert forall|k: int|
                        0 <= k < e.fulfilled.len() && !(#[trigger] e.fulfilled[k]) implies (
                    e.read_from[k] matches Some(q) && (pending(g.ev(q).status) || none.contains(
                        q,
                    ))) by {
                        assert(!self.ev(x).fulfilled[k]);
                        match self.ev(x).read_from[k] {
                            Some(q) => {
                                assert(self.has_ev(q));
                                if q != r && q != p {
                                    assert(g.ev(q) == self.ev(q));
                                }
                            },
                            None => {},
                        }
                    }
                }
            }
        }
    }

    /// Linking a read of a transaction that comes in time leaves no
    /// committed parent awaited, and the transaction in time.
    pub proof fn lemma_link_read_rest(self, r: EvRef, i: int, w: (EvRef, usize))
        requires
            self.wf(),
            self.has_ev(r),
            self.newest(r.txn),
            0 <= i < self.ev(r).reads.len(),
            self.state_last_modify.contains_key(self.ev(r).reads[i]),
            self.state_last_modify[self.ev(r).reads[i]] == Some(w),
            before(w.0, r),
            w.1 == r.txn || self.txn(w.1).status == TxnStatus::WAITING,
            self.aborted_together(),
            self.awaits_pending(Set::empty()),
            self.building(r.txn),
            self.unlinked_from(r.txn, r.idx as int, i),
            self.timely(r.txn),
            self.fed(r.txn),
        ensures
            self.link_read(r, i).aborted_together(),
            self.link_read(r, i).awaits_pending(Set::empty()),
            self.link_read(r, i).building(r.txn),
            self.link_read(r, i).unlinked_from(r.txn, r.idx as int, i + 1),
            self.link_read(r, i).timely(r.txn),
            self.link_read(r, i).fed(r.txn),
    {
        let g = self.link_read(r, i);
        let p = w.0;
        let t = r.txn;
        self.lemma_link_read_shape(r, i, w);
        assert(self.txn_ok(t));
        assert(self.ev_ok(r));
        assert(self.has_ev(p) && p.txn == w.1);
        assert forall|x: EvRef| g.has_ev(x) implies (#[trigger] g.ev(x)).status == self.ev(
            x,
        ).status by {
            if x != r && x != p {
                assert(g.ev(x) == self.ev(x));
            }
        }
        assert(g.aborted_together()) by {
            assert forall|x: EvRef|
                g.has_ev(x) && (#[trigger] g.ev(x)).status == EventStatus::ABORTED implies g.txn(
                x.txn,
            ).status != TxnStatus::WAITING by {
                assert(self.ev(x).status == EventStatus::ABORTED);
            }
            assert forall|u: int| 0 <= u < g.nodes.len() implies (#[trigger] g.nodes[u]).ev_nodes.len()
                > 0 by {
                assert(g.txn(u as usize).ev_nodes.len() == self.txn(u as usize).ev_nodes.len());
                assert(self.nodes[u].ev_nodes.len() > 0);
            }
        }
        assert(g.awaits_pending(Set::empty())) by {
            assert forall|x: usize, s: int|
                #![trigger g.txn(x).read_from[s]]
                g.has_txn(x) && 0 <= s < g.txn(x).read_from.len() implies (g.txn(
                x,
            ).read_from[s] matches Some(q) ==> g.txn(q).status != TxnStatus::COMMITED) by {
                assert(self.txn_ok(x));
                match g.txn(x).read_from[s] {
                    Some(q) => {
                        if self.txn(x).read_from[s] == Some(q) {
                            assert(g.txn(q).status == self.txn(q).status);
                        } else {
                            assert(x == t);
                            assert(g.txn(t).read_from[s] == self.txn(t).read_from[s] || (w.1 != t
                                && g.txn(t).read_from[s] == Some(w.1)));
                            assert(q == w.1);
                            assert(g.txn(q).status == self.txn(q).status);
                        }
                    },
                    None => {},
                }
            }
        }
        assert(g.building(t)) by {
            assert forall|e: int| 0 <= e < g.txn(t).ev_nodes.len() implies (#[trigger] g.txn(
                t,
            ).ev_nodes[e]).status == EventStatus::CONSTRUCT by {
                let x = EvRef { txn: t, idx: e as usize };
                assert(g.ev(x).status == self.ev(x).status);
                assert(self.txn(t).ev_nodes[e].status == EventStatus::CONSTRUCT);
            }
        }
        assert(g.unlinked_from(t, r.idx as int, i + 1)) by {
            assert forall|e: int, k: int|
                #![trigger g.txn(t).ev_nodes[e].read_from[k]]
                0 <= e < g.txn(t).ev_nodes.len() && 0 <= k < g.txn(t).ev_nodes[e].read_from.len()
                    && (e > r.idx || (e == r.idx && k >= i + 1)) implies g.txn(
                t,
            ).ev_nodes[e].read_from[k] is None by {
                let x = EvRef { txn: t, idx: e as usize };
                assert(self.has_ev(x));
                if x == r {
                    assert(g.ev(x).read_from[k] == self.ev(x).read_from[k]);
                } else if x == p {
                    assert(g.ev(x).read_from == self.ev(x).read_from);
                } else {
                    assert(g.ev(x) == self.ev(x));
                }
                assert(self.txn(t).ev_nodes[e].read_from[k] is None);
            }
        }
        assert(g.timely(t)) by {
            assert forall|k: Seq<char>|
                #![trigger g.state_last_modify[k]]
                g.txn(t).reads_key(k) && g.state_last_modify.contains_key(k) implies (
            g.state_last_modify[k] matches Some(v) ==> v.1 == t || g.txn(v.1).status
                == TxnStatus::WAITING) by {
                let (e, j) = choose|e: int, j: int|
                    0 <= e < g.txn(t).ev_nodes.len() && 0 <= j < g.txn(t).ev_nodes[e].reads.len()
                        && #[trigger] g.txn(t).ev_nodes[e].reads[j] == k;
                let x = EvRef { txn: t, idx: e as usize };
                assert(self.has_ev(x));
                if x != r && x != p {
                    assert(g.ev(x) == self.ev(x));
                }
                assert(self.txn(t).ev_nodes[e].reads[j] == k);
                assert(self.txn(t).reads_key(k));
                match self.state_last_modify[k] {
                    Some(v) => {
                        assert(self.has_ev(v.0) && v.0.txn == v.1);
                        assert(g.txn(v.1).status == self.txn(v.1).status);
                    },
                    None => {},
                }
            }
        }
        assert(g.fed(t)) by {
            assert forall|e: int, k: int|
                #![trigger g.txn(t).ev_nodes[e].read_from[k]]
                0 <= e < g.txn(t).ev_nodes.len() && 0 <= k < g.txn(
                    t,
                ).ev_nodes[e].read_from.len() implies (g.txn(
                t,
            ).ev_nodes[e].read_from[k] matches Some(q) ==> q.txn == t || g.txn(q.txn).status
                == TxnStatus::WAITING) by {
                let x = EvRef { txn: t, idx: e as usize };
                assert(self.has_ev(x));
                assert(self.txn_ok(t));
                assert(self.ev_ok(x));
                if x == r && k == i {
                    assert(g.ev(r).read_from[i] == Some(p));
                    assert(g.txn(p.txn).status == self.txn(p.txn).status);
                } else {
                    if x == r {
                        assert(g.ev(x).read_from[k] == self.ev(x).read_from[k]);
                    } else if x == p {
                        assert(g.ev(x).read_from == self.ev(x).read_from);
                    } else {
                        assert(g.ev(x) == self.ev(x));
                    }
                    match self.txn(t).ev_nodes[e].read_from[k] {
                        Some(q) => {
                            assert(self.has_ev(q));
                            assert(g.txn(q.txn).status == self.txn(q.txn).status);
                        },
                        None => {},
                    }
                }
            }
        }
    }

    /// Linking the reads of an event keeps the graph in order.
    pub proof fn lemma_being_link_reads(self, r: EvRef, upto: int)
        requires
            self.linkable(r.txn, r.idx),
            self.has_ev(r),
            0 <= upto <= self.ev(r).reads.len(),
            self.being_linked(r.txn, r.idx as int, 0),
        ensures
            self.link_reads(r, upto).being_linked(r.txn, r.idx as int, upto),
        decreases upto,
    {
        if upto > 0 {
            self.lemma_being_link_reads(r, upto - 1);
            self.lemma_linking_reads(r, upto - 1);
            let g1 = self.link_reads(r, upto - 1);
            assert(g1.nodes[r.txn as int].same_keys(self.nodes[r.txn as int]));
            assert(g1.ev(r).reads == self.ev(r).reads);
            g1.lemma_being_link_read(r, upto - 1);
        }
    }

    /// Linking the write of an event keeps the graph in order.
    pub proof fn lemma_being_link_write(self, r: EvRef)
        requires
            self.linkable(r.txn, r.idx),
            self.has_ev(r),
            self.ev(r).has_write ==> self.state_last_modify.contains_key(self.ev(r).write),
            self.being_linked(r.txn, r.idx as int, self.ev(r).reads.len() as int),
        ensures
            self.link_write(r).being_linked(r.txn, r.idx + 1, 0),
    {
        let g = self.link_write(r);
        let t = r.txn;
        let none = Set::<EvRef>::empty();
        self.lemma_link_write(r);
        assert(self.txn_ok(t));
        assert(self.ev_ok(r));
        assert(g.nodes.len() == self.nodes.len());
        assert forall|u: int| 0 <= u < self.nodes.len() implies {
            &&& (#[trigger] g.nodes[u]).ev_nodes == self.nodes[u].ev_nodes
            &&& g.nodes[u].status == self.nodes[u].status
            &&& g.nodes[u].read_from == self.nodes[u].read_from
            &&& g.nodes[u].read_by == self.nodes[u].read_by
        } by {}
        assert(self.steady(g));
        self.lemma_mutual_kept(g);
        self.lemma_together_kept(g);
        self.lemma_marks_same_events(g, none, none);
        assert(self.slots_same(g));
        self.lemma_awaits_kept(g, Set::empty());
        assert(g.building(t)) by {
            assert forall|e: int| 0 <= e < g.txn(t).ev_nodes.len() implies (#[trigger] g.txn(
                t,
            ).ev_nodes[e]).status == EventStatus::CONSTRUCT by {
                assert(self.txn(t).ev_nodes[e].status == EventStatus::CONSTRUCT);
            }
        }
        assert(g.unlinked_from(t, r.idx + 1, 0)) by {
            assert forall|e: int, k: int|
                #![trigger g.txn(t).ev_nodes[e].read_from[k]]
                0 <= e < g.txn(t).ev_nodes.len() && 0 <= k < g.txn(t).ev_nodes[e].read_from.len()
                    && (e > r.idx + 1 || (e == r.idx + 1 && k >= 0)) implies g.txn(
                t,
            ).ev_nodes[e].read_from[k] is None by {
                assert(self.txn(t).ev_nodes[e].read_from[k] is None);
            }
        }
        assert(g.timely(t)) by {
            assert forall|k: Seq<char>|
                #![trigger g.state_last_modify[k]]
                g.txn(t).reads_key(k) && g.state_last_modify.contains_key(k) implies (
            g.state_last_modify[k] matches Some(v) ==> v.1 == t || g.txn(v.1).status
                == TxnStatus::WAITING) by {
                assert(self.txn(t).reads_key(k)) by {
                    let (e, j) = choose|e: int, j: int|
                        0 <= e < g.txn(t).ev_nodes.len() && 0 <= j < g.txn(
                            t,
                        ).ev_nodes[e].reads.len() && #[trigger] g.txn(t).ev_nodes[e].reads[j] == k;
                    assert(self.txn(t).ev_nodes[e].reads[j] == k);
                }
                if self.ev(r).has_write && k == self.ev(r).write {
                } else {
                    assert(g.state_last_modify[k] == self.state_last_modify[k]);
                    match self.state_last_modify[k] {
                        Some(v) => {
                            assert(self.has_ev(v.0) && v.0.txn == v.1);
                        },
                        None => {},
                    }
                }
            }
        }
        assert(g.fed(t)) by {
            assert forall|e: int, k: int|
                #![trigger g.txn(t).ev_nodes[e].read_from[k]]
                0 <= e < g.txn(t).ev_nodes.len() && 0 <= k < g.txn(
                    t,
                ).ev_nodes[e].read_from.len() implies (g.txn(
                t,
            ).ev_nodes[e].read_from[k] matches Some(q) ==> q.txn == t || g.txn(q.txn).status
                == TxnStatus::WAITING) by {
                let x = EvRef { txn: t, idx: e as usize };
                assert(self.ev_ok(x));
                match self.txn(t).ev_nodes[e].read_from[k] {
                    Some(q) => {
                        assert(self.has_ev(q));
                    },
                    None => {},
                }
            }
        }
    }

    /// Linking an event keeps the graph in order.
    pub proof fn lemma_being_link_event(self, r: EvRef)
        requires
            self.linkable(r.txn, r.idx),
            self.has_ev(r),
            self.being_linked(r.txn, r.idx as int, 0),
        ensures
            self.link_event(r).being_linked(r.txn, r.idx + 1, 0),
    {
        assert(self.txn_ok(r.txn));
        let count = self.ev(r).reads.len() as int;
        self.lemma_being_link_reads(r, count);
        self.lemma_linking_reads(r, count);
        let g1 = self.link_reads(r, count);
        assert(g1.nodes[r.txn as int].same_keys(self.nodes[r.txn as int]));
        assert(self.txn(r.txn).ev_nodes[r.idx as int].has_write
            ==> self.state_last_modify.contains_key(self.txn(r.txn).ev_nodes[r.idx as int].write));
        g1.lemma_being_link_write(r);
    }

    /// Linking the events of a transaction keeps the graph in order.
    pub proof fn lemma_being_link_events(self, t: usize, upto: int)
        requires
            self.linkable(t, 0),
            0 <= upto <= self.txn(t).ev_nodes.len(),
            self.being_linked(t, 0, 0),
        ensures
            self.link_events(t, upto).being_linked(t, upto, 0),
        decreases upto,
    {
        if upto > 0 {
            self.lemma_being_link_events(t, upto - 1);
            self.lemma_linking_events(t, upto - 1);
            let g1 = self.link_events(t, upto - 1);
            let r = EvRef { txn: t, idx: (upto - 1) as usize };
            assert(g1.nodes[t as int].same_keys(self.nodes[t as int]));
            assert(self.txn_ok(t));
            g1.lemma_being_link_event(r);
        }
    }

    /// The message `msg` comes in time: its template has events, and the
    /// last writer of each key that the transaction would read still
    /// waits.
    pub open spec fn in_time(self, msg: TxnMessage, templates: Vec<Txn>) -> bool {
        self.accepts(msg, templates) ==> {
            &&& self.message_txn(msg, templates).ev_nodes.len() > 0
            &&& forall|k: Seq<char>|
                #![trigger self.state_last_modify[k]]
                self.message_txn(msg, templates).reads_key(k)
                    && self.state_last_modify.contains_key(k) ==> (
                self.state_last_modify[k] matches Some(w) ==> self.txn(w.1).status
                    == TxnStatus::WAITING)
        }
    }

    /// The last writer of `key`, if the index has one, still waits.
    pub open spec fn waited_for(self, key: Seq<char>) -> bool {
        self.state_last_modify.contains_key(key) ==> (self.state_last_modify[key] matches Some(w)
            ==> self.txn(w.1).status == TxnStatus::WAITING)
    }

    /// Transaction `t`, which is not linked yet, has come in time: it has an
    /// event, and the last writer of each key that it reads still waits.
    pub open spec fn came_in_time(self, t: usize) -> bool {
        &&& self.txn(t).ev_nodes.len() > 0
        &&& forall|k: Seq<char>|
            #![trigger self.state_last_modify[k]]
            self.txn(t).reads_key(k) && self.state_last_modify.contains_key(k) ==> (
            self.state_last_modify[k] matches Some(w) ==> self.txn(w.1).status
                == TxnStatus::WAITING)
    }

    /// A legal message comes in time exactly if its transaction, once it
    /// is added, has come in time.
    pub proof fn lemma_came_in_time(self, msg: TxnMessage, templates: Vec<Txn>)
        requires
            self.wf(),
            self.accepts(msg, templates),
            self.nodes.len() < usize::MAX,
        ensures
            self.in_time(msg, templates) == self.enlisted(msg, templates).came_in_time(
                self.nodes.len() as usize,
            ),
    {
        let g = self.enlisted(msg, templates);
        let t = self.nodes.len() as usize;
        assert(g.txn(t) == self.message_txn(msg, templates));
        assert(g.state_last_modify == self.state_last_modify);
        assert forall|k: Seq<char>|
            self.state_last_modify.contains_key(k) implies (
        #[trigger] self.state_last_modify[k] matches Some(w) ==> g.txn(w.1) == self.txn(w.1)) by {
            match self.state_last_modify[k] {
                Some(w) => {
                    assert(self.has_ev(w.0) && w.0.txn == w.1);
                },
                None => {},
            }
        }
    }

    /// Adding the transaction of a message that comes in time keeps the
    /// graph in order.
    pub proof fn lemma_being_enlisted(self, msg: TxnMessage, templates: Vec<Txn>)
        requires
            self.wf(),
            self.orderly(),
            self.accepts(msg, templates),
            self.in_time(msg, templates),
            self.nodes.len() < usize::MAX,
        ensures
            self.enlisted(msg, templates).being_linked(self.nodes.len() as usize, 0, 0),
    {
        let g = self.enlisted(msg, templates);
        let n = self.message_txn(msg, templates);
        let t = self.nodes.len() as usize;
        let none = Set::<EvRef>::empty();
        self.lemma_enlisted(msg, templates);
        assert(g.txn(t) == n);
        assert forall|x: usize| self.has_txn(x) implies #[trigger] g.txn(x) == self.txn(x) by {}
        assert forall|x: EvRef| self.has_ev(x) implies #[trigger] g.ev(x) == self.ev(x) by {}
        assert forall|e: int| 0 <= e < n.ev_nodes.len() implies {
            &&& (#[trigger] n.ev_nodes[e]).status == EventStatus::CONSTRUCT
            &&& n.ev_nodes[e].read_by.len() == 0
            &&& forall|i: int|
                0 <= i < n.ev_nodes[e].read_from.len() ==> n.ev_nodes[e].read_from[i] is None
        } by {}
        assert(g.mutual()) by {
            assert forall|r: EvRef, i: int|
                #![trigger g.ev(r).read_from[i]]
                g.has_ev(r) && 0 <= i < g.ev(r).read_from.len() implies (g.ev(
                r,
            ).read_from[i] matches Some(p) ==> g.ev(p).read_by.contains(r)) by {
                if r.txn < t {
                    assert(self.has_ev(r));
                    assert(self.txn_ok(r.txn));
                    assert(self.ev_ok(r));
                    match self.ev(r).read_from[i] {
                        Some(p) => {
                            assert(self.has_ev(p));
                        },
                        None => {},
                    }
                } else {
                    assert(g.ev(r) == n.ev_nodes[r.idx as int]);
                }
            }
            assert forall|p: EvRef, j: int|
                #![trigger g.ev(p).read_by[j]]
                g.has_ev(p) && 0 <= j < g.ev(p).read_by.len() implies g.ev(
                g.ev(p).read_by[j],
            ).read_from.contains(Some(p)) by {
                if p.txn < t {
                    assert(self.has_ev(p));
                    assert(self.txn_ok(p.txn));
                    assert(self.ev_ok(p));
                    assert(self.has_ev(self.ev(p).read_by[j]));
                } else {
                    assert(g.ev(p) == n.ev_nodes[p.idx as int]);
                }
            }
            assert forall|x: usize, i: int|
                #![trigger g.txn(x).read_from[i]]
                g.has_txn(x) && 0 <= i < g.txn(x).read_from.len() implies (g.txn(
                x,
            ).read_from[i] matches Some(p) ==> g.txn(p).read_by.contains(x)) by {
                if x < t {
                    assert(self.txn_ok(x));
                    match self.txn(x).read_from[i] {
                        Some(p) => {
                            assert(self.has_txn(p));
                        },
                        None => {},
                    }
                }
            }
        }
        assert(g.aborted_together()) by {
            assert forall|r: EvRef|
                g.has_ev(r) && (#[trigger] g.ev(r)).status == EventStatus::ABORTED implies g.txn(
                r.txn,
            ).status != TxnStatus::WAITING by {
                if r.txn < t {
                    assert(self.has_ev(r));
                    assert(self.ev(r).status == EventStatus::ABORTED);
                } else {
                    assert(g.ev(r) == n.ev_nodes[r.idx as int]);
                }
            }
            assert forall|u: int| 0 <= u < g.nodes.len() implies (#[trigger] g.nodes[u]).ev_nodes.len()
                > 0 by {
                if u < t {
                    assert(self.nodes[u].ev_nodes.len() > 0);
                }
            }
        }
        assert(g.marks(none, none)) by {
            assert forall|r: EvRef| g.has_ev(r) implies #[trigger] g.marked(r, none, none) by {
                if r.txn < t {
                    assert(self.has_ev(r));
                    assert(self.marked(r, none, none));
                    assert(self.txn_ok(r.txn));
                    assert(self.ev_ok(r));
                    let e = self.ev(r);
                    if e.status == EventStatus::WAITING {
                        assert forall|i: int|
                            0 <= i < e.fulfilled.len() && !(#[trigger] e.fulfilled[i]) implies (
                        e.read_from[i] matches Some(p) && (pending(g.ev(p).status)
                            || none.contains(p))) by {
                            match e.read_from[i] {
                                Some(p) => {
                                    assert(self.has_ev(p));
                                },
                                None => {},
                            }
                        }
                    }
                } else {
                    assert(g.ev(r) == n.ev_nodes[r.idx as int]);
                }
            }
        }
        assert(g.awaits_pending(Set::empty())) by {
            assert forall|x: usize, i: int|
                #![trigger g.txn(x).read_from[i]]
                g.has_txn(x) && 0 <= i < g.txn(x).read_from.len() implies (g.txn(
                x,
            ).read_from[i] matches Some(p) ==> g.txn(p).status != TxnStatus::COMMITED) by {
                if x < t {
                    assert(self.txn_ok(x));
                    match self.txn(x).read_from[i] {
                        Some(p) => {
                            assert(self.has_txn(p));
                        },
                        None => {},
                    }
                }
            }
        }
        assert(g.timely(t)) by {
            assert forall|k: Seq<char>|
                #![trigger g.state_last_modify[k]]
                g.txn(t).reads_key(k) && g.state_last_modify.contains_key(k) implies (
            g.state_last_modify[k] matches Some(v) ==> v.1 == t || g.txn(v.1).status
                == TxnStatus::WAITING) by {
                match self.state_last_modify[k] {
                    Some(v) => {
                        assert(self.has_ev(v.0) && v.0.txn == v.1);
                    },
                    None => {},
                }
            }
        }
    }
}

} // verus!
