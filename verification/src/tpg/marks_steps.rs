use crate::tpg::model::{EvRef, EvState, Graph};
use vstd::prelude::*;

verus! {

impl Graph {
    /// Following up the events `j..count` of a transaction keeps the marks
    /// in line, and none of these events need be exempt any more.
    pub proof fn lemma_marks_follow_up(self, t: usize, j: int, count: int)
        requires
            self.wf(),
            self.mutual(),
            self.has_txn(t),
            0 <= j <= count <= self.txn(t).ev_nodes.len(),
            self.marks(Set::new(|x: EvRef| x.txn == t && x.idx >= j), Set::empty()),
        ensures
            self.follow_up(t, j, count).0.marks(
                Set::new(|x: EvRef| x.txn == t && x.idx >= count),
                Set::empty(),
            ),
        decreases count - j,
    {
        if j < count {
            let r = EvRef { txn: t, idx: j as usize };
            let exempt = Set::new(|x: EvRef| x.txn == t && x.idx >= j);
            let fewer = Set::new(|x: EvRef| x.txn == t && x.idx >= j + 1);
            self.lemma_get_next(r);
            self.lemma_marks_get_next(r, exempt, Set::empty());
            self.lemma_steady_get_next(r);
            let n = self.get_next(r);
            self.lemma_mutual_kept(n.0);
            assert(exempt.remove(r).subset_of(fewer));
            n.0.lemma_marks_weaken(exempt.remove(r), Set::empty(), fewer, Set::empty());
            assert(n.0.nodes[t as int].same_keys(self.nodes[t as int]));
            n.0.lemma_marks_follow_up(t, j + 1, count);
        }
    }

    /// Taking the result of an event keeps the marks in line.
    pub proof fn lemma_marks_complete(self, r: EvRef, value: Seq<u8>)
        requires
            self.wf(),
            self.mutual(),
            self.has_ev(r),
            self.marks(Set::empty(), Set::empty()),
        ensures
            self.complete(r, value).1.marks(Set::empty(), Set::empty()),
    {
        let a = self.accept(r);
        if !self.txn(r.txn).dropped && a.1 {
            let none = Set::<EvRef>::empty();
            let one = none.insert(r);
            self.lemma_marks_accept(r, none, none);
            self.lemma_accept(r);
            self.lemma_steady_accept(r);
            self.lemma_mutual_kept(a.0);
            assert(a.0.nodes[r.txn as int].same_keys(self.nodes[r.txn as int]));
            a.0.lemma_restate(
                r,
                EvState { has_storage_slot: true, written: value, ..a.0.ev(r) },
            );
            a.0.lemma_marks_write_back(r, value, one, none);
            a.0.lemma_steady_write_back(r, value);
            let w = a.0.write_back(r, value);
            a.0.lemma_mutual_kept(w.0);
            assert(w.0.nodes[r.txn as int].same_keys(a.0.nodes[r.txn as int]));
            w.0.lemma_marks_get_next(r, one, none);
            w.0.lemma_get_next(r);
            let n = w.0.get_next(r);
            assert(one.remove(r).subset_of(none));
            n.0.lemma_marks_weaken(one.remove(r), none, none, none);
            n.0.lemma_quiet_sweep(n.0.nodes.len() as int);
            n.0.lemma_marks_same_events(n.0.collect().0, none, none);
        }
    }

    /// Taking the abort of an event keeps the marks in line.
    pub proof fn lemma_marks_fail(self, r: EvRef)
        requires
            self.wf(),
            self.mutual(),
            self.has_ev(r),
            self.marks(Set::empty(), Set::empty()),
        ensures
            self.fail(r).0.marks(Set::empty(), Set::empty()),
    {
        let t = r.txn;
        let none = Set::<EvRef>::empty();
        self.lemma_marks_abort_txn(t);
        self.lemma_abort_txn(t);
        self.lemma_steady_abort_txn(t);
        let a = self.abort_txn(t);
        self.lemma_mutual_kept(a.0);
        assert(a.0.nodes[t as int].same_keys(self.nodes[t as int]));
        let count = a.0.txn(t).ev_nodes.len() as int;
        let all = Set::new(|x: EvRef| x.txn == t);
        let from = Set::new(|x: EvRef| x.txn == t && x.idx >= 0);
        assert(all.subset_of(from));
        a.0.lemma_marks_weaken(all, none, from, none);
        a.0.lemma_marks_follow_up(t, 0, count);
        a.0.lemma_follow_up(t, 0, count);
        let n = a.0.follow_up(t, 0, count);
        let beyond = Set::new(|x: EvRef| x.txn == t && x.idx >= count);
        assert(n.0.nodes[t as int].same_keys(a.0.nodes[t as int]));
        assert forall|x: EvRef| beyond.contains(x) implies !n.0.has_ev(x) by {}
        n.0.lemma_marks_exempt_none(beyond, none);
        n.0.lemma_quiet_sweep(n.0.nodes.len() as int);
        n.0.lemma_marks_same_events(n.0.collect().0, none, none);
    }
}

} // verus!
