use crate::tpg::marks::lemma_no_waiting_same;
use crate::tpg::model::{EvRef, EvState, EventStatus, Graph};
use crate::tpg::published::pending;
use vstd::prelude::*;

verus! {

impl EvState {
    /// The event is not one that waits though every read is satisfied.
    pub open spec fn placed(self) -> bool {
        !(self.status == EventStatus::WAITING && self.no_waiting())
    }

    /// Every read from `producer` is marked as satisfied.
    pub open spec fn told(self, producer: EvRef) -> bool {
        forall|i: int|
            0 <= i < self.fulfilled.len() && i < self.read_from.len() && self.read_from[i] == Some(
                producer,
            ) ==> #[trigger] self.fulfilled[i]
    }
}

impl Graph {
    /// Telling the readers keeps the marks in line, as long as those told
    /// are loose: one of them may be ready now.
    pub proof fn lemma_marks_tell_readers(
        self,
        r: EvRef,
        children: Seq<EvRef>,
        j: int,
        exempt: Set<EvRef>,
        loose: Set<EvRef>,
    )
        requires
            self.wf(),
            self.marks(exempt, loose),
            forall|k: int| 0 <= k < children.len() ==> loose.contains(#[trigger] children[k]),
        ensures
            self.tell_readers(r, children, j).marks(exempt, loose),
        decreases children.len() - j,
    {
        if 0 <= j < children.len() {
            if self.has_ev(children[j]) {
                let c = children[j];
                let e = self.ev(c);
                let e2 = e.with_flags_of(r, true);
                assert(self.marked(c, exempt, loose));
                assert(e.no_waiting() ==> e2.no_waiting());
                assert(loose.contains(children[j]));
                self.lemma_marks_restate(c, e2, exempt, loose);
                self.lemma_restate(c, e2);
                let g1 = self.with_ev(c, e2);
                g1.lemma_marks_tell_readers(r, children, j + 1, exempt, loose);
            } else {
                self.lemma_marks_tell_readers(r, children, j + 1, exempt, loose);
            }
        }
    }

    /// After the readers were told, each of them has every read from the
    /// producer marked, and so has every event that had before.
    pub proof fn lemma_told(self, r: EvRef, children: Seq<EvRef>, j: int)
        requires
            self.wf(),
        ensures
            forall|c: EvRef|
                self.has_ev(c) && self.ev(c).told(r) ==> (#[trigger] self.tell_readers(
                    r,
                    children,
                    j,
                ).ev(c)).told(r),
            forall|k: int|
                0 <= j <= k < children.len() && self.has_ev(children[k]) ==> self.tell_readers(
                    r,
                    children,
                    j,
                ).ev(#[trigger] children[k]).told(r),
        decreases children.len() - j,
    {
        if 0 <= j < children.len() {
            if self.has_ev(children[j]) {
                let c = children[j];
                let e2 = self.ev(c).with_flags_of(r, true);
                self.lemma_restate(c, e2);
                let g1 = self.with_ev(c, e2);
                g1.lemma_told(r, children, j + 1);
                let last = g1.tell_readers(r, children, j + 1);
                assert(e2.told(r));
                assert(g1.ev(c) == e2);
                assert forall|x: EvRef| self.has_ev(x) && self.ev(x).told(r) implies (
                #[trigger] last.ev(x)).told(r) by {
                    assert(g1.nodes[x.txn as int].same_keys(self.nodes[x.txn as int]));
                    if x != c {
                        assert(g1.ev(x) == self.ev(x));
                    }
                    assert(g1.ev(x).told(r));
                }
                assert forall|k: int|
                    0 <= j <= k < children.len() && self.has_ev(children[k]) implies last.ev(
                    #[trigger] children[k],
                ).told(r) by {
                    let x = children[k];
                    assert(g1.nodes[x.txn as int].same_keys(self.nodes[x.txn as int]));
                    assert(g1.has_ev(x));
                    if k == j {
                        assert(g1.ev(x).told(r));
                    }
                }
            } else {
                self.lemma_told(r, children, j + 1);
            }
        }
    }

    /// An event all of whose readers were told need not be exempt.
    pub proof fn lemma_marks_unexempt(self, r: EvRef, exempt: Set<EvRef>, loose: Set<EvRef>)
        requires
            self.wf(),
            self.mutual(),
            self.has_ev(r),
            self.marks(exempt, loose),
            forall|k: int|
                0 <= k < self.ev(r).read_by.len() ==> self.ev(
                    #[trigger] self.ev(r).read_by[k],
                ).told(r),
        ensures
            self.marks(exempt.remove(r), loose),
    {
        assert forall|c: EvRef| self.has_ev(c) implies #[trigger] self.marked(
            c,
            exempt.remove(r),
            loose,
        ) by {
            assert(self.marked(c, exempt, loose));
            assert(self.txn_ok(c.txn));
            assert(self.ev_ok(c));
            let e = self.ev(c);
            if e.status == EventStatus::WAITING {
                assert forall|i: int|
                    0 <= i < e.fulfilled.len() && !(#[trigger] e.fulfilled[i]) implies (
                e.read_from[i] matches Some(p) && (pending(self.ev(p).status) || exempt.remove(
                    r,
                ).contains(p))) by {
                    if e.read_from[i] == Some(r) {
                        assert(self.ev(c).read_from[i] == Some(r));
                        assert(self.ev(r).read_by.contains(c));
                        let k = choose|k: int|
                            0 <= k < self.ev(r).read_by.len() && self.ev(r).read_by[k] == c;
                        assert(self.ev(self.ev(r).read_by[k]).told(r));
                    }
                }
            }
        }
    }

    /// Events that are loose without need are not.
    pub proof fn lemma_marks_tighten(
        self,
        exempt: Set<EvRef>,
        loose: Set<EvRef>,
        fewer: Set<EvRef>,
    )
        requires
            self.marks(exempt, loose),
            forall|x: EvRef|
                self.has_ev(x) && loose.contains(x) && !fewer.contains(x) ==> (#[trigger] self.ev(
                    x,
                )).placed(),
        ensures
            self.marks(exempt, fewer),
    {
        assert forall|c: EvRef| self.has_ev(c) implies #[trigger] self.marked(
            c,
            exempt,
            fewer,
        ) by {
            assert(self.marked(c, exempt, loose));
            if loose.contains(c) && !fewer.contains(c) {
                assert(self.ev(c).placed());
            }
        }
    }

    /// Handing the others to the queue keeps the marks in line, leaves the
    /// marks as they are, and places each of the others.
    pub proof fn lemma_marks_requeue_others(
        self,
        children: Seq<EvRef>,
        chosen: int,
        j: int,
        exempt: Set<EvRef>,
        loose: Set<EvRef>,
    )
        requires
            self.wf(),
            self.marks(exempt, loose),
        ensures
            self.requeue_others(children, chosen, j).marks(exempt, loose),
            forall|x: EvRef|
                self.has_ev(x) ==> (#[trigger] self.requeue_others(children, chosen, j).ev(
                    x,
                )).fulfilled == self.ev(x).fulfilled,
            forall|x: EvRef|
                self.has_ev(x) && self.ev(x).placed() ==> (#[trigger] self.requeue_others(
                    children,
                    chosen,
                    j,
                ).ev(x)).placed(),
            forall|k: int|
                0 <= j <= k < children.len() && k != chosen && self.has_ev(children[k])
                    ==> self.requeue_others(children, chosen, j).ev(
                    #[trigger] children[k],
                ).placed(),
        decreases children.len() - j,
    {
        if 0 <= j < children.len() {
            let c = children[j];
            if j != chosen && self.ready_at(children, j) && self.ev(c).status
                == EventStatus::WAITING {
                let e = self.ev(c).with_status(EventStatus::INQUEUE);
                assert(self.marked(c, exempt, loose));
                lemma_no_waiting_same(self.ev(c), e);
                self.lemma_marks_restate(c, e, exempt, loose);
                self.lemma_restate(c, e);
                let g1 = self.with_ev(c, e);
                g1.lemma_requeue(g1.ready_queue.push(c));
                let g2 = Graph { ready_queue: g1.ready_queue.push(c), ..g1 };
                assert(g2.marks(exempt, loose)) by {
                    assert forall|x: EvRef| g2.has_ev(x) implies #[trigger] g2.marked(
                        x,
                        exempt,
                        loose,
                    ) by {
                        assert(g1.marked(x, exempt, loose));
                    }
                }
                g2.lemma_marks_requeue_others(children, chosen, j + 1, exempt, loose);
                let last = g2.requeue_others(children, chosen, j + 1);
                assert forall|x: EvRef| self.has_ev(x) implies (#[trigger] last.ev(x)).fulfilled
                    == self.ev(x).fulfilled by {
                    assert(g2.has_ev(x));
                    if x != c {
                        assert(g2.ev(x) == self.ev(x));
                    }
                }
                assert forall|x: EvRef| self.has_ev(x) && self.ev(x).placed() implies (
                #[trigger] last.ev(x)).placed() by {
                    assert(g2.has_ev(x));
                    if x != c {
                        assert(g2.ev(x) == self.ev(x));
                    }
                    assert(g2.ev(x).placed());
                }
                assert forall|k: int|
                    0 <= j <= k < children.len() && k != chosen && self.has_ev(
                        children[k],
                    ) implies last.ev(#[trigger] children[k]).placed() by {
                    let x = children[k];
                    assert(g2.has_ev(x));
                    if k == j {
                        assert(g2.ev(x).placed());
                    }
                }
            } else {
                self.lemma_marks_requeue_others(children, chosen, j + 1, exempt, loose);
                let last = self.requeue_others(children, chosen, j + 1);
                assert forall|k: int|
                    0 <= j <= k < children.len() && k != chosen && self.has_ev(
                        children[k],
                    ) implies last.ev(#[trigger] children[k]).placed() by {
                    if k == j {
                        assert(self.ev(children[k]).placed());
                    }
                }
            }
        }
    }

    /// What follows the delivery of an event keeps the marks in line, and
    /// the event need not be exempt any more: its readers are told, and
    /// those that are ready are claimed or queued.
    pub proof fn lemma_marks_get_next(self, r: EvRef, exempt: Set<EvRef>, loose: Set<EvRef>)
        requires
            self.wf(),
            self.mutual(),
            self.has_ev(r),
            self.marks(exempt, loose),
        ensures
            self.get_next(r).0.marks(exempt.remove(r), loose),
    {
        let children = self.ev(r).read_by;
        let wide = loose.union(Set::new(|c: EvRef| children.contains(c)));
        let fewer = exempt.remove(r);
        self.lemma_marks_weaken(exempt, loose, exempt, wide);
        assert forall|k: int| 0 <= k < children.len() implies wide.contains(
            #[trigger] children[k],
        ) by {
            assert(children.contains(children[k]));
        }
        self.lemma_marks_tell_readers(r, children, 0, exempt, wide);
        self.lemma_tell_readers(r, children, 0);
        self.lemma_told(r, children, 0);
        self.lemma_steady_tell_readers(r, children, 0);
        let g1 = self.tell_readers(r, children, 0);
        self.lemma_mutual_kept(g1);
        assert(g1.nodes[r.txn as int].same_keys(self.nodes[r.txn as int]));
        assert(g1.has_ev(r));
        assert(g1.nodes[r.txn as int].ev_nodes[r.idx as int].read_by == children);
        assert(self.txn_ok(r.txn));
        assert(self.ev_ok(r));
        assert forall|k: int| 0 <= k < g1.ev(r).read_by.len() implies g1.ev(
            #[trigger] g1.ev(r).read_by[k],
        ).told(r) by {
            assert(self.has_ev(children[k]));
        }
        g1.lemma_marks_unexempt(r, exempt, wide);
        g1.lemma_best_ready(children, children.len() as int);
        match g1.best_ready(children, children.len() as int) {
            None => {
                assert forall|x: EvRef|
                    g1.has_ev(x) && wide.contains(x) && !loose.contains(x) implies (
                #[trigger] g1.ev(x)).placed() by {
                    let k = choose|k: int| 0 <= k < children.len() && children[k] == x;
                    assert(!g1.ready_at(children, k));
                }
                g1.lemma_marks_tighten(fewer, wide, loose);
            },
            Some(m) => {
                g1.lemma_marks_requeue_others(children, m, 0, fewer, wide);
                g1.lemma_requeue_others(children, m, 0);
                let g2 = g1.requeue_others(children, m, 0);
                let c = children[m];
                assert(g1.has_ev(c));
                assert(g2.nodes[c.txn as int].same_keys(g1.nodes[c.txn as int]));
                assert(g2.has_ev(c));
                let last = self.get_next(r).0;
                if g2.ev(c).status == EventStatus::WAITING {
                    let e = g2.ev(c).with_status(EventStatus::CLAIMED);
                    assert(g1.ev(c).no_waiting());
                    assert(g2.ev(c).fulfilled == g1.ev(c).fulfilled);
                    lemma_no_waiting_same(g1.ev(c), e);
                    assert(g2.marked(c, fewer, wide));
                    g2.lemma_marks_restate(c, e, fewer, wide);
                    g2.lemma_restate(c, e);
                }
                assert forall|x: EvRef|
                    last.has_ev(x) && wide.contains(x) && !loose.contains(x) implies (
                #[trigger] last.ev(x)).placed() by {
                    let k = choose|k: int| 0 <= k < children.len() && children[k] == x;
                    assert(last.nodes[x.txn as int].same_keys(g2.nodes[x.txn as int]));
                    assert(g2.nodes[x.txn as int].same_keys(g1.nodes[x.txn as int]));
                    assert(g1.has_ev(x));
                    if x != c {
                        assert(k != m);
                        assert(g2.ev(children[k]).placed());
                        if g2.ev(c).status == EventStatus::WAITING {
                            assert(last.ev(x) == g2.ev(x));
                        }
                    }
                }
                last.lemma_marks_tighten(fewer, wide, loose);
            },
        }
    }
}

} // verus!
