use crate::tpg::model::{accepted_total, EvRef, EvState, EventStatus, Graph, TxnState, TxnStatus};
use crate::tpg::published::pending;
use vstd::prelude::*;

verus! {

/// Events with the same marks wait for nothing alike.
pub proof fn lemma_no_waiting_same(a: EvState, b: EvState)
    requires
        a.fulfilled == b.fulfilled,
    ensures
        a.no_waiting() == b.no_waiting(),
{
    if !a.no_waiting() {
        let i = choose|i: int| 0 <= i < a.fulfilled.len() && !a.fulfilled[i];
        assert(!b.fulfilled[i]);
    }
    if !b.no_waiting() {
        let i = choose|i: int| 0 <= i < b.fulfilled.len() && !b.fulfilled[i];
        assert(!a.fulfilled[i]);
    }
}

impl Graph {
    /// The two graphs have the same events.
    pub open spec fn same_events(self, after: Graph) -> bool {
        &&& after.nodes.len() == self.nodes.len()
        &&& forall|t: int|
            0 <= t < self.nodes.len() ==> (#[trigger] after.nodes[t]).ev_nodes
                == self.nodes[t].ev_nodes
    }

    /// An attempt to commit leaves the events alone.
    pub proof fn lemma_quiet_try_commit(self, t: usize, bound: nat)
        requires
            self.has_txn(t),
        ensures
            self.same_events(self.try_commit_within(t, bound).0),
        decreases bound - t, 1nat, 0nat,
    {
        if self.can_commit(t) {
            let g1 = self.commit_self(t);
            g1.lemma_quiet_commit_children(t, g1.txn(t).read_by, 0, bound);
        }
    }

    /// Telling the readers of a committed transaction leaves the events
    /// alone.
    pub proof fn lemma_quiet_commit_children(
        self,
        t: usize,
        children: Seq<usize>,
        j: int,
        bound: nat,
    )
        requires
            self.has_txn(t),
        ensures
            self.same_events(self.commit_children(t, children, j, bound).0),
        decreases bound - t, 0nat, children.len() - j,
    {
        if 0 <= j < children.len() {
            let c = children[j];
            if t < c && c < bound && self.has_txn(c) {
                let g1 = self.father_committed(c, t);
                g1.lemma_quiet_try_commit(c, bound);
                let sub = g1.try_commit_within(c, bound);
                sub.0.lemma_quiet_commit_children(t, children, j + 1, bound);
            } else {
                self.lemma_quiet_commit_children(t, children, j + 1, bound);
            }
        }
    }

    /// The notice of an acceptance leaves the events alone.
    pub proof fn lemma_quiet_notify(self, r: EvRef)
        requires
            self.has_ev(r),
        ensures
            self.same_events(self.notify_txn_accept(r).0),
    {
        let n = self.txn(r.txn);
        let g1 = self.with_txn(
            r.txn,
            TxnState {
                unfinished_events: if n.unfinished_events > 0 {
                    (n.unfinished_events - 1) as u16
                } else {
                    0
                },
                ..n
            },
        );
        if g1.txn(r.txn).unfinished_events == 0 {
            g1.lemma_quiet_try_commit(r.txn, g1.nodes.len());
        }
    }

    /// A pass that releases what can be released leaves the events alone.
    pub proof fn lemma_quiet_sweep(self, upto: int)
        requires
            upto <= self.nodes.len(),
        ensures
            self.same_events(self.sweep(upto).0),
        decreases upto,
    {
        if upto > 0 {
            self.lemma_quiet_sweep(upto - 1);
        }
    }

    /// A change of one event keeps the marks in line, where the new state
    /// and marks of the event are in line, and the event is exempt where it
    /// has delivered.
    pub proof fn lemma_marks_restate(
        self,
        r: EvRef,
        e: EvState,
        exempt: Set<EvRef>,
        loose: Set<EvRef>,
    )
        requires
            self.wf(),
            self.has_ev(r),
            self.marks(exempt, loose),
            e.read_from == self.ev(r).read_from,
            e.fulfilled.len() == self.ev(r).fulfilled.len(),
            !pending(e.status) ==> exempt.contains(r) || !pending(self.ev(r).status),
            e.status == EventStatus::INQUEUE || e.status == EventStatus::CLAIMED || e.status
                == EventStatus::ACCEPTED ==> e.no_waiting(),
            e.status == EventStatus::WAITING && !loose.contains(r) ==> !e.no_waiting(),
            e.status == EventStatus::WAITING ==> forall|i: int|
                0 <= i < e.fulfilled.len() && !(#[trigger] e.fulfilled[i]) ==> (
                e.read_from[i] matches Some(p) && (pending(self.ev(p).status) || exempt.contains(
                    p,
                ))),
        ensures
            self.with_ev(r, e).marks(exempt, loose),
    {
        self.lemma_marks_weaken(exempt, loose, exempt, loose.insert(r));
        self.lemma_marks_with_ev(r, e, exempt, loose);
    }

    /// A claim keeps the marks in line.
    pub proof fn lemma_marks_claim(self, r: EvRef, exempt: Set<EvRef>, loose: Set<EvRef>)
        requires
            self.wf(),
            self.has_ev(r),
            self.marks(exempt, loose),
        ensures
            self.claim(r).0.marks(exempt, loose),
    {
        assert(self.marked(r, exempt, loose));
        if self.ev(r).status == EventStatus::INQUEUE {
            self.lemma_marks_restate(
                r,
                self.ev(r).with_status(EventStatus::CLAIMED),
                exempt,
                loose,
            );
        }
    }

    /// Writing back keeps the marks in line.
    pub proof fn lemma_marks_write_back(
        self,
        r: EvRef,
        value: Seq<u8>,
        exempt: Set<EvRef>,
        loose: Set<EvRef>,
    )
        requires
            self.wf(),
            self.has_ev(r),
            self.marks(exempt, loose),
        ensures
            self.write_back(r, value).0.marks(exempt, loose),
    {
        assert(self.marked(r, exempt, loose));
        lemma_no_waiting_same(
            self.ev(r),
            EvState { has_storage_slot: true, written: value, ..self.ev(r) },
        );
        self.lemma_marks_restate(
            r,
            EvState { has_storage_slot: true, written: value, ..self.ev(r) },
            exempt,
            loose,
        );
    }

    /// Accepting a result keeps the marks in line, with the event exempt:
    /// its readers are still to be told.
    pub proof fn lemma_marks_accept(self, r: EvRef, exempt: Set<EvRef>, loose: Set<EvRef>)
        requires
            self.wf(),
            self.has_ev(r),
            self.marks(exempt, loose),
        ensures
            self.accept(r).0.marks(exempt.insert(r), loose),
    {
        let e = self.ev(r);
        self.lemma_marks_weaken(exempt, loose, exempt.insert(r), loose);
        assert(self.marked(r, exempt.insert(r), loose));
        if e.status == EventStatus::CLAIMED {
            let e1 = e.with_status(EventStatus::ACCEPTED);
            let g1 = self.with_ev(r, e1);
            self.lemma_restate(r, e1);
            self.lemma_marks_restate(r, e1, exempt.insert(r), loose);
            g1.lemma_quiet_notify(r);
            g1.lemma_marks_same_events(g1.notify_txn_accept(r).0, exempt.insert(r), loose);
        }
    }

    /// Visiting a reader of an event that is rolled back keeps the marks
    /// in line.
    pub proof fn lemma_marks_visit_child(
        self,
        parent: EvRef,
        son: EvRef,
        exempt: Set<EvRef>,
        loose: Set<EvRef>,
    )
        requires
            self.wf(),
            self.has_ev(son),
            self.has_ev(parent),
            self.marks(exempt, loose),
            self.ev(son).read_from.contains(Some(parent)),
            pending(self.ev(parent).status) || exempt.contains(parent),
        ensures
            self.visit_child(parent, son).0.marks(exempt, loose),
    {
        let e = self.ev(son);
        assert(self.marked(son, exempt, loose));
        assert(self.txn_ok(son.txn));
        assert(self.ev_ok(son));
        let k = choose|k: int| 0 <= k < e.read_from.len() && e.read_from[k] == Some(parent);
        assert(parent != son);
        if !self.txn(son.txn).dropped {
            match e.status {
                EventStatus::ACCEPTED => {
                    let e1 = e.with_status(EventStatus::WAITING);
                    let g1 = self.with_ev(son, e1);
                    self.lemma_restate(son, e1);
                    self.lemma_marks_weaken(exempt, loose, exempt, loose.insert(son));
                    self.lemma_marks_restate(son, e1, exempt, loose.insert(son));
                    let g2 = self.reset_accept(son).0;
                    g1.lemma_recount(son.txn, g2.txn(son.txn));
                    g1.lemma_marks_same_events(g2, exempt, loose.insert(son));
                    let e2 = g2.ev(son).with_flags_of(parent, false);
                    assert(g2.ev(son) == e1);
                    assert(!e2.fulfilled[k]);
                    assert(g2.ev(parent) == self.ev(parent));
                    g2.lemma_marks_with_ev(son, e2, exempt, loose);
                },
                EventStatus::CLAIMED | EventStatus::INQUEUE => {
                    let e2 = e.with_status(EventStatus::WAITING).with_flags_of(parent, false);
                    assert(!e2.fulfilled[k]);
                    self.lemma_marks_restate(son, e2, exempt, loose);
                },
                EventStatus::WAITING => {
                    let e2 = e.with_flags_of(parent, false);
                    assert(!e2.fulfilled[k]);
                    assert forall|i: int|
                        0 <= i < e2.fulfilled.len() && !(#[trigger] e2.fulfilled[i]) implies (
                    e2.read_from[i] matches Some(p) && (pending(self.ev(p).status)
                        || exempt.contains(p))) by {
                        if e.read_from[i] != Some(parent) {
                            assert(!e.fulfilled[i]);
                        }
                    }
                    self.lemma_marks_restate(son, e2, exempt, loose);
                },
                _ => {},
            }
        }
    }

    /// Every event that has not delivered in `self`, or is in `exempt`,
    /// has not delivered in `after`, or is in `exempt`.
    pub open spec fn pending_kept(self, after: Graph, exempt: Set<EvRef>) -> bool {
        forall|x: EvRef|
            self.has_ev(x) && (pending(self.ev(x).status) || exempt.contains(x)) ==> pending(
                (#[trigger] after.ev(x)).status,
            ) || exempt.contains(x)
    }

    /// Visiting a reader delivers nothing.
    pub proof fn lemma_pending_visit_child(self, parent: EvRef, son: EvRef, exempt: Set<EvRef>)
        requires
            self.has_ev(son),
        ensures
            self.pending_kept(self.visit_child(parent, son).0, exempt),
    {
        let after = self.visit_child(parent, son).0;
        assert forall|x: EvRef|
            self.has_ev(x) && (pending(self.ev(x).status) || exempt.contains(x)) implies pending(
            (#[trigger] after.ev(x)).status,
        ) || exempt.contains(x) by {
            if x != son {
                assert(after.ev(x) == self.ev(x));
            }
        }
    }

    /// Visiting the readers of an event that is rolled back keeps the
    /// marks in line and delivers nothing, and the readers whose
    /// acceptance was taken back have not delivered.
    pub proof fn lemma_marks_visit_children(
        self,
        parent: EvRef,
        children: Seq<EvRef>,
        j: int,
        exempt: Set<EvRef>,
        loose: Set<EvRef>,
    )
        requires
            self.wf(),
            self.has_ev(parent),
            self.marks(exempt, loose),
            pending(self.ev(parent).status) || exempt.contains(parent),
            forall|k: int|
                0 <= k < children.len() && self.has_ev(children[k]) ==> (#[trigger] self.ev(
                    children[k],
                )).read_from.contains(Some(parent)),
        ensures
            self.visit_children(parent, children, j).0.marks(exempt, loose),
            self.pending_kept(self.visit_children(parent, children, j).0, exempt),
            forall|i: int|
                0 <= i < self.visit_children(parent, children, j).1.len() ==> pending(
                    self.visit_children(parent, children, j).0.ev(
                        #[trigger] self.visit_children(parent, children, j).1[i],
                    ).status,
                ),
        decreases children.len() - j,
    {
        if 0 <= j < children.len() {
            if self.has_ev(children[j]) {
                let son = children[j];
                assert(self.ev(children[j]).read_from.contains(Some(parent)));
                self.lemma_marks_visit_child(parent, son, exempt, loose);
                self.lemma_pending_visit_child(parent, son, exempt);
                self.lemma_visit_child(parent, son);
                self.lemma_steady_visit_child(parent, son);
                let v = self.visit_child(parent, son);
                assert(v.0.nodes[parent.txn as int].same_keys(self.nodes[parent.txn as int]));
                assert(v.0.has_ev(parent));
                assert(pending(v.0.ev(parent).status) || exempt.contains(parent));
                assert forall|k: int|
                    0 <= k < children.len() && v.0.has_ev(children[k]) implies (#[trigger] v.0.ev(
                    children[k],
                )).read_from.contains(Some(parent)) by {
                    let c = children[k];
                    assert(v.0.nodes[c.txn as int].same_keys(self.nodes[c.txn as int]));
                    assert(self.has_ev(c));
                    assert(self.ev(children[k]).read_from.contains(Some(parent)));
                    assert(v.0.nodes[c.txn as int].ev_nodes[c.idx as int].read_from
                        == self.nodes[c.txn as int].ev_nodes[c.idx as int].read_from);
                }
                v.0.lemma_marks_visit_children(parent, children, j + 1, exempt, loose);
                v.0.lemma_visit_children(parent, children, j + 1);
                let rest = v.0.visit_children(parent, children, j + 1);
                let all = self.visit_children(parent, children, j);
                assert forall|x: EvRef|
                    self.has_ev(x) && (pending(self.ev(x).status) || exempt.contains(
                        x,
                    )) implies pending((#[trigger] all.0.ev(x)).status) || exempt.contains(x) by {
                    assert(v.0.nodes[x.txn as int].same_keys(self.nodes[x.txn as int]));
                    assert(pending(v.0.ev(x).status) || exempt.contains(x));
                }
                assert forall|i: int| 0 <= i < all.1.len() implies pending(
                    all.0.ev(#[trigger] all.1[i]).status,
                ) by {
                    if v.1 {
                        if i == 0 {
                            assert(all.1[0] == son);
                            assert(v.0.ev(son).status == EventStatus::WAITING);
                            assert(v.0.has_ev(son));
                            v.0.lemma_pending_plain(parent, children, j + 1, son);
                        } else {
                            assert(all.1[i] == rest.1[i - 1]);
                        }
                    } else {
                        assert(all.1[i] == rest.1[i]);
                    }
                }
            } else {
                self.lemma_marks_visit_children(parent, children, j + 1, exempt, loose);
            }
        }
    }

    /// Visiting readers leaves an event that has not delivered so.
    pub proof fn lemma_pending_plain(self, parent: EvRef, children: Seq<EvRef>, j: int, x: EvRef)
        requires
            self.wf(),
            self.has_ev(x),
            pending(self.ev(x).status),
        ensures
            pending(self.visit_children(parent, children, j).0.ev(x).status),
        decreases children.len() - j,
    {
        if 0 <= j < children.len() {
            if self.has_ev(children[j]) {
                self.lemma_pending_visit_child(parent, children[j], Set::empty());
                self.lemma_visit_child(parent, children[j]);
                let v = self.visit_child(parent, children[j]);
                assert(pending(v.0.ev(x).status));
                assert(v.0.nodes[x.txn as int].same_keys(self.nodes[x.txn as int]));
                v.0.lemma_pending_plain(parent, children, j + 1, x);
            } else {
                self.lemma_pending_plain(parent, children, j + 1, x);
            }
        }
    }

    /// A rollback keeps the marks in line and delivers nothing.
    pub proof fn lemma_marks_cascade(
        self,
        stack: Seq<EvRef>,
        fuel: nat,
        exempt: Set<EvRef>,
        loose: Set<EvRef>,
    )
        requires
            self.wf(),
            self.mutual(),
            self.marks(exempt, loose),
            forall|i: int|
                0 <= i < stack.len() && self.has_ev(stack[i]) ==> pending(
                    (#[trigger] self.ev(stack[i])).status,
                ) || exempt.contains(stack[i]),
        ensures
            self.cascade(stack, fuel).0.marks(exempt, loose),
            self.pending_kept(self.cascade(stack, fuel).0, exempt),
        decreases fuel, stack.len(),
    {
        if stack.len() == 0 {
        } else if !self.has_ev(stack.last()) {
            assert forall|i: int|
                0 <= i < stack.drop_last().len() && self.has_ev(
                    stack.drop_last()[i],
                ) implies pending((#[trigger] self.ev(stack.drop_last()[i])).status)
                || exempt.contains(stack.drop_last()[i]) by {
                assert(stack.drop_last()[i] == stack[i]);
                assert(pending(self.ev(stack[i]).status) || exempt.contains(stack[i]));
            }
            self.lemma_marks_cascade(stack.drop_last(), fuel, exempt, loose);
        } else {
            let parent = stack.last();
            let children = self.ev(parent).read_by;
            assert(pending(self.ev(stack[stack.len() - 1]).status) || exempt.contains(parent));
            assert(self.txn_ok(parent.txn));
            assert(self.ev_ok(parent));
            assert forall|k: int|
                0 <= k < children.len() && self.has_ev(children[k]) implies (#[trigger] self.ev(
                children[k],
            )).read_from.contains(Some(parent)) by {
                assert(self.ev(self.ev(parent).read_by[k]).read_from.contains(Some(parent)));
            }
            self.lemma_marks_visit_children(parent, children, 0, exempt, loose);
            self.lemma_visit_children(parent, children, 0);
            self.lemma_steady_visit_children(parent, children, 0);
            let v = self.visit_children(parent, children, 0);
            self.lemma_mutual_kept(v.0);
            if v.1.len() <= fuel {
                let rest = stack.drop_last() + v.1;
                assert forall|i: int| 0 <= i < rest.len() && v.0.has_ev(rest[i]) implies pending(
                    (#[trigger] v.0.ev(rest[i])).status,
                ) || exempt.contains(rest[i]) by {
                    if i < stack.len() - 1 {
                        let x = stack[i];
                        assert(rest[i] == x);
                        assert(v.0.nodes[x.txn as int].same_keys(self.nodes[x.txn as int]));
                        assert(self.has_ev(x));
                        assert(pending(self.ev(stack[i]).status) || exempt.contains(x));
                    } else {
                        assert(rest[i] == v.1[i - (stack.len() - 1)]);
                    }
                }
                v.0.lemma_marks_cascade(rest, (fuel - v.1.len()) as nat, exempt, loose);
                v.0.lemma_cascade(rest, (fuel - v.1.len()) as nat);
                let c = v.0.cascade(rest, (fuel - v.1.len()) as nat);
                assert forall|x: EvRef|
                    self.has_ev(x) && (pending(self.ev(x).status) || exempt.contains(
                        x,
                    )) implies pending((#[trigger] c.0.ev(x)).status) || exempt.contains(x) by {
                    assert(v.0.nodes[x.txn as int].same_keys(self.nodes[x.txn as int]));
                    assert(pending(v.0.ev(x).status) || exempt.contains(x));
                }
            }
        }
    }

    /// Aborting an event that is exempt, in a transaction that does not
    /// wait, keeps the marks in line and delivers nothing else.
    pub proof fn lemma_marks_abort_event(self, r: EvRef, exempt: Set<EvRef>, loose: Set<EvRef>)
        requires
            self.wf(),
            self.mutual(),
            self.has_ev(r),
            self.marks(exempt, loose),
            exempt.contains(r),
            self.txn(r.txn).status != TxnStatus::WAITING,
        ensures
            self.abort_event(r).0.marks(exempt, loose),
            self.abort_event(r).0.mutual(),
    {
        let e = self.ev(r);
        if e.status != EventStatus::ABORTED {
            let e1 = e.with_status(EventStatus::ABORTED);
            let g1 = self.with_ev(r, e1);
            self.lemma_restate(r, e1);
            self.lemma_marks_restate(r, e1, exempt, loose);
            self.lemma_steady_with_ev(r, e1);
            self.lemma_mutual_kept(g1);
            g1.lemma_marks_cascade(seq![r], accepted_total(g1.nodes), exempt, loose);
            g1.lemma_cascade(seq![r], accepted_total(g1.nodes));
            g1.lemma_steady_cascade(seq![r], accepted_total(g1.nodes));
            let c = g1.cascade(seq![r], accepted_total(g1.nodes));
            g1.lemma_mutual_kept(c.0);
            assert(c.0.nodes[r.txn as int].same_keys(g1.nodes[r.txn as int]));
            assert(c.0.has_ev(r));
            g1.lemma_aborted_stays(seq![r], accepted_total(g1.nodes), r);
            let e2 = EvState { has_storage_slot: true, ..c.0.ev(r) };
            assert(c.0.marked(r, exempt, loose));
            lemma_no_waiting_same(c.0.ev(r), e2);
            c.0.lemma_marks_restate(r, e2, exempt, loose);
            c.0.lemma_steady_with_ev(r, e2);
            c.0.lemma_mutual_kept(c.0.with_ev(r, e2));
        }
    }

    /// A rollback leaves an aborted event aborted.
    pub proof fn lemma_aborted_stays(self, stack: Seq<EvRef>, fuel: nat, x: EvRef)
        requires
            self.has_ev(x),
            self.ev(x).status == EventStatus::ABORTED,
        ensures
            self.cascade(stack, fuel).0.ev(x).status == EventStatus::ABORTED,
            self.cascade(stack, fuel).0.has_ev(x),
        decreases fuel, stack.len(),
    {
        if stack.len() == 0 {
        } else if !self.has_ev(stack.last()) {
            self.lemma_aborted_stays(stack.drop_last(), fuel, x);
        } else {
            let children = self.ev(stack.last()).read_by;
            self.lemma_aborted_children(stack.last(), children, 0, x);
            let v = self.visit_children(stack.last(), children, 0);
            if v.1.len() <= fuel {
                v.0.lemma_aborted_stays(stack.drop_last() + v.1, (fuel - v.1.len()) as nat, x);
            }
        }
    }

    /// Visiting readers leaves an aborted event aborted.
    pub proof fn lemma_aborted_children(self, parent: EvRef, children: Seq<EvRef>, j: int, x: EvRef)
        requires
            self.has_ev(x),
            self.ev(x).status == EventStatus::ABORTED,
        ensures
            self.visit_children(parent, children, j).0.ev(x).status == EventStatus::ABORTED,
            self.visit_children(parent, children, j).0.has_ev(x),
        decreases children.len() - j,
    {
        if 0 <= j < children.len() {
            if self.has_ev(children[j]) {
                let v = self.visit_child(parent, children[j]);
                assert(v.0.has_ev(x) && v.0.ev(x).status == EventStatus::ABORTED) by {
                    if x != children[j] {
                        assert(v.0.ev(x) == self.ev(x));
                    }
                }
                v.0.lemma_aborted_children(parent, children, j + 1, x);
            } else {
                self.lemma_aborted_children(parent, children, j + 1, x);
            }
        }
    }

    /// Aborting the events of a transaction that does not wait, all of
    /// them exempt, keeps the marks in line.
    pub proof fn lemma_marks_abort_events(
        self,
        t: usize,
        j: int,
        count: int,
        exempt: Set<EvRef>,
        loose: Set<EvRef>,
    )
        requires
            self.wf(),
            self.mutual(),
            self.has_txn(t),
            count <= self.txn(t).ev_nodes.len(),
            self.marks(exempt, loose),
            forall|r: EvRef| r.txn == t ==> exempt.contains(r),
            self.txn(t).status != TxnStatus::WAITING,
        ensures
            self.abort_events(t, j, count).0.marks(exempt, loose),
            self.abort_events(t, j, count).0.mutual(),
        decreases count - j,
    {
        if 0 <= j < count {
            let r = EvRef { txn: t, idx: j as usize };
            self.lemma_marks_abort_event(r, exempt, loose);
            self.lemma_abort_event(r);
            self.lemma_steady_abort_event(r);
            let a = self.abort_event(r);
            assert(a.0.nodes[t as int].same_keys(self.nodes[t as int]));
            a.0.lemma_marks_abort_events(t, j + 1, count, exempt, loose);
        }
    }

    /// Aborting a transaction keeps the marks in line, with its events
    /// exempt: their readers are still to be told.
    pub proof fn lemma_marks_abort_txn(self, t: usize)
        requires
            self.wf(),
            self.mutual(),
            self.has_txn(t),
            self.marks(Set::empty(), Set::empty()),
        ensures
            self.abort_txn(t).0.marks(Set::new(|r: EvRef| r.txn == t), Set::empty()),
    {
        let n = self.txn(t);
        let exempt = Set::new(|r: EvRef| r.txn == t);
        self.lemma_marks_weaken(Set::empty(), Set::empty(), exempt, Set::empty());
        if n.status == TxnStatus::WAITING {
            let n1 = TxnState { status: TxnStatus::ABORTED, ..n };
            let g1 = self.with_txn(t, n1);
            self.lemma_recount(t, n1);
            self.lemma_marks_same_events(g1, exempt, Set::empty());
            self.lemma_steady_with_txn(t, n1);
            self.lemma_mutual_kept(g1);
            let count = n.ev_nodes.len() as int;
            g1.lemma_marks_abort_events(t, 0, count, exempt, Set::empty());
            g1.lemma_abort_events(t, 0, count);
            let a = g1.abort_events(t, 0, count);
            let n2 = TxnState { unfinished_events: 0, ..a.0.txn(t) };
            let g2 = a.0.with_txn(t, n2);
            a.0.lemma_recount(t, n2);
            a.0.lemma_marks_same_events(g2, exempt, Set::empty());
            g2.lemma_quiet_try_commit(t, g2.nodes.len());
            g2.lemma_marks_same_events(g2.try_commit(t).0, exempt, Set::empty());
        }
    }
}

} // verus!
