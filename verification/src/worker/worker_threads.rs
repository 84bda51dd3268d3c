use crate::database::action::{
    actions_of, applied_all, apply_all, fetch, fetched_all, lemma_store_ordered, run, sources_of,
    stopped,
    Action, DbAction, Fault, ReadSource,
};
use crate::database::api::Database;
use crate::external::ffi::Finished;
use crate::tpg::ev_node::{joined, EvNode, ExecuteRequest};
use crate::tpg::model::{EvRef, EventStatus, Graph};
use crate::tpg::tpg::Tpg;
use vstd::prelude::*;

verus! {

/// A worker's own state: the events it has claimed and not yet executed,
/// and the batch of queued events it took from the ready queue.
pub struct Worker {
    pub tid: usize,
    /// Events that were claimed for this worker when their producer
    /// delivered.  They are executed before anything else.
    pub claimed: Vec<EvRef>,
    /// Events taken from the ready queue; the last one taken goes first.
    pub local_queue: Vec<EvRef>,
    /// The number of events that are taken from the ready queue at once.
    pub max_event_batch: usize,
}

/// What a worker found to do.
pub enum Begin {
    /// There is no event to execute.
    Idle,
    /// The event that was taken is not queued, or not claimed, any more; it
    /// was dropped.
    Discarded(EvRef),
    /// The event is claimed and its reads are at hand: the executor is to
    /// be called with `request`, and its answer handed to `finish`.
    Job { ev: EvRef, request: ExecuteRequest },
}

/// What came of the executor's answer.
pub struct Report {
    /// Whether the result was accepted.  A result is dropped where the
    /// event was set back or aborted while it was executed.
    pub accepted: bool,
    /// The transactions that are done, in the order in which they
    /// committed.
    pub finished: Vec<Finished>,
    /// The number of version rings that were filled by this step.
    pub overflows: usize,
}

impl Graph {
    /// Whether every event that the worker holds is an event of the graph.
    pub open spec fn holds_worker(self, claimed: Seq<EvRef>, local: Seq<EvRef>) -> bool {
        &&& forall|i: int| 0 <= i < claimed.len() ==> self.has_ev(#[trigger] claimed[i])
        &&& forall|i: int| 0 <= i < local.len() ==> self.has_ev(#[trigger] local[i])
    }

    /// The number of events that a worker with an empty batch takes from
    /// the ready queue.
    pub open spec fn batch(self, cap: usize) -> int {
        if self.ready_queue.len() < cap {
            self.ready_queue.len() as int
        } else {
            cap as int
        }
    }

    /// What following up the events `j..count` of the aborted transaction
    /// `t` gives: the graph, and the events that were claimed on the way.
    pub open spec fn follow_up(self, t: usize, j: int, count: int) -> (Graph, Seq<EvRef>)
        decreases count - j,
    {
        if j < 0 || j >= count {
            (self, Seq::empty())
        } else {
            let n = self.get_next(EvRef { txn: t, idx: j as usize });
            let rest = n.0.follow_up(t, j + 1, count);
            (
                rest.0,
                (match n.1 {
                    Some(c) => seq![c],
                    None => Seq::empty(),
                }) + rest.1,
            )
        }
    }

    /// What the word that the executor has completed event `r` with `value`
    /// gives: whether the result is accepted, the graph, the changes of the
    /// store, the transactions that are done, and the event that is claimed
    /// next.  An accepted result is written back, the readers of the event
    /// are followed up, and what can be released is released.  A result
    /// for an event of a transaction that was released is dropped.
    pub open spec fn complete(self, r: EvRef, value: Seq<u8>) -> (
        bool,
        Graph,
        Seq<Action>,
        Seq<Finished>,
        Option<EvRef>,
    ) {
        let a = self.accept(r);
        if self.txn(r.txn).dropped || !a.1 {
            (false, self, Seq::empty(), Seq::empty(), None)
        } else {
            let w = a.0.write_back(r, value);
            let n = w.0.get_next(r);
            let c = n.0.collect();
            (true, c.0, seq![w.1] + c.1, a.2, n.1)
        }
    }

    /// What the word that the executor has aborted event `r` gives: the
    /// graph, the changes of the store, the transactions that are done, and
    /// the events that are claimed next.  The transaction is aborted, the
    /// readers of each of its events are followed up, and what can be
    /// released is released.
    pub open spec fn fail(self, r: EvRef) -> (Graph, Seq<Action>, Seq<Finished>, Seq<EvRef>) {
        let a = self.abort_txn(r.txn);
        let n = a.0.follow_up(r.txn, 0, a.0.txn(r.txn).ev_nodes.len() as int);
        let c = n.0.collect();
        (c.0, a.1 + c.1, a.2, n.1)
    }

    /// Following up keeps the graph in order, and the events claimed are
    /// events of the graph.
    pub proof fn lemma_follow_up(self, t: usize, j: int, count: int)
        requires
            self.wf(),
            self.has_txn(t),
            count <= self.txn(t).ev_nodes.len(),
        ensures
            self.follow_up(t, j, count).0.wf(),
            self.follow_up(t, j, count).0.same_keys(self),
            self.follow_up(t, j, count).0.state_last_modify == self.state_last_modify,
            forall|i: int|
                0 <= i < self.follow_up(t, j, count).1.len() ==> self.has_ev(
                    #[trigger] self.follow_up(t, j, count).1[i],
                ),
        decreases count - j,
    {
        if 0 <= j < count {
            let r = EvRef { txn: t, idx: j as usize };
            self.lemma_get_next(r);
            let n = self.get_next(r);
            assert(n.0.nodes[t as int].same_keys(self.nodes[t as int]));
            n.0.lemma_follow_up(t, j + 1, count);
            let rest = n.0.follow_up(t, j + 1, count);
            rest.0.lemma_same_keys_trans(n.0, self);
            assert forall|i: int| 0 <= i < rest.1.len() implies self.has_ev(
                #[trigger] rest.1[i],
            ) by {
                assert(n.0.has_ev(rest.1[i]));
                assert(n.0.nodes[rest.1[i].txn as int].same_keys(self.nodes[rest.1[i].txn as int]));
            }
        }
    }
}

impl Worker {
    /// A worker without events.
    pub fn new(tid: usize, max_event_batch: usize) -> (r: Self)
        ensures
            r.tid == tid,
            r.max_event_batch == max_event_batch,
            r.claimed@.len() == 0,
            r.local_queue@.len() == 0,
    {
        Worker { tid, claimed: Vec::new(), local_queue: Vec::new(), max_event_batch }
    }

    /// Fills the empty batch from the ready queue: up to `max_event_batch`
    /// events, oldest first.
    pub fn refill(&mut self, g: &mut Tpg)
        requires
            old(g)@.wf(),
            old(g)@.holds_worker(old(self).claimed@, old(self).local_queue@),
            old(self).local_queue@.len() == 0,
        ensures
            final(g)@ == (Graph {
                ready_queue: old(g)@.ready_queue.skip(old(g)@.batch(old(self).max_event_batch)),
                ..old(g)@
            }),
            final(self).local_queue@ == old(g)@.ready_queue.take(
                old(g)@.batch(old(self).max_event_batch),
            ),
            old(g)@.sound() ==> final(g)@.sound(),
            old(g)@.orderly() ==> final(g)@.orderly(),
            old(g)@.same_records(final(g)@),
            final(self).claimed == old(self).claimed,
            final(self).tid == old(self).tid,
            final(self).max_event_batch == old(self).max_event_batch,
            final(g)@.wf(),
            final(g)@.holds_worker(final(self).claimed@, final(self).local_queue@),
    {
        let ghost g0 = g@;
        let ghost n = g0.batch(self.max_event_batch);
        while self.local_queue.len() < self.max_event_batch && g.ready_queue.len() > 0
            invariant
                g0.wf(),
                g0 == old(g)@,
                n == g0.batch(self.max_event_batch),
                self.max_event_batch == old(self).max_event_batch,
                self.claimed == old(self).claimed,
                self.tid == old(self).tid,
                g.nodes == old(g).nodes,
                g.state_last_modify == old(g).state_last_modify,
                self.local_queue@.len() <= n,
                self.local_queue@ == g0.ready_queue.take(self.local_queue@.len() as int),
                g@.ready_queue == g0.ready_queue.skip(self.local_queue@.len() as int),
            decreases g@.ready_queue.len(),
        {
            let ghost taken = self.local_queue@.len() as int;
            match g.ready_queue.pop_front() {
                Some(ev) => {
                    self.local_queue.push(ev);
                    proof {
                        assert(ev == g0.ready_queue[taken]);
                        assert(self.local_queue@ =~= g0.ready_queue.take(taken + 1));
                        assert(g@.ready_queue =~= g0.ready_queue.skip(taken + 1));
                    }
                },
                None => {},
            }
        }
        proof {
            assert(self.local_queue@.len() == n);
            let g1 = Graph { ready_queue: g0.ready_queue.skip(n), ..g0 };
            assert(g@.nodes == g0.nodes);
            assert(g@ == g1);
            assert forall|i: int| 0 <= i < g1.ready_queue.len() implies g0.has_ev(
                #[trigger] g1.ready_queue[i],
            ) by {
                assert(g0.has_ev(g0.ready_queue[i + n]));
            }
            g0.lemma_requeue(g0.ready_queue.skip(n));
            if g0.sound() {
                g0.lemma_sound_requeue(g0.ready_queue.skip(n));
            }
            if g0.orderly() {
                g0.lemma_orderly_requeue(g0.ready_queue.skip(n));
            }
            assert forall|i: int| 0 <= i < self.local_queue@.len() implies g@.has_ev(
                #[trigger] self.local_queue@[i],
            ) by {
                assert(g0.has_ev(g0.ready_queue[i]));
            }
        }
    }

    /// Looks for an event to execute, claims it and reads what it needs.
    ///
    /// The worker takes, in this order, an event that was claimed for it,
    /// the event that it took last from the ready queue, or, after filling
    /// its batch from the ready queue, the last of those.  An event that
    /// was claimed for it is dropped if it was set back or aborted
    /// meanwhile.  An event from the queue is claimed first; if it is not
    /// queued any more, it is dropped.  For the claimed event the values of
    /// its reads are fetched from the store, and the call of the executor
    /// is prepared.  A value that cannot be read is a fault.
    pub fn begin<D: Database>(&mut self, g: &mut Tpg, db: &D) -> (r: Result<Begin, Fault>)
        requires
            old(g)@.wf(),
            db.wf(),
            old(g)@.holds_worker(old(self).claimed@, old(self).local_queue@),
        ensures
            final(g)@.wf(),
            final(g)@.same_keys(old(g)@),
            final(g)@.state_last_modify == old(g)@.state_last_modify,
            final(g)@.holds_worker(final(self).claimed@, final(self).local_queue@),
            old(g)@.sound() ==> final(g)@.sound(),
            old(g)@.published(db.content()) ==> final(g)@.published(db.content()),
            old(g)@.all_driven() ==> final(g)@.all_driven(),
            old(g)@.orderly() ==> final(g)@.orderly(),
            final(self).tid == old(self).tid,
            final(self).max_event_batch == old(self).max_event_batch,
            began(
                old(g)@,
                old(self).claimed@,
                old(self).local_queue@,
                old(self).max_event_batch,
                db.content(),
                final(g)@,
                final(self).claimed@,
                final(self).local_queue@,
                r,
            ),
    {
        let ev = match self.claimed.pop() {
            Some(ev) => {
                match g.nodes[ev.txn].ev_nodes[ev.idx].status {
                    EventStatus::CLAIMED => {},
                    _ => {
                        return Ok(Begin::Discarded(ev));
                    },
                }
                ev
            },
            None => {
                if self.local_queue.len() == 0 {
                    self.refill(g);
                }
                let ghost g1 = g@;
                proof {
                    old(g)@.lemma_published_alike(g1, db.content());
                    old(g)@.lemma_driven_kept(g1);
                }
                match self.local_queue.pop() {
                    None => {
                        return Ok(Begin::Idle);
                    },
                    Some(ev) => {
                        proof {
                            g1.lemma_alike_claim(ev);
                            g1.lemma_published_alike(g1.claim(ev).0, db.content());
                            g1.lemma_driven_kept(g1.claim(ev).0);
                            if g1.orderly() {
                                g1.lemma_orderly_claim(ev);
                            }
                        }
                        if !EvNode::claim(g, ev) {
                            return Ok(Begin::Discarded(ev));
                        }
                        proof {
                            g@.lemma_same_keys_trans(g1, old(g)@);
                            assert forall|i: int|
                                0 <= i < self.local_queue@.len() implies g@.has_ev(
                                #[trigger] self.local_queue@[i],
                            ) by {
                                assert(g1.has_ev(self.local_queue@[i]));
                                assert(g1.nodes[self.local_queue@[i].txn as int].same_keys(
                                    g@.nodes[self.local_queue@[i].txn as int],
                                ));
                            }
                            assert forall|i: int| 0 <= i < self.claimed@.len() implies g@.has_ev(
                                #[trigger] self.claimed@[i],
                            ) by {
                                assert(g1.has_ev(self.claimed@[i]));
                                assert(g1.nodes[self.claimed@[i].txn as int].same_keys(
                                    g@.nodes[self.claimed@[i].txn as int],
                                ));
                            }
                        }
                        ev
                    },
                }
            },
        };
        let plan = EvNode::read_plan(g, ev);
        let values = match fetch(db, &plan) {
            Ok(values) => values,
            Err(f) => {
                return Err(f);
            },
        };
        let count = #[verifier::truncate] (values.len() as i32);
        let request = g.nodes[ev.txn].ev_nodes[ev.idx].execute(
            g.nodes[ev.txn].txn_req_id,
            &values,
            count,
        );
        Ok(Begin::Job { ev, request })
    }

    /// Takes the executor's answer for the claimed event `ev`.
    ///
    /// Where the executor completed the event, the result is accepted if
    /// the event is still claimed, written back, and the readers of the
    /// event are followed up; a result that is not accepted is dropped.
    /// Where the executor aborted the event, its transaction is aborted and
    /// the readers of each of its events are followed up.  Events that were
    /// claimed on the way wait with this worker.  At the end, transactions
    /// that nothing holds any more are released.  The changes of the store
    /// are made in order; the first that cannot be made is a fault.
    pub fn finish<D: Database>(
        &mut self,
        g: &mut Tpg,
        db: &mut D,
        ev: EvRef,
        aborted: bool,
        value: &Vec<u8>,
    ) -> (r: Result<Report, Fault>)
        requires
            old(g)@.wf(),
            old(db).wf(),
            old(g)@.has_ev(ev),
            old(g)@.holds_worker(old(self).claimed@, old(self).local_queue@),
        ensures
            final(g)@.wf(),
            final(db).wf(),
            final(db).ring_size() == old(db).ring_size(),
            final(db).full_to_panic() == old(db).full_to_panic(),
            final(db).rows() == old(db).rows(),
            final(g)@.same_keys(old(g)@),
            final(g)@.state_last_modify == old(g)@.state_last_modify,
            final(g)@.holds_worker(final(self).claimed@, final(self).local_queue@),
            old(g)@.sound() ==> final(g)@.sound() && old(g)@.committed_stay(final(g)@),
            old(g)@.sound() && old(g)@.published(old(db).content()) && (r matches Ok(report)
                && report.overflows == 0) ==> final(g)@.published(final(db).content()),
            old(g)@.all_driven() ==> final(g)@.all_driven(),
            old(g)@.orderly_kept(final(g)@),
            final(self).tid == old(self).tid,
            final(self).max_event_batch == old(self).max_event_batch,
            final(self).local_queue@ == old(self).local_queue@,
            !aborted ==> {
                let c = old(g)@.complete(ev, value@);
                &&& final(g)@ == c.1
                &&& final(self).claimed@ == old(self).claimed@ + (match c.4 {
                    Some(next) => seq![next],
                    None => Seq::empty(),
                })
                &&& finished_with(old(db), final(db), c.2, c.0, c.3, r)
            },
            aborted ==> {
                let c = old(g)@.fail(ev);
                &&& final(g)@ == c.0
                &&& final(self).claimed@ == old(self).claimed@ + c.3
                &&& finished_with(old(db), final(db), c.1, false, c.2, r)
            },
    {
        proof {
            if g@.all_driven() {
                if aborted {
                    g@.lemma_driven_fail(ev);
                } else {
                    g@.lemma_driven_complete(ev, value@);
                }
            }
            g@.lemma_orderly_finish(ev, aborted, value@);
            if g@.sound() {
                if aborted {
                    g@.lemma_sound_fail(ev);
                } else {
                    g@.lemma_sound_complete(ev, value@);
                }
                lemma_store_ordered(db);
                if g@.published(db.content()) {
                    let cap = db.ring_size();
                    let full = db.full_to_panic();
                    if aborted {
                        if run(db.content(), cap, full, g@.fail(ev).1) matches Ok(done) && done.1
                            == 0 {
                            g@.lemma_pub_fail(db.content(), cap, full, ev);
                        }
                    } else {
                        if run(db.content(), cap, full, g@.complete(ev, value@).2) matches Ok(
                            done,
                        ) && done.1 == 0 {
                            g@.lemma_pub_complete(db.content(), cap, full, ev, value@);
                        }
                    }
                }
            }
        }
        let mut actions: Vec<DbAction> = Vec::new();
        let mut finished: Vec<Finished> = Vec::new();
        let mut accepted = false;
        let ghost claimed0 = self.claimed@;
        assert(actions_of(actions@) =~= Seq::<Action>::empty());
        if !aborted {
            let ghost c = old(g)@.complete(ev, value@);
            if !g.nodes[ev.txn].dropped {
                accepted = EvNode::accept(g, ev, &mut finished);
            }
            if accepted {
                let ghost g_a = g@;
                assert(g_a.nodes[ev.txn as int].same_keys(old(g)@.nodes[ev.txn as int]));
                let action = EvNode::write_back(g, ev, value);
                actions.push(action);
                let ghost g_w = g@;
                assert(g_w.nodes[ev.txn as int].same_keys(g_a.nodes[ev.txn as int]));
                let next = EvNode::get_next_option_push_others_ready(g, ev);
                match next {
                    Some(n) => {
                        self.claimed.push(n);
                    },
                    None => {},
                }
                let ghost g_n = g@;
                let ghost acts = actions_of(actions@);
                assert(acts =~= seq![action@]);
                g.collect(&mut actions);
                proof {
                    assert(self.claimed@ =~= claimed0 + (match c.4 {
                        Some(n) => seq![n],
                        None => Seq::empty(),
                    }));
                    g_w.lemma_same_keys_trans(g_a, old(g)@);
                    g_n.lemma_same_keys_trans(g_w, old(g)@);
                    g@.lemma_same_keys_trans(g_n, old(g)@);
                    Self::lemma_still_held(old(g)@, g@, claimed0, self.local_queue@);
                    assert(g_n.nodes.len() == g@.nodes.len());
                }
            } else {
                proof {
                    assert(self.claimed@ =~= claimed0 + Seq::<EvRef>::empty());
                }
            }
        } else {
            let ghost c = old(g)@.fail(ev);
            EvNode::notify_txn_abort(g, ev, &mut actions, &mut finished);
            let ghost g_a = g@;
            let ghost acts_a = actions_of(actions@);
            let count = g.nodes[ev.txn].ev_nodes.len();
            let ghost all = g_a.follow_up(ev.txn, 0, count as int);
            proof {
                assert(g_a.nodes[ev.txn as int].same_keys(old(g)@.nodes[ev.txn as int]));
                g_a.lemma_follow_up(ev.txn, 0, count as int);
                assert(self.claimed@ + all.1 == claimed0 + all.1);
            }
            let mut j: usize = 0;
            while j < count
                invariant
                    j <= count,
                    g_a.wf(),
                    g_a.has_txn(ev.txn),
                    count == g_a.txn(ev.txn).ev_nodes.len(),
                    g@.wf(),
                    g@.same_keys(g_a),
                    g@.state_last_modify == g_a.state_last_modify,
                    all == g_a.follow_up(ev.txn, 0, count as int),
                    g@.follow_up(ev.txn, j as int, count as int).0 == all.0,
                    self.claimed@ + g@.follow_up(ev.txn, j as int, count as int).1 == claimed0
                        + all.1,
                    self.local_queue == old(self).local_queue,
                    self.tid == old(self).tid,
                    self.max_event_batch == old(self).max_event_batch,
                decreases count - j,
            {
                let r = EvRef { txn: ev.txn, idx: j };
                let ghost g_j = g@;
                let ghost claimed_j = self.claimed@;
                proof {
                    assert(g@.nodes[ev.txn as int].same_keys(g_a.nodes[ev.txn as int]));
                }
                let next = EvNode::get_next_option_push_others_ready(g, r);
                match next {
                    Some(n) => {
                        self.claimed.push(n);
                    },
                    None => {},
                }
                proof {
                    let n = g_j.get_next(r);
                    let rest = n.0.follow_up(ev.txn, j + 1, count as int);
                    let grown = match n.1 {
                        Some(c) => seq![c],
                        None => Seq::<EvRef>::empty(),
                    };
                    assert(g_j.follow_up(ev.txn, j as int, count as int) == (
                        rest.0,
                        grown + rest.1,
                    ));
                    assert(self.claimed@ =~= claimed_j + grown);
                    assert(self.claimed@ + rest.1 =~= claimed_j + (grown + rest.1));
                    g@.lemma_same_keys_trans(g_j, g_a);
                }
                j = j + 1;
            }
            let ghost g_n = g@;
            proof {
                assert(self.claimed@ + Seq::<EvRef>::empty() =~= self.claimed@);
                assert(actions_of(Seq::<DbAction>::empty()) =~= Seq::<Action>::empty());
                assert(Seq::<Action>::empty() + old(g)@.abort_txn(ev.txn).1 =~= old(
                    g,
                )@.abort_txn(ev.txn).1);
                assert(Seq::<Finished>::empty() + old(g)@.abort_txn(ev.txn).2 =~= old(
                    g,
                )@.abort_txn(ev.txn).2);
            }
            g.collect(&mut actions);
            proof {
                g_n.lemma_same_keys_trans(g_a, old(g)@);
                g@.lemma_same_keys_trans(g_n, old(g)@);
                Self::lemma_still_held(old(g)@, g@, claimed0, self.local_queue@);
                assert forall|i: int| 0 <= i < all.1.len() implies g@.has_ev(
                    #[trigger] all.1[i],
                ) by {
                    assert(g_a.has_ev(all.1[i]));
                    g@.lemma_same_keys_trans(g_n, g_a);
                    assert(g_a.nodes[all.1[i].txn as int].same_keys(g@.nodes[all.1[i].txn as int]));
                }
            }
        }
        proof {
            if !aborted {
                let c = old(g)@.complete(ev, value@);
                assert(Seq::<Finished>::empty() + old(g)@.accept(ev).2 =~= old(g)@.accept(ev).2);
                assert(finished@ == c.3);
                assert(actions_of(actions@) == c.2);
                assert(accepted == c.0);
                assert(g@ == c.1);
            } else {
                let c = old(g)@.fail(ev);
                assert(finished@ == c.2);
                assert(actions_of(actions@) == c.1);
                assert(g@ == c.0);
            }
        }
        match apply_all(db, &actions) {
            Ok(overflows) => Ok(Report { accepted, finished, overflows }),
            Err(f) => Err(f),
        }
    }

    /// Events of a graph are events of a graph with the same keys.
    proof fn lemma_still_held(a: Graph, b: Graph, claimed: Seq<EvRef>, local: Seq<EvRef>)
        requires
            a.holds_worker(claimed, local),
            b.same_keys(a),
        ensures
            b.holds_worker(claimed, local),
    {
        assert forall|i: int| 0 <= i < claimed.len() implies b.has_ev(#[trigger] claimed[i]) by {
            assert(a.has_ev(claimed[i]));
            assert(b.nodes[claimed[i].txn as int].same_keys(a.nodes[claimed[i].txn as int]));
        }
        assert forall|i: int| 0 <= i < local.len() implies b.has_ev(#[trigger] local[i]) by {
            assert(a.has_ev(local[i]));
            assert(b.nodes[local[i].txn as int].same_keys(a.nodes[local[i].txn as int]));
        }
    }
}

/// What `begin` does for a worker that holds the events `claimed` and the
/// batch `local`, and takes up to `batch` events from the ready queue at
/// once, on the graph `g` and a store that holds `content`: the graph
/// `after`, what the worker holds then, and the result `r`.
///
/// Where an event was claimed for the worker, the last of them is taken,
/// and the graph stays as it is.  The event is dropped if it is not claimed
/// any more; else its reads are fetched.  Where none was, the worker takes
/// the last event of its batch, after filling an empty batch with the first
/// events of the ready queue.  With nothing there either it is idle.  The
/// event taken is claimed in the graph if it is still queued, and its reads
/// are fetched; else it is dropped.
pub open spec fn began(
    g: Graph,
    claimed: Seq<EvRef>,
    local: Seq<EvRef>,
    batch: usize,
    content: crate::database::api::Content,
    after: Graph,
    claimed_after: Seq<EvRef>,
    local_after: Seq<EvRef>,
    r: Result<Begin, Fault>,
) -> bool {
    if claimed.len() > 0 {
        let ev = claimed.last();
        &&& claimed_after == claimed.drop_last()
        &&& local_after == local
        &&& after == g
        &&& g.ev(ev).status != EventStatus::CLAIMED ==> r == Ok::<Begin, Fault>(
            Begin::Discarded(ev),
        )
        &&& g.ev(ev).status == EventStatus::CLAIMED ==> begun(g, content, ev, r)
    } else {
        let from = if local.len() > 0 {
            local
        } else {
            g.ready_queue.take(g.batch(batch))
        };
        let queue = if local.len() > 0 {
            g.ready_queue
        } else {
            g.ready_queue.skip(g.batch(batch))
        };
        let g1 = Graph { ready_queue: queue, ..g };
        &&& claimed_after == claimed
        &&& from.len() == 0 ==> r == Ok::<Begin, Fault>(Begin::Idle) && after == g1 && local_after
            == from
        &&& from.len() > 0 ==> {
            &&& local_after == from.drop_last()
            &&& after == g1.claim(from.last()).0
            &&& !g1.claim(from.last()).1 ==> r == Ok::<Begin, Fault>(Begin::Discarded(from.last()))
            &&& g1.claim(from.last()).1 ==> begun(g1.claim(from.last()).0, content, from.last(), r)
        }
    }
}

/// What `begin` returns for the claimed event `ev`: the call of the
/// executor with the values that the event reads, or the fault that keeps
/// one of them from being read.
pub open spec fn begun(g: Graph, content: crate::database::api::Content, ev: EvRef, r: Result<
    Begin,
    Fault,
>) -> bool {
    match fetched_all(content, g.read_plan(ev), g.read_plan(ev).len() as int) {
        Err(f) => r == Err::<Begin, Fault>(f),
        Ok(values) => r matches Ok(Begin::Job { ev: e, request }) && e == ev && request.txn_req_id
            == g.txn(ev.txn).txn_req_id && request.sa_idx == g.ev(ev).idx && request.value@
            == joined(values) && request.param_count == values.len() as i32,
    }
}

/// What `finish` returns after the changes `actions` of the store: the
/// report, with the store changed, or the first fault, with the store
/// changed up to it.
pub open spec fn finished_with<D: Database>(
    before: &D,
    after: &D,
    actions: Seq<Action>,
    accepted: bool,
    finished: Seq<Finished>,
    r: Result<Report, Fault>,
) -> bool {
    match applied_all(
        before.content(),
        before.ring_size(),
        before.full_to_panic(),
        actions,
        actions.len() as int,
    ) {
        Ok(done) => r matches Ok(report) && report.accepted == accepted && report.finished@
            == finished && report.overflows == done.1 && after.content() == done.0,
        Err(f) => r == Err::<Report, Fault>(f) && stopped(
            before.content(),
            before.ring_size(),
            before.full_to_panic(),
            actions,
            after.content(),
        ),
    }
}

} // verus!
