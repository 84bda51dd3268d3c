use crate::database::action::{
    applied, default_table, fetched, lemma_applied, lemma_effect_on_version, lemma_run_concat,
    lemma_run_none, lemma_run_one, ordered, run, Action, Fault, Source,
};
use crate::database::api::{knows, versions_of, Content};
use crate::database::versions::{has_slot, slot_state, DataPointState};
use crate::ds::transactions::Txn;
use crate::external::ffi::TxnMessage;
use crate::tpg::model::{accepted_total, EvRef, EvState, EventStatus, Graph, TxnState, TxnStatus};
use crate::tpg::published::{pending, same_record};
use vstd::prelude::*;

verus! {

impl Graph {
    /// Aborting an event of a live transaction keeps the store in
    /// agreement with the graph, where the changes of the store are made
    /// and fill no ring.
    pub proof fn lemma_pub_abort_event(
        self,
        content: Content,
        cap: usize,
        full_to_panic: bool,
        r: EvRef,
    )
        requires
            self.wf(),
            self.published(content),
            ordered(content, cap),
            self.live_ev(r),
            run(content, cap, full_to_panic, self.abort_event(r).1) matches Ok(done) && done.1
                == 0,
        ensures
            self.abort_event(r).0.published(
                run(content, cap, full_to_panic, self.abort_event(r).1)->Ok_0.0,
            ),
            ordered(run(content, cap, full_to_panic, self.abort_event(r).1)->Ok_0.0, cap),
            self.same_lives(self.abort_event(r).0),
    {
        let e = self.ev(r);
        if e.status == EventStatus::ABORTED {
            lemma_run_none(content, cap, full_to_panic);
        } else {
            let e1 = e.with_status(EventStatus::ABORTED);
            let g1 = self.with_ev(r, e1);
            self.lemma_restate(r, e1);
            // But for the event itself, the store agrees with the graph.
            assert(g1.published_but(content, r)) by {
                assert forall|o: EvRef| g1.live_ev(o) && o != r implies #[trigger] g1.held(
                    content,
                    o,
                ) by {
                    assert(self.held(content, o));
                    assert(g1.ev(o) == self.ev(o));
                }
                assert(self.held(content, r));
                assert forall|p: EvRef, q: EvRef|
                    #![trigger g1.ev(p), g1.ev(q)]
                    g1.live_ev(p) && g1.live_ev(q) && p != q && g1.ev(p).has_storage_slot
                        && g1.ev(q).has_storage_slot implies !(g1.ev(p).write == g1.ev(q).write
                    && g1.txn(p.txn).ts == g1.txn(q.txn).ts) by {
                    let u = self.ev(p);
                    let v = self.ev(q);
                    assert(g1.ev(p).write == u.write && g1.ev(p).has_storage_slot
                        == u.has_storage_slot);
                    assert(g1.ev(q).write == v.write && g1.ev(q).has_storage_slot
                        == v.has_storage_slot);
                }
            }
            let fuel = accepted_total(g1.nodes);
            let c = g1.cascade(seq![r], fuel);
            let e2 = c.0.ev(r);
            let last = Action::CopyLast {
                key: e2.write,
                ts: c.0.txn(r.txn).ts,
                has_slot: e2.has_storage_slot,
            };
            if e2.has_write {
                lemma_run_concat(content, cap, full_to_panic, c.1, seq![last]);
            }
            g1.lemma_pub_cascade(content, cap, full_to_panic, r, seq![r], fuel);
            g1.lemma_cascade(seq![r], fuel);
            let mid = run(content, cap, full_to_panic, c.1)->Ok_0.0;
            assert(c.0.ev(r) == g1.ev(r));
            assert(c.0.nodes[r.txn as int].ts == self.nodes[r.txn as int].ts);
            assert(c.0.live_ev(r));
            if e2.has_write {
                lemma_run_one(mid, cap, full_to_panic, last);
                let e3 = EvState { has_storage_slot: true, ..e2 };
                lemma_applied(mid, cap, full_to_panic, last);
                lemma_effect_on_version(
                    last,
                    versions_of(mid, default_table(), last.key()),
                    cap,
                    full_to_panic,
                );
                if e2.has_storage_slot {
                    assert(c.0.recorded(mid, r));
                }
                c.0.lemma_pub_with_ev(mid, cap, full_to_panic, r, r, e3, last);
                let after = applied(mid, cap, full_to_panic, last)->Ok_0.0;
                c.0.with_ev(r, e3).lemma_published_whole(after, r);
            } else {
                c.0.lemma_published_whole(mid, r);
            }
        }
    }

    /// Aborting the events of a live transaction keeps the store in
    /// agreement with the graph.
    pub proof fn lemma_pub_abort_events(
        self,
        content: Content,
        cap: usize,
        full_to_panic: bool,
        t: usize,
        j: int,
        count: int,
    )
        requires
            self.wf(),
            self.published(content),
            ordered(content, cap),
            self.has_txn(t),
            !self.txn(t).dropped,
            count <= self.txn(t).ev_nodes.len(),
            run(content, cap, full_to_panic, self.abort_events(t, j, count).1) matches Ok(done)
                && done.1 == 0,
        ensures
            self.abort_events(t, j, count).0.published(
                run(content, cap, full_to_panic, self.abort_events(t, j, count).1)->Ok_0.0,
            ),
            ordered(
                run(content, cap, full_to_panic, self.abort_events(t, j, count).1)->Ok_0.0,
                cap,
            ),
            self.same_lives(self.abort_events(t, j, count).0),
        decreases count - j,
    {
        if 0 <= j < count {
            let r = EvRef { txn: t, idx: j as usize };
            let a = self.abort_event(r);
            let rest = a.0.abort_events(t, j + 1, count);
            lemma_run_concat(content, cap, full_to_panic, a.1, rest.1);
            self.lemma_pub_abort_event(content, cap, full_to_panic, r);
            self.lemma_abort_event(r);
            let mid = run(content, cap, full_to_panic, a.1)->Ok_0.0;
            assert(a.0.nodes[t as int].dropped == self.nodes[t as int].dropped);
            a.0.lemma_pub_abort_events(mid, cap, full_to_panic, t, j + 1, count);
            self.lemma_same_lives_trans(a.0, rest.0);
        } else {
            lemma_run_none(content, cap, full_to_panic);
        }
    }

    /// Aborting a transaction keeps the store in agreement with the graph.
    pub proof fn lemma_pub_abort_txn(
        self,
        content: Content,
        cap: usize,
        full_to_panic: bool,
        t: usize,
    )
        requires
            self.wf(),
            self.sound(),
            self.published(content),
            ordered(content, cap),
            self.has_txn(t),
            run(content, cap, full_to_panic, self.abort_txn(t).1) matches Ok(done) && done.1 == 0,
        ensures
            self.abort_txn(t).0.published(
                run(content, cap, full_to_panic, self.abort_txn(t).1)->Ok_0.0,
            ),
            ordered(run(content, cap, full_to_panic, self.abort_txn(t).1)->Ok_0.0, cap),
    {
        let n = self.txn(t);
        if n.status != TxnStatus::WAITING {
            lemma_run_none(content, cap, full_to_panic);
        } else {
            assert(self.settled(t));
            let n1 = TxnState { status: TxnStatus::ABORTED, ..n };
            let g1 = self.with_txn(t, n1);
            self.lemma_recount(t, n1);
            self.lemma_alike_with_txn(t, n1);
            self.lemma_published_alike(g1, content);
            let count = n.ev_nodes.len() as int;
            g1.lemma_pub_abort_events(content, cap, full_to_panic, t, 0, count);
            g1.lemma_abort_events(t, 0, count);
            let a = g1.abort_events(t, 0, count);
            let after = run(content, cap, full_to_panic, a.1)->Ok_0.0;
            let n2 = TxnState { unfinished_events: 0, ..a.0.txn(t) };
            let g2 = a.0.with_txn(t, n2);
            a.0.lemma_alike_with_txn(t, n2);
            a.0.lemma_published_alike(g2, after);
            g2.lemma_alike_try_commit(t, g2.nodes.len());
            g2.lemma_published_alike(g2.try_commit(t).0, after);
        }
    }

    /// Releasing the versions of the first `upto` events of a transaction
    /// that is being released leaves the versions of all other live
    /// transactions as the graph asks.
    pub proof fn lemma_pub_releases(
        self,
        content: Content,
        cap: usize,
        full_to_panic: bool,
        t: usize,
        upto: int,
    )
        requires
            self.wf(),
            self.published(content),
            ordered(content, cap),
            self.has_txn(t),
            !self.txn(t).dropped,
            0 <= upto <= self.txn(t).ev_nodes.len(),
            run(content, cap, full_to_panic, self.releases(t, upto)) matches Ok(done) && done.1
                == 0,
        ensures
            ordered(run(content, cap, full_to_panic, self.releases(t, upto))->Ok_0.0, cap),
            forall|o: EvRef|
                self.live_ev(o) && o.txn != t ==> #[trigger] self.held(
                    run(content, cap, full_to_panic, self.releases(t, upto))->Ok_0.0,
                    o,
                ),
        decreases upto,
    {
        if upto <= 0 {
            lemma_run_none(content, cap, full_to_panic);
        } else {
            assert(self.txn_ok(t));
            let e = self.txn(t).ev_nodes[upto - 1];
            let r = EvRef { txn: t, idx: (upto - 1) as usize };
            assert(self.ev(r) == e);
            let head = self.releases(t, upto - 1);
            let a = Action::Release { key: e.write, ts: self.txn(t).ts };
            let tail = if e.has_storage_slot {
                seq![a]
            } else {
                Seq::<Action>::empty()
            };
            lemma_run_concat(content, cap, full_to_panic, head, tail);
            lemma_run_one(run(content, cap, full_to_panic, head)->Ok_0.0, cap, full_to_panic, a);
            self.lemma_pub_releases(content, cap, full_to_panic, t, upto - 1);
            let mid = run(content, cap, full_to_panic, head)->Ok_0.0;
            if e.has_storage_slot {
                let after = applied(mid, cap, full_to_panic, a)->Ok_0.0;
                lemma_applied(mid, cap, full_to_panic, a);
                assert forall|o: EvRef| self.live_ev(o) && o.txn != t implies #[trigger] self.held(
                    after,
                    o,
                ) by {
                    assert(self.held(mid, o));
                    if self.ev(o).has_storage_slot {
                        let u = self.ev(o);
                        let v = self.ev(r);
                        assert(self.live_ev(r));
                        assert(!(u.write == v.write && self.txn(o.txn).ts == self.txn(t).ts));
                        Self::lemma_state_kept(mid, after, a, u.write, self.txn(o.txn).ts);
                    }
                }
            }
        }
    }

    /// Releasing a transaction keeps the store in agreement with the graph,
    /// where its versions are released.
    pub proof fn lemma_pub_release(
        self,
        content: Content,
        cap: usize,
        full_to_panic: bool,
        t: usize,
    )
        requires
            self.wf(),
            self.published(content),
            ordered(content, cap),
            self.droppable(t),
            run(content, cap, full_to_panic, self.release(t).1) matches Ok(done) && done.1 == 0,
        ensures
            self.release(t).0.published(
                run(content, cap, full_to_panic, self.release(t).1)->Ok_0.0,
            ),
            ordered(run(content, cap, full_to_panic, self.release(t).1)->Ok_0.0, cap),
    {
        let g = self.release(t).0;
        let after = run(content, cap, full_to_panic, self.release(t).1)->Ok_0.0;
        self.lemma_pub_releases(content, cap, full_to_panic, t, self.txn(t).ev_nodes.len() as int);
        assert forall|o: EvRef| g.live_ev(o) implies #[trigger] g.held(after, o) by {
            assert(o.txn != t);
            assert(g.ev(o) == self.ev(o));
            assert(self.live_ev(o));
            assert(self.held(after, o));
        }
        assert forall|p: EvRef, q: EvRef|
            #![trigger g.ev(p), g.ev(q)]
            g.live_ev(p) && g.live_ev(q) && p != q && g.ev(p).has_storage_slot && g.ev(
                q,
            ).has_storage_slot implies !(g.ev(p).write == g.ev(q).write && g.txn(p.txn).ts
            == g.txn(q.txn).ts) by {
            let u = self.ev(p);
            let v = self.ev(q);
            assert(g.ev(p) == u && g.ev(q) == v);
            assert(self.live_ev(p) && self.live_ev(q));
        }
    }

    /// A pass that releases what can be released keeps the store in
    /// agreement with the graph.
    pub proof fn lemma_pub_sweep(
        self,
        content: Content,
        cap: usize,
        full_to_panic: bool,
        upto: int,
    )
        requires
            self.wf(),
            self.published(content),
            ordered(content, cap),
            upto <= self.nodes.len(),
            run(content, cap, full_to_panic, self.sweep(upto).1) matches Ok(done) && done.1 == 0,
        ensures
            self.sweep(upto).0.published(
                run(content, cap, full_to_panic, self.sweep(upto).1)->Ok_0.0,
            ),
            ordered(run(content, cap, full_to_panic, self.sweep(upto).1)->Ok_0.0, cap),
        decreases upto,
    {
        if upto <= 0 {
            lemma_run_none(content, cap, full_to_panic);
        } else {
            let s = self.sweep(upto - 1);
            if s.0.droppable((upto - 1) as usize) {
                let r = s.0.release((upto - 1) as usize);
                lemma_run_concat(content, cap, full_to_panic, s.1, r.1);
                self.lemma_pub_sweep(content, cap, full_to_panic, upto - 1);
                self.lemma_sweep(upto - 1);
                let mid = run(content, cap, full_to_panic, s.1)->Ok_0.0;
                s.0.lemma_pub_release(mid, cap, full_to_panic, (upto - 1) as usize);
            } else {
                self.lemma_pub_sweep(content, cap, full_to_panic, upto - 1);
            }
        }
    }

    /// Graphs that are alike stay alike when the same event is given a
    /// version with the same value in both.
    pub proof fn lemma_alike_slot(self, other: Graph, r: EvRef, value: Seq<u8>)
        requires
            self.same_records(other),
            self.has_ev(r),
        ensures
            self.with_ev(
                r,
                EvState { has_storage_slot: true, written: value, ..self.ev(r) },
            ).same_records(
                other.with_ev(
                    r,
                    EvState { has_storage_slot: true, written: value, ..other.ev(r) },
                ),
            ),
    {
        let a = self.with_ev(
            r,
            EvState { has_storage_slot: true, written: value, ..self.ev(r) },
        );
        let b = other.with_ev(
            r,
            EvState { has_storage_slot: true, written: value, ..other.ev(r) },
        );
        assert(other.nodes[r.txn as int].ts == self.nodes[r.txn as int].ts);
        assert forall|t: int| 0 <= t < a.nodes.len() implies {
            &&& (#[trigger] b.nodes[t]).ev_nodes.len() == a.nodes[t].ev_nodes.len()
            &&& b.nodes[t].ts == a.nodes[t].ts
            &&& b.nodes[t].dropped == a.nodes[t].dropped
        } by {
            assert(other.nodes[t].ts == self.nodes[t].ts);
        }
        assert forall|t: int, e: int|
            0 <= t < a.nodes.len() && 0 <= e < a.nodes[t].ev_nodes.len() implies same_record(
            a.nodes[t].ev_nodes[e],
            #[trigger] b.nodes[t].ev_nodes[e],
        ) by {
            assert(other.nodes[t].ts == self.nodes[t].ts);
            assert(same_record(self.nodes[t].ev_nodes[e], other.nodes[t].ev_nodes[e]));
        }
    }

    /// Taking the word that the executor has completed an event keeps the
    /// store in agreement with the graph, where the changes of the store
    /// are made and fill no ring.  In particular the version of every
    /// accepted event can be read afterwards.
    pub proof fn lemma_pub_complete(
        self,
        content: Content,
        cap: usize,
        full_to_panic: bool,
        r: EvRef,
        value: Seq<u8>,
    )
        requires
            self.wf(),
            self.published(content),
            ordered(content, cap),
            self.has_ev(r),
            run(content, cap, full_to_panic, self.complete(r, value).2) matches Ok(done) && done.1
                == 0,
        ensures
            self.complete(r, value).1.published(
                run(content, cap, full_to_panic, self.complete(r, value).2)->Ok_0.0,
            ),
            ordered(run(content, cap, full_to_panic, self.complete(r, value).2)->Ok_0.0, cap),
    {
        let a = self.accept(r);
        if self.txn(r.txn).dropped || !a.1 {
            lemma_run_none(content, cap, full_to_panic);
        } else {
            let e = self.ev(r);
            let h = self.with_ev(r, e.with_status(EventStatus::ACCEPTED));
            self.lemma_restate(r, e.with_status(EventStatus::ACCEPTED));
            h.lemma_alike_notify(r);
            self.lemma_accept(r);
            assert(a.0 == h.notify_txn_accept(r).0);
            assert(same_record(
                h.nodes[r.txn as int].ev_nodes[r.idx as int],
                a.0.nodes[r.txn as int].ev_nodes[r.idx as int],
            ));
            assert(a.0.nodes[r.txn as int].ts == h.nodes[r.txn as int].ts);
            let w = a.0.write_back(r, value);
            let n = w.0.get_next(r);
            let c = n.0.collect();
            lemma_run_concat(content, cap, full_to_panic, seq![w.1], c.1);
            lemma_run_one(content, cap, full_to_panic, w.1);
            let mid = applied(content, cap, full_to_panic, w.1)->Ok_0.0;
            self.lemma_published_part(content, r);
            assert(self.held(content, r));
            let e2 = EvState {
                has_storage_slot: true,
                written: value,
                ..e.with_status(EventStatus::ACCEPTED)
            };
            lemma_applied(content, cap, full_to_panic, w.1);
            lemma_effect_on_version(
                w.1,
                versions_of(content, default_table(), w.1.key()),
                cap,
                full_to_panic,
            );
            self.lemma_pub_with_ev(content, cap, full_to_panic, r, r, e2, w.1);
            let g_mid = self.with_ev(r, e2);
            g_mid.lemma_published_whole(mid, r);
            self.lemma_with_ev_twice(r, e.with_status(EventStatus::ACCEPTED), e2);
            assert(g_mid == h.with_ev(
                r,
                EvState { has_storage_slot: true, written: value, ..h.ev(r) },
            ));
            h.lemma_alike_slot(a.0, r, value);
            g_mid.lemma_published_alike(w.0, mid);
            a.0.lemma_restate(
                r,
                EvState { has_storage_slot: true, written: value, ..a.0.ev(r) },
            );
            assert(w.0.nodes[r.txn as int].same_keys(a.0.nodes[r.txn as int]));
            w.0.lemma_alike_get_next(r);
            w.0.lemma_get_next(r);
            w.0.lemma_published_alike(n.0, mid);
            n.0.lemma_pub_sweep(mid, cap, full_to_panic, n.0.nodes.len() as int);
        }
    }

    /// Taking the word that the executor has aborted an event keeps the
    /// store in agreement with the graph, where the changes of the store
    /// are made and fill no ring.
    pub proof fn lemma_pub_fail(
        self,
        content: Content,
        cap: usize,
        full_to_panic: bool,
        r: EvRef,
    )
        requires
            self.wf(),
            self.sound(),
            self.published(content),
            ordered(content, cap),
            self.has_ev(r),
            run(content, cap, full_to_panic, self.fail(r).1) matches Ok(done) && done.1 == 0,
        ensures
            self.fail(r).0.published(run(content, cap, full_to_panic, self.fail(r).1)->Ok_0.0),
            ordered(run(content, cap, full_to_panic, self.fail(r).1)->Ok_0.0, cap),
    {
        let a = self.abort_txn(r.txn);
        let count = a.0.txn(r.txn).ev_nodes.len() as int;
        let n = a.0.follow_up(r.txn, 0, count);
        let c = n.0.collect();
        lemma_run_concat(content, cap, full_to_panic, a.1, c.1);
        self.lemma_pub_abort_txn(content, cap, full_to_panic, r.txn);
        self.lemma_abort_txn(r.txn);
        let mid = run(content, cap, full_to_panic, a.1)->Ok_0.0;
        assert(a.0.nodes[r.txn as int].same_keys(self.nodes[r.txn as int]));
        a.0.lemma_alike_follow_up(r.txn, 0, count);
        a.0.lemma_follow_up(r.txn, 0, count);
        a.0.lemma_published_alike(n.0, mid);
        n.0.lemma_pub_sweep(mid, cap, full_to_panic, n.0.nodes.len() as int);
    }

    /// What the construct thread makes of a request keeps the store in
    /// agreement with the graph: the events of a new transaction hold no
    /// version.
    pub proof fn lemma_pub_construct(self, content: Content, msg: TxnMessage, templates: Vec<Txn>)
        requires
            self.wf(),
            self.sound(),
            self.published(content),
            self.nodes.len() < usize::MAX,
        ensures
            self.construct(msg, templates).0.published(content),
    {
        if self.accepts(msg, templates) {
            let t = self.nodes.len() as usize;
            let g0 = self.enlisted(msg, templates);
            let fresh = self.message_txn(msg, templates);
            self.lemma_enlisted(msg, templates);
            self.lemma_sound_enlisted(msg, templates);
            assert(g0.published(content)) by {
                assert forall|o: EvRef| g0.live_ev(o) implies #[trigger] g0.held(content, o) by {
                    if o.txn < t {
                        assert(g0.ev(o) == self.ev(o));
                        assert(self.held(content, o));
                    } else {
                        assert(g0.txn(o.txn) == fresh);
                    }
                }
                assert forall|p: EvRef, q: EvRef|
                    #![trigger g0.ev(p), g0.ev(q)]
                    g0.live_ev(p) && g0.live_ev(q) && p != q && g0.ev(p).has_storage_slot
                        && g0.ev(q).has_storage_slot implies !(g0.ev(p).write == g0.ev(q).write
                    && g0.txn(p.txn).ts == g0.txn(q.txn).ts) by {
                    if p.txn < t && q.txn < t {
                        let u = self.ev(p);
                        let v = self.ev(q);
                        assert(g0.ev(p) == u && g0.ev(q) == v);
                        assert(self.live_ev(p) && self.live_ev(q));
                    } else if p.txn >= t {
                        assert(g0.txn(p.txn) == fresh);
                    } else {
                        assert(g0.txn(q.txn) == fresh);
                    }
                }
            }
            let count = g0.txn(t).ev_nodes.len() as int;
            g0.lemma_alike_link_events(t, count);
            g0.lemma_linking_events(t, count);
            let g1 = g0.set_links(t);
            g0.lemma_published_alike(g1, content);
            assert(g1.nodes[t as int].same_keys(g0.nodes[t as int]));
            g1.lemma_alike_launch(t, 0, g1.txn(t).ev_nodes.len() as int);
            g1.lemma_published_alike(
                g1.launch(t, 0, g1.txn(t).ev_nodes.len() as int).0,
                content,
            );
        }
    }

    /// Shutting the graph down keeps the store in agreement with the
    /// graph, where the versions of what is released are released.
    pub proof fn lemma_pub_teardown(self, content: Content, cap: usize, full_to_panic: bool)
        requires
            self.wf(),
            self.published(content),
            ordered(content, cap),
            run(content, cap, full_to_panic, self.teardown().1) matches Ok(done) && done.1 == 0,
        ensures
            self.teardown().0.published(
                run(content, cap, full_to_panic, self.teardown().1)->Ok_0.0,
            ),
            ordered(run(content, cap, full_to_panic, self.teardown().1)->Ok_0.0, cap),
    {
        let g = self.unpublish();
        self.lemma_unpublish();
        self.lemma_published_alike(g, content);
        g.lemma_pub_sweep(content, cap, full_to_panic, g.nodes.len() as int);
    }

    /// In a store that agrees with the graph, reading the version of an
    /// accepted event of a live transaction gives the value that the event
    /// wrote back.  The version of an aborted event that writes can be read
    /// too, and the version of an event that waits for its turn again is
    /// empty.  So the version that an event holds for its write can be read
    /// exactly when the event is accepted, or is aborted and holds the
    /// value copied forward.
    pub proof fn lemma_version_of_event(self, content: Content, r: EvRef)
        requires
            self.published(content),
            self.live_ev(r),
        ensures
            self.ev(r).status == EventStatus::ACCEPTED ==> fetched(
                content,
                Source::Version {
                    key: self.ev(r).write,
                    ts: self.txn(r.txn).ts,
                },
            ) == Ok::<Seq<u8>, Fault>(self.ev(r).written),
            self.ev(r).status == EventStatus::ABORTED && self.ev(r).has_write ==> slot_state(
                self.versions(content, r),
                self.txn(r.txn).ts,
            ) == Some(DataPointState::NORMAL),
            self.ev(r).has_storage_slot && pending(self.ev(r).status) ==> slot_state(
                self.versions(content, r),
                self.txn(r.txn).ts,
            ) == Some(DataPointState::EMPTY),
            self.ev(r).has_storage_slot ==> has_slot(
                self.versions(content, r),
                self.txn(r.txn).ts,
            ),
            self.ev(r).has_storage_slot && self.ev(r).has_write ==> (slot_state(
                self.versions(content, r),
                self.txn(r.txn).ts,
            ) == Some(DataPointState::NORMAL) <==> self.ev(r).status == EventStatus::ACCEPTED
                || self.ev(r).status == EventStatus::ABORTED),
    {
        assert(self.held(content, r));
    }

    /// Releases fill no ring.
    pub proof fn lemma_releases_fill_nothing(
        self,
        content: Content,
        cap: usize,
        full_to_panic: bool,
        t: usize,
        upto: int,
    )
        ensures
            run(content, cap, full_to_panic, self.releases(t, upto)) matches Ok(done) ==> done.1
                == 0,
        decreases upto,
    {
        if upto <= 0 {
            lemma_run_none(content, cap, full_to_panic);
        } else {
            let e = self.txn(t).ev_nodes[upto - 1];
            let head = self.releases(t, upto - 1);
            let a = Action::Release { key: e.write, ts: self.txn(t).ts };
            let tail = if e.has_storage_slot {
                seq![a]
            } else {
                Seq::<Action>::empty()
            };
            lemma_run_concat(content, cap, full_to_panic, head, tail);
            self.lemma_releases_fill_nothing(content, cap, full_to_panic, t, upto - 1);
            match run(content, cap, full_to_panic, head) {
                Ok(first) => {
                    lemma_run_one(first.0, cap, full_to_panic, a);
                },
                Err(_) => {},
            }
        }
    }

    /// A pass that releases what can be released fills no ring.
    pub proof fn lemma_sweep_fills_nothing(
        self,
        content: Content,
        cap: usize,
        full_to_panic: bool,
        upto: int,
    )
        ensures
            run(content, cap, full_to_panic, self.sweep(upto).1) matches Ok(done) ==> done.1 == 0,
        decreases upto,
    {
        if upto <= 0 {
            lemma_run_none(content, cap, full_to_panic);
        } else {
            let s = self.sweep(upto - 1);
            self.lemma_sweep_fills_nothing(content, cap, full_to_panic, upto - 1);
            if s.0.droppable((upto - 1) as usize) {
                let r = s.0.release((upto - 1) as usize);
                lemma_run_concat(content, cap, full_to_panic, s.1, r.1);
                match run(content, cap, full_to_panic, s.1) {
                    Ok(first) => {
                        s.0.lemma_releases_fill_nothing(
                            first.0,
                            cap,
                            full_to_panic,
                            (upto - 1) as usize,
                            s.0.txn((upto - 1) as usize).ev_nodes.len() as int,
                        );
                    },
                    Err(_) => {},
                }
            }
        }
    }

    /// Shutting the graph down fills no ring.
    pub proof fn lemma_teardown_fills_nothing(
        self,
        content: Content,
        cap: usize,
        full_to_panic: bool,
    )
        ensures
            run(content, cap, full_to_panic, self.teardown().1) matches Ok(done) ==> done.1 == 0,
    {
        self.unpublish().lemma_sweep_fills_nothing(
            content,
            cap,
            full_to_panic,
            self.unpublish().nodes.len() as int,
        );
    }
}

} // verus!
