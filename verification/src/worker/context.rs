use crate::database::action::{apply_all, lemma_store_ordered, run, stopped, Fault};
use crate::database::api::Database;
use crate::database::simpledb::SimpleDB;
use crate::ds::transactions::Txn;
use crate::external::ffi::{Finished, Outcome, TxnMessage};
use crate::tpg::model::{EvRef, TxnStatus};
use crate::tpg::tpg::Tpg;
use crate::worker::construct_thread::{construct, Constructed};
use crate::worker::worker_threads::{began, begun, finished_with, Begin, Report, Worker};
use vstd::prelude::*;

verus! {

/// The state that the threads of the engine work on: the graph and the
/// store.
pub struct Context {
    pub tid: i16,
    pub tpg: Tpg,
    pub db: SimpleDB,
}

impl Context {
    /// Graph and store are each in order.
    pub open spec fn wf(&self) -> bool {
        self.tpg@.wf() && self.db.wf()
    }

    /// The invariant of the engine.  Graph and store are each in order; the
    /// graph is sound; no transaction is left behind; and the store agrees
    /// with the graph.  Every step keeps it, as long as no ring of the store
    /// is filled.
    pub open spec fn inv(&self) -> bool {
        &&& self.wf()
        &&& self.tpg@.sound()
        &&& self.tpg@.all_driven()
        &&& self.tpg@.published(self.db.content())
    }

    /// The engine leaves no transaction behind.  When nothing is left to
    /// run, that is when no event is under construction, queued or
    /// claimed, every transaction has committed.  This holds where the
    /// graph is in order, as it is at first and as every step keeps it
    /// while every request comes in time.
    pub proof fn lemma_done_at_rest(&self, t: usize)
        requires
            self.inv(),
            self.tpg@.orderly(),
            self.tpg@.at_rest(),
            self.tpg@.has_txn(t),
        ensures
            self.tpg@.txn(t).status == TxnStatus::COMMITED,
    {
        self.tpg@.lemma_rest_committed(t);
    }

    /// The context of a graph and a store.  It belongs to thread 0,
    /// whatever `tid` says.
    pub fn new(tid: i16, tpg: Tpg, db: SimpleDB) -> (r: Self)
        ensures
            r.tid == 0,
            r.tpg == tpg,
            r.db == db,
    {
        Self { tid: 0, tpg, db }
    }

    /// Handles one request, as the construct thread does: a legal request
    /// becomes the newest transaction of the graph, linked and started; any
    /// other is refused.  The store is not touched.
    pub fn construct(&mut self, msg: TxnMessage, templates: &Vec<Txn>) -> (r: Constructed)
        requires
            old(self).wf(),
            old(self).tpg@.nodes.len() < usize::MAX,
        ensures
            final(self).wf(),
            final(self).tid == old(self).tid,
            final(self).db == old(self).db,
            final(self).tpg@ == old(self).tpg@.construct(msg, *templates).0,
            old(self).inv() ==> final(self).inv(),
            old(self).inv() && old(self).tpg@.orderly() && old(self).tpg@.in_time(msg, *templates)
                ==> final(self).tpg@.orderly(),
            match r {
                Constructed::Illegal(report) => {
                    &&& old(self).tpg@.construct(msg, *templates).1 is None
                    &&& report == (Finished {
                        txn_req_id: msg.txn_req_id,
                        outcome: Outcome::ILLEGAL,
                    })
                },
                Constructed::Linked { txn, outcomes, in_time } => {
                    &&& txn == old(self).tpg@.nodes.len()
                    &&& old(self).tpg@.construct(msg, *templates).1 == Some(outcomes@)
                    &&& in_time == old(self).tpg@.in_time(msg, *templates)
                },
            },
    {
        construct(&mut self.tpg, msg, templates)
    }

    /// Looks for an event that `worker` can execute, claims it and reads
    /// what it needs from the store.  The worker takes an event that was
    /// claimed for it, else the last event of its batch, which it fills
    /// from the ready queue when it is empty.  An event that is not claimed,
    /// or not queued, any more is dropped.  The result is the call of the
    /// executor for the event taken, or the fault that keeps one of its
    /// reads from being read; the store is not changed.
    pub fn begin(&mut self, worker: &mut Worker) -> (r: Result<Begin, Fault>)
        requires
            old(self).wf(),
            old(self).tpg@.holds_worker(old(worker).claimed@, old(worker).local_queue@),
        ensures
            final(self).wf(),
            final(self).tid == old(self).tid,
            final(self).db == old(self).db,
            final(self).tpg@.holds_worker(final(worker).claimed@, final(worker).local_queue@),
            final(self).tpg@.same_keys(old(self).tpg@),
            final(worker).tid == old(worker).tid,
            final(worker).max_event_batch == old(worker).max_event_batch,
            old(self).inv() ==> final(self).inv(),
            old(self).tpg@.orderly() ==> final(self).tpg@.orderly(),
            began(
                old(self).tpg@,
                old(worker).claimed@,
                old(worker).local_queue@,
                old(worker).max_event_batch,
                old(self).db.content(),
                final(self).tpg@,
                final(worker).claimed@,
                final(worker).local_queue@,
                r,
            ),
            r matches Ok(Begin::Job { ev, request }) ==> final(self).tpg@.has_ev(ev) && begun(
                final(self).tpg@,
                old(self).db.content(),
                ev,
                r,
            ),
    {
        let r = worker.begin(&mut self.tpg, &self.db);
        proof {
            if old(worker).claimed@.len() > 0 {
                let ev = old(worker).claimed@.last();
                assert(old(self).tpg@.has_ev(old(worker).claimed@[old(worker).claimed@.len() - 1]));
            } else {
                let g0 = old(self).tpg@;
                let from = if old(worker).local_queue@.len() > 0 {
                    old(worker).local_queue@
                } else {
                    g0.ready_queue.take(g0.batch(old(worker).max_event_batch))
                };
                if from.len() > 0 {
                    if old(worker).local_queue@.len() > 0 {
                        assert(g0.has_ev(old(worker).local_queue@[from.len() - 1]));
                    } else {
                        assert(g0.has_ev(g0.ready_queue[from.len() - 1]));
                    }
                    let ev = from.last();
                    assert(g0.nodes[ev.txn as int].same_keys(self.tpg@.nodes[ev.txn as int]));
                }
            }
        }
        r
    }

    /// Takes the executor's answer for the event `ev` that `worker` had
    /// claimed: the graph takes note, the store is changed, and what
    /// nothing holds any more is released.
    pub fn finish(
        &mut self,
        worker: &mut Worker,
        ev: EvRef,
        aborted: bool,
        value: &Vec<u8>,
    ) -> (r: Result<Report, Fault>)
        requires
            old(self).wf(),
            old(self).tpg@.has_ev(ev),
            old(self).tpg@.holds_worker(old(worker).claimed@, old(worker).local_queue@),
        ensures
            final(self).wf(),
            final(self).tid == old(self).tid,
            final(self).tpg@.holds_worker(final(worker).claimed@, final(worker).local_queue@),
            final(self).tpg@.same_keys(old(self).tpg@),
            final(worker).tid == old(worker).tid,
            final(worker).max_event_batch == old(worker).max_event_batch,
            final(worker).local_queue@ == old(worker).local_queue@,
            old(self).inv() && (r matches Ok(report) && report.overflows == 0)
                ==> final(self).inv(),
            old(self).tpg@.orderly() ==> final(self).tpg@.orderly(),
            !aborted ==> {
                let c = old(self).tpg@.complete(ev, value@);
                &&& final(self).tpg@ == c.1
                &&& final(worker).claimed@ == old(worker).claimed@ + (match c.4 {
                    Some(next) => seq![next],
                    None => Seq::empty(),
                })
                &&& finished_with(&old(self).db, &final(self).db, c.2, c.0, c.3, r)
            },
            aborted ==> {
                let c = old(self).tpg@.fail(ev);
                &&& final(self).tpg@ == c.0
                &&& final(worker).claimed@ == old(worker).claimed@ + c.3
                &&& finished_with(&old(self).db, &final(self).db, c.1, false, c.2, r)
            },
    {
        let r = worker.finish(&mut self.tpg, &mut self.db, ev, aborted, value);
        proof {
            if old(self).tpg@.orderly() {
                old(self).tpg@.lemma_orderly_kept(self.tpg@);
            }
        }
        r
    }

    /// Shuts the engine down: no key has a last writer any more, and the
    /// versions of every transaction that can be released are released.
    /// Returns the number of transactions that went.
    pub fn teardown(&mut self) -> (r: Result<usize, Fault>)
        requires
            old(self).wf(),
        ensures
            final(self).wf(),
            final(self).tid == old(self).tid,
            final(self).tpg@ == old(self).tpg@.teardown().0,
            match run(
                old(self).db.content(),
                old(self).db.ring_size(),
                old(self).db.full_to_panic(),
                old(self).tpg@.teardown().1,
            ) {
                Ok(done) => r is Ok && r->Ok_0 == old(self).tpg@.unpublish().released_in(
                    old(self).tpg@.nodes.len() as int,
                ) && final(self).db.content() == done.0,
                Err(f) => r == Err::<usize, Fault>(f) && stopped(
                    old(self).db.content(),
                    old(self).db.ring_size(),
                    old(self).db.full_to_panic(),
                    old(self).tpg@.teardown().1,
                    final(self).db.content(),
                ),
            },
            old(self).inv() && r is Ok ==> final(self).inv(),
            old(self).tpg@.orderly() ==> final(self).tpg@.orderly(),
    {
        let mut actions = Vec::new();
        proof {
            lemma_store_ordered(&self.db);
            let g = self.tpg@;
            let c = self.db.content();
            let cap = self.db.ring_size();
            let full = self.db.full_to_panic();
            assert(crate::database::action::actions_of(actions@) =~= Seq::empty());
            assert(Seq::<crate::database::action::Action>::empty() + g.teardown().1
                =~= g.teardown().1);
            if g.published(c) {
                if run(c, cap, full, g.teardown().1) matches Ok(done) && done.1 == 0 {
                    g.lemma_pub_teardown(c, cap, full);
                }
            }
            g.lemma_teardown_fills_nothing(c, cap, full);
        }
        let gone = self.tpg.teardown(&mut actions);
        match apply_all(&mut self.db, &actions) {
            Ok(_) => Ok(gone),
            Err(f) => Err(f),
        }
    }
}

} // verus!
