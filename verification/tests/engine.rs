use db4nfv::config::Config;
use db4nfv::database::action::{apply_all, DbAction, Fault};
use db4nfv::database::api::Database;
use db4nfv::database::simpledb::SimpleDB;
use db4nfv::database::versions::DataPointState;
use db4nfv::ds::events::Event;
use db4nfv::ds::transactions::Txn;
use db4nfv::external::ffi::{
    all_variables, deposit_transaction, Deposit, Finished, Outcome, TxnMessage,
};
use db4nfv::monitor::monitor::ThreadLogger;
use db4nfv::tpg::ev_node::EvNode;
use db4nfv::tpg::model::{EvRef, EventStatus, TxnStatus};
use db4nfv::tpg::steps::Enqueue;
use db4nfv::tpg::tpg::Tpg;
use db4nfv::tpg::txn_node::TxnNode;
use db4nfv::worker::construct_thread::{construct, count_outcomes, Constructed};
use db4nfv::worker::context::Context;
use db4nfv::worker::worker_threads::{Begin, Worker};

/// One engine over the logical keys `keys`, with one row slot each.
struct Engine {
    g: Tpg,
    db: SimpleDB,
    templates: Vec<Txn>,
    worker: Worker,
    finished: Vec<Finished>,
}

fn access(reads: &[&str], write: &str) -> Event {
    Event::new(reads.iter().map(|s| String::from(*s)).collect(), String::from(write), true)
}

fn template(accesses: Vec<Event>) -> Txn {
    let mut txn = Txn::new(accesses);
    txn.process_txn();
    txn
}

fn engine(templates: Vec<Txn>) -> Engine {
    let mut config = Config::default();
    config.ringbuffer_size = 16;
    config.max_state_records = 1;
    let names = all_variables(&templates);
    let keys: Vec<&str> = names.iter().map(|s| s.as_str()).collect();
    let mut db = SimpleDB::new(&config);
    db.add_table("default", keys.clone());
    let g = Tpg::new(keys, config.max_state_records);
    Engine { g, db, templates, worker: Worker::new(0, config.max_event_batch), finished: Vec::new() }
}

fn message(type_idx: u16, ts: u64, txn_req_id: u64, events: usize, reads: usize) -> TxnMessage {
    TxnMessage {
        type_idx,
        ts,
        txn_req_id,
        reads_idx: (0..events).map(|_| vec![0; reads]).collect(),
        write_idx: vec![0; events],
    }
}

impl Engine {
    fn construct(&mut self, msg: TxnMessage) -> Constructed {
        construct(&mut self.g, msg, &self.templates)
    }

    fn linked(&mut self, msg: TxnMessage) -> (usize, Vec<Enqueue>) {
        match self.construct(msg) {
            Constructed::Linked { txn, outcomes, .. } => (txn, outcomes),
            Constructed::Illegal(_) => panic!("the request was refused"),
        }
    }

    fn status(&self, txn: usize, idx: usize) -> EventStatus {
        self.g.nodes[txn].ev_nodes[idx].status
    }

    /// Takes the next event, hands its reads to `run`, and takes the answer.
    /// Returns the event, or nothing where the worker is idle.
    fn step(&mut self, run: &dyn Fn(u64, i32, &[u8]) -> Option<Vec<u8>>) -> Option<EvRef> {
        loop {
            match self.worker.begin(&mut self.g, &self.db).unwrap() {
                Begin::Idle => return None,
                Begin::Discarded(_) => continue,
                Begin::Job { ev, request } => {
                    let answer = run(request.txn_req_id, request.sa_idx, &request.value);
                    let (aborted, value) = match answer {
                        Some(value) => (false, value),
                        None => (true, Vec::new()),
                    };
                    let report = self
                        .worker
                        .finish(&mut self.g, &mut self.db, ev, aborted, &value)
                        .unwrap();
                    self.finished.extend(report.finished);
                    return Some(ev);
                }
            }
        }
    }

    fn run_all(&mut self, run: &dyn Fn(u64, i32, &[u8]) -> Option<Vec<u8>>) -> Vec<EvRef> {
        let mut order = Vec::new();
        while let Some(ev) = self.step(run) {
            order.push(ev);
        }
        order
    }
}

fn ev(txn: usize, idx: usize) -> EvRef {
    EvRef { txn, idx }
}

fn increment(_: u64, _: i32, value: &[u8]) -> Option<Vec<u8>> {
    Some(vec![value[0] + 1])
}

fn done(txn_req_id: u64, outcome: Outcome) -> Finished {
    Finished { txn_req_id, outcome }
}

#[test]
fn simple_chain() {
    let mut e = engine(vec![template(vec![access(&["balance"], "balance")])]);
    let (a, outcomes_a) = e.linked(message(0, 10, 100, 1, 1));
    let (b, outcomes_b) = e.linked(message(0, 20, 200, 1, 1));
    assert_eq!((a, b), (0, 1));
    assert_eq!(outcomes_a, vec![Enqueue::Enqueued]);
    assert_eq!(outcomes_b, vec![Enqueue::NotReady]);
    assert_eq!(e.status(a, 0), EventStatus::INQUEUE);
    assert_eq!(e.status(b, 0), EventStatus::WAITING);
    assert_eq!(e.g.nodes[b].ev_nodes[0].reads, vec![String::from("balance_0")]);
    assert_eq!(*e.g.nodes[b].ev_nodes[0].read_from[0].read(), Some(ev(a, 0)));
    assert_eq!(*e.g.nodes[b].read_from[0].read(), Some(a));
    assert_eq!(e.g.nodes[a].read_by, vec![b]);
    assert_eq!(e.g.nodes[a].ev_nodes[0].read_by, vec![ev(b, 0)]);

    assert_eq!(e.step(&increment), Some(ev(a, 0)));
    assert_eq!(e.g.nodes[a].status, TxnStatus::COMMITED);
    assert_eq!(e.g.nodes[b].status, TxnStatus::WAITING);
    assert_eq!(e.status(a, 0), EventStatus::ACCEPTED);
    assert_eq!(e.status(b, 0), EventStatus::CLAIMED);
    assert_eq!(e.db.get_version("default", "balance_0", 10), vec![1]);
    assert!(!e.g.nodes[a].dropped);

    assert_eq!(e.step(&increment), Some(ev(b, 0)));
    assert_eq!(e.g.nodes[b].status, TxnStatus::COMMITED);
    assert_eq!(e.finished, vec![done(100, Outcome::SUCCESS), done(200, Outcome::SUCCESS)]);
    assert_eq!(e.db.get_version("default", "balance_0", 20), vec![2]);
    // The first transaction is held by nothing any more, and its version
    // is gone with it.
    assert!(e.g.nodes[a].dropped);
    assert!(!e.g.nodes[b].dropped);
    assert_eq!(e.db.version_state("default", "balance_0", 10), None);
    assert_eq!(e.db.oldest_ts("default", "balance_0"), Some(20));
    assert_eq!(e.step(&increment), None);

    let mut actions = Vec::new();
    assert_eq!(e.g.teardown(&mut actions), 1);
    assert_eq!(apply_all(&mut e.db, &actions), Ok(0));
    assert!(e.g.nodes[b].dropped);
    assert_eq!(e.db.oldest_ts("default", "balance_0"), None);
    assert_eq!(e.db.newest_ts("default", "balance_0"), None);
}

#[test]
fn independent_keys() {
    let mut e = engine(vec![
        template(vec![access(&["k1"], "k1")]),
        template(vec![access(&["k2"], "k2")]),
    ]);
    let (a, outcomes_a) = e.linked(message(0, 10, 1, 1, 1));
    let (b, outcomes_b) = e.linked(message(1, 20, 2, 1, 1));
    assert_eq!(outcomes_a, vec![Enqueue::Enqueued]);
    assert_eq!(outcomes_b, vec![Enqueue::Enqueued]);
    assert!(e.g.nodes[a].read_by.is_empty());
    assert!(e.g.nodes[b].read_from.iter().all(|slot| slot.read().is_none()));
    assert!(e.g.nodes[a].read_from.iter().all(|slot| slot.read().is_none()));
    assert!(!e.g.nodes[a].holds_link(b));
    assert!(!e.g.nodes[b].holds_link(a));
    // Both are queued at once; the batch hands out the last one first.
    let order = e.run_all(&increment);
    assert_eq!(order, vec![ev(b, 0), ev(a, 0)]);
    assert_eq!(e.g.nodes[a].status, TxnStatus::COMMITED);
    assert_eq!(e.g.nodes[b].status, TxnStatus::COMMITED);
    assert_eq!(e.finished, vec![done(2, Outcome::SUCCESS), done(1, Outcome::SUCCESS)]);
    assert_eq!(e.db.get_version("default", "k1_0", 10), vec![1]);
    assert_eq!(e.db.get_version("default", "k2_0", 20), vec![1]);
}

#[test]
fn abort_cascade() {
    // T_a writes k.  T_b writes k in its first event and fails in its
    // second.  T_c reads k.
    let mut e = engine(vec![
        template(vec![access(&["k"], "k")]),
        template(vec![access(&["k"], "k"), access(&["m"], "m")]),
    ]);
    let (a, _) = e.linked(message(0, 10, 1, 1, 1));
    let (b, _) = e.linked(message(1, 20, 2, 2, 1));
    let (c, _) = e.linked(message(0, 30, 3, 1, 1));
    let run = |txn_req_id: u64, sa_idx: i32, value: &[u8]| match (txn_req_id, sa_idx) {
        (1, _) => Some(vec![b'A']),
        (2, 0) => Some(vec![b'B']),
        (2, _) => None,
        _ => Some(vec![value[0], b'C']),
    };
    // The second event of T_b is queued from the start; it is held back
    // until T_c has read the value that T_b wrote.
    assert_eq!(e.status(b, 1), EventStatus::INQUEUE);
    let mut batch = Worker::new(1, 10);
    batch.refill(&mut e.g);
    assert_eq!(batch.local_queue, vec![ev(a, 0), ev(b, 1)]);
    e.worker.local_queue.push(ev(a, 0));

    assert_eq!(e.step(&run), Some(ev(a, 0)));
    assert_eq!(e.step(&run), Some(ev(b, 0)));
    assert_eq!(e.db.get_version("default", "k_0", 20), vec![b'B']);
    assert_eq!(e.step(&run), Some(ev(c, 0)));
    assert_eq!(e.status(c, 0), EventStatus::ACCEPTED);
    assert_eq!(e.db.get_version("default", "k_0", 30), vec![b'B', b'C']);
    assert_eq!(e.g.nodes[c].unfinished_events, 0);
    assert_eq!(e.g.nodes[c].status, TxnStatus::WAITING);
    assert_eq!(e.g.nodes[b].ev_nodes[0].has_storage_slot, true);

    // Now T_b fails.
    e.worker.local_queue.push(ev(b, 1));
    assert_eq!(e.step(&run), Some(ev(b, 1)));
    assert_eq!(e.status(b, 0), EventStatus::ABORTED);
    assert_eq!(e.status(b, 1), EventStatus::ABORTED);
    assert_eq!(e.g.nodes[b].unfinished_events, 0);
    // T_b has committed as aborted, since its parent had committed.
    assert_eq!(e.g.nodes[b].status, TxnStatus::COMMITED);
    assert_eq!(e.finished, vec![done(1, Outcome::SUCCESS), done(2, Outcome::ABORTED)]);
    // The version of T_b holds the value before it.
    assert_eq!(e.db.version_state("default", "k_0", 20), Some(DataPointState::NORMAL));
    assert_eq!(e.db.get_version("default", "k_0", 20), vec![b'A']);
    assert_eq!(e.db.get_version("default", "m_0", 20), vec![0]);
    // T_c was taken back and is claimed again.
    assert_eq!(e.status(c, 0), EventStatus::CLAIMED);
    assert_eq!(e.g.nodes[c].unfinished_events, 1);
    assert_eq!(e.db.version_state("default", "k_0", 30), Some(DataPointState::EMPTY));
    assert_eq!(e.worker.claimed, vec![ev(c, 0)]);

    assert_eq!(e.step(&run), Some(ev(c, 0)));
    assert_eq!(e.status(c, 0), EventStatus::ACCEPTED);
    assert_eq!(e.g.nodes[c].status, TxnStatus::COMMITED);
    assert_eq!(e.db.get_version("default", "k_0", 30), vec![b'A', b'C']);
    assert_eq!(
        e.finished,
        vec![done(1, Outcome::SUCCESS), done(2, Outcome::ABORTED), done(3, Outcome::SUCCESS)]
    );
    assert_eq!(e.step(&run), None);
}

#[test]
fn abort_of_an_event_that_never_wrote_appends_the_value_before() {
    let mut e = engine(vec![template(vec![access(&["k"], "k")])]);
    let (a, _) = e.linked(message(0, 10, 1, 1, 1));
    let (b, _) = e.linked(message(0, 20, 2, 1, 1));
    let run = |txn_req_id: u64, _: i32, _: &[u8]| match txn_req_id {
        1 => Some(vec![b'A']),
        _ => None,
    };
    assert_eq!(e.run_all(&run), vec![ev(a, 0), ev(b, 0)]);
    assert_eq!(e.status(b, 0), EventStatus::ABORTED);
    assert_eq!(e.g.nodes[b].status, TxnStatus::COMMITED);
    assert_eq!(e.finished, vec![done(1, Outcome::SUCCESS), done(2, Outcome::ABORTED)]);
    assert_eq!(e.db.get_version("default", "k_0", 20), vec![b'A']);
    assert!(e.g.nodes[b].ev_nodes[0].has_storage_slot);
}

#[test]
fn construct_loses_the_race_against_a_claim() {
    let mut e = engine(vec![template(vec![access(&["k"], "k")])]);
    let (a, _) = e.linked(message(0, 10, 1, 1, 1));
    // The construct thread links the second transaction and starts its
    // event, which waits for the first.
    let b = e.g.enlist(message(0, 20, 2, 1, 1), &e.templates).unwrap();
    TxnNode::set_links(&mut e.g, b);
    assert_eq!(e.status(b, 0), EventStatus::CONSTRUCT);
    EvNode::start(&mut e.g, ev(b, 0));
    assert_eq!(e.status(b, 0), EventStatus::WAITING);
    assert!(!e.g.nodes[b].ev_nodes[0].no_waiting());
    // Meanwhile a worker executes the first transaction and claims the
    // event that it made ready.
    assert_eq!(e.step(&increment), Some(ev(a, 0)));
    assert_eq!(e.status(b, 0), EventStatus::CLAIMED);
    assert_eq!(e.worker.claimed, vec![ev(b, 0)]);
    let request = match e.worker.begin(&mut e.g, &e.db).unwrap() {
        Begin::Job { ev: taken, request } => {
            assert_eq!(taken, ev(b, 0));
            request
        }
        _ => panic!("the worker did not take the event"),
    };
    assert_eq!(request.value, vec![1]);
    // The construct thread finds the event ready but claimed.
    let mut logger = ThreadLogger::new_constructor();
    let outcome = EvNode::offer(&mut e.g, ev(b, 0));
    assert_eq!(outcome, Enqueue::Raced);
    if outcome == Enqueue::Raced {
        logger.inc("rare_condition.claimed_when_counting.");
    }
    assert_eq!(logger.count("rare_condition.claimed_when_counting."), Some(1));
    assert_eq!(logger.count("evnode.enqueue"), Some(0));
    assert_eq!(e.status(b, 0), EventStatus::WAITING);
    assert!(e.g.ready_queue.is_empty());
    // The worker goes on with the event; its result is not accepted.
    let report = e.worker.finish(&mut e.g, &mut e.db, ev(b, 0), false, &vec![2]).unwrap();
    assert!(!report.accepted);
    assert!(report.finished.is_empty());
    assert_eq!(e.status(b, 0), EventStatus::WAITING);
    assert_eq!(e.db.version_state("default", "k_0", 20), None);
    assert_eq!(e.finished, vec![done(1, Outcome::SUCCESS)]);
}

#[test]
fn validation_failure() {
    let mut e = engine(vec![template(vec![access(&["k"], "k")])]);
    match deposit_transaction(message(1, 10, 77, 1, 1), &e.templates) {
        Deposit::Refuse(report) => assert_eq!(report, done(77, Outcome::ILLEGAL)),
        Deposit::Forward(_) => panic!("the request was forwarded"),
    }
    match deposit_transaction(message(0, 10, 78, 1, 1), &e.templates) {
        Deposit::Forward(msg) => assert_eq!(msg.txn_req_id, 78),
        Deposit::Refuse(_) => panic!("the request was refused"),
    }
    let refused = |e: &mut Engine, msg: TxnMessage, id: u64| {
        match e.construct(msg) {
            Constructed::Illegal(report) => assert_eq!(report, done(id, Outcome::ILLEGAL)),
            Constructed::Linked { .. } => panic!("the request was linked"),
        }
        assert_eq!(e.g.len(), 0);
        assert!(e.g.ready_queue.is_empty());
        assert_eq!(e.g.last_modify("k_0"), None);
    };
    // No such template.
    refused(&mut e, message(1, 10, 77, 1, 1), 77);
    refused(&mut e, message(u16::MAX, 10, 79, 1, 1), 79);
    // Too few row slots for the reads, for the events, for the writes.
    refused(&mut e, message(0, 10, 80, 1, 0), 80);
    refused(&mut e, message(0, 10, 81, 0, 1), 81);
    let mut msg = message(0, 10, 82, 1, 1);
    msg.write_idx.clear();
    refused(&mut e, msg, 82);
    // A row slot that the graph does not have.
    let mut msg = message(0, 10, 83, 1, 1);
    msg.reads_idx[0][0] = 1;
    refused(&mut e, msg, 83);
    let mut msg = message(0, 10, 84, 1, 1);
    msg.write_idx[0] = 5;
    refused(&mut e, msg, 84);
    // More than enough row slots are fine.
    let mut msg = message(0, 10, 85, 2, 3);
    msg.write_idx.push(9);
    let (t, outcomes) = e.linked(msg);
    assert_eq!(t, 0);
    assert_eq!(outcomes, vec![Enqueue::Enqueued]);
    assert_eq!(e.g.len(), 1);
}

#[test]
fn write_write_ordering_without_read() {
    // The template reads nothing; preparing it makes it read what it
    // writes.
    let mut e = engine(vec![template(vec![access(&[], "k")])]);
    assert_eq!(e.templates[0].es[0].reads, vec![String::from("k")]);
    let (a, outcomes_a) = e.linked(message(0, 10, 1, 1, 1));
    let (b, outcomes_b) = e.linked(message(0, 20, 2, 1, 1));
    assert_eq!(outcomes_a, vec![Enqueue::Enqueued]);
    assert_eq!(outcomes_b, vec![Enqueue::NotReady]);
    assert_eq!(*e.g.nodes[b].ev_nodes[0].read_from[0].read(), Some(ev(a, 0)));
    assert_eq!(*e.g.nodes[b].read_from[0].read(), Some(a));
    assert_eq!(e.g.nodes[b].cover.get("k_0"), Some(&Some(a)));
    assert_eq!(e.g.nodes[a].covered_by.get("k_0"), Some(&Some(b)));
    assert_eq!(e.g.last_modify("k_0"), Some((ev(b, 0), b)));
    let run = |txn_req_id: u64, _: i32, _: &[u8]| Some(vec![txn_req_id as u8]);
    assert_eq!(e.run_all(&run), vec![ev(a, 0), ev(b, 0)]);
    assert_eq!(e.finished, vec![done(1, Outcome::SUCCESS), done(2, Outcome::SUCCESS)]);
    assert_eq!(e.db.get_version("default", "k_0", 20), vec![2]);
}

#[test]
fn an_event_without_reads_is_ready_at_once() {
    // A template that was not prepared: its access reads nothing.
    let mut e = engine(vec![template(vec![access(&["k"], "k")])]);
    e.templates.push(Txn::new(vec![access(&[], "k")]));
    let (a, _) = e.linked(message(0, 10, 1, 1, 1));
    let (b, outcomes) = e.linked(message(1, 20, 2, 1, 0));
    assert_eq!(outcomes, vec![Enqueue::Enqueued]);
    assert_eq!(e.status(b, 0), EventStatus::INQUEUE);
    assert!(e.g.nodes[b].ev_nodes[0].ready());
    assert!(e.g.nodes[b].ev_nodes[0].no_waiting());
    assert!(e.g.nodes[b].ev_nodes[0].reads.is_empty());
    assert!(e.g.nodes[b].no_waiting());
    assert_eq!(e.g.nodes[b].cover.get("k_0"), Some(&Some(a)));
    assert_eq!(count_outcomes(&outcomes, Enqueue::Enqueued), 1);
    assert_eq!(count_outcomes(&outcomes, Enqueue::Raced), 0);
}

#[test]
fn a_key_without_writer_reads_the_default_value() {
    let mut e = engine(vec![template(vec![access(&["k", "m"], "k")])]);
    let (a, _) = e.linked(message(0, 10, 9, 1, 2));
    assert!(e.g.nodes[a].ev_nodes[0].read_from.iter().all(|from| from.read().is_none()));
    match e.worker.begin(&mut e.g, &e.db).unwrap() {
        Begin::Job { ev: taken, request } => {
            assert_eq!(taken, ev(a, 0));
            assert_eq!(request.txn_req_id, 9);
            assert_eq!(request.sa_idx, 0);
            assert_eq!(request.param_count, 2);
            assert_eq!(request.value, vec![0, b';', 0]);
        }
        _ => panic!("the worker found no event"),
    }
    assert_eq!(e.status(a, 0), EventStatus::CLAIMED);
}

#[test]
fn reads_are_joined_in_the_order_of_the_keys() {
    let mut e = engine(vec![
        template(vec![access(&["m"], "m")]),
        template(vec![access(&["k"], "k")]),
        template(vec![access(&["m", "k", "z"], "z")]),
    ]);
    e.linked(message(0, 10, 1, 1, 1));
    e.linked(message(1, 20, 2, 1, 1));
    let (c, _) = e.linked(message(2, 30, 3, 1, 3));
    assert_eq!(
        e.g.nodes[c].ev_nodes[0].reads,
        vec![String::from("k_0"), String::from("m_0"), String::from("z_0")]
    );
    let run = |txn_req_id: u64, _: i32, value: &[u8]| match txn_req_id {
        1 => Some(vec![b'm', b'1']),
        2 => Some(vec![b'k']),
        _ => {
            assert_eq!(value, &[b'k', b';', b'm', b'1', b';', 0][..]);
            Some(value.to_vec())
        }
    };
    let order = e.run_all(&run);
    assert_eq!(order.len(), 3);
    assert_eq!(order[2], ev(c, 0));
    assert_eq!(e.g.nodes[c].status, TxnStatus::COMMITED);
}

#[test]
fn a_transaction_commits_after_its_parents() {
    let mut e = engine(vec![
        template(vec![access(&["k"], "k"), access(&["m"], "m")]),
        template(vec![access(&["k"], "k")]),
    ]);
    let (a, _) = e.linked(message(0, 10, 1, 2, 1));
    let (b, _) = e.linked(message(1, 20, 2, 1, 1));
    // T_a has two events.  After the first, T_b can run, but T_b cannot
    // commit before T_a has.
    e.worker.local_queue.push(ev(a, 0));
    assert_eq!(e.step(&increment), Some(ev(a, 0)));
    assert_eq!(e.step(&increment), Some(ev(b, 0)));
    assert_eq!(e.status(b, 0), EventStatus::ACCEPTED);
    assert_eq!(e.g.nodes[b].unfinished_events, 0);
    assert_eq!(e.g.nodes[b].status, TxnStatus::WAITING);
    assert!(!e.g.nodes[b].no_waiting());
    assert!(e.finished.is_empty());
    let mut out = Vec::new();
    assert!(!TxnNode::try_commit(&mut e.g, b, &mut out));
    assert!(out.is_empty());
    // The rest of T_a.
    assert_eq!(e.step(&increment), Some(ev(a, 1)));
    assert_eq!(e.finished, vec![done(1, Outcome::SUCCESS), done(2, Outcome::SUCCESS)]);
    assert_eq!(e.g.nodes[a].status, TxnStatus::COMMITED);
    assert_eq!(e.g.nodes[b].status, TxnStatus::COMMITED);
    assert!(e.g.nodes[b].no_waiting());
    assert_eq!(e.g.nodes[b].cover.get("k_0"), Some(&None));
}

#[test]
fn a_write_out_of_order_is_a_fault() {
    let mut e = engine(vec![template(vec![access(&["k"], "k")])]);
    e.linked(message(0, 20, 1, 1, 1));
    e.linked(message(0, 10, 2, 1, 1));
    assert!(e.step(&increment).is_some());
    match e.worker.begin(&mut e.g, &e.db).unwrap() {
        Begin::Job { ev: taken, .. } => {
            let r = e.worker.finish(&mut e.g, &mut e.db, taken, false, &vec![1]);
            assert_eq!(r.err(), Some(Fault::NotNewest));
        }
        _ => panic!("the worker found no event"),
    }
}

#[test]
fn stale_events_in_the_batch_are_discarded() {
    let mut e = engine(vec![template(vec![access(&["k"], "k")])]);
    let (a, _) = e.linked(message(0, 10, 1, 1, 1));
    e.worker.local_queue.push(ev(a, 0));
    assert_eq!(e.step(&increment), Some(ev(a, 0)));
    // The queue still holds the event, which is accepted by now.
    match e.worker.begin(&mut e.g, &e.db).unwrap() {
        Begin::Discarded(taken) => assert_eq!(taken, ev(a, 0)),
        _ => panic!("the stale event was not discarded"),
    }
    assert!(matches!(e.worker.begin(&mut e.g, &e.db).unwrap(), Begin::Idle));
    assert_eq!(e.status(a, 0), EventStatus::ACCEPTED);
}

#[test]
fn the_batch_takes_no_more_than_its_size() {
    let mut e = engine(vec![template(vec![access(&["k"], "m")])]);
    for i in 0..5u64 {
        let (_, outcomes) = e.linked(message(0, 10 + i, i, 1, 2));
        assert_eq!(outcomes.len(), 1);
    }
    let queued = e.g.ready_queue.len();
    assert_eq!(queued, 1);
    let mut worker = Worker::new(3, 2);
    worker.refill(&mut e.g);
    assert_eq!(worker.local_queue, vec![ev(0, 0)]);
    assert!(e.g.ready_queue.is_empty());
    let mut f = engine(vec![
        template(vec![access(&["a"], "a")]),
        template(vec![access(&["b"], "b")]),
        template(vec![access(&["c"], "c")]),
    ]);
    f.linked(message(0, 1, 1, 1, 1));
    f.linked(message(1, 2, 2, 1, 1));
    f.linked(message(2, 3, 3, 1, 1));
    let mut worker = Worker::new(3, 2);
    worker.refill(&mut f.g);
    assert_eq!(worker.local_queue, vec![ev(0, 0), ev(1, 0)]);
    assert_eq!(f.g.ready_queue.len(), 1);
    assert_eq!(f.g.ready_queue[0], ev(2, 0));
}

#[test]
fn release_waits_for_every_holder() {
    let mut e = engine(vec![template(vec![access(&["k"], "k")])]);
    let (a, _) = e.linked(message(0, 10, 1, 1, 1));
    assert!(e.g.is_referenced(a));
    assert!(!e.g.is_droppable(a));
    let (b, _) = e.linked(message(0, 20, 2, 1, 1));
    // The index names the second transaction now, but the second one
    // holds the first.
    assert!(e.g.is_referenced(a));
    assert!(e.g.nodes[b].holds_link(a));
    assert!(e.g.is_referenced(b));
    assert_eq!(e.step(&increment), Some(ev(a, 0)));
    assert_eq!(e.g.nodes[a].status, TxnStatus::COMMITED);
    // Committed, but covered by the second transaction, which has not
    // committed.
    assert!(e.g.is_referenced(a));
    assert!(!e.g.is_droppable(a));
    let mut actions: Vec<DbAction> = Vec::new();
    assert_eq!(e.g.collect(&mut actions), 0);
    assert!(actions.is_empty());
    assert_eq!(e.step(&increment), Some(ev(b, 0)));
    assert!(e.g.nodes[a].dropped);
    assert!(!e.g.is_droppable(a));
    assert!(!e.g.is_droppable(7));
}

#[test]
fn the_engine_through_its_context() {
    let templates = vec![template(vec![access(&["k"], "k")])];
    let mut config = Config::default();
    config.ringbuffer_size = 4;
    config.max_state_records = 1;
    let mut db = SimpleDB::new(&config);
    db.add_table("default", vec!["k"]);
    let mut ctx = Context::new(0, Tpg::new(vec!["k"], 1), db);
    let mut worker = Worker::new(1, 4);
    for i in 0..3u64 {
        match ctx.construct(message(0, 10 * (i + 1), i, 1, 1), &templates) {
            Constructed::Linked { txn, .. } => assert_eq!(txn, i as usize),
            Constructed::Illegal(_) => panic!("the request was refused"),
        }
    }
    assert!(matches!(
        ctx.construct(message(3, 5, 9, 1, 1), &templates),
        Constructed::Illegal(Finished { txn_req_id: 9, outcome: Outcome::ILLEGAL })
    ));
    let mut finished = Vec::new();
    let mut order = Vec::new();
    loop {
        match ctx.begin(&mut worker).unwrap() {
            Begin::Idle => break,
            Begin::Discarded(_) => continue,
            Begin::Job { ev: taken, request } => {
                let value = vec![request.value[0] + 1];
                let report = ctx.finish(&mut worker, taken, false, &value).unwrap();
                assert!(report.accepted);
                assert_eq!(report.overflows, 0);
                finished.extend(report.finished);
                order.push(taken);
            }
        }
    }
    assert_eq!(order, vec![ev(0, 0), ev(1, 0), ev(2, 0)]);
    assert_eq!(
        finished,
        vec![
            done(0, Outcome::SUCCESS),
            done(1, Outcome::SUCCESS),
            done(2, Outcome::SUCCESS)
        ]
    );
    // The first two are released; the last is the last writer of its key.
    assert!(ctx.tpg.nodes[0].dropped && ctx.tpg.nodes[1].dropped && !ctx.tpg.nodes[2].dropped);
    assert_eq!(ctx.db.oldest_ts("default", "k_0"), Some(30));
    assert_eq!(ctx.db.get_version("default", "k_0", 30), vec![3]);
    assert_eq!(ctx.teardown(), Ok(1));
    assert_eq!(ctx.db.oldest_ts("default", "k_0"), None);
    assert!(ctx.tpg.nodes[2].dropped);
    assert_eq!(ctx.tpg.last_modify("k_0"), None);
}

#[test]
fn releasing_after_a_ring_was_filled_is_a_fault() {
    let templates = vec![template(vec![access(&["k"], "k")])];
    let mut config = Config::default();
    config.ringbuffer_size = 2;
    config.max_state_records = 1;
    let mut db = SimpleDB::new(&config);
    db.add_table("default", vec!["k"]);
    let mut ctx = Context::new(0, Tpg::new(vec!["k"], 1), db);
    let mut worker = Worker::new(1, 4);
    ctx.construct(message(0, 10, 1, 1, 1), &templates);
    ctx.construct(message(0, 20, 2, 1, 1), &templates);
    let first = match ctx.begin(&mut worker).unwrap() {
        Begin::Job { ev: taken, .. } => taken,
        _ => panic!("the worker found no event"),
    };
    // The ring has two cells; the first version leaves one free.
    let report = ctx.finish(&mut worker, first, false, &vec![1]).unwrap();
    assert_eq!(report.overflows, 0);
    let second = match ctx.begin(&mut worker).unwrap() {
        Begin::Job { ev: taken, request } => {
            assert_eq!(request.value, vec![1]);
            taken
        }
        _ => panic!("the worker found no event"),
    };
    // The second version takes the last cell, which empties the ring; the
    // version of the first transaction, which is released now, is gone.
    let report = ctx.finish(&mut worker, second, false, &vec![2]);
    assert_eq!(report.err(), Some(Fault::NoVersion));
}

#[test]
fn a_link_to_a_committed_parent_is_never_cleared() {
    let mut e = engine(vec![template(vec![access(&["k"], "k")])]);
    let (a, _) = e.linked(message(0, 10, 1, 1, 1));
    assert_eq!(e.step(&increment), Some(ev(a, 0)));
    assert_eq!(e.g.nodes[a].status, TxnStatus::COMMITED);

    // The producer is accepted, so the reader is ready at once; but the
    // request comes late.
    let (b, outcomes) = match e.construct(message(0, 20, 2, 1, 1)) {
        Constructed::Linked { txn, outcomes, in_time } => {
            assert!(!in_time);
            (txn, outcomes)
        }
        Constructed::Illegal(_) => panic!("the request was refused"),
    };
    assert_eq!(outcomes, vec![Enqueue::Enqueued]);
    assert_eq!(e.step(&increment), Some(ev(b, 0)));
    assert_eq!(e.status(b, 0), EventStatus::ACCEPTED);
    assert_eq!(e.db.get_version("default", "k_0", 20), vec![2]);

    // A link to a parent is cleared when the parent commits, and this
    // parent had committed before: the reader goes on waiting for it, and
    // both stay in the graph.
    assert_eq!(*e.g.nodes[b].read_from[0].read(), Some(a));
    assert_eq!(e.g.nodes[b].unfinished_events, 0);
    assert_eq!(e.g.nodes[b].status, TxnStatus::WAITING);
    assert_eq!(e.finished, vec![done(1, Outcome::SUCCESS)]);
    assert!(!e.g.nodes[a].dropped);
    assert!(!e.g.nodes[b].dropped);
}

#[test]
fn an_event_that_was_set_back_is_dropped_by_the_worker_that_held_it() {
    let mut e = engine(vec![
        template(vec![access(&[], "x"), access(&[], "w")]),
        template(vec![access(&["x"], "y")]),
        template(vec![access(&["y"], "z")]),
    ]);
    let (m, _) = e.linked(message(0, 10, 1, 2, 1));
    let (r, _) = e.linked(message(1, 20, 2, 1, 2));
    let (s, _) = e.linked(message(2, 30, 3, 1, 2));
    let mut first = Worker::new(1, 1);
    let mut second = Worker::new(2, 1);
    let mut run = |w: &mut Worker, e: &mut Engine, aborted: bool| -> Option<EvRef> {
        match w.begin(&mut e.g, &e.db).unwrap() {
            Begin::Job { ev, request } => {
                let value = vec![request.value[0] + 1];
                let report = w.finish(&mut e.g, &mut e.db, ev, aborted, &value).unwrap();
                e.finished.extend(report.finished);
                Some(ev)
            }
            _ => None,
        }
    };
    // The first worker executes the chain up to the last event, which it
    // holds claimed.
    assert_eq!(run(&mut first, &mut e, false), Some(ev(m, 0)));
    assert_eq!(run(&mut first, &mut e, false), Some(ev(r, 0)));
    assert_eq!(first.claimed, vec![ev(s, 0)]);
    assert_eq!(e.status(s, 0), EventStatus::CLAIMED);
    assert_eq!(e.db.get_version("default", "y_0", 20), vec![2]);
    // The second worker executes the other event of the first transaction,
    // which the executor aborts: what was built on the transaction is
    // rolled back.
    assert_eq!(run(&mut second, &mut e, true), Some(ev(m, 1)));
    assert_eq!(e.g.nodes[m].status, TxnStatus::COMMITED);
    assert_eq!(e.status(m, 0), EventStatus::ABORTED);
    assert_eq!(e.status(r, 0), EventStatus::CLAIMED);
    assert_eq!(e.status(s, 0), EventStatus::WAITING);
    assert_eq!(e.db.version_state("default", "y_0", 20), Some(DataPointState::EMPTY));
    assert_eq!(second.claimed, vec![ev(r, 0)]);
    // The first worker finds that its event was set back, and drops it.
    match first.begin(&mut e.g, &e.db).unwrap() {
        Begin::Discarded(dropped) => assert_eq!(dropped, ev(s, 0)),
        _ => panic!("the event was not dropped"),
    }
    assert!(first.claimed.is_empty());
    // The second worker executes the chain again, on the value before the
    // aborted write.
    assert_eq!(e.db.get_version("default", "x_0", 10), vec![0]);
    assert_eq!(run(&mut second, &mut e, false), Some(ev(r, 0)));
    assert_eq!(run(&mut second, &mut e, false), Some(ev(s, 0)));
    assert_eq!(e.db.get_version("default", "z_0", 30), vec![2]);
    assert_eq!(
        e.finished,
        vec![done(1, Outcome::ABORTED), done(2, Outcome::SUCCESS), done(3, Outcome::SUCCESS)]
    );
}

#[test]
fn a_request_comes_in_time_while_the_writers_it_reads_from_wait() {
    let mut e = engine(vec![
        template(vec![access(&["k"], "k")]),
        template(vec![]),
    ]);
    let in_time = |c: Constructed| match c {
        Constructed::Linked { in_time, .. } => in_time,
        Constructed::Illegal(_) => panic!("the request was refused"),
    };
    // Nobody has written the key.
    assert!(in_time(e.construct(message(0, 10, 1, 1, 1))));
    // The writer waits.
    assert!(in_time(e.construct(message(0, 20, 2, 1, 1))));
    // A transaction without events has nothing to commit on.
    assert!(!in_time(e.construct(message(1, 30, 3, 0, 0))));
    // The executor aborts the first transaction, and the second is rolled
    // forward on the value before; the last writer still waits.
    assert_eq!(e.step(&|_, _, _| None), Some(ev(0, 0)));
    assert_eq!(e.g.nodes[0].status, TxnStatus::COMMITED);
    assert_eq!(e.g.nodes[1].status, TxnStatus::WAITING);
    assert!(in_time(e.construct(message(0, 40, 4, 1, 1))));
    // Once the last writer has committed, a reader comes late.
    assert_eq!(e.run_all(&increment), vec![ev(1, 0), ev(3, 0)]);
    assert_eq!(e.g.nodes[3].status, TxnStatus::COMMITED);
    assert!(!in_time(e.construct(message(0, 50, 5, 1, 1))));
}
