use db4nfv::config::Config;
use db4nfv::database::api::Database;
use db4nfv::database::simpledb::SimpleDB;
use db4nfv::ds::events::Event;
use db4nfv::ds::transactions::Txn;
use db4nfv::external::ffi::{all_variables, Outcome, TxnMessage};
use db4nfv::tpg::ev_node::ExecuteRequest;
use db4nfv::tpg::model::{EvRef, EventStatus, TxnStatus};
use db4nfv::tpg::tpg::Tpg;
use db4nfv::worker::construct_thread::{construct, Constructed};
use db4nfv::worker::worker_threads::{Begin, Worker};

/// A small generator of numbers that look random.
struct Dice(u64);

impl Dice {
    fn roll(&mut self, sides: u64) -> u64 {
        self.0 = self.0.wrapping_mul(6364136223846793005).wrapping_add(1442695040888963407);
        (self.0 >> 33) % sides
    }
}

fn write_to(reads: &[&str], write: &str) -> Event {
    Event::new(reads.iter().map(|s| String::from(*s)).collect(), String::from(write), true)
}

fn prepared(accesses: Vec<Event>) -> Txn {
    let mut txn = Txn::new(accesses);
    txn.process_txn();
    txn
}

fn some_templates() -> Vec<Txn> {
    vec![
        prepared(vec![write_to(&[], "a")]),
        prepared(vec![write_to(&["a"], "b")]),
        prepared(vec![write_to(&["a", "b"], "c")]),
        prepared(vec![write_to(&["c"], "a"), write_to(&["a"], "d")]),
        prepared(vec![write_to(&["b", "d"], "d"), write_to(&["d"], "c"), write_to(&[], "b")]),
    ]
}

fn is_pending(s: EventStatus) -> bool {
    matches!(
        s,
        EventStatus::CONSTRUCT | EventStatus::WAITING | EventStatus::INQUEUE | EventStatus::CLAIMED
    )
}

/// Whether every last writer that a transaction of `template` would read
/// from belongs to a transaction that still waits.
fn arrives_in_time(g: &Tpg, template: &Txn) -> bool {
    template.es.iter().all(|e| {
        e.reads.iter().all(|key| match g.last_modify(&format!("{}_0", key)) {
            Some((_, txn)) => g.nodes[txn].status == TxnStatus::WAITING,
            None => true,
        })
    })
}

/// What holds of the graph between any two steps, as long as every
/// transaction arrives in time.
fn check_marks_and_links(g: &Tpg) {
    for (t, n) in g.nodes.iter().enumerate() {
        assert!(!n.ev_nodes.is_empty());
        for slot in n.read_from.iter() {
            if let Some(p) = *slot.read() {
                assert_ne!(g.nodes[p].status, TxnStatus::COMMITED, "{} awaits committed {}", t, p);
                assert!(g.nodes[p].read_by.contains(&t));
            }
        }
        for (i, e) in n.ev_nodes.iter().enumerate() {
            let me = EvRef { txn: t, idx: i };
            let all = e.is_read_from_fulfilled.iter().all(|f| *f);
            match e.status {
                EventStatus::INQUEUE | EventStatus::CLAIMED | EventStatus::ACCEPTED => {
                    assert!(all, "{:?} is {:?} with a read that is not satisfied", me, e.status)
                }
                EventStatus::WAITING => {
                    assert!(!all, "{:?} waits though it is ready", me);
                    for (j, f) in e.is_read_from_fulfilled.iter().enumerate() {
                        if !*f {
                            let p = e.read_from[j].read().expect("a read without producer waits");
                            let status = g.nodes[p.txn].ev_nodes[p.idx].status;
                            assert!(is_pending(status), "{:?} waits for {:?}, {:?}", me, p, status);
                        }
                    }
                }
                EventStatus::ABORTED => assert_ne!(n.status, TxnStatus::WAITING),
                EventStatus::CONSTRUCT => panic!("{:?} was never started", me),
            }
            for from in e.read_from.iter() {
                if let Some(p) = *from.read() {
                    assert!(g.nodes[p.txn].ev_nodes[p.idx].read_by.contains(&me));
                }
            }
            for reader in e.read_by.iter() {
                let r = &g.nodes[reader.txn].ev_nodes[reader.idx];
                assert!(r.read_from.iter().any(|from| *from.read() == Some(me)));
            }
        }
    }
}

struct Hand {
    worker: Worker,
    job: Option<(EvRef, ExecuteRequest)>,
}

/// Runs the engine on requests and answers that the dice choose, until it
/// is at rest.  Returns whether it got there: a run ends early where the
/// store refuses a change or a read.
fn run(seed: u64, steps: usize, abort_one_in: u64) -> bool {
    let templates = some_templates();
    let mut config = Config::default();
    config.ringbuffer_size = 4096;
    config.max_state_records = 1;
    let names = all_variables(&templates);
    let keys: Vec<&str> = names.iter().map(|s| s.as_str()).collect();
    let mut db = SimpleDB::new(&config);
    db.add_table("default", keys.clone());
    let mut g = Tpg::new(keys, config.max_state_records);
    let mut dice = Dice(seed);
    let mut hands = vec![
        Hand { worker: Worker::new(0, 2), job: None },
        Hand { worker: Worker::new(1, 3), job: None },
    ];
    let mut ts = 0;
    let mut finished = Vec::new();
    let mut step = 0;
    loop {
        let draining = step >= steps;
        step += 1;
        if !draining && dice.roll(5) < 2 {
            let kind = dice.roll(templates.len() as u64) as usize;
            if arrives_in_time(&g, &templates[kind]) {
                ts += 10;
                let events = templates[kind].es.len();
                let msg = TxnMessage {
                    type_idx: kind as u16,
                    ts,
                    txn_req_id: ts,
                    reads_idx: templates[kind].es.iter().map(|e| vec![0; e.reads.len()]).collect(),
                    write_idx: vec![0; events],
                };
                match construct(&mut g, msg, &templates) {
                    Constructed::Linked { in_time, .. } => assert!(in_time),
                    Constructed::Illegal(_) => panic!("the request was refused"),
                }
            }
        } else {
            let which = dice.roll(hands.len() as u64) as usize;
            let hand = &mut hands[which];
            match hand.job.take() {
                Some((ev, request)) => {
                    let aborted = abort_one_in > 0 && dice.roll(abort_one_in) == 0;
                    let value = vec![request.value[0].wrapping_add(1)];
                    match hand.worker.finish(&mut g, &mut db, ev, aborted, &value) {
                        Ok(report) => {
                            assert_eq!(report.overflows, 0);
                            finished.extend(report.finished);
                        }
                        Err(_) => return false,
                    }
                }
                None => match hand.worker.begin(&mut g, &db) {
                    Ok(Begin::Job { ev, request }) => hand.job = Some((ev, request)),
                    Ok(Begin::Discarded(_)) => {}
                    Ok(Begin::Idle) => {}
                    Err(_) => return false,
                },
            }
        }
        check_marks_and_links(&g);
        if draining {
            let idle = hands.iter().all(|h| {
                h.job.is_none() && h.worker.claimed.is_empty() && h.worker.local_queue.is_empty()
            });
            if idle && g.ready_queue.is_empty() {
                break;
            }
            assert!(step < steps + 100_000, "the engine does not come to rest");
        }
    }
    for (t, n) in g.nodes.iter().enumerate() {
        assert_eq!(n.status, TxnStatus::COMMITED, "transaction {} was left behind", t);
        for e in n.ev_nodes.iter() {
            assert!(e.status == EventStatus::ACCEPTED || e.status == EventStatus::ABORTED);
        }
    }
    assert_eq!(finished.len(), g.nodes.len());
    for report in finished.iter() {
        assert_ne!(report.outcome, Outcome::ILLEGAL);
    }
    true
}

#[test]
fn at_rest_every_transaction_has_committed() {
    let mut rested = 0;
    for seed in 0..40 {
        if run(seed, 400, 0) {
            rested += 1;
        }
    }
    assert!(rested >= 10);
}

#[test]
fn at_rest_every_transaction_has_committed_after_aborts() {
    let mut rested = 0;
    for seed in 0..40 {
        if run(1000 + seed, 400, 6) {
            rested += 1;
        }
    }
    assert!(rested >= 10);
}
