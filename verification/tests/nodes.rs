use db4nfv::config::Config;
use db4nfv::database::action::{DbAction, ReadSource};
use db4nfv::database::api::Database;
use db4nfv::database::simpledb::SimpleDB;
use db4nfv::ds::events::Event;
use db4nfv::ds::transactions::Txn;
use db4nfv::external::ffi::{Finished, Outcome, TxnMessage};
use db4nfv::tpg::ev_node::{holds_value, EvNode};
use db4nfv::tpg::model::{EvRef, EventStatus, TxnStatus};
use db4nfv::tpg::tpg::Tpg;
use db4nfv::tpg::txn_node::TxnNode;
use db4nfv::worker::context::Context;

fn strings(list: &[&str]) -> Vec<String> {
    list.iter().map(|s| String::from(*s)).collect()
}

fn access(reads: &[&str], write: &str, has_write: bool) -> Event {
    Event::new(strings(reads), String::from(write), has_write)
}

fn templates() -> Vec<Txn> {
    let mut one = Txn::new(vec![access(&["k"], "k", true)]);
    one.process_txn();
    let mut two = Txn::new(vec![access(&["k", "m"], "m", true), access(&["k"], "k", true)]);
    two.process_txn();
    vec![one, two]
}

fn message(type_idx: u16, ts: u64, txn_req_id: u64) -> TxnMessage {
    TxnMessage {
        type_idx,
        ts,
        txn_req_id,
        reads_idx: vec![vec![0, 0], vec![0, 0]],
        write_idx: vec![0, 0],
    }
}

fn ev(txn: usize, idx: usize) -> EvRef {
    EvRef { txn, idx }
}

fn graph() -> Tpg {
    Tpg::new(vec!["k", "m"], 2)
}

#[test]
fn an_event_is_built_from_its_template() {
    let event = access(&["a", "b"], "b", true);
    let node = EvNode::from_template(&event, 3, 7, vec![4, 5, 6], 9).unwrap();
    assert_eq!(node.reads, strings(&["a_4", "b_5"]));
    assert_eq!(node.write, "b_9");
    assert!(node.has_write);
    assert!(!node.has_storage_slot);
    assert_eq!(node.idx, 3);
    assert_eq!(node.txn, 7);
    assert_eq!(node.status, EventStatus::CONSTRUCT);
    assert_eq!(node.read_from.len(), 2);
    assert!(node.read_from.iter().all(|from| from.read().is_none()));
    assert_eq!(node.is_read_from_fulfilled, vec![false, false]);
    assert!(node.read_by.is_empty());
    assert!(!node.ready());
    assert!(!node.no_waiting());
}

#[test]
fn an_event_needs_a_row_slot_for_each_read() {
    let event = access(&["a", "b"], "b", true);
    assert!(EvNode::from_template(&event, 0, 0, vec![1], 0).is_none());
    assert!(EvNode::from_template(&event, 0, 0, vec![], 0).is_none());
    assert!(EvNode::from_template(&event, 0, 0, vec![1, 2], 0).is_some());
    let none = access(&[], "b", false);
    let node = EvNode::from_template(&none, 0, 0, vec![], 1).unwrap();
    assert!(node.no_waiting());
    assert!(!node.ready());
    assert!(!node.has_write);
}

#[test]
fn marks_are_set_by_key_and_by_place() {
    let event = access(&["a", "b", "c"], "c", true);
    let mut node = EvNode::from_template(&event, 0, 0, vec![0, 0, 0], 0).unwrap();
    assert!(!node.set_fulfilled_by_key("b_0"));
    assert_eq!(node.is_read_from_fulfilled, vec![false, true, false]);
    assert!(node.set_fulfilled_by_key("b_0"));
    assert!(!node.set_fulfilled_by_idx(0, false));
    assert_eq!(node.is_read_from_fulfilled, vec![true, true, false]);
    assert!(node.set_fulfilled_by_idx(0, true));
    assert!(!node.no_waiting());
    assert!(!node.set_fulfilled_by_idx(2, true));
    assert!(node.no_waiting());
    assert!(node.set_unfulfilled_by_key("a_0"));
    assert_eq!(node.is_read_from_fulfilled, vec![false, true, true]);
    assert!(!node.set_unfulfilled_by_key("a_0"));
    node.status = EventStatus::WAITING;
    assert!(!node.ready());
    node.set_fulfilled_by_key("a_0");
    assert!(node.ready());
    node.status = EventStatus::INQUEUE;
    assert!(node.ready());
    for status in [
        EventStatus::CONSTRUCT,
        EventStatus::CLAIMED,
        EventStatus::ACCEPTED,
        EventStatus::ABORTED,
    ] {
        node.status = status;
        assert!(!node.ready());
    }
}

#[test]
fn marks_follow_the_producer() {
    let event = access(&["a", "b", "c"], "c", true);
    let mut node = EvNode::from_template(&event, 0, 5, vec![0, 0, 0], 0).unwrap();
    *node.read_from[0].write() = Some(ev(1, 0));
    *node.read_from[2].write() = Some(ev(1, 0));
    *node.read_from[1].write() = Some(ev(2, 0));
    node.mark_parent(ev(1, 0), true);
    assert_eq!(node.is_read_from_fulfilled, vec![true, false, true]);
    node.mark_parent(ev(2, 1), true);
    assert_eq!(node.is_read_from_fulfilled, vec![true, false, true]);
    node.mark_parent(ev(2, 0), true);
    assert!(node.no_waiting());
    node.mark_parent(ev(1, 0), false);
    assert_eq!(node.is_read_from_fulfilled, vec![false, true, false]);
}

#[test]
fn the_request_joins_the_values() {
    let event = access(&["a"], "a", true);
    let node = EvNode::from_template(&event, 2, 0, vec![0], 0).unwrap();
    let request = node.execute(44, &vec![vec![1, 2], vec![], vec![3]], 3);
    assert_eq!(request.txn_req_id, 44);
    assert_eq!(request.sa_idx, 2);
    assert_eq!(request.param_count, 3);
    assert_eq!(request.value, vec![1, 2, b';', b';', 3]);
    assert_eq!(node.execute(1, &vec![], 0).value, Vec::<u8>::new());
    assert_eq!(node.execute(1, &vec![vec![9]], 1).value, vec![9]);
}

#[test]
fn a_state_is_exchanged_only_from_the_state_expected() {
    let mut status = EventStatus::INQUEUE;
    assert_eq!(
        status.compare_exchange(EventStatus::INQUEUE, EventStatus::CLAIMED),
        Ok(EventStatus::INQUEUE)
    );
    assert_eq!(status, EventStatus::CLAIMED);
    assert_eq!(
        status.compare_exchange(EventStatus::INQUEUE, EventStatus::ACCEPTED),
        Err(EventStatus::CLAIMED)
    );
    assert_eq!(status, EventStatus::CLAIMED);
    assert_eq!(
        status.compare_exchange(EventStatus::CLAIMED, EventStatus::CLAIMED),
        Ok(EventStatus::CLAIMED)
    );
}

#[test]
fn a_transaction_is_built_from_its_message() {
    let node = TxnNode::from_message(message(1, 30, 8), &templates(), 4).unwrap();
    assert_eq!(node.ts, 30);
    assert_eq!(node.txn_req_id, 8);
    assert_eq!(node.status, TxnStatus::WAITING);
    assert_eq!(node.unfinished_events, 2);
    assert!(!node.dropped);
    assert_eq!(node.ev_nodes.len(), 2);
    assert_eq!(node.ev_nodes[0].reads, strings(&["k_0", "m_0"]));
    assert_eq!(node.ev_nodes[0].write, "m_0");
    assert_eq!(node.ev_nodes[0].idx, 0);
    assert_eq!(node.ev_nodes[1].reads, strings(&["k_0"]));
    assert_eq!(node.ev_nodes[1].idx, 1);
    assert_eq!(node.ev_nodes[1].txn, 4);
    // One slot for each read; a key that is read twice has the last one.
    assert_eq!(node.read_from.len(), 3);
    assert!(node.no_waiting());
    assert_eq!(node.read_from_index_map.len(), 2);
    assert_eq!(node.read_from_index_map.get("k_0"), Some(&2));
    assert_eq!(node.read_from_index_map.get("m_0"), Some(&1));
    assert_eq!(*node.read_from_by_state("k_0").read(), None);
    assert_eq!(node.cover.len(), 2);
    assert_eq!(node.cover.get("m_0"), Some(&None));
    assert_eq!(node.cover.get("k_0"), Some(&None));
    assert!(node.covered_by.is_empty());
    assert!(node.read_by.is_empty());
}

#[test]
fn a_message_must_fit_its_template() {
    let templates = templates();
    assert!(TxnNode::from_message(message(2, 1, 1), &templates, 0).is_none());
    let mut short = message(1, 1, 1);
    short.reads_idx.pop();
    assert!(TxnNode::from_message(short, &templates, 0).is_none());
    let mut short = message(1, 1, 1);
    short.write_idx.pop();
    assert!(TxnNode::from_message(short, &templates, 0).is_none());
    let mut short = message(1, 1, 1);
    short.reads_idx[0].pop();
    assert!(TxnNode::from_message(short, &templates, 0).is_none());
    let mut fine = message(1, 1, 1);
    fine.reads_idx[1].pop();
    assert!(TxnNode::from_message(fine, &templates, 0).is_some());
    assert!(TxnNode::from_message(message(0, 1, 1), &templates, 0).is_some());
}

#[test]
fn parents_are_cleared_when_they_commit() {
    let mut node = TxnNode::from_message(message(1, 30, 8), &templates(), 4).unwrap();
    *node.read_from[0].write() = Some(2);
    *node.read_from[1].write() = Some(3);
    *node.read_from[2].write() = Some(2);
    assert!(!node.no_waiting());
    assert_eq!(*node.read_from_by_state("k_0").read(), Some(2));
    assert_eq!(*node.read_from_by_state("m_0").read(), Some(3));
    assert!(node.holds_link(2));
    assert!(node.holds_link(3));
    assert!(!node.holds_link(1));
    assert!(!node.father_committed(1));
    assert!(node.father_committed(2));
    assert_eq!(*node.read_from[0].read(), None);
    assert_eq!(*node.read_from[1].read(), Some(3));
    assert_eq!(*node.read_from[2].read(), None);
    assert!(!node.father_committed(2));
    assert!(!node.holds_link(2));
    assert!(node.father_committed(3));
    assert!(node.no_waiting());
}

#[test]
fn links_to_other_writers_count_as_links() {
    let mut node = TxnNode::from_message(message(1, 30, 8), &templates(), 4).unwrap();
    assert!(!node.holds_link(6));
    node.add_covered_by(&String::from("k_0"), 6);
    assert_eq!(node.covered_by.get("k_0"), Some(&Some(6)));
    assert!(node.holds_link(6));
    assert!(!node.holds_link(5));
    node.read_by.push(5);
    assert!(node.holds_link(5));
    assert!(holds_value(&node.read_by, 5));
    assert!(!holds_value(&node.read_by, 6));
    node.cover.insert(String::from("m_0"), Some(1));
    assert!(node.holds_link(1));
}

#[test]
fn the_counter_does_not_fall_below_zero() {
    let mut node = TxnNode::from_message(message(1, 30, 8), &templates(), 4).unwrap();
    node.event_accepted();
    assert_eq!(node.unfinished_events, 1);
    node.event_accepted();
    assert_eq!(node.unfinished_events, 0);
    node.event_accepted();
    assert_eq!(node.unfinished_events, 0);
}

#[test]
fn a_new_graph_knows_every_row_slot() {
    let g = graph();
    assert_eq!(g.len(), 0);
    assert!(g.ready_queue.is_empty());
    for key in ["k_0", "k_1", "m_0", "m_1"] {
        assert!(g.knows_key(key));
        assert_eq!(g.last_modify(key), None);
    }
    assert!(!g.knows_key("k_2"));
    assert!(!g.knows_key("k"));
    assert_eq!(g.last_modify("zz"), None);
    assert!(Tpg::new(vec!["k"], 0).state_last_modify.is_empty());
    assert!(Tpg::new(vec![], 3).state_last_modify.is_empty());
}

#[test]
fn links_within_a_transaction_bind_events_only() {
    let mut g = graph();
    let templates = templates();
    let a = g.enlist(message(0, 10, 1), &templates).unwrap();
    TxnNode::set_links(&mut g, a);
    let b = g.enlist(message(1, 20, 2), &templates).unwrap();
    TxnNode::set_links(&mut g, b);
    // The first event of b reads k from a, and writes m.  The second reads
    // k from a too and writes k.
    assert_eq!(*g.event(ev(b, 0)).read_from[0].read(), Some(ev(a, 0)));
    assert_eq!(*g.event(ev(b, 0)).read_from[1].read(), None);
    assert_eq!(*g.event(ev(b, 1)).read_from[0].read(), Some(ev(a, 0)));
    assert_eq!(g.event(ev(a, 0)).read_by, vec![ev(b, 0), ev(b, 1)]);
    assert_eq!(g.txn(a).read_by, vec![b]);
    assert_eq!(g.txn(b).cover.get("k_0"), Some(&Some(a)));
    assert_eq!(g.txn(b).cover.get("m_0"), Some(&None));
    assert_eq!(g.txn(a).covered_by.get("k_0"), Some(&Some(b)));
    assert_eq!(g.last_modify("k_0"), Some((ev(b, 1), b)));
    assert_eq!(g.last_modify("m_0"), Some((ev(b, 0), b)));
    // A third transaction of the same kind reads m from b's first event
    // and k from b's second.
    let c = g.enlist(message(1, 30, 3), &templates).unwrap();
    TxnNode::set_links(&mut g, c);
    assert_eq!(*g.event(ev(c, 0)).read_from[0].read(), Some(ev(b, 1)));
    assert_eq!(*g.event(ev(c, 0)).read_from[1].read(), Some(ev(b, 0)));
    assert_eq!(*g.event(ev(c, 1)).read_from[0].read(), Some(ev(b, 1)));
    assert_eq!(g.txn(b).read_by, vec![c]);
    assert!(g.txn(c).holds_link(b));
    assert!(!g.txn(c).holds_link(a));
    assert!(!g.txn(c).holds_link(c));
}

#[test]
fn a_later_event_reads_from_an_earlier_one_of_its_transaction() {
    let mut both = Txn::new(vec![access(&[], "k", true), access(&["k"], "m", true)]);
    both.process_txn();
    let templates = vec![both];
    let mut g = graph();
    let t = g.enlist(message(0, 10, 1), &templates).unwrap();
    TxnNode::set_links(&mut g, t);
    assert_eq!(*g.event(ev(t, 0)).read_from[0].read(), None);
    assert_eq!(g.event(ev(t, 1)).reads, strings(&["k_0", "m_0"]));
    assert_eq!(*g.event(ev(t, 1)).read_from[0].read(), Some(ev(t, 0)));
    assert_eq!(g.event(ev(t, 0)).read_by, vec![ev(t, 1)]);
    // The transaction does not wait for itself.
    assert!(g.txn(t).read_by.is_empty());
    assert!(g.txn(t).no_waiting());
    assert!(!g.txn(t).holds_link(t));
    EvNode::start(&mut g, ev(t, 0));
    EvNode::start(&mut g, ev(t, 1));
    assert!(g.event(ev(t, 0)).ready());
    assert!(!g.event(ev(t, 1)).ready());
}

#[test]
fn taking_back_an_acceptance_counts_the_event_again() {
    let mut g = graph();
    let templates = templates();
    let t = g.enlist(message(0, 10, 1), &templates).unwrap();
    TxnNode::set_links(&mut g, t);
    EvNode::start(&mut g, ev(t, 0));
    g.nodes[t].ev_nodes[0].status = EventStatus::CLAIMED;
    let mut out: Vec<Finished> = Vec::new();
    assert!(EvNode::accept(&mut g, ev(t, 0), &mut out));
    assert_eq!(out, vec![Finished { txn_req_id: 1, outcome: Outcome::SUCCESS }]);
    assert_eq!(g.txn(t).status, TxnStatus::COMMITED);
    assert!(!EvNode::accept(&mut g, ev(t, 0), &mut out));
    assert_eq!(out.len(), 1);
    // Take it back in a transaction that still waits.
    let u = g.enlist(message(0, 20, 2), &templates).unwrap();
    TxnNode::set_links(&mut g, u);
    g.nodes[u].ev_nodes[0].status = EventStatus::ACCEPTED;
    g.nodes[u].ev_nodes[0].has_storage_slot = true;
    g.nodes[u].unfinished_events = 0;
    match EvNode::reset_accept(&mut g, ev(u, 0)) {
        DbAction::Reset { key, ts } => {
            assert_eq!(key, "k_0");
            assert_eq!(ts, 20);
        }
        _ => panic!("no reset"),
    }
    assert_eq!(g.event(ev(u, 0)).status, EventStatus::WAITING);
    assert_eq!(g.txn(u).unfinished_events, 1);
}

#[test]
fn writing_back_appends_first_and_fills_later() {
    let mut g = graph();
    let t = g.enlist(message(0, 10, 1), &templates()).unwrap();
    match EvNode::write_back(&mut g, ev(t, 0), &vec![5]) {
        DbAction::Push { key, ts, value } => {
            assert_eq!((key.as_str(), ts, value), ("k_0", 10, vec![5]));
        }
        _ => panic!("no push"),
    }
    assert!(g.event(ev(t, 0)).has_storage_slot);
    match EvNode::write_back(&mut g, ev(t, 0), &vec![6]) {
        DbAction::Write { key, ts, value } => {
            assert_eq!((key.as_str(), ts, value), ("k_0", 10, vec![6]));
        }
        _ => panic!("no write"),
    }
}

#[test]
fn the_read_plan_names_the_version_of_each_producer() {
    let mut g = graph();
    let templates = templates();
    let a = g.enlist(message(0, 10, 1), &templates).unwrap();
    TxnNode::set_links(&mut g, a);
    let b = g.enlist(message(1, 20, 2), &templates).unwrap();
    TxnNode::set_links(&mut g, b);
    let plan = EvNode::read_plan(&g, ev(b, 0));
    assert_eq!(plan.len(), 2);
    match &plan[0] {
        ReadSource::Version { key, ts } => assert_eq!((key.as_str(), *ts), ("k_0", 10)),
        ReadSource::Default => panic!("no producer"),
    }
    assert!(matches!(plan[1], ReadSource::Default));
    assert!(matches!(EvNode::read_plan(&g, ev(a, 0))[0], ReadSource::Default));
}

#[test]
fn aborting_an_event_asks_for_the_value_before() {
    let mut g = graph();
    let templates = templates();
    let a = g.enlist(message(0, 10, 1), &templates).unwrap();
    TxnNode::set_links(&mut g, a);
    let b = g.enlist(message(0, 20, 2), &templates).unwrap();
    TxnNode::set_links(&mut g, b);
    EvNode::start(&mut g, ev(a, 0));
    EvNode::start(&mut g, ev(b, 0));
    g.nodes[a].status = TxnStatus::ABORTED;
    let mut actions = Vec::new();
    EvNode::abort(&mut g, ev(a, 0), &mut actions);
    assert_eq!(g.event(ev(a, 0)).status, EventStatus::ABORTED);
    assert!(g.event(ev(a, 0)).has_storage_slot);
    assert_eq!(actions.len(), 1);
    match &actions[0] {
        DbAction::CopyLast { key, ts, has_slot } => {
            assert_eq!((key.as_str(), *ts, *has_slot), ("k_0", 10, false));
        }
        _ => panic!("no copy"),
    }
    // Aborting again changes nothing.
    EvNode::abort(&mut g, ev(a, 0), &mut actions);
    assert_eq!(actions.len(), 1);
    // The reader is told, and is ready.
    assert_eq!(g.event(ev(b, 0)).status, EventStatus::WAITING);
    assert_eq!(
        EvNode::get_next_option_push_others_ready(&mut g, ev(a, 0)),
        Some(ev(b, 0))
    );
    assert_eq!(g.event(ev(b, 0)).status, EventStatus::CLAIMED);
}

#[test]
fn the_earliest_ready_reader_is_claimed_and_the_others_are_queued() {
    let mut wide = Txn::new(vec![access(&["k"], "m", false)]);
    wide.es[0].reads = strings(&["k"]);
    let mut writer = Txn::new(vec![access(&["k"], "k", true)]);
    writer.process_txn();
    let templates = vec![writer, wide];
    let mut g = graph();
    let a = g.enlist(message(0, 10, 1), &templates).unwrap();
    TxnNode::set_links(&mut g, a);
    // Three readers of k; the second has the least timestamp.
    let mut readers = Vec::new();
    for (i, ts) in [30u64, 20, 40].iter().enumerate() {
        let t = g.enlist(message(1, *ts, 2 + i as u64), &templates).unwrap();
        TxnNode::set_links(&mut g, t);
        EvNode::start(&mut g, ev(t, 0));
        readers.push(t);
    }
    g.nodes[a].ev_nodes[0].status = EventStatus::ACCEPTED;
    let next = EvNode::get_next_option_push_others_ready(&mut g, ev(a, 0));
    assert_eq!(next, Some(ev(readers[1], 0)));
    assert_eq!(g.event(ev(readers[1], 0)).status, EventStatus::CLAIMED);
    assert_eq!(g.event(ev(readers[0], 0)).status, EventStatus::INQUEUE);
    assert_eq!(g.event(ev(readers[2], 0)).status, EventStatus::INQUEUE);
    let queued: Vec<EvRef> = g.ready_queue.iter().copied().collect();
    assert_eq!(queued, vec![ev(readers[0], 0), ev(readers[2], 0)]);
    // Nothing is left to hand out.
    assert_eq!(EvNode::get_next_option_push_others_ready(&mut g, ev(a, 0)), None);
    assert_eq!(g.ready_queue.len(), 2);
}

#[test]
fn the_context_keeps_graph_and_store() {
    let mut config = Config::default();
    config.ringbuffer_size = 4;
    config.max_state_records = 1;
    let mut db = SimpleDB::new(&config);
    db.add_table("default", vec!["k"]);
    let ctx = Context::new(5, Tpg::new(vec!["k"], 1), db);
    assert_eq!(ctx.tid, 0);
    assert!(ctx.tpg.knows_key("k_0"));
    assert!(ctx.db.has_key("default", "k_0"));
}
