use db4nfv::monitor::monitor::{Metrics, ThreadLogger, ThreadRole};

#[test]
fn a_worker_counts_accepts_and_aborts() {
    let mut logger = ThreadLogger::new_worker();
    assert_eq!(logger.thread_role(), ThreadRole::EXECUTOR);
    assert_eq!(logger.counters(), 2);
    assert_eq!(logger.count("evnode.accept"), Some(0));
    assert_eq!(logger.count("evnode.abort"), Some(0));
    assert_eq!(logger.count("evnode.enqueue"), None);
    assert!(logger.has_counter("evnode.abort"));
    assert!(!logger.has_counter("evnode"));
    logger.inc("evnode.accept");
    logger.inc("evnode.accept");
    logger.inc("evnode.abort");
    assert_eq!(logger.count("evnode.accept"), Some(2));
    assert_eq!(logger.count("evnode.abort"), Some(1));
    let (name, count) = logger.counter_at(0);
    assert_eq!((name.as_str(), count), ("evnode.accept", 2));
}

#[test]
fn the_construct_thread_counts_what_it_queues() {
    let mut logger = ThreadLogger::new_constructor();
    assert_eq!(logger.thread_role(), ThreadRole::CONSTRUCTOR);
    assert_eq!(logger.counters(), 3);
    for name in ["evnode.let_occupy", "evnode.enqueue", "rare_condition.claimed_when_counting."] {
        assert_eq!(logger.count(name), Some(0));
    }
    logger.inc("evnode.enqueue");
    assert_eq!(logger.count("evnode.enqueue"), Some(1));
    assert_eq!(logger.count("evnode.let_occupy"), Some(0));
}

#[test]
fn an_adapter_thread_has_no_counters() {
    let logger = ThreadLogger::new_vnf();
    assert_eq!(logger.thread_role(), ThreadRole::VNF);
    assert_eq!(logger.counters(), 0);
    assert_eq!(logger.count("evnode.accept"), None);
    assert_eq!(logger.logged(), 0);
}

#[test]
fn measurements_are_kept_in_order() {
    let mut logger = ThreadLogger::new_worker();
    logger.log(Metrics { ts: 5, content: String::from("1,accept,5,0") });
    logger.log(Metrics { ts: 7, content: String::from("1,abort,7,1") });
    assert_eq!(logger.logged(), 2);
    assert_eq!(logger.measurement(0).ts, 5);
    assert_eq!(logger.measurement(1).content, "1,abort,7,1");
    assert_eq!(logger.first_unwritten(), 0);
    logger.mark_written();
    assert_eq!(logger.first_unwritten(), 2);
    logger.log(Metrics { ts: 9, content: String::from("x") });
    assert_eq!(logger.first_unwritten(), 2);
    assert_eq!(logger.logged(), 3);
    assert_eq!(logger.count("evnode.accept"), Some(0));
}
