use db4nfv::config::Config;
use db4nfv::database::action::{apply, apply_all, fetch, DbAction, Fault, ReadSource};
use db4nfv::database::api::Database;
use db4nfv::database::simpledb::SimpleDB;
use db4nfv::database::versions::DataPointState;

fn small_config() -> Config {
    let mut config = Config::default();
    config.ringbuffer_size = 8;
    config.max_state_records = 2;
    config
}

fn store() -> SimpleDB {
    let mut db = SimpleDB::new(&small_config());
    db.add_table("default", vec!["k", "other"]);
    db
}

#[test]
fn test_add_table() {
    let mut db = SimpleDB::new(&small_config());
    db.add_table("table1", vec!["key1", "key2"]);
    assert!(db.contains_table("table1"));
}

#[test]
fn add_table_makes_every_row_slot() {
    let db = store();
    assert!(db.has_key("default", "k_0"));
    assert!(db.has_key("default", "k_1"));
    assert!(db.has_key("default", "other_0"));
    assert!(db.has_key("default", "other_1"));
    assert!(!db.has_key("default", "k_2"));
    assert!(!db.has_key("default", "k"));
    assert!(!db.has_key("nowhere", "k_0"));
    assert!(!db.contains_table("table1"));
    assert_eq!(db.newest_ts("default", "k_0"), None);
}

#[test]
fn push_then_get_returns_the_value() {
    let mut db = store();
    assert!(!db.push_version("default", "k_0", 10, &vec![7, 8]));
    assert_eq!(db.get_version("default", "k_0", 10), vec![7, 8]);
    assert_eq!(db.version_state("default", "k_0", 10), Some(DataPointState::NORMAL));
    assert_eq!(db.version_state("default", "k_0", 11), None);
    assert_eq!(db.version_state("default", "k_1", 10), None);
}

#[test]
fn versions_stay_in_the_order_of_their_timestamps() {
    let mut db = store();
    db.push_version("default", "k_0", 10, &vec![1]);
    db.push_version("default", "k_0", 20, &vec![2]);
    db.push_version("default", "k_0", 30, &vec![3]);
    assert_eq!(db.oldest_ts("default", "k_0"), Some(10));
    assert_eq!(db.newest_ts("default", "k_0"), Some(30));
    assert_eq!(db.get_version("default", "k_0", 20), vec![2]);
    db.release_version("default", "k_0", 10);
    assert_eq!(db.oldest_ts("default", "k_0"), Some(20));
    assert_eq!(db.version_state("default", "k_0", 10), None);
    assert_eq!(db.get_version("default", "k_0", 30), vec![3]);
}

#[test]
fn push_then_release_leaves_the_key_as_it_was() {
    let mut db = store();
    db.push_version("default", "k_0", 10, &vec![1]);
    db.release_version("default", "k_0", 10);
    assert_eq!(db.newest_ts("default", "k_0"), None);
    assert_eq!(db.oldest_ts("default", "k_0"), None);
    assert_eq!(db.version_state("default", "k_0", 10), None);
    // The ring goes on as if nothing had been in it.
    db.push_version("default", "k_0", 11, &vec![2]);
    assert_eq!(db.oldest_ts("default", "k_0"), Some(11));
}

#[test]
fn write_reset_write_yields_the_second_value() {
    let mut db = store();
    db.push_version("default", "k_0", 10, &vec![1]);
    db.reset_version("default", "k_0", 10);
    assert_eq!(db.version_state("default", "k_0", 10), Some(DataPointState::EMPTY));
    db.write_version("default", "k_0", 10, &vec![5]);
    assert_eq!(db.version_state("default", "k_0", 10), Some(DataPointState::NORMAL));
    db.reset_version("default", "k_0", 10);
    assert_eq!(db.version_state("default", "k_0", 10), Some(DataPointState::EMPTY));
    db.write_version("default", "k_0", 10, &vec![6, 6]);
    assert_eq!(db.version_state("default", "k_0", 10), Some(DataPointState::NORMAL));
    assert_eq!(db.get_version("default", "k_0", 10), vec![6, 6]);
}

#[test]
fn copy_last_without_slot_appends_the_last_value() {
    let mut db = store();
    db.push_version("default", "k_0", 10, &vec![4, 2]);
    assert!(!db.copy_last_version("default", "k_0", 20, false));
    assert_eq!(db.newest_ts("default", "k_0"), Some(20));
    assert_eq!(db.get_version("default", "k_0", 20), vec![4, 2]);
    assert_eq!(db.get_version("default", "k_0", 10), vec![4, 2]);
}

#[test]
fn copy_last_skips_versions_that_cannot_be_read() {
    let mut db = store();
    db.push_version("default", "k_0", 10, &vec![1]);
    db.push_version("default", "k_0", 20, &vec![2]);
    db.reset_version("default", "k_0", 20);
    db.copy_last_version("default", "k_0", 30, false);
    assert_eq!(db.get_version("default", "k_0", 30), vec![1]);
}

#[test]
fn copy_last_with_slot_takes_the_value_before_it() {
    let mut db = store();
    db.push_version("default", "k_0", 10, &vec![65]);
    db.push_version("default", "k_0", 20, &vec![66]);
    db.push_version("default", "k_0", 30, &vec![67]);
    // The version at 20 is readable and holds its own value; what is copied
    // is the value before it.
    assert!(!db.copy_last_version("default", "k_0", 20, true));
    assert_eq!(db.get_version("default", "k_0", 20), vec![65]);
    assert_eq!(db.get_version("default", "k_0", 30), vec![67]);
    db.reset_version("default", "k_0", 20);
    db.copy_last_version("default", "k_0", 20, true);
    assert_eq!(db.version_state("default", "k_0", 20), Some(DataPointState::NORMAL));
    assert_eq!(db.get_version("default", "k_0", 20), vec![65]);
}

#[test]
fn copy_last_without_a_value_before_gives_the_default() {
    let mut db = store();
    db.copy_last_version("default", "k_0", 10, false);
    assert_eq!(db.get_version("default", "k_0", 10), vec![0]);
    db.push_version("default", "k_1", 5, &vec![9]);
    db.copy_last_version("default", "k_1", 5, true);
    assert_eq!(db.get_version("default", "k_1", 5), vec![0]);
}

#[test]
fn a_full_ring_reads_as_empty() {
    let mut db = store();
    for ts in 1..8u64 {
        assert!(!db.push_version("default", "k_0", ts, &vec![ts as u8]));
    }
    assert_eq!(db.oldest_ts("default", "k_0"), Some(1));
    assert_eq!(db.newest_ts("default", "k_0"), Some(7));
    assert!(!db.push_is_fatal("default", "k_0"));
    // The ring has 8 cells, one of them stays free: the eighth version
    // fills it.
    assert!(db.push_version("default", "k_0", 8, &vec![8]));
    assert_eq!(db.newest_ts("default", "k_0"), None);
    assert_eq!(db.version_state("default", "k_0", 3), None);
    // Other keys are not touched.
    db.push_version("default", "k_1", 1, &vec![1]);
    assert_eq!(db.get_version("default", "k_1", 1), vec![1]);
}

#[test]
fn a_ring_that_must_not_fill_reports_the_last_push_as_fatal() {
    let mut config = small_config();
    config.ringbuffer_size = 3;
    config.ringbuffer_full_to_panic = true;
    let mut db = SimpleDB::new(&config);
    db.add_table("default", vec!["k"]);
    assert!(!db.push_is_fatal("default", "k_0"));
    db.push_version("default", "k_0", 1, &vec![1]);
    assert!(!db.push_is_fatal("default", "k_0"));
    db.push_version("default", "k_0", 2, &vec![2]);
    assert!(db.push_is_fatal("default", "k_0"));
    let push = DbAction::Push { key: String::from("k_0"), ts: 3, value: vec![3] };
    assert_eq!(apply(&mut db, &push), Err(Fault::RingFull));
    let copy = DbAction::CopyLast { key: String::from("k_0"), ts: 3, has_slot: false };
    assert_eq!(apply(&mut db, &copy), Err(Fault::RingFull));
    assert_eq!(db.newest_ts("default", "k_0"), Some(2));
}

#[test]
fn actions_are_refused_with_the_fault_that_prevents_them() {
    let mut db = store();
    let key = || String::from("k_0");
    let unknown = DbAction::Push { key: String::from("nope"), ts: 1, value: vec![1] };
    assert_eq!(apply(&mut db, &unknown), Err(Fault::UnknownKey));
    let empty = DbAction::Push { key: key(), ts: 1, value: vec![] };
    assert_eq!(apply(&mut db, &empty), Err(Fault::EmptyValue));
    assert_eq!(apply(&mut db, &DbAction::Reset { key: key(), ts: 1 }), Err(Fault::NoVersion));
    assert_eq!(apply(&mut db, &DbAction::Release { key: key(), ts: 1 }), Err(Fault::NoVersion));
    assert_eq!(
        apply(&mut db, &DbAction::Push { key: key(), ts: 10, value: vec![1] }),
        Ok(false)
    );
    assert_eq!(
        apply(&mut db, &DbAction::Push { key: key(), ts: 10, value: vec![1] }),
        Err(Fault::NotNewest)
    );
    assert_eq!(
        apply(&mut db, &DbAction::Push { key: key(), ts: 9, value: vec![1] }),
        Err(Fault::NotNewest)
    );
    assert_eq!(
        apply(&mut db, &DbAction::Write { key: key(), ts: 10, value: vec![2] }),
        Err(Fault::WrongState)
    );
    assert_eq!(
        apply(&mut db, &DbAction::Write { key: key(), ts: 11, value: vec![2] }),
        Err(Fault::NoVersion)
    );
    assert_eq!(apply(&mut db, &DbAction::Reset { key: key(), ts: 10 }), Ok(false));
    assert_eq!(apply(&mut db, &DbAction::Reset { key: key(), ts: 10 }), Err(Fault::WrongState));
    assert_eq!(
        apply(&mut db, &DbAction::CopyLast { key: key(), ts: 12, has_slot: true }),
        Err(Fault::NoVersion)
    );
    assert_eq!(
        apply(&mut db, &DbAction::CopyLast { key: key(), ts: 10, has_slot: false }),
        Err(Fault::NotNewest)
    );
    assert_eq!(
        apply(&mut db, &DbAction::Push { key: key(), ts: 20, value: vec![3] }),
        Ok(false)
    );
    assert_eq!(apply(&mut db, &DbAction::Release { key: key(), ts: 20 }), Err(Fault::NotOldest));
    assert_eq!(apply(&mut db, &DbAction::Release { key: key(), ts: 10 }), Ok(false));
    assert_eq!(db.oldest_ts("default", "k_0"), Some(20));
}

#[test]
fn a_list_of_actions_stops_at_the_first_fault() {
    let mut db = store();
    let list = vec![
        DbAction::Push { key: String::from("k_0"), ts: 1, value: vec![1] },
        DbAction::Reset { key: String::from("k_0"), ts: 2 },
        DbAction::Push { key: String::from("k_0"), ts: 3, value: vec![3] },
    ];
    assert_eq!(apply_all(&mut db, &list), Err(Fault::NoVersion));
    assert_eq!(db.newest_ts("default", "k_0"), Some(1));
    let list = vec![
        DbAction::Push { key: String::from("k_1"), ts: 1, value: vec![1] },
        DbAction::Push { key: String::from("k_1"), ts: 2, value: vec![2] },
    ];
    assert_eq!(apply_all(&mut db, &list), Ok(0));
    assert_eq!(db.newest_ts("default", "k_1"), Some(2));
}

#[test]
fn a_key_without_producer_reads_as_the_default_value() {
    let mut db = store();
    db.push_version("default", "k_0", 10, &vec![9, 9]);
    let plan = vec![
        ReadSource::Default,
        ReadSource::Version { key: String::from("k_0"), ts: 10 },
    ];
    assert_eq!(fetch(&db, &plan), Ok(vec![vec![0u8], vec![9, 9]]));
    let missing = vec![ReadSource::Version { key: String::from("k_0"), ts: 11 }];
    assert_eq!(fetch(&db, &missing), Err(Fault::NoVersion));
    db.reset_version("default", "k_0", 10);
    assert_eq!(fetch(&db, &plan), Err(Fault::WrongState));
    let unknown = vec![ReadSource::Version { key: String::from("zz"), ts: 10 }];
    assert_eq!(fetch(&db, &unknown), Err(Fault::UnknownKey));
}
