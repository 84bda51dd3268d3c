use db4nfv::config::Config;
use db4nfv::utils::{
    current_time_ns, low_64, ns_to_system_time, row_key, stamp_of, time_or, ShouldSyncCell,
};
use std::time::{Duration, UNIX_EPOCH};

#[test]
fn test_time_conversion() {
    // Get current time in nanoseconds
    let current_time = current_time_ns();
    println!("Current time in nanoseconds: {}", current_time);

    // Convert nanoseconds back to SystemTime
    let system_time = ns_to_system_time(current_time);
    println!("System time: {:?}", system_time);

    // Assert that the system time is after the UNIX epoch
    assert!(system_time > UNIX_EPOCH);
}

#[test]
fn nanoseconds_count_from_the_epoch() {
    assert_eq!(ns_to_system_time(0), UNIX_EPOCH);
    assert_eq!(ns_to_system_time(1_500_000_000), UNIX_EPOCH + Duration::from_millis(1500));
    assert_eq!(low_64(5), 5);
    assert_eq!(low_64(u64::MAX as u128 + 8), 7);
    assert_eq!(low_64(u128::MAX), u64::MAX);
}

#[test]
fn a_reading_of_the_clock_becomes_its_stamp() {
    assert_eq!(stamp_of(None), 0);
    assert_eq!(stamp_of(Some(0)), 0);
    assert_eq!(stamp_of(Some(1_700_000_000_000_000_000)), 1_700_000_000_000_000_000);
    assert_eq!(stamp_of(Some(u64::MAX as u128)), u64::MAX);
    assert_eq!(stamp_of(Some(u64::MAX as u128 + 8)), 7);
}

#[test]
fn a_point_in_time_that_is_missing_becomes_the_fallback() {
    let later = UNIX_EPOCH + Duration::from_secs(60);
    assert_eq!(time_or(Some(later), UNIX_EPOCH), later);
    assert_eq!(time_or(None, UNIX_EPOCH), UNIX_EPOCH);
    assert_eq!(time_or(None, later), later);
}

#[test]
fn row_keys_join_key_and_slot() {
    assert_eq!(row_key("balance", 0), "balance_0");
    assert_eq!(row_key("balance", 9), "balance_9");
    assert_eq!(row_key("balance", 10), "balance_10");
    assert_eq!(row_key("a_b", 12345), "a_b_12345");
    assert_eq!(row_key("", 7), "_7");
    assert_eq!(row_key("x", 1000000007), "x_1000000007");
}

#[test]
fn a_cell_holds_what_was_written() {
    let mut cell = ShouldSyncCell::new(Some(3usize));
    assert_eq!(*cell.read(), Some(3));
    *cell.write() = None;
    assert_eq!(*cell.read(), None);
    *cell.write() = Some(8);
    assert_eq!(*cell.read(), Some(8));
}

#[test]
fn the_default_config() {
    let config = Config::default();
    assert_eq!(config.vnf_threads_num, 3);
    assert_eq!(config.worker_threads_num, 3);
    assert_eq!(config.waiting_queue_size, 4096);
    assert_eq!(config.transaction_out_of_order_time_ns, 100);
    assert_eq!(config.ringbuffer_size, 10000);
    assert_eq!(config.max_state_records, 10000);
    assert!(!config.ringbuffer_full_to_panic);
    assert_eq!(config.transaction_pooling_size, 10000);
    assert!(config.verbose);
    assert!(config.monitor_enabled);
    assert_eq!(config.max_event_batch, 10);
    assert_eq!(config.log_dir, "./perf");
    assert_eq!(config.threads_needed(), 8);
    assert!(config.enough_cores(8));
    assert!(!config.enough_cores(7));
    assert_eq!(config.first_worker(), 4);
    assert_eq!(config.worker_thread_ends(), 7);
}

#[test]
fn thread_counts_do_not_overflow() {
    let mut config = Config::default();
    config.vnf_threads_num = u16::MAX;
    config.worker_threads_num = u16::MAX;
    assert_eq!(config.threads_needed(), 131072);
    assert!(!config.enough_cores(131071));
    assert!(config.enough_cores(131072));
}
