use vstd::prelude::*;
use vstd::string::StringExecFns;

verus! {

/// The tunables of the engine.  They are read once, when the engine is set
/// up, and handed to the parts that need them.
pub struct Config {
    /// Threads that run the traffic adapter.
    pub vnf_threads_num: u16,
    /// Threads that execute events.
    pub worker_threads_num: u16,
    /// Bound of the arrival queue.
    pub waiting_queue_size: u128,
    /// Window within which arrivals could be reordered; reserved.
    pub transaction_out_of_order_time_ns: u128,
    /// Cells of each key's version ring.
    pub ringbuffer_size: usize,
    /// Whether filling a version ring is fatal.
    pub ringbuffer_full_to_panic: bool,
    pub transaction_pooling_size: usize,
    /// Row slots of each logical key.
    pub max_state_records: usize,
    /// Events that a worker takes from the ready queue at once.
    pub max_event_batch: usize,
    pub verbose: bool,
    pub monitor_enabled: bool,
    /// Directory of the metrics files.
    pub log_dir: String,
}

impl Default for Config {
    fn default() -> (r: Self)
        ensures
            r.vnf_threads_num == 3,
            r.worker_threads_num == 3,
            r.waiting_queue_size == 4096,
            r.transaction_out_of_order_time_ns == 100,
            r.ringbuffer_size == 10000,
            r.max_state_records == 10000,
            !r.ringbuffer_full_to_panic,
            r.transaction_pooling_size == 10000,
            r.verbose,
            r.monitor_enabled,
            r.max_event_batch == 10,
            r.log_dir@ == "./perf"@,
    {
        Config {
            vnf_threads_num: 3,
            worker_threads_num: 3,
            waiting_queue_size: 4096,
            transaction_out_of_order_time_ns: 100,
            ringbuffer_size: 10000,
            max_state_records: 10000,
            ringbuffer_full_to_panic: false,
            transaction_pooling_size: 10000,
            verbose: true,
            monitor_enabled: true,
            max_event_batch: 10,
            log_dir: String::from_str("./perf"),
        }
    }
}

impl Config {
    /// The threads that the engine pins to a core of their own: the workers,
    /// the adapter threads, the construct thread and the monitor.
    pub open spec fn spec_threads_needed(&self) -> int {
        self.worker_threads_num + self.vnf_threads_num + 2
    }

    pub fn threads_needed(&self) -> (r: u32)
        ensures
            r == self.spec_threads_needed(),
    {
        let workers: u32 = self.worker_threads_num as u32;
        let vnfs: u32 = self.vnf_threads_num as u32;
        workers + vnfs + 2
    }

    /// Whether a machine with `cores` cores can give every thread its own.
    pub fn enough_cores(&self, cores: usize) -> (r: bool)
        ensures
            r == (self.spec_threads_needed() <= cores),
    {
        let needed: u32 = self.threads_needed();
        needed as u64 <= cores as u64
    }

    /// The first thread id of the workers; the ids below it belong to the
    /// construct thread (0) and the adapter threads.
    pub fn first_worker(&self) -> (r: u32)
        ensures
            r == self.vnf_threads_num + 1,
    {
        let vnfs: u32 = self.vnf_threads_num as u32;
        vnfs + 1
    }

    /// One past the last thread id of the workers.
    pub fn worker_thread_ends(&self) -> (r: u32)
        ensures
            r == self.worker_threads_num + self.vnf_threads_num + 1,
    {
        let workers: u32 = self.worker_threads_num as u32;
        let vnfs: u32 = self.vnf_threads_num as u32;
        workers + vnfs + 1
    }
}

} // verus!
