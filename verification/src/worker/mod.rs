pub mod construct_thread;
pub mod context;
pub mod worker_threads;
