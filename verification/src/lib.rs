//! A streaming transactional-parallel-graph execution engine.
//!
//! Transactions arrive with a timestamp, are linked into a dependency graph
//! over the state keys they read and write, and are executed event by event
//! against a multi-version key-value store.  Every step of the engine is a
//! function on plain, single-owner state, so that each one carries a contract
//! and the whole engine can be driven by any scheduler.

pub mod config;
pub mod database;
pub mod ds;
pub mod utils;
pub mod tpg;
pub mod external;
pub mod monitor;
pub mod worker;
