pub mod events;
pub mod keys;
pub mod ringbuf;
pub mod transactions;
