//! A counting semaphore and a bounded-concurrency map built on it.
//!
//! The semaphore guards a single non-negative counter: `wait` takes one
//! permit (and blocks while none is available), `release` gives one back
//! with no upper cap. `process` maps a function over a sequence of items,
//! admitting each item through such a semaphore sized to the worker limit.

pub mod semaphore;
pub mod worker_threads;
