//! The queues of a pool of workers.

pub mod queue;
