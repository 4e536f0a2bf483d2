//! A single-coordinator, many-worker MapReduce engine: the coordinator's job
//! scheduler and phase controller, the worker-side map and reduce drivers, and
//! a word-count application, each with a machine-checked contract.

pub mod text;
pub mod job;
pub mod queue;
pub mod coordinator;
pub mod record;
pub mod order;
pub mod worker;
pub mod grouping;
pub mod wc;
