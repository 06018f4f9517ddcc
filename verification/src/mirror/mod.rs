//! Sending the traffic of a source chain to a target chain.

pub mod batch_laws;
pub mod batches;
pub mod checks;
pub mod db;
pub mod delay;
pub mod heights;
pub mod ids;
pub mod laws;
pub mod log;
pub mod metrics;
pub mod nonces;
pub mod queue;
pub mod queueing;
pub mod queueing_laws;
pub mod records;
pub mod refusal_laws;
pub mod requeue_laws;
pub mod requeueing;
pub mod sending;
pub mod sending_laws;
pub mod settling;
pub mod target;
pub mod target_laws;
pub mod tracker;
pub mod tx;
pub mod tx_laws;
