//! The core of an HTTP load generator: a workload scheduler that turns
//! elapsed time into a target population of virtual users, the supervisor
//! state that reconciles live users against that target, the script
//! interpreter that assembles and classifies requests, and the streaming
//! aggregator that folds per-request outcomes into per-endpoint statistics.
//!
//! Everything here is pure with respect to the outside world: the clock,
//! the channels, the HTTP client and the terminal live with the caller,
//! which drives these types with plain values.

pub mod config;
pub mod cookies;
pub mod message;
pub mod report;
pub mod request;
pub mod scheduler;
pub mod stats;
pub mod strutil;
pub mod supervisor;
pub mod user;
