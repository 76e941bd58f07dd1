//! Measures round-trip signaling latency between pairs of logical CPU cores.
//!
//! The crate provides the three core pieces of the benchmark: a lock-free
//! counting semaphore built on a single atomic integer, the derivation of one
//! representative logical core per physical core from raw per-processor
//! topology records, and the pure parts of the ping-pong benchmarking
//! protocol (pair enumeration, the worker loop, latency averaging).

pub mod protocol;
pub mod semaphore;
pub mod topology;
