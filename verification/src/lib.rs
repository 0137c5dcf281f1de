//! Verified core of a subscription latency-comparison and fan-out stress
//! client.
//!
//! The library owns the logic that is worth stating precisely: normalizing
//! notifications into `(key, timestamp)` pairs, correlating arrivals of the
//! same key across a fixed set of sources, rendering comparison lines,
//! expanding a target list into subscription workers, the supervisor's
//! fail-fast decisions, and parsing of identity lists and byte-range
//! arguments. Network transports, timers and terminal output live outside
//! the library and hand it plain values.

pub mod args;
pub mod correlator;
pub mod errors;
pub mod identity;
pub mod normalizer;
pub mod protocol;
pub mod render;
pub mod report;
pub mod supervisor;
