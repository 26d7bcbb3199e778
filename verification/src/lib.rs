//! Core of a host telemetry agent: single-instance supervision through a
//! persisted process identifier, and aggregation of per-second readings into
//! one summary record per sampling interval.
//!
//! - `ownership`: what a starting agent decides from the ownership record
//!   and the host's process table.
//! - `summary`: the open record of an interval, and the summary it closes
//!   to; `stats` holds the sums, means and extremes behind it.
//! - `sampler`: the sampling loop as a state machine.
//! - `wire` and `wire_reader`: a summary record as one line of JSON, written
//!   and read back.
//! - `sink`: the kinds of output sink, and when a log file is rotated.
//! - `metrics`: the byte counters of the network interfaces, added up.
//! - `host`: what is taken on trust from `sysinfo`.
//! - `text` and `decimal`: characters, white space, decimal numbers.

pub mod decimal;
pub mod host;
pub mod metrics;
pub mod ownership;
pub mod sampler;
pub mod sink;
pub mod stats;
pub mod summary;
pub mod text;
pub mod wire;
pub mod wire_reader;
