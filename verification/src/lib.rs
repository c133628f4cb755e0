//! Per-key aggregate statistics over delimited text.
//!
//! Records are lines of the form `<key>;<value>`. The crate provides the
//! line-aligned chunking of a byte stream, the parsing of chunks into
//! records, per-shard aggregation keyed by raw bytes, an ordered merge,
//! and the assembly of the final report.

pub mod chunk;
pub mod lines;
pub mod order;
pub mod report;
pub mod shard;
pub mod stats;
pub mod worker;
