//! Per-block trace extraction for a high-throughput execution node.
//!
//! The library reassembles discrete JSON trace records from an incrementally
//! delivered byte stream, groups consecutive records into per-block buckets
//! delimited by begin/end markers, and hands completed buckets to a bounded
//! dispatch channel.  All framing, grouping and rendering logic is verified;
//! JSON parsing and the channel hand-off are called through trusted wrappers.

pub mod bytes;
pub mod descriptor;
pub mod framing;
pub mod grouper;
pub mod hex;
pub mod laws;
pub mod output;
pub mod provider;
pub mod record;
pub mod writer;
