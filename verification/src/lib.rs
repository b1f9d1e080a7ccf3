//! Verified tooling for a sharded binary container of quantized model
//! weights: fixed-size block codecs (bit packing and layout) and a
//! multi-shard merge engine that deduplicates metadata, recomputes an
//! aligned tensor layout, and emits the consolidated container bytes.
pub mod cli;
pub mod codec;
pub mod merge;
