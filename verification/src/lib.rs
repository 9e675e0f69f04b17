//! Streaming case-insensitive line deduplication.
//!
//! The library removes duplicate lines (compared case-insensitively) from
//! line-oriented byte data without requiring more than one pass per byte.
//! It partitions the input into line-aligned chunks, streams each chunk
//! through a processor that fingerprints every line and consults one shared
//! set of fingerprints, and writes only first occurrences to the output.

pub mod model;
pub mod chunk_processor;
pub mod dedup_set;
pub mod deduplicator;
pub mod progress;
pub mod laws;
