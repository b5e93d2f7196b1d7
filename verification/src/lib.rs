//! Verified core of a vector database that keeps its data on object storage.
//!
//! The library holds the logic: write-ahead-log replay, the merge of index and
//! log results, attribute filtering, namespace validation, metadata
//! bookkeeping for writes and compaction, batching decisions and key naming.
//! Network, disk, clock-driven loops and floating-point scoring live outside.
pub mod api;
pub mod candidates;
pub mod client;
pub mod compactor;
pub mod config;
pub mod engine;
pub mod format;
pub mod index_laws;
pub mod inverted_index;
pub mod keyed;
pub mod keys;
pub mod merge_laws;
pub mod query_laws;
pub mod replay_laws;
pub mod s3client;
pub mod spfresh;
pub mod store;
pub mod vectors;
pub mod wal_batcher;
