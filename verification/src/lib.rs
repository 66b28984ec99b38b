//! A partitioned columnar measurement store with an asynchronous upload queue.
//!
//! Measurements are grouped by the civil calendar day of their start timestamp
//! in a fixed reference timezone, merged into per-day partition files with
//! bit-exact deduplication, and changed files are tracked in a dirty set that
//! a background uploader drains and retries.

pub mod civil;
pub mod dedup;
pub mod dirty;
pub mod grouping;
pub mod merge;
pub mod paths;
pub mod provider;
pub mod retention;
pub mod rows;
