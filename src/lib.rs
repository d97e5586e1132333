//! Parallel aggregation of `key;value` measurement records.
//!
//! The library splits a byte buffer into line-aligned partitions, scans each
//! partition into a per-key table of (min, max, sum, count) in tenths, merges
//! the tables and renders the sorted report `{key=min/avg/max, ...}`.
pub mod error;
pub mod fixed;
pub mod laws;
pub mod merge;
pub mod order;
pub mod partition;
pub mod pipeline;
pub mod report;
pub mod scan;
mod search;
pub mod station;
pub mod table;

pub use error::AggregateError;
pub use fixed::parse_tenths;
pub use merge::merge_stations;
pub use order::compare_bytes;
pub use partition::split_file;
pub use pipeline::aggregate;
pub use report::{format_results, report_bytes};
pub use scan::thread;
pub use station::ProcessedStation;
pub use table::StationTable;
