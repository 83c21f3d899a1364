//! Per-key minimum, maximum and average of `<key>;<value>` records.
//!
//! The library turns a byte view of an input file into a sorted report.
//! The input is cut into chunks at record terminators, each chunk is folded
//! into a table of running statistics, the tables are merged, and the merged
//! table is rendered with its keys in byte-lexicographic order.

pub mod chunk;
pub mod decode;
pub mod report;
pub mod scan;
pub mod stats;
pub mod table;

pub use chunk::{aggregate_all, plan_chunks};
pub use decode::{FixedPointNum, ParseError};
pub use report::{key_less, push_tenths, render_report, station_report};
pub use scan::{aggregate_chunk, RecordError};
pub use stats::{StationStats, MAX_RECORDS};
pub use table::AggregationTable;
