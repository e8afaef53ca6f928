//! Per-station minimum, maximum and mean temperature over a large text of
//! `station_name;temperature` records, computed chunk by chunk.
//!
//! Temperatures are fixed-point: every value is a whole number of tenths of a
//! degree, so that sums and comparisons are exact.

pub mod scan;
pub mod temperature;
pub mod names;
pub mod aggregate;
pub mod table;
pub mod readings;
pub mod record;
pub mod partition;
pub mod worker;
pub mod reconcile;
pub mod engine;
pub mod count;
pub mod laws;

pub use crate::aggregate::StationAggregateTmp;
pub use crate::engine::{parse_lines, process};
pub use crate::table::StationAggregate;
pub use crate::temperature::custom_parse_float;
