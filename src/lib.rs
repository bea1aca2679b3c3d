//! Per-station minimum / mean / maximum over `name;value` records, computed
//! chunk by chunk and merged.
//!
//! Readings are held as integers in tenths of a degree, so that every sum is
//! exact and the rounding of the mean is a matter of integer division.

pub mod parse;
pub mod stats;
pub mod table;
pub mod error;
pub mod scan;
pub mod boundary;
pub mod report;
pub mod laws;
pub mod plan;
