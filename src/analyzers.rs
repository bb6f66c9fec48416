//! Query façades over a report: unfiltered, or filtered by file and flag.

pub mod filter;
pub mod simple;
