//! Coverage-report engine: a chunks parser, an immutable coverage model with
//! its join algebra, diff-interval reasoning, totals, and comparison analyses.

pub mod analyzers;
pub mod changes;
pub mod cov;
pub mod diff;
pub mod file;
pub mod flags;
pub mod json;
pub mod line;
pub mod parser;
pub mod profiling;
pub mod report;
pub mod text;
