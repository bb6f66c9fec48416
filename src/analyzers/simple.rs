//! Totals without any filter.

use crate::report::{file_counts, sum_up, Report, ReportTotals};
use vstd::prelude::*;

verus! {

/// Totals of a whole report.
#[derive(Debug, Clone, Copy)]
pub struct SimpleAnalyzer {}

impl SimpleAnalyzer {
    pub fn new() -> (r: SimpleAnalyzer) {
        SimpleAnalyzer {  }
    }

    /// Totals over all files; `sessions` is the number of known sessions.
    pub fn get_totals(&self, report: &Report) -> (r: ReportTotals)
        requires
            report.totals_fit(),
        ensures
            r.model() == sum_up(file_counts(report.report_files@)),
            r.sessions == report.session_mapping@.len(),
    {
        report.get_simple_totals()
    }
}

} // verus!
