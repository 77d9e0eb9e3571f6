//! What the watcher tells the interface after tidying a file.
use vstd::prelude::*;

use crate::service::BatchReport;

verus! {

/// A report is worth telling the user about when anything was applied,
/// failed, or left waiting; a file no rule cared about stays quiet.
pub fn worth_announcing(report: &BatchReport) -> (r: bool)
    ensures
        r == (report.applied > 0 || report.failed > 0 || report.skipped > 0),
{
    report.applied > 0 || report.failed > 0 || report.skipped > 0
}

} // verus!
