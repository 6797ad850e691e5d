//! The course of a run.

use crate::text::{decimal, digits};
use vstd::prelude::*;

verus! {

/// What a run does when the vault has been scanned.
#[derive(Debug, Clone, Copy, PartialEq, Eq, Structural)]
pub enum AfterScan {
    /// End: there is nothing to pack.
    NothingFound,
    /// Look for what an earlier run has packed, and leave it out.
    SkipPacked,
    /// Remove what an earlier run has left, and pack all.
    CleanOutputs,
    /// Touch nothing, and plan for all.
    PlanOnly,
}

/// Decides what follows a scan that found `found` files. Outputs are removed
/// only by a run that writes all of them anew.
pub fn after_scan(found: usize, resume: bool, dry_run: bool) -> (step: AfterScan)
    ensures
        step == AfterScan::NothingFound <==> found == 0,
        step == AfterScan::SkipPacked <==> found > 0 && resume,
        step == AfterScan::CleanOutputs <==> found > 0 && !resume && !dry_run,
        step == AfterScan::PlanOnly <==> found > 0 && !resume && dry_run,
{
    if found == 0 {
        AfterScan::NothingFound
    } else if resume {
        AfterScan::SkipPacked
    } else if !dry_run {
        AfterScan::CleanOutputs
    } else {
        AfterScan::PlanOnly
    }
}

/// What a run that resumes reports: how many files it leaves out of the `before`
/// that were found, and how many are left, or that no pack names a file.
pub open spec fn resume_report_text(none_packed: bool, before: nat, left: nat) -> Seq<char> {
    if none_packed {
        "--resume specified, but no existing manifest or packs were found. Proceeding with full scan."@
    } else {
        "Resuming run: skipped "@ + digits((before - left) as nat) + " already-packed files. "@
            + digits(left) + " active files remaining."@
    }
}

/// Words what a run that resumes reports.
pub fn resume_report(none_packed: bool, before: usize, left: usize) -> (text: String)
    requires
        left <= before,
    ensures
        text@ == resume_report_text(none_packed, before as nat, left as nat),
{
    if none_packed {
        return "--resume specified, but no existing manifest or packs were found. Proceeding with full scan.".to_owned();
    }
    let mut text = "Resuming run: skipped ".to_owned();
    text.append(decimal((before - left) as u64).as_str());
    text.append(" already-packed files. ");
    text.append(decimal(left as u64).as_str());
    text.append(" active files remaining.");
    text
}

} // verus!
