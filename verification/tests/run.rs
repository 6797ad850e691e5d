use obsidian_vault_grouper::run::{after_scan, resume_report, AfterScan};

#[test]
fn empty_scans_end_the_run() {
    for resume in [false, true] {
        for dry_run in [false, true] {
            assert_eq!(after_scan(0, resume, dry_run), AfterScan::NothingFound);
        }
    }
}

#[test]
fn only_fresh_runs_clean() {
    assert_eq!(after_scan(1, false, false), AfterScan::CleanOutputs);
    assert_eq!(after_scan(1, false, true), AfterScan::PlanOnly);
    assert_eq!(after_scan(1, true, false), AfterScan::SkipPacked);
    assert_eq!(after_scan(1, true, true), AfterScan::SkipPacked);
}

#[test]
fn resumed_runs_report() {
    assert_eq!(
        resume_report(false, 10, 3),
        "Resuming run: skipped 7 already-packed files. 3 active files remaining."
    );
    assert_eq!(
        resume_report(true, 10, 10),
        "--resume specified, but no existing manifest or packs were found. Proceeding with full scan."
    );
}
