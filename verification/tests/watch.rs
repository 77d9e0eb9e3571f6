use tidyfile::service::BatchReport;
use tidyfile::watch::worth_announcing;

fn report(applied: usize, skipped: usize, failed: usize) -> BatchReport {
    BatchReport { batch: "b1".into(), applied, skipped, failed, needs_manual_restore: 0 }
}

#[test]
fn work_that_moved_a_file_is_announced() {
    assert!(worth_announcing(&report(1, 0, 0)));
}

#[test]
fn work_that_failed_is_announced() {
    assert!(worth_announcing(&report(0, 0, 1)));
}

#[test]
fn a_conflict_left_waiting_is_announced_too() {
    assert!(
        worth_announcing(&report(0, 1, 0)),
        "with the ask policy nothing is applied, so a silent skip would look like a dead watcher"
    );
}

#[test]
fn a_file_no_rule_cared_about_stays_quiet() {
    assert!(!worth_announcing(&report(0, 0, 0)));
}
