use jewelcase::analysis::{bin_range, frames_per_slot};
use jewelcase::catalog::most_used;
use jewelcase::queue::{plan_cancel, CancelPlan};
use jewelcase::scan_run::{ScanRun, Step};
use jewelcase::types::{Cursor, Depth, Scan, ScanProgress, ScanState, Scope, Trigger};

fn scan_of(scopes: Vec<Scope>, cursor: Option<Cursor>) -> Scan {
    Scan {
        id: 7,
        library: "lib".to_string(),
        trigger: Trigger::Manual,
        scopes,
        state: ScanState::Queued,
        started_at: None,
        finished_at: None,
        progress: ScanProgress::default(),
        cursor,
    }
}

fn two_roots() -> Vec<Scope> {
    vec![Scope::root("/gone"), Scope::root("/music")]
}

#[test]
fn an_unanswering_root_is_passed_over_and_suspends() {
    let mut scan = scan_of(two_roots(), None);
    let mut run = ScanRun::start(&mut scan, 100);
    assert_eq!(scan.state, ScanState::Running);
    assert_eq!(scan.started_at, Some(100));
    assert_eq!(run.next(&scan, false), Step::CheckRoot(0));
    run.root_checked(false);
    assert_eq!(run.next(&scan, false), Step::CheckRoot(1));
    run.root_checked(true);
    assert_eq!(run.next(&scan, false), Step::Walk(1));
    run.walk_finished(false);
    assert_eq!(run.next(&scan, false), Step::Reconcile(1));
    run.reconciled(&mut scan, 3);
    assert_eq!(scan.progress.missing, 3);
    assert_eq!(scan.cursor, Some(Cursor { scope_index: 2, after_directory: None }));
    assert_eq!(run.next(&scan, false), Step::Finish);
    run.finish(&mut scan, false, 200);
    assert_eq!(scan.state, ScanState::Suspended);
    assert_eq!(scan.finished_at, Some(200));
}

#[test]
fn a_cancelled_walk_is_not_reconciled() {
    let mut scan = scan_of(two_roots(), None);
    let mut run = ScanRun::start(&mut scan, 1);
    assert_eq!(run.next(&scan, false), Step::CheckRoot(0));
    run.root_checked(true);
    assert_eq!(run.next(&scan, false), Step::Walk(0));
    run.walk_finished(true);
    assert_eq!(run.next(&scan, true), Step::Finish);
    run.finish(&mut scan, true, 2);
    assert_eq!(scan.state, ScanState::Cancelled);
    assert_eq!(scan.progress.missing, 0);
    assert_eq!(scan.cursor, None);
}

#[test]
fn a_cancel_between_scopes_ends_the_run() {
    let mut scan = scan_of(two_roots(), None);
    let mut run = ScanRun::start(&mut scan, 1);
    assert_eq!(run.next(&scan, true), Step::Finish);
    run.finish(&mut scan, true, 2);
    assert_eq!(scan.state, ScanState::Cancelled);
}

#[test]
fn a_run_resumes_at_the_cursor_scope_and_completes() {
    let cursor = Cursor { scope_index: 1, after_directory: Some("/music/a".to_string()) };
    let mut scan = scan_of(two_roots(), Some(cursor));
    scan.started_at = Some(5);
    let mut run = ScanRun::start(&mut scan, 50);
    assert_eq!(scan.started_at, Some(5));
    assert_eq!(run.next(&scan, false), Step::CheckRoot(1));
    run.root_checked(true);
    assert_eq!(run.next(&scan, false), Step::Walk(1));
    run.walk_finished(false);
    assert_eq!(run.next(&scan, false), Step::Reconcile(1));
    run.reconciled(&mut scan, 0);
    assert_eq!(run.next(&scan, false), Step::Finish);
    run.finish(&mut scan, false, 60);
    assert_eq!(scan.state, ScanState::Completed);
}

#[test]
fn a_folder_scope_runs_like_a_root() {
    let mut scan = scan_of(vec![Scope::folder("/music", "/music/a", Depth::Directory)], None);
    let mut run = ScanRun::start(&mut scan, 1);
    assert_eq!(run.next(&scan, false), Step::CheckRoot(0));
    run.root_checked(true);
    assert_eq!(run.next(&scan, false), Step::Walk(0));
}

#[test]
fn waveform_slots_and_bins() {
    // 400 frames over 4 bins: a slot per bin.
    assert_eq!(frames_per_slot(4, Some(400)), 100);
    assert_eq!(frames_per_slot(4, Some(3)), 1);
    assert_eq!(frames_per_slot(8, None), 1024);
    assert_eq!(frames_per_slot(3, Some(0)), 1024);
    assert_eq!(frames_per_slot(0, Some(10)), 10);
    for b in 0..4 {
        assert_eq!(bin_range(b, 4, 4), (b, b + 1));
    }
    // Ten slots into eight bins: every bin ends where the next begins.
    let ranges: Vec<(usize, usize)> = (0..8).map(|b| bin_range(b, 10, 8)).collect();
    assert_eq!(ranges, vec![(0, 1), (1, 2), (2, 3), (3, 5), (5, 6), (6, 7), (7, 8), (8, 10)]);
    // Fewer slots than bins: bins share slots, none is empty.
    let ranges: Vec<(usize, usize)> = (0..4).map(|b| bin_range(b, 2, 4)).collect();
    assert_eq!(ranges, vec![(0, 1), (0, 1), (1, 2), (1, 2)]);
}

#[test]
fn cancel_finds_the_running_then_the_queued_scan() {
    let mut running = scan_of(two_roots(), None);
    running.id = 1;
    let mut a = scan_of(two_roots(), None);
    a.id = 2;
    let mut b = scan_of(two_roots(), None);
    b.id = 3;
    let queued = vec![a, b];
    assert_eq!(plan_cancel(&Some(running.clone()), &queued, 1), CancelPlan::Running);
    assert_eq!(plan_cancel(&Some(running), &queued, 3), CancelPlan::Queued(1));
    assert_eq!(plan_cancel(&None, &queued, 2), CancelPlan::Queued(0));
    assert_eq!(plan_cancel(&None, &queued, 9), CancelPlan::Unknown);
}

fn strings(v: &[&str]) -> Vec<String> {
    v.iter().map(|s| s.to_string()).collect()
}

#[test]
fn most_used_counts_then_breaks_ties_by_bytes() {
    assert_eq!(most_used(&strings(&["nirvana", "Nirvana", "Nirvana"])), Some("Nirvana".to_string()));
    assert_eq!(most_used(&strings(&["beck", "Beck"])), Some("Beck".to_string()));
    assert_eq!(most_used(&strings(&["Beck", "beck"])), Some("Beck".to_string()));
    assert_eq!(most_used(&strings(&["b", "a", "b", "a", "c"])), Some("a".to_string()));
    assert_eq!(most_used(&Vec::new()), None);
}
