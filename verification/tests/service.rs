use tidyfile::executor::{Outcome, SkipReason};
use tidyfile::journal::{Journal, Operation, State};
use tidyfile::paths::{accept_watched_folder, FolderFacts, PathError, Platform};
use tidyfile::rules::condition::{Condition, FileFacts};
use tidyfile::rules::patterns::Patterns;
use tidyfile::rules::{Action, Combinator, Rule};
use tidyfile::service::{
    activity, any_enabled, batch_changes, describe, describe_all, inside_root, interrupted_changes, may_enter,
    nothing_happened, plan_files, plan_for_file, recorded, status_of, summarize, usable_root, visit, BatchCounter,
    PlannedChange, ServiceError, Visit, MAX_SCAN_DEPTH,
};

const NOW: i128 = 1_800_000_000 * 1_000_000_000;

fn pdf_rule(destination: &str) -> Rule {
    Rule {
        id: "id-1".into(),
        name: "pdfs".into(),
        enabled: true,
        combinator: Combinator::All,
        conditions: vec![Condition::Extension { any_of: vec!["pdf".into()] }],
        actions: vec![Action::MoveTo { folder: destination.to_string(), subfolder: None, rename: None }],
    }
}

fn file(root: &str, relative: &str) -> Option<FileFacts> {
    Some(FileFacts { path: format!("{root}/{relative}"), root: root.to_string(), size: 1, modified: NOW })
}

#[test]
fn batch_identifiers_do_not_repeat() {
    let mut counter = BatchCounter::new();
    let first = counter.next_batch_id(1_800_000_000);
    let second = counter.next_batch_id(1_800_000_000);

    assert_ne!(first, second);
    assert_eq!(first, "1800000000-0");
    assert_eq!(second, "1800000000-1");
}

#[test]
fn several_folders_are_planned_together_in_one_batch() {
    let files = vec![file("/first", "one.pdf"), file("/second", "two.pdf")];

    let operations = plan_files(&vec![pdf_rule("/out")], &files, NOW, &mut Patterns::new()).unwrap();

    assert_eq!(operations.len(), 2);
    let mut journal = Journal::new();
    for op in &operations {
        let id = journal.record_planned("1800000000-0", op, 1_800_000_000);
        journal.mark(id, State::Done, None);
    }
    assert_eq!(activity(&journal, 10).len(), 1, "both folders belong to a single undoable batch");
}

#[test]
fn the_counter_runs_across_folders_not_per_folder() {
    let mut counted = pdf_rule("/out");
    counted.actions = vec![Action::RenameTo { template: "{counter}.{ext}".into() }];
    let files = vec![file("/first", "a.pdf"), file("/second", "b.pdf")];

    let planned = describe_all(&plan_files(&vec![counted], &files, NOW, &mut Patterns::new()).unwrap());

    let names: Vec<String> = planned
        .iter()
        .filter_map(|change| change.destination.clone())
        .map(|path| path.rsplit('/').next().unwrap().to_string())
        .collect();
    assert_eq!(names, ["1.pdf", "2.pdf"]);
}

#[test]
fn an_unreadable_file_keeps_its_place_in_the_count() {
    let mut counted = pdf_rule("/out");
    counted.actions = vec![Action::RenameTo { template: "{counter}.{ext}".into() }];
    let files = vec![None, file("/first", "b.pdf")];

    let operations = plan_files(&vec![counted], &files, NOW, &mut Patterns::new()).unwrap();

    assert_eq!(operations, [Operation::Move { from: "/first/b.pdf".into(), to: "/first/2.pdf".into() }]);
}

#[test]
fn a_broken_rule_stops_the_whole_plan() {
    let mut broken = pdf_rule("/out");
    broken.conditions = vec![Condition::NameMatchesRegex { pattern: "(unclosed".into() }];
    let files = vec![file("/first", "a.pdf"), file("/first", "b.pdf")];

    assert!(plan_files(&vec![broken], &files, NOW, &mut Patterns::new()).is_err());
}

#[test]
fn nothing_matching_produces_an_empty_report() {
    let files = vec![file("/root", "notes.txt")];
    let operations = plan_files(&vec![pdf_rule("/out")], &files, NOW, &mut Patterns::new()).unwrap();
    assert!(operations.is_empty());

    let report = summarize("b".to_string(), &Vec::new());

    assert_eq!((report.applied, report.skipped, report.failed), (0, 0, 0));
    let quiet = nothing_happened();
    assert_eq!((quiet.batch.as_str(), quiet.applied, quiet.skipped, quiet.failed, quiet.needs_manual_restore), ("", 0, 0, 0, 0));
}

#[test]
fn a_report_counts_each_kind_of_outcome() {
    let outcomes = vec![
        Outcome::Applied(Operation::Trash { from: "a".into() }),
        Outcome::Skipped(SkipReason::RestoreUnsupported),
        Outcome::Skipped(SkipReason::SourceVanished),
        Outcome::Failed("denied".into()),
        Outcome::Applied(Operation::Trash { from: "b".into() }),
    ];

    let report = summarize("batch-9".to_string(), &outcomes);

    assert_eq!(report.batch, "batch-9");
    assert_eq!((report.applied, report.skipped, report.failed, report.needs_manual_restore), (2, 2, 1, 1));
}

#[test]
fn a_missing_folder_is_reported_as_unavailable_rather_than_refused() {
    assert_eq!(status_of("/root/ghost", &Err(PathError::Unresolvable)).state, "unavailable");
    assert_eq!(status_of("/root/file", &Err(PathError::NotAFolder)).state, "unavailable");
    assert_eq!(status_of("/usr", &Err(PathError::Forbidden)).state, "forbidden");
    let fine = status_of("/root", &Ok("/root".to_string()));
    assert_eq!((fine.folder.as_str(), fine.state.as_str()), ("/root", "ok"));
}

#[test]
fn changes_describe_their_operations() {
    assert_eq!(
        describe(&Operation::Copy { from: "/a".into(), to: "/b".into() }),
        PlannedChange { kind: "copy".into(), source: "/a".into(), destination: Some("/b".into()) }
    );
    assert_eq!(describe(&Operation::Trash { from: "/a".into() }).destination, None);

    let mut journal = Journal::new();
    let id = journal.record_planned("b", &Operation::Move { from: "/a".into(), to: "/c".into() }, 5);
    journal.mark(id, State::Done, None);
    let change = recorded(&journal.find(id).unwrap());
    assert_eq!((change.id, change.kind.as_str(), change.state.as_str(), change.undoable), (id, "move", "done", true));
    journal.mark(id, State::Undone, None);
    assert!(!recorded(&journal.find(id).unwrap()).undoable);
}

#[test]
fn the_activity_list_shows_each_batch_once_with_its_counts() {
    let mut journal = Journal::new();
    let a = journal.record_planned("b1", &Operation::Trash { from: "/a".into() }, 7);
    journal.mark(a, State::Done, None);
    journal.record_planned("b1:undo", &Operation::Trash { from: "/a".into() }, 8);

    let lines = activity(&journal, 10);

    assert_eq!(lines.len(), 1);
    assert_eq!((lines[0].batch.as_str(), lines[0].done, lines[0].skipped, lines[0].recorded_at), ("b1", 1, 0, 7));
}

#[test]
fn the_scan_never_follows_links_and_skips_temporaries() {
    assert_eq!(visit("/w/escape", true, true, false), Visit::Skip);
    assert_eq!(visit("/w/sub", false, true, false), Visit::Descend);
    assert_eq!(visit("/w/a.pdf", false, false, true), Visit::Keep);
    assert_eq!(visit("/w/a.pdf.crdownload", false, false, true), Visit::Skip);
    assert_eq!(visit("/w/socket", false, false, false), Visit::Skip);
    assert!(may_enter(MAX_SCAN_DEPTH));
    assert!(!may_enter(MAX_SCAN_DEPTH + 1));
}

#[test]
fn a_forbidden_folder_stops_the_whole_plan_before_anything_moves() {
    assert_eq!(usable_root(Err(PathError::Forbidden)), Err(ServiceError::Folder(PathError::Forbidden)));
    assert_eq!(usable_root(Err(PathError::Unresolvable)), Ok(None));
    assert_eq!(usable_root(Err(PathError::NotAFolder)), Ok(None));
    assert_eq!(usable_root(Ok("/w".into())), Ok(Some("/w".to_string())));
}

#[test]
fn only_files_inside_the_folder_are_planned() {
    let found = vec!["/w/a.pdf".to_string(), "/elsewhere/b.pdf".to_string(), "/w/sub/c.pdf".to_string()];
    assert_eq!(inside_root("/w", found), ["/w/a.pdf", "/w/sub/c.pdf"]);
}

#[test]
fn a_watched_file_is_planned_as_the_first_of_its_batch() {
    let mut counted = pdf_rule("/out");
    counted.actions = vec![Action::RenameTo { template: "{counter}.{ext}".into() }];
    let rules = vec![counted.clone()];
    let mut cache = Patterns::new();

    let plan = plan_for_file(&rules, "/w", &file("/w", "a.pdf"), NOW, &mut cache).unwrap();
    assert_eq!(plan, Some(vec![Operation::Move { from: "/w/a.pdf".into(), to: "/w/1.pdf".into() }]));
    assert_eq!(plan_for_file(&rules, "/other", &file("/w", "a.pdf"), NOW, &mut cache).unwrap(), None);
    assert_eq!(plan_for_file(&rules, "/w", &None, NOW, &mut cache).unwrap(), None);
    assert_eq!(plan_for_file(&rules, "/w", &file("/w", "a.txt"), NOW, &mut cache).unwrap(), None);

    let mut off = counted;
    off.enabled = false;
    assert!(any_enabled(&rules));
    assert!(!any_enabled(&vec![off]));
}

#[test]
fn interrupted_and_batch_listings_come_from_the_journal() {
    let mut journal = Journal::new();
    let first = journal.record_planned("b", &Operation::Move { from: "/a".into(), to: "/b".into() }, 1);
    journal.record_planned("b", &Operation::Trash { from: "/c".into() }, 2);
    journal.mark(first, State::Done, None);

    let pending = interrupted_changes(&journal);
    assert_eq!(pending, [PlannedChange { kind: "trash".into(), source: "/c".into(), destination: None }]);
    let listed = batch_changes(&journal, "b");
    assert_eq!(listed.iter().map(|c| c.state.as_str()).collect::<Vec<_>>(), ["done", "planned"]);
    assert!(batch_changes(&journal, "other").is_empty());
}

#[test]
fn a_forbidden_folder_is_refused_before_any_scanning() {
    let system = FolderFacts { resolved: Some("/usr".into()), is_folder: true, home: None, platform: Platform::Unix };

    let outcome = usable_root(accept_watched_folder(&system));

    assert!(matches!(outcome, Err(ServiceError::Folder(PathError::Forbidden))));
}

#[test]
fn an_unavailable_folder_lets_the_reachable_ones_through() {
    let ghost = FolderFacts { resolved: None, is_folder: false, home: None, platform: Platform::Unix };
    let good = FolderFacts { resolved: Some("/home/someone/inbox".into()), is_folder: true, home: Some("/home/someone".into()), platform: Platform::Unix };

    assert_eq!(usable_root(accept_watched_folder(&ghost)), Ok(None));
    assert_eq!(usable_root(accept_watched_folder(&good)), Ok(Some("/home/someone/inbox".to_string())));
}
