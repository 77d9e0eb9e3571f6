use std::collections::BTreeMap;

use chrono::TimeZone;

use tidyfile::executor::{
    candidate_path_exec, from_trash, restored, undo_batch_name, undo_step, Collision, Executor, Outcome, Probe,
    SkipReason, Step, TrashChoice, UndoStep,
};
use tidyfile::journal::{Journal, Operation, State};
use tidyfile::rules::condition::{Condition, FileFacts};
use tidyfile::rules::patterns::Patterns;
use tidyfile::rules::{Action, Combinator, Rule};
use tidyfile::service::{activity, describe_all, plan_files, summarize, visit, Visit};

const AT: i64 = 1_800_000_000;

/// A stand-in for the disk: each path with its contents, and the trash.
#[derive(Default)]
struct Disk {
    files: BTreeMap<String, String>,
    trash: Vec<(String, String)>,
    /// The platform offers no listing of the trash.
    trash_unlisted: bool,
}

impl Disk {
    fn write(&mut self, path: &str, contents: &str) {
        self.files.insert(path.to_string(), contents.to_string());
    }

    fn holds(&self, path: &str) -> bool {
        self.files.contains_key(path)
    }

    fn probe(&self, op: &Operation) -> Probe {
        let destination = match op {
            Operation::Move { to, .. } | Operation::Copy { to, .. } => Some(to.clone()),
            Operation::Trash { .. } => None,
        };
        let destination_exists = destination.as_deref().is_some_and(|to| self.holds(to));
        let mut taken = Vec::new();
        if let Some(to) = destination.as_deref() {
            if destination_exists {
                for attempt in 2..100 {
                    let candidate = candidate_path_exec(to, attempt);
                    taken.push(candidate.is_some_and(|c| self.holds(&c)));
                }
            }
        }
        Probe { source_exists: self.holds(op.source()), destination_exists, taken }
    }

    fn perform(&mut self, op: &Operation) -> Result<(), String> {
        match op {
            Operation::Move { from, to } => {
                let contents = self.files.remove(from).ok_or("the file could not be moved")?;
                self.files.insert(to.clone(), contents);
            }
            Operation::Copy { from, to } => {
                let contents = self.files.get(from).cloned().ok_or("the file could not be moved")?;
                self.files.insert(to.clone(), contents);
            }
            Operation::Trash { from } => {
                let contents = self.files.remove(from).ok_or("the file could not be sent to the trash")?;
                self.trash.push((from.clone(), contents));
            }
        }
        Ok(())
    }
}

fn apply_one(executor: &mut Executor, disk: &mut Disk, batch: &str, op: &Operation, policy: Collision) -> Outcome {
    let probe = disk.probe(op);
    match executor.prepare(batch, op, policy, &probe, AT) {
        Step::Settled(outcome) => outcome,
        Step::Run { id, operation } => {
            let result = disk.perform(&operation);
            executor.finish(id, operation, result)
        }
    }
}

fn apply(executor: &mut Executor, disk: &mut Disk, batch: &str, ops: &[Operation]) -> Vec<Outcome> {
    ops.iter().map(|op| apply_one(executor, disk, batch, op, Collision::Suffix)).collect()
}

fn undo_batch(executor: &mut Executor, disk: &mut Disk, batch: &str) -> Vec<Outcome> {
    let plan = executor.undo_plan(batch);
    let undo_name = undo_batch_name(batch);
    let mut outcomes = Vec::new();
    for record in &plan {
        let outcome = match undo_step(record) {
            UndoStep::Reapply(op) => apply_one(executor, disk, &undo_name, &op, Collision::Suffix),
            UndoStep::Restore(original) => {
                let listing: Vec<String> = disk.trash.iter().map(|(path, _)| path.clone()).collect();
                let shown = if disk.trash_unlisted { None } else { Some(Ok(listing)) };
                match from_trash(&original, &shown) {
                    TrashChoice::Settled(outcome) => outcome,
                    TrashChoice::Restore(index) => {
                        let (path, contents) = disk.trash.remove(index);
                        disk.files.insert(path, contents);
                        restored(&original, Ok(()))
                    }
                }
            }
        };
        executor.settle_undo(record.id, &outcome);
        outcomes.push(outcome);
    }
    outcomes
}

fn executor() -> Executor {
    Executor::new(Journal::new())
}

#[test]
fn a_move_relocates_the_file_and_undo_puts_it_back() {
    let mut disk = Disk::default();
    disk.write("/root/invoice.pdf", "content");
    let mut executor = executor();

    let operation = Operation::Move { from: "/root/invoice.pdf".into(), to: "/root/Invoices/invoice.pdf".into() };
    apply(&mut executor, &mut disk, "batch-1", &[operation]);
    assert!(disk.holds("/root/Invoices/invoice.pdf") && !disk.holds("/root/invoice.pdf"));

    undo_batch(&mut executor, &mut disk, "batch-1");

    assert!(disk.holds("/root/invoice.pdf") && !disk.holds("/root/Invoices/invoice.pdf"));
    assert_eq!(disk.files["/root/invoice.pdf"], "content");
}

#[test]
fn a_collision_gets_a_suffix_and_never_overwrites() {
    let mut disk = Disk::default();
    disk.write("/root/notes.txt", "new");
    disk.write("/root/archive/notes.txt", "existing");
    let mut executor = executor();

    let outcomes = apply(
        &mut executor,
        &mut disk,
        "batch-1",
        &[Operation::Move { from: "/root/notes.txt".into(), to: "/root/archive/notes.txt".into() }],
    );

    assert_eq!(disk.files["/root/archive/notes.txt"], "existing");
    let Outcome::Applied(Operation::Move { to, .. }) = &outcomes[0] else {
        panic!("expected an applied move, got {:?}", outcomes[0]);
    };
    assert_eq!(to, "/root/archive/notes (2).txt");
    assert_eq!(disk.files[to.as_str()], "new");
}

#[test]
fn a_vanished_source_is_skipped_and_never_journaled() {
    let mut disk = Disk::default();
    let mut executor = executor();

    let outcomes = apply(
        &mut executor,
        &mut disk,
        "batch-1",
        &[Operation::Move { from: "/root/ghost.pdf".into(), to: "/root/out/ghost.pdf".into() }],
    );

    assert_eq!(outcomes, [Outcome::Skipped(SkipReason::SourceVanished)]);
    assert!(executor.journal().interrupted().is_empty());
}

#[test]
fn every_operation_is_journaled_before_it_runs() {
    let mut disk = Disk::default();
    disk.write("/root/a.txt", "x");
    let mut executor = executor();

    apply(&mut executor, &mut disk, "batch-1", &[Operation::Move { from: "/root/a.txt".into(), to: "/root/out/a.txt".into() }]);

    assert_eq!(executor.journal().applied_in_batch("batch-1").len(), 1);
}

#[test]
fn undoing_twice_does_not_move_the_file_again() {
    let mut disk = Disk::default();
    disk.write("/root/report.pdf", "content");
    let mut executor = executor();

    apply(&mut executor, &mut disk, "batch-1", &[Operation::Move { from: "/root/report.pdf".into(), to: "/root/out/report.pdf".into() }]);
    undo_batch(&mut executor, &mut disk, "batch-1");
    let second = undo_batch(&mut executor, &mut disk, "batch-1");

    assert!(second.is_empty());
    assert!(disk.holds("/root/report.pdf"));
}

#[test]
fn a_batch_undoes_in_reverse_order() {
    let mut disk = Disk::default();
    let operations: Vec<Operation> = ["a.txt", "b.txt", "c.txt"]
        .iter()
        .map(|name| {
            let from = format!("/root/{name}");
            disk.write(&from, name);
            Operation::Move { from, to: format!("/root/out/{name}") }
        })
        .collect();
    let mut executor = executor();

    apply(&mut executor, &mut disk, "batch-1", &operations);
    undo_batch(&mut executor, &mut disk, "batch-1");

    for name in ["a.txt", "b.txt", "c.txt"] {
        assert!(disk.holds(&format!("/root/{name}")), "{name} was not restored");
    }
}

#[test]
fn trashing_records_the_operation_and_removes_the_file() {
    let mut disk = Disk::default();
    disk.write("/root/obsolete.log", "content");
    let mut executor = executor();

    apply(&mut executor, &mut disk, "batch-1", &[Operation::Trash { from: "/root/obsolete.log".into() }]);

    assert!(!disk.holds("/root/obsolete.log"));
    assert_eq!(executor.journal().applied_in_batch("batch-1").len(), 1);

    let undone = undo_batch(&mut executor, &mut disk, "batch-1");
    assert_eq!(undone.len(), 1);
    assert!(disk.holds("/root/obsolete.log"), "the file was not restored from the trash");
}

#[test]
fn without_a_trash_listing_a_restore_is_left_to_the_user() {
    let mut disk = Disk { trash_unlisted: true, ..Disk::default() };
    disk.write("/root/obsolete.log", "content");
    let mut executor = executor();

    apply(&mut executor, &mut disk, "batch-1", &[Operation::Trash { from: "/root/obsolete.log".into() }]);
    let undone = undo_batch(&mut executor, &mut disk, "batch-1");

    assert_eq!(undone, [Outcome::Skipped(SkipReason::RestoreUnsupported)]);
    assert!(!disk.holds("/root/obsolete.log"));
    assert!(executor.undo_plan("batch-1").is_empty(), "a skipped restore counts as undone");
    assert_eq!(summarize("batch-1".into(), &undone).needs_manual_restore, 1);
}

#[test]
fn simulation_reports_what_would_happen_without_touching_anything() {
    let mut disk = Disk::default();
    disk.write("/root/invoice.pdf", "content");
    let files = facts_of(&disk, "/root");
    let executor = executor();

    let planned = describe_all(&plan_files(&vec![pdf_rule("/out")], &files, 1_800_000_000 * 1_000_000_000, &mut Patterns::new()).unwrap());

    assert_eq!(planned.len(), 1);
    assert_eq!(planned[0].kind, "move");
    assert!(disk.holds("/root/invoice.pdf"), "simulation must not move anything");
    assert!(executor.journal().interrupted().is_empty());
    assert!(executor.journal().snapshot().is_empty());
}

#[test]
fn a_rule_whose_destination_sits_inside_the_watched_folder_settles() {
    let mut disk = Disk::default();
    disk.write("/w/invoice.pdf", "content");
    let rules = vec![pdf_rule("/w/PDFs")];
    let now = 1_800_000_000 * 1_000_000_000;
    let mut executor = executor();

    let first = plan_files(&rules, &facts_of(&disk, "/w"), now, &mut Patterns::new()).unwrap();
    apply(&mut executor, &mut disk, "b1", &first);
    assert!(disk.holds("/w/PDFs/invoice.pdf"), "the first pass moved it");

    let second = plan_files(&rules, &facts_of(&disk, "/w"), now, &mut Patterns::new()).unwrap();
    let outcomes = apply(&mut executor, &mut disk, "b2", &second);
    let report = summarize("b2".into(), &outcomes);

    assert_eq!((report.applied, report.failed), (0, 0));
    assert_eq!(outcomes, [Outcome::Skipped(SkipReason::AlreadyInPlace)]);
    let landed: Vec<&String> = disk.files.keys().collect();
    assert_eq!(landed, ["/w/PDFs/invoice.pdf"]);
    assert!(executor.journal().operations_in_batch("b2").is_empty());
}

#[test]
fn only_an_operation_that_was_carried_out_can_be_taken_back_alone() {
    let mut disk = Disk::default();
    disk.write("/root/a.txt", "x");
    let mut executor = executor();
    apply(&mut executor, &mut disk, "b", &[Operation::Move { from: "/root/a.txt".into(), to: "/root/out/a.txt".into() }]);
    let id = executor.journal().applied_in_batch("b")[0].id;

    assert_eq!(executor.undoable(id).unwrap().operation, Operation::Move { from: "/root/a.txt".into(), to: "/root/out/a.txt".into() });
    executor.settle_undo(id, &Outcome::Applied(Operation::Trash { from: "/root/out/a.txt".into() }));
    assert!(executor.undoable(id).is_none());
    assert!(executor.undoable(99).is_none());
}

#[test]
fn the_skip_policy_leaves_a_taken_destination_alone() {
    let mut disk = Disk::default();
    disk.write("/root/notes.txt", "new");
    disk.write("/root/archive/notes.txt", "existing");
    let mut executor = executor();

    let op = Operation::Move { from: "/root/notes.txt".into(), to: "/root/archive/notes.txt".into() };
    let outcome = apply_one(&mut executor, &mut disk, "batch-1", &op, Collision::Skip);

    assert_eq!(outcome, Outcome::Skipped(SkipReason::DestinationTaken));
    assert!(disk.holds("/root/notes.txt"));
    assert!(executor.journal().operations_in_batch("batch-1").is_empty());
}

#[test]
fn when_every_alternative_name_is_taken_the_move_fails_unjournaled() {
    let mut executor = executor();
    let op = Operation::Move { from: "/root/a.txt".into(), to: "/root/out/a.txt".into() };
    let probe = Probe { source_exists: true, destination_exists: true, taken: vec![true; 98] };

    let step = executor.prepare("batch-1", &op, Collision::Suffix, &probe, AT);

    assert_eq!(step, Step::Settled(Outcome::Failed("every candidate name was already taken".to_string())));
    assert!(executor.journal().operations_in_batch("batch-1").is_empty());
}

#[test]
fn the_first_free_alternative_name_is_used() {
    let mut executor = executor();
    let op = Operation::Copy { from: "/root/a.tar.gz".into(), to: "/root/out/a.tar.gz".into() };
    let probe = Probe { source_exists: true, destination_exists: true, taken: vec![true, true, false, false] };

    let Step::Run { id, operation } = executor.prepare("batch-1", &op, Collision::Suffix, &probe, AT) else {
        panic!("expected the copy to run");
    };

    assert_eq!(operation, Operation::Copy { from: "/root/a.tar.gz".into(), to: "/root/out/a.tar (4).gz".into() });
    let pending = executor.journal().interrupted();
    assert_eq!((pending[0].id, pending[0].state), (id, State::Planned));
    let outcome = executor.finish(id, operation, Err("disk full".to_string()));
    assert_eq!(outcome, Outcome::Failed("disk full".to_string()));
    assert!(executor.journal().interrupted().is_empty());
}

#[test]
fn candidate_names_keep_the_folder_and_the_extension() {
    assert_eq!(candidate_path_exec("/root/archive/notes.txt", 2).unwrap(), "/root/archive/notes (2).txt");
    assert_eq!(candidate_path_exec("README", 7).unwrap(), "README (7)");
    assert_eq!(candidate_path_exec("/", 2), None);
}

#[test]
fn undoing_reverses_moves_copies_and_trashing() {
    let mut journal = Journal::new();
    let ids: Vec<i64> = [
        Operation::Move { from: "a".into(), to: "b".into() },
        Operation::Copy { from: "c".into(), to: "d".into() },
        Operation::Trash { from: "e".into() },
    ]
    .iter()
    .map(|op| {
        let id = journal.record_planned("batch", op, AT);
        journal.mark(id, State::Done, None);
        id
    })
    .collect();
    let executor = Executor::new(journal);
    let plan = executor.undo_plan("batch");
    assert_eq!(plan.iter().map(|r| r.id).collect::<Vec<_>>(), [ids[2], ids[1], ids[0]]);
    assert_eq!(undo_step(&plan[0]), UndoStep::Restore("e".into()));
    assert_eq!(undo_step(&plan[1]), UndoStep::Reapply(Operation::Trash { from: "d".into() }));
    assert_eq!(undo_step(&plan[2]), UndoStep::Reapply(Operation::Move { from: "b".into(), to: "a".into() }));
    assert_eq!(undo_batch_name("batch"), "batch:undo");
}

#[test]
fn restoring_depends_on_what_the_trash_shows() {
    assert_eq!(from_trash("/a", &None), TrashChoice::Settled(Outcome::Skipped(SkipReason::RestoreUnsupported)));
    assert_eq!(from_trash("/a", &Some(Err("no trash".into()))), TrashChoice::Settled(Outcome::Failed("no trash".into())));
    assert_eq!(from_trash("/a", &Some(Ok(vec!["/b".into()]))), TrashChoice::Settled(Outcome::Skipped(SkipReason::NotFoundInTrash)));
    assert_eq!(from_trash("/a", &Some(Ok(vec!["/b".into(), "/a".into(), "/a".into()]))), TrashChoice::Restore(1));
    assert_eq!(restored("/a", Err("denied".into())), Outcome::Failed("denied".into()));
    assert_eq!(restored("/a", Ok(())), Outcome::Applied(Operation::Trash { from: "/a".into() }));
}

#[test]
fn a_failed_undo_keeps_the_operation_applied() {
    let mut journal = Journal::new();
    let id = journal.record_planned("batch", &Operation::Move { from: "a".into(), to: "b".into() }, AT);
    journal.mark(id, State::Done, None);
    let mut executor = Executor::new(journal);

    executor.settle_undo(id, &Outcome::Failed("busy".into()));
    assert_eq!(executor.undo_plan("batch").len(), 1);
    executor.settle_undo(id, &Outcome::Skipped(SkipReason::SourceVanished));
    assert!(executor.undo_plan("batch").is_empty());
    assert_eq!(Collision::default(), Collision::Suffix);
}

fn pdf_rule(destination: &str) -> Rule {
    Rule {
        id: "id-1".into(),
        name: "pdfs".into(),
        enabled: true,
        combinator: Combinator::All,
        conditions: vec![Condition::Extension { any_of: vec!["pdf".into()] }],
        actions: vec![Action::MoveTo { folder: destination.to_string(), subfolder: None, rename: None }],
    }
}

fn facts_of(disk: &Disk, root: &str) -> Vec<Option<FileFacts>> {
    disk.files
        .keys()
        .filter(|path| path.starts_with(&format!("{root}/")))
        .map(|path| Some(FileFacts { path: path.clone(), root: root.to_string(), size: 1, modified: 1_800_000_000 * 1_000_000_000 }))
        .collect()
}

#[test]
fn organizing_applies_exactly_what_the_simulation_promised() {
    let mut disk = Disk::default();
    disk.write("/root/invoice.pdf", "content");
    disk.write("/root/notes.txt", "content");
    let rules = vec![pdf_rule("/out")];
    let files = facts_of(&disk, "/root");
    let now = 1_800_000_000 * 1_000_000_000;

    let planned = describe_all(&plan_files(&rules, &files, now, &mut Patterns::new()).unwrap());
    let operations = plan_files(&rules, &files, now, &mut Patterns::new()).unwrap();
    let mut executor = executor();
    let report = summarize("b".into(), &apply(&mut executor, &mut disk, "b", &operations));

    assert_eq!(report.applied, planned.len());
    assert_eq!(report.failed, 0);
    assert!(disk.holds("/out/invoice.pdf"));
    assert!(disk.holds("/root/notes.txt"));
}

#[test]
fn organizing_can_be_undone_as_a_batch() {
    let mut disk = Disk::default();
    disk.write("/root/invoice.pdf", "content");
    let files = facts_of(&disk, "/root");
    let operations = plan_files(&vec![pdf_rule("/out")], &files, 1_800_000_000 * 1_000_000_000, &mut Patterns::new()).unwrap();
    let mut executor = executor();

    apply(&mut executor, &mut disk, "b", &operations);
    undo_batch(&mut executor, &mut disk, "b");

    assert!(disk.holds("/root/invoice.pdf"), "undo did not bring the file back");
    assert!(!disk.holds("/out/invoice.pdf"));
}

#[test]
fn a_file_already_at_its_destination_is_left_alone_unjournaled() {
    let mut executor = executor();
    let op = Operation::Move { from: "/w/PDFs/invoice.pdf".into(), to: "/w/PDFs//invoice.pdf".into() };
    let probe = Probe { source_exists: true, destination_exists: true, taken: Vec::new() };

    let step = executor.prepare("b", &op, Collision::Suffix, &probe, AT);

    assert_eq!(step, Step::Settled(Outcome::Skipped(SkipReason::AlreadyInPlace)));
    assert!(executor.journal().snapshot().is_empty());
}

/// The local moment of 2026-03-07 at noon, in nanoseconds since the epoch.
fn march_2026() -> i128 {
    let moment = chrono::Local.with_ymd_and_hms(2026, 3, 7, 12, 0, 0).single().unwrap();
    i128::from(moment.timestamp()) * 1_000_000_000
}

/// The files below `root` that a scan keeps, in path order, as the planner takes them.
fn scanned(disk: &Disk, root: &str) -> Vec<Option<FileFacts>> {
    disk.files
        .keys()
        .filter(|path| path.starts_with(&format!("{root}/")))
        .filter(|path| visit(path, false, false, true) == Visit::Keep)
        .map(|path| Some(FileFacts { path: path.clone(), root: root.to_string(), size: 1, modified: march_2026() }))
        .collect()
}

fn session_rules(archive: &str) -> Vec<Rule> {
    let invoices = Rule {
        id: "id-invoices".into(),
        name: "invoices".into(),
        enabled: true,
        combinator: Combinator::All,
        conditions: vec![
            Condition::Extension { any_of: vec!["pdf".into()] },
            Condition::NameContains { text: "invoice".into() },
        ],
        actions: vec![Action::MoveTo {
            folder: archive.to_string(),
            subfolder: Some("{year}".into()),
            rename: Some("{name}.{ext}".into()),
        }],
    };
    let screenshots = Rule {
        id: "id-screenshots".into(),
        name: "screenshots".into(),
        enabled: true,
        combinator: Combinator::All,
        conditions: vec![Condition::NameMatchesGlob { pattern: "Screenshot*.png".into() }],
        actions: vec![Action::MoveTo { folder: archive.to_string(), subfolder: Some("shots".into()), rename: None }],
    };
    vec![invoices, screenshots]
}

fn survivors(disk: &Disk, root: &str) -> Vec<(String, String)> {
    disk.files
        .iter()
        .filter(|(path, _)| path.starts_with(&format!("{root}/")))
        .map(|(path, contents)| (path.clone(), contents.clone()))
        .collect()
}

#[test]
fn a_whole_session_tidies_a_messy_folder_and_puts_it_all_back() {
    let mut disk = Disk::default();
    disk.write("/downloads/invoice-march.pdf", "an invoice");
    disk.write("/downloads/invoice-april.pdf", "another invoice");
    disk.write("/downloads/Screenshot 2026-03-07.png", "a screenshot");
    disk.write("/downloads/holiday.jpg", "a photo");
    disk.write("/downloads/notes.txt", "some notes");
    disk.write("/downloads/big-download.zip.crdownload", "still arriving");
    disk.write("/downloads/~$budget.xlsx", "an office lock file");
    disk.write("/downloads/nested/deep/invoice-may.pdf", "a nested invoice");
    let before = survivors(&disk, "/downloads");
    let rules = session_rules("/archive");
    let now = march_2026() + 86_400 * 1_000_000_000;
    let mut cache = Patterns::new();

    let planned = describe_all(&plan_files(&rules, &scanned(&disk, "/downloads"), now, &mut cache).unwrap());
    assert_eq!(planned.len(), 4, "three invoices and one screenshot should be planned, got {planned:?}");
    assert_eq!(survivors(&disk, "/downloads"), before, "simulating must not touch a single file");

    let operations = plan_files(&rules, &scanned(&disk, "/downloads"), now, &mut cache).unwrap();
    let mut executor = executor();
    let report = summarize("batch-1".into(), &apply(&mut executor, &mut disk, "batch-1", &operations));
    assert_eq!((report.applied, report.failed), (4, 0));

    assert!(disk.holds("/archive/2026/invoice-march.pdf"));
    assert!(disk.holds("/archive/2026/invoice-april.pdf"));
    assert!(disk.holds("/archive/2026/invoice-may.pdf"));
    assert!(disk.holds("/archive/shots/Screenshot 2026-03-07.png"));
    let left: Vec<String> = survivors(&disk, "/downloads").into_iter().map(|(path, _)| path).collect();
    assert_eq!(
        left,
        [
            "/downloads/big-download.zip.crdownload",
            "/downloads/holiday.jpg",
            "/downloads/notes.txt",
            "/downloads/~$budget.xlsx",
        ],
        "only the untouched files and the ignored temporaries should remain"
    );

    let history = activity(executor.journal(), 10);
    assert_eq!(history.len(), 1);
    assert_eq!(history[0].done, 4);

    undo_batch(&mut executor, &mut disk, "batch-1");

    assert_eq!(survivors(&disk, "/downloads"), before, "undo must restore the folder exactly as it was");
    assert_eq!(activity(executor.journal(), 10)[0].undone, 4);
}

#[test]
fn a_second_pass_over_an_already_tidy_folder_changes_nothing() {
    let mut disk = Disk::default();
    disk.write("/downloads/invoice-march.pdf", "an invoice");
    let rules = vec![session_rules("/archive").remove(0)];
    let now = march_2026() + 86_400 * 1_000_000_000;
    let mut executor = executor();

    let first = plan_files(&rules, &scanned(&disk, "/downloads"), now, &mut Patterns::new()).unwrap();
    apply(&mut executor, &mut disk, "batch-1", &first);
    let again = plan_files(&rules, &scanned(&disk, "/downloads"), now, &mut Patterns::new()).unwrap();
    let second = summarize("batch-2".into(), &apply(&mut executor, &mut disk, "batch-2", &again));

    assert_eq!((second.applied, second.failed), (0, 0), "nothing is left to tidy, so the second pass must be a no-op");
    let archived = disk.files.keys().filter(|path| path.starts_with("/archive/2026/")).count();
    assert_eq!(archived, 1, "the second pass must not have produced a duplicate");
}
