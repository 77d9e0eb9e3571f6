use tidyfile::journal::{rebuild, Journal, JournalError, Operation, State};

fn move_operation(from: &str, to: &str) -> Operation {
    Operation::Move { from: from.to_string(), to: to.to_string() }
}

const AT: i64 = 1_800_000_000;

#[test]
fn a_planned_operation_is_reported_as_interrupted() {
    let mut journal = Journal::new();
    journal.record_planned("batch-1", &move_operation("/a/x.pdf", "/b/x.pdf"), AT);

    let interrupted = journal.interrupted();

    assert_eq!(interrupted.len(), 1);
    assert_eq!(interrupted[0].operation, move_operation("/a/x.pdf", "/b/x.pdf"));
}

#[test]
fn marking_done_clears_the_interrupted_list() {
    let mut journal = Journal::new();
    let id = journal.record_planned("batch-1", &move_operation("/a/x.pdf", "/b/x.pdf"), AT);

    journal.mark(id, State::Done, None);

    assert!(journal.interrupted().is_empty());
    assert_eq!(journal.applied_in_batch("batch-1").len(), 1);
}

#[test]
fn a_failed_operation_is_neither_interrupted_nor_applied() {
    let mut journal = Journal::new();
    let id = journal.record_planned("batch-1", &move_operation("/a/x.pdf", "/b/x.pdf"), AT);

    journal.mark(id, State::Failed, Some("permission denied"));

    assert!(journal.interrupted().is_empty());
    assert!(journal.applied_in_batch("batch-1").is_empty());
}

#[test]
fn undo_order_is_the_reverse_of_application() {
    let mut journal = Journal::new();
    for name in ["first", "second", "third"] {
        let id = journal.record_planned("batch-1", &move_operation(name, "dest"), AT);
        journal.mark(id, State::Done, None);
    }

    let applied = journal.applied_in_batch("batch-1");

    let sources: Vec<_> = applied.iter().map(|record| record.operation.source().clone()).collect();
    assert_eq!(sources, ["third", "second", "first"]);
}

#[test]
fn trash_operations_round_trip_without_a_destination() {
    let mut journal = Journal::new();
    let operation = Operation::Trash { from: "/a/old.log".to_string() };
    let id = journal.record_planned("batch-2", &operation, AT);
    journal.mark(id, State::Done, None);

    let applied = journal.applied_in_batch("batch-2");

    assert_eq!(applied[0].operation, operation);
}

#[test]
fn batches_do_not_leak_into_each_other() {
    let mut journal = Journal::new();
    let first = journal.record_planned("batch-a", &move_operation("a", "b"), AT);
    let second = journal.record_planned("batch-b", &move_operation("c", "d"), AT);
    journal.mark(first, State::Done, None);
    journal.mark(second, State::Done, None);

    assert_eq!(journal.applied_in_batch("batch-a").len(), 1);
    assert_eq!(journal.applied_in_batch("batch-b").len(), 1);
}

#[test]
fn reopening_the_same_file_keeps_the_history() {
    let id;
    let stored = {
        let mut journal = Journal::new();
        id = journal.record_planned("batch-1", &move_operation("/a/x.pdf", "/b/x.pdf"), AT);
        journal.snapshot()
    };

    let mut reopened = Journal::from_entries(stored).unwrap();
    reopened.mark(id, State::Done, None);

    assert_eq!(reopened.applied_in_batch("batch-1").len(), 1);
}

#[test]
fn recent_batches_summarises_each_batch_by_state() {
    let mut journal = Journal::new();
    let done = journal.record_planned("batch-1", &move_operation("a", "b"), AT);
    let failed = journal.record_planned("batch-1", &move_operation("c", "d"), AT);
    journal.mark(done, State::Done, None);
    journal.mark(failed, State::Failed, Some("denied"));

    let summaries = journal.recent_batches(10);

    assert_eq!(summaries.len(), 1);
    assert_eq!((summaries[0].done, summaries[0].failed), (1, 1));
}

#[test]
fn undo_batches_are_kept_out_of_the_activity_list() {
    let mut journal = Journal::new();
    journal.record_planned("batch-1", &move_operation("a", "b"), AT);
    journal.record_planned("batch-1:undo", &move_operation("b", "a"), AT);

    let summaries = journal.recent_batches(10);

    let names: Vec<_> = summaries.iter().map(|entry| entry.batch.clone()).collect();
    assert_eq!(names, ["batch-1"]);
}

#[test]
fn the_activity_limit_is_honoured() {
    let mut journal = Journal::new();
    for index in 0..5 {
        journal.record_planned(&format!("batch-{index}"), &move_operation("a", "b"), AT);
    }

    assert_eq!(journal.recent_batches(2).len(), 2);
}

#[test]
fn an_undone_batch_reports_its_undone_count() {
    let mut journal = Journal::new();
    let id = journal.record_planned("batch-1", &move_operation("a", "b"), AT);
    journal.mark(id, State::Done, None);
    journal.mark(id, State::Undone, None);

    let summaries = journal.recent_batches(10);

    assert_eq!((summaries[0].done, summaries[0].undone), (0, 1));
}

#[test]
fn settling_clears_interrupted_operations_and_reports_how_many() {
    let mut journal = Journal::new();
    journal.record_planned("batch-1", &move_operation("a", "b"), AT);
    journal.record_planned("batch-1", &move_operation("c", "d"), AT);

    let settled = journal.settle_interrupted("interrupted run");

    assert_eq!(settled, 2);
    assert!(journal.interrupted().is_empty());
}

#[test]
fn settling_does_not_disturb_finished_operations() {
    let mut journal = Journal::new();
    let done = journal.record_planned("batch-1", &move_operation("a", "b"), AT);
    journal.mark(done, State::Done, None);
    journal.record_planned("batch-1", &move_operation("c", "d"), AT);

    journal.settle_interrupted("interrupted run");

    assert_eq!(journal.applied_in_batch("batch-1").len(), 1);
}

#[test]
fn settling_nothing_reports_zero() {
    let mut journal = Journal::new();

    assert_eq!(journal.settle_interrupted("interrupted run"), 0);
}

#[test]
fn the_activity_list_puts_the_latest_batch_first_and_breaks_ties_by_name() {
    let mut journal = Journal::new();
    journal.record_planned("batch-a", &move_operation("a", "b"), 100);
    journal.record_planned("batch-c", &move_operation("a", "b"), 300);
    journal.record_planned("batch-b", &move_operation("a", "b"), 300);
    journal.record_planned("batch-a", &move_operation("c", "d"), 200);
    journal.record_planned("old:UNDO", &move_operation("c", "d"), 900);

    let names: Vec<_> = journal.recent_batches(10).iter().map(|entry| (entry.batch.clone(), entry.recorded_at)).collect();

    assert_eq!(
        names,
        [("batch-c".to_string(), 300), ("batch-b".to_string(), 300), ("batch-a".to_string(), 200)]
    );
    assert!(journal.recent_batches(0).is_empty());
}

#[test]
fn identifiers_grow_and_a_mark_reaches_only_its_entry() {
    let mut journal = Journal::new();
    let first = journal.record_planned("b", &move_operation("a", "b"), AT);
    let second = journal.record_planned("b", &move_operation("c", "d"), AT);
    assert_eq!((first, second), (1, 2));

    journal.mark(second, State::Failed, Some("denied"));
    journal.mark(99, State::Done, None);

    let pending = journal.interrupted();
    assert_eq!(pending.len(), 1);
    assert_eq!(pending[0].id, first);
    assert_eq!(journal.find(second).unwrap().state, State::Failed);
    assert!(journal.find(99).is_none());
    assert_eq!(journal.operations_in_batch("b").len(), 2);
}

#[test]
fn stored_kinds_are_rebuilt_or_refused() {
    assert_eq!(rebuild("move", "a".into(), Some("b".into())).unwrap(), move_operation("a", "b"));
    assert_eq!(rebuild("copy", "a".into(), Some("b".into())).unwrap(), Operation::Copy { from: "a".into(), to: "b".into() });
    assert_eq!(rebuild("trash", "a".into(), None).unwrap(), Operation::Trash { from: "a".into() });
    assert_eq!(rebuild("move", "a".into(), None).unwrap_err(), JournalError::MissingDestination);
    assert_eq!(rebuild("shred", "a".into(), None).unwrap_err(), JournalError::UnknownKind);
    assert_eq!(Operation::Trash { from: "a".into() }.kind(), "trash");
    assert_eq!(State::Undone.as_text(), "undone");
}

#[test]
fn stored_entries_out_of_order_are_refused() {
    let mut journal = Journal::new();
    journal.record_planned("b", &move_operation("a", "b"), AT);
    journal.record_planned("b", &move_operation("c", "d"), AT);
    let mut stored = journal.snapshot();
    stored.reverse();

    assert_eq!(Journal::from_entries(stored).err(), Some(JournalError::OutOfOrder));
}

#[test]
fn stored_states_read_back_as_themselves() {
    use_states();
}

fn use_states() {
    for state in [State::Planned, State::Done, State::Failed, State::Undone] {
        assert_eq!(tidyfile::journal::parse_state(state.as_text()), Some(state));
    }
    assert_eq!(tidyfile::journal::parse_state("Done"), None);
}
