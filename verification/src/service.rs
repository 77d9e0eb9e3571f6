//! What the organizer reports to its interface: planned changes, batch
//! reports, the activity list and folder states; how a batch is named; and
//! how the files of several folders are planned together as one batch.
use vstd::prelude::*;

use crate::executor::{Outcome, OutcomeView, SkipReason};
use crate::journal::{
    awaiting, belongs_to, destination_of, kind_text, oldest_first, recent_batches_of, record_views, source_of, state_text, BatchSummary, Journal, JournalError,
    Operation, OperationView, RecordView, RecordedOperation, State, SummaryView,
};
use crate::listing::texts;
use crate::pathname::path_starts_with;
use crate::paths::{is_within, PathError};
use crate::rules::condition::{system_moment, FileFacts};
use crate::rules::evaluator::{
    operation_views, plan, planned, deciding_rule_reads_date, lemma_plan_date_free, EvaluationError, EvaluationErrorView, PlanContext,
};
use crate::rules::patterns::Patterns;
use crate::rules::Rule;
use crate::templates::{calendar_moment, date_of_file, valid_date, CalendarDate};
use crate::watcher::{is_temporary, temporary};
use crate::text::{copy_string, append_chars, chars_of, decimal, decimal_exec, lemma_decimal_digits, lemma_decimal_injective, string_of};

verus! {

/// Why the organizer could not do what was asked.
#[derive(Debug, Clone, PartialEq, Eq)]
pub enum ServiceError {
    /// A folder cannot be used.
    Folder(PathError),
    /// The rules could not be evaluated.
    Rules(EvaluationError),
    /// The journal could not be reached.
    Journal(JournalError),
    /// The journal could not be updated while carrying out operations.
    Executor(JournalError),
    /// The folder could not be watched.
    Watcher,
}

/// The text that describes an error; it never names a path.
pub open spec fn service_error_text(e: ServiceError) -> Seq<char> {
    match e {
        ServiceError::Folder(_) => "the folder cannot be used"@,
        ServiceError::Rules(_) => "the rules could not be evaluated"@,
        ServiceError::Journal(_) => "the history could not be reached"@,
        ServiceError::Executor(_) => "the operation could not be carried out"@,
        ServiceError::Watcher => "the folder could not be watched"@,
    }
}

impl ServiceError {
    /// The message that describes the error.
    pub fn message(&self) -> (r: String)
        ensures
            r@ == service_error_text(*self),
    {
        match self {
            ServiceError::Folder(_) => String::from_str("the folder cannot be used"),
            ServiceError::Rules(_) => String::from_str("the rules could not be evaluated"),
            ServiceError::Journal(_) => String::from_str("the history could not be reached"),
            ServiceError::Executor(_) => String::from_str("the operation could not be carried out"),
            ServiceError::Watcher => String::from_str("the folder could not be watched"),
        }
    }
}

/// A change as the interface shows it.
#[derive(Debug, Clone, PartialEq, Eq)]
pub struct PlannedChange {
    pub kind: String,
    pub source: String,
    pub destination: Option<String>,
}

/// How a change describes an operation.
pub open spec fn describes(c: PlannedChange, op: OperationView) -> bool {
    &&& c.kind@ == kind_text(op)
    &&& c.source@ == source_of(op)
    &&& match c.destination {
        Some(d) => destination_of(op) == Some(d@),
        None => destination_of(op).is_none(),
    }
}


/// The change that `op` makes, as the interface shows it.
pub fn describe(op: &Operation) -> (r: PlannedChange)
    ensures
        describes(r, op@),
{
    let word = op.kind();
    let kind = String::from_str(word);
    let source = copy_string(op.source());
    let destination = match op.destination() {
        Some(d) => Some(copy_string(d)),
        None => None,
    };
    PlannedChange { kind, source, destination }
}

/// The changes that `ops` make, in order.
pub fn describe_all(ops: &Vec<Operation>) -> (r: Vec<PlannedChange>)
    ensures
        r.len() == ops.len(),
        forall|i: int| 0 <= i < ops.len() ==> describes(#[trigger] r@[i], ops@[i]@),
{
    let mut r: Vec<PlannedChange> = Vec::new();
    let mut i: usize = 0;
    while i < ops.len()
        invariant
            i <= ops.len(),
            r.len() == i,
            forall|j: int| 0 <= j < i ==> describes(#[trigger] r@[j], ops@[j]@),
        decreases ops.len() - i,
    {
        r.push(describe(&ops[i]));
        i = i + 1;
    }
    r
}

/// A journaled operation as the interface shows it.
#[derive(Debug, Clone, PartialEq, Eq)]
pub struct RecordedChange {
    pub id: i64,
    pub kind: String,
    pub source: String,
    pub destination: Option<String>,
    pub state: String,
    /// Only an operation that was carried out can be taken back.
    pub undoable: bool,
}

/// How a recorded change shows a journaled operation.
pub open spec fn shows_record(c: RecordedChange, r: RecordView) -> bool {
    &&& c.id == r.id
    &&& describes(PlannedChange { kind: c.kind, source: c.source, destination: c.destination }, r.operation)
    &&& c.state@ == state_text(r.state)
    &&& c.undoable == (r.state == State::Done)
}

/// A journaled operation as the interface shows it.
pub fn recorded(record: &RecordedOperation) -> (r: RecordedChange)
    ensures
        shows_record(r, record@),
{
    let change = describe(&record.operation);
    RecordedChange {
        id: record.id,
        kind: change.kind,
        source: change.source,
        destination: change.destination,
        state: String::from_str(record.state.as_text()),
        undoable: record.state == State::Done,
    }
}

/// What came of a batch, counted by outcome.
#[derive(Debug, Clone, PartialEq, Eq)]
pub struct BatchReport {
    pub batch: String,
    pub applied: usize,
    pub skipped: usize,
    pub failed: usize,
    /// Trashed files this platform could not restore; the user has to.
    pub needs_manual_restore: usize,
}

/// The outcomes in `s` that satisfy `pred`.
pub open spec fn count_where(s: Seq<OutcomeView>, pred: spec_fn(OutcomeView) -> bool) -> nat
    decreases s.len(),
{
    if s.len() == 0 {
        0
    } else {
        count_where(s.drop_last(), pred) + if pred(s.last()) { 1nat } else { 0nat }
    }
}

/// Outcomes that carried an operation out.
pub open spec fn is_applied() -> spec_fn(OutcomeView) -> bool {
    |o: OutcomeView| o is Applied
}

/// Outcomes that left a file alone.
pub open spec fn is_skipped() -> spec_fn(OutcomeView) -> bool {
    |o: OutcomeView| o is Skipped
}

/// Outcomes that failed.
pub open spec fn is_failed() -> spec_fn(OutcomeView) -> bool {
    |o: OutcomeView| o is Failed
}

/// Restores this platform could not carry out.
pub open spec fn is_unrestorable() -> spec_fn(OutcomeView) -> bool {
    |o: OutcomeView| o == OutcomeView::Skipped(SkipReason::RestoreUnsupported)
}

/// The views of a list of outcomes.
pub open spec fn outcome_views(s: Seq<Outcome>) -> Seq<OutcomeView> {
    Seq::new(s.len(), |i: int| s[i]@)
}

/// The report of batch `batch` from its outcomes.
pub fn summarize(batch: String, outcomes: &Vec<Outcome>) -> (r: BatchReport)
    ensures
        r.batch@ == batch@,
        r.applied == count_where(outcome_views(outcomes@), is_applied()),
        r.skipped == count_where(outcome_views(outcomes@), is_skipped()),
        r.failed == count_where(outcome_views(outcomes@), is_failed()),
        r.needs_manual_restore == count_where(outcome_views(outcomes@), is_unrestorable()),
{
    let ghost all = outcome_views(outcomes@);
    let mut applied: usize = 0;
    let mut skipped: usize = 0;
    let mut failed: usize = 0;
    let mut manual: usize = 0;
    let mut i: usize = 0;
    while i < outcomes.len()
        invariant
            i <= outcomes.len(),
            all == outcome_views(outcomes@),
            applied == count_where(all.subrange(0, i as int), is_applied()),
            skipped == count_where(all.subrange(0, i as int), is_skipped()),
            failed == count_where(all.subrange(0, i as int), is_failed()),
            manual == count_where(all.subrange(0, i as int), is_unrestorable()),
            applied <= i,
            skipped <= i,
            failed <= i,
            manual <= i,
        decreases outcomes.len() - i,
    {
        let ghost prefix = all.subrange(0, i + 1);
        assert(prefix.drop_last() =~= all.subrange(0, i as int));
        assert(prefix.last() == outcomes@[i as int]@);
        match &outcomes[i] {
            Outcome::Applied(_) => {
                applied = applied + 1;
            },
            Outcome::Skipped(reason) => {
                skipped = skipped + 1;
                if *reason == SkipReason::RestoreUnsupported {
                    manual = manual + 1;
                }
            },
            Outcome::Failed(_) => {
                failed = failed + 1;
            },
        }
        i = i + 1;
    }
    assert(all.subrange(0, i as int) =~= all);
    BatchReport { batch, applied, skipped, failed, needs_manual_restore: manual }
}

/// The report of a run that did nothing.
pub fn nothing_happened() -> (r: BatchReport)
    ensures
        r.batch@.len() == 0,
        r.applied == 0,
        r.skipped == 0,
        r.failed == 0,
        r.needs_manual_restore == 0,
{
    BatchReport { batch: String::new(), applied: 0, skipped: 0, failed: 0, needs_manual_restore: 0 }
}

/// One line of the activity list.
#[derive(Debug, Clone, PartialEq, Eq)]
pub struct ActivityEntry {
    pub batch: String,
    pub done: usize,
    pub undone: usize,
    pub failed: usize,
    /// Operations left alone are never journaled, so the journal counts none.
    pub skipped: usize,
    pub recorded_at: i64,
}

/// How an activity line shows a batch summary.
pub open spec fn shows_summary(a: ActivityEntry, s: SummaryView) -> bool {
    &&& a.batch@ == s.batch
    &&& a.done == s.done
    &&& a.undone == s.undone
    &&& a.failed == s.failed
    &&& a.skipped == 0
    &&& a.recorded_at == s.recorded_at
}

/// The activity line of a batch summary.
pub fn activity_entry(summary: &BatchSummary) -> (r: ActivityEntry)
    ensures
        shows_summary(r, summary@),
{
    ActivityEntry {
        batch: copy_string(&summary.batch),
        done: summary.done,
        undone: summary.undone,
        failed: summary.failed,
        skipped: 0,
        recorded_at: summary.recorded_at,
    }
}

/// The activity list: the journal's most recent batches, as `recent_batches` gives them.
pub fn activity(journal: &Journal, limit: usize) -> (r: Vec<ActivityEntry>)
    ensures
        exists|s: Seq<BatchSummary>| #![trigger recent_batches_of(journal.entries(), limit, s)]
            recent_batches_of(journal.entries(), limit, s) && s.len() == r.len()
                && forall|i: int| 0 <= i < r.len() ==> shows_summary(#[trigger] r@[i], s[i]@),
{
    let summaries = journal.recent_batches(limit);
    let mut r: Vec<ActivityEntry> = Vec::new();
    let mut i: usize = 0;
    while i < summaries.len()
        invariant
            i <= summaries.len(),
            r.len() == i,
            forall|j: int| 0 <= j < i ==> shows_summary(#[trigger] r@[j], summaries@[j]@),
        decreases summaries.len() - i,
    {
        r.push(activity_entry(&summaries[i]));
        i = i + 1;
    }
    assert(recent_batches_of(journal.entries(), limit, summaries@));
    r
}

/// A folder and whether it can be organized.
#[derive(Debug, Clone, PartialEq, Eq)]
pub struct FolderStatus {
    pub folder: String,
    pub state: String,
}

/// The state word for a folder verdict.
pub open spec fn state_word(verdict: Result<Seq<char>, PathError>) -> Seq<char> {
    match verdict {
        Ok(_) => "ok"@,
        Err(PathError::Forbidden) => "forbidden"@,
        Err(_) => "unavailable"@,
    }
}

/// The status of `folder`, given the verdict on it: usable, refused, or not there.
pub fn status_of(folder: &str, verdict: &Result<String, PathError>) -> (r: FolderStatus)
    ensures
        r.folder@ == folder@,
        r.state@ == state_word(match verdict {
            Ok(s) => Ok::<Seq<char>, PathError>(s@),
            Err(e) => Err::<Seq<char>, PathError>(*e),
        }),
{
    let state = match verdict {
        Ok(_) => "ok",
        Err(PathError::Forbidden) => "forbidden",
        Err(_) => "unavailable",
    };
    let c = chars_of(folder);
    FolderStatus { folder: string_of(&c), state: String::from_str(state) }
}

/// The name of a batch: the second it started, a dash, and a running number.
pub open spec fn batch_name(seconds: nat, sequence: nat) -> Seq<char> {
    decimal(seconds) + "-"@ + decimal(sequence)
}

/// Hands out batch names; the running number makes two names handed out in
/// the same second differ.
pub struct BatchCounter {
    next: u32,
}

impl BatchCounter {
    /// The running number the next batch gets.
    pub closed spec fn upcoming(&self) -> u32 {
        self.next
    }

    /// A counter that starts at zero.
    pub fn new() -> (r: BatchCounter)
        ensures
            r.upcoming() == 0,
    {
        BatchCounter { next: 0 }
    }

    /// The name of a batch starting at `seconds`; the running number then
    /// moves on by one, wrapping around after `u32::MAX`.
    pub fn next_batch_id(&mut self, seconds: u64) -> (r: String)
        ensures
            r@ == batch_name(seconds as nat, old(self).upcoming() as nat),
            final(self).upcoming() == old(self).upcoming().wrapping_add(1),
    {
        let sequence = self.next;
        self.next = self.next.wrapping_add(1);
        let mut name = decimal_exec(seconds);
        let dash = chars_of("-");
        append_chars(&mut name, &dash);
        let tail = decimal_exec(sequence as u64);
        append_chars(&mut name, &tail);
        string_of(&name)
    }
}

/// The counter a file gets from its place among the files of a batch.
pub open spec fn counter_for(index: int) -> u32 {
    if index + 1 <= u32::MAX {
        (index + 1) as u32
    } else {
        u32::MAX
    }
}

/// The plan for the first `n` files of a batch, each planned on its own date;
/// a file whose facts could not be read (`None`) is passed over but keeps its
/// place in the count; the first error ends the plan.
pub open spec fn planned_files(
    rules: Seq<Rule>,
    files: Seq<Option<FileFacts>>,
    now: i128,
    dates: Seq<CalendarDate>,
    n: int,
) -> Result<Seq<OperationView>, EvaluationErrorView>
    decreases n,
{
    if n <= 0 {
        Ok(Seq::empty())
    } else {
        match planned_files(rules, files, now, dates, n - 1) {
            Err(e) => Err(e),
            Ok(before) => match files[n - 1] {
                None => Ok(before),
                Some(facts) => match planned(rules, facts, PlanContext { now, counter: counter_for(n - 1) }, dates[n - 1]) {
                    Ok(ops) => Ok(before + ops),
                    Err(e) => Err(e),
                },
            },
        }
    }
}

/// The plan for the first `n` files depends only on their first `n` dates.
proof fn lemma_planned_files_prefix(
    rules: Seq<Rule>,
    files: Seq<Option<FileFacts>>,
    now: i128,
    a: Seq<CalendarDate>,
    b: Seq<CalendarDate>,
    n: int,
)
    requires
        n <= a.len(),
        n <= b.len(),
        forall|k: int| 0 <= k < n ==> a[k] == b[k],
    ensures
        planned_files(rules, files, now, a, n) == planned_files(rules, files, now, b, n),
    decreases n,
{
    if n > 0 {
        lemma_planned_files_prefix(rules, files, now, a, b, n - 1);
    }
}

/// Law: the plan of a batch depends on a file's date only where the rule
/// that decides that file's plan reads the date; two lists of dates that
/// agree on those files give the same plan.
pub proof fn lemma_planned_files_date_free(
    rules: Seq<Rule>,
    files: Seq<Option<FileFacts>>,
    now: i128,
    a: Seq<CalendarDate>,
    b: Seq<CalendarDate>,
    n: int,
)
    requires
        n <= a.len(),
        n <= b.len(),
        n <= files.len(),
        forall|k: int| 0 <= k < n ==> (#[trigger] files[k] matches Some(f) && deciding_rule_reads_date(rules, f, now)) ==> a[k] == b[k],
    ensures
        planned_files(rules, files, now, a, n) == planned_files(rules, files, now, b, n),
    decreases n,
{
    if n > 0 {
        lemma_planned_files_date_free(rules, files, now, a, b, n - 1);
        if let Some(f) = files[n - 1] {
            if !deciding_rule_reads_date(rules, f, now) {
                lemma_plan_date_free(rules, f, PlanContext { now, counter: counter_for(n - 1) }, a[n - 1], b[n - 1]);
            } else {
                assert(a[n - 1] == b[n - 1]);
            }
        }
    }
}

/// Once the plan of a batch fails, planning more files keeps that failure.
proof fn lemma_planned_files_error_stays(
    rules: Seq<Rule>,
    files: Seq<Option<FileFacts>>,
    now: i128,
    dates: Seq<CalendarDate>,
    m: int,
    n: int,
)
    requires
        0 <= m <= n,
        planned_files(rules, files, now, dates, m) is Err,
    ensures
        planned_files(rules, files, now, dates, n) == planned_files(rules, files, now, dates, m),
    decreases n - m,
{
    if n > m {
        lemma_planned_files_error_stays(rules, files, now, dates, m, n - 1);
    }
}

/// Plans the files of several folders together, as one batch: each file gets
/// its place in the batch as its counter; the first error ends the plan.
pub fn plan_files(rules: &Vec<Rule>, files: &Vec<Option<FileFacts>>, now: i128, cache: &mut Patterns) -> (r: Result<Vec<Operation>, EvaluationError>)
    requires
        old(cache).wf(),
        system_moment(now),
        forall|k: int| 0 <= k < files.len() ==> (#[trigger] files@[k] matches Some(f) ==> system_moment(f.modified) && (calendar_moment(f.modified) || !deciding_rule_reads_date(rules@, f, now))),
    ensures
        final(cache).wf(),
        exists|dates: Seq<CalendarDate>| #![trigger planned_files(rules@, files@, now, dates, files.len() as int)]
            dates.len() <= files.len() && (r is Ok ==> dates.len() == files.len())
                && (forall|k: int| 0 <= k < dates.len() ==> valid_date(#[trigger] dates[k]))
                && (forall|k: int| 0 <= k < dates.len() ==> (#[trigger] files@[k] matches Some(f) ==> date_of_file(f.modified, dates[k]))) && match r {
                Ok(ops) => planned_files(rules@, files@, now, dates, files.len() as int) == Ok::<Seq<OperationView>, EvaluationErrorView>(operation_views(ops@)),
                Err(e) => planned_files(rules@, files@, now, dates, files.len() as int) == Err::<Seq<OperationView>, EvaluationErrorView>(e@),
            },
{
    let some_day = CalendarDate { year: 1970, month: 1, day: 1 };
    let ghost mut dates: Seq<CalendarDate> = Seq::empty();
    let mut out: Vec<Operation> = Vec::new();
    let mut i: usize = 0;
    assert(operation_views(out@) =~= Seq::<OperationView>::empty());
    while i < files.len()
        invariant
            i <= files.len(),
            cache.wf(),
            system_moment(now),
            forall|k: int| 0 <= k < files.len() ==> (#[trigger] files@[k] matches Some(f) ==> system_moment(f.modified) && (calendar_moment(f.modified) || !deciding_rule_reads_date(rules@, f, now))),
            dates.len() == i,
            valid_date(some_day),
            forall|k: int| 0 <= k < dates.len() ==> valid_date(#[trigger] dates[k]),
            forall|k: int| 0 <= k < dates.len() ==> (#[trigger] files@[k] matches Some(f) ==> date_of_file(f.modified, dates[k])),
            planned_files(rules@, files@, now, dates, i as int) == Ok::<Seq<OperationView>, EvaluationErrorView>(operation_views(out@)),
        decreases files.len() - i,
    {
        let ghost before = dates;
        match &files[i] {
            None => {
                proof {
                    dates = dates.push(some_day);
                    lemma_planned_files_prefix(rules@, files@, now, before, dates, i as int);
                }
            },
            Some(facts) => {
                let counter: u32 = if i < u32::MAX as usize { (i + 1) as u32 } else { u32::MAX };
                let context = PlanContext { now, counter };
                assert(counter == counter_for(i as int));
                assert(files@[i as int] matches Some(f) ==> system_moment(f.modified) && (calendar_moment(f.modified) || !deciding_rule_reads_date(rules@, f, now)));
                let result = plan(rules, facts, context, cache);
                let ghost d = choose|d: CalendarDate|
                    #![trigger planned(rules@, *facts, context, d)]
                    date_of_file(facts.modified, d) && match result {
                        Ok(ops) => planned(rules@, *facts, context, d) == Ok::<Seq<OperationView>, EvaluationErrorView>(operation_views(ops@)),
                        Err(e) => planned(rules@, *facts, context, d) == Err::<Seq<OperationView>, EvaluationErrorView>(e@),
                    };
                proof {
                    dates = dates.push(d);
                    lemma_planned_files_prefix(rules@, files@, now, before, dates, i as int);
                }
                match result {
                    Ok(ops) => {
                        let ghost start = operation_views(out@);
                        let ghost added = operation_views(ops@);
                        let mut more = ops;
                        out.append(&mut more);
                        assert(operation_views(out@) =~= start + added);
                    },
                    Err(e) => {
                        proof {
                            lemma_planned_files_error_stays(rules@, files@, now, dates, i + 1, files.len() as int);
                            assert(planned_files(rules@, files@, now, dates, files.len() as int) == Err::<Seq<OperationView>, EvaluationErrorView>(e@));
                        }
                        return Err(e);
                    },
                }
            },
        }
        i = i + 1;
    }
    Ok(out)
}

/// Batch names do not repeat: different starting seconds or running numbers
/// give different names.
pub proof fn lemma_batch_names_differ(s1: nat, q1: nat, s2: nat, q2: nat)
    requires
        s1 != s2 || q1 != q2,
    ensures
        batch_name(s1, q1) != batch_name(s2, q2),
{
    reveal_strlit("-");
    lemma_decimal_digits(s1);
    lemma_decimal_digits(s2);
    lemma_decimal_digits(q1);
    lemma_decimal_digits(q2);
    let a = decimal(s1);
    let b = decimal(q1);
    let c = decimal(s2);
    let d = decimal(q2);
    let x = batch_name(s1, q1);
    let y = batch_name(s2, q2);
    if x == y {
        assert(x[a.len() as int] == '-');
        assert(y[c.len() as int] == '-');
        if a.len() < c.len() {
            assert(y[a.len() as int] == c[a.len() as int]);
        } else if c.len() < a.len() {
            assert(x[c.len() as int] == a[c.len() as int]);
        }
        assert(a.len() == c.len());
        assert(a =~= x.subrange(0, a.len() as int));
        assert(c =~= y.subrange(0, c.len() as int));
        assert(b =~= x.subrange(a.len() + 1int, x.len() as int));
        assert(d =~= y.subrange(c.len() + 1int, y.len() as int));
        lemma_decimal_injective(s1, s2);
        lemma_decimal_injective(q1, q2);
    }
}

/// Two batches started one after the other get different names, whatever
/// the clock says.
pub proof fn lemma_consecutive_batches_differ(s1: u64, s2: u64, sequence: u32)
    ensures
        batch_name(s1 as nat, sequence as nat) != batch_name(s2 as nat, sequence.wrapping_add(1) as nat),
{
    assert(sequence.wrapping_add(1) != sequence) by (bit_vector);
    lemma_batch_names_differ(s1 as nat, sequence as nat, s2 as nat, sequence.wrapping_add(1) as nat);
}

/// How deep below a folder the scan goes.
pub const MAX_SCAN_DEPTH: usize = 16;

/// What the scan does with an entry of a folder.
#[derive(Debug, Clone, Copy, PartialEq, Eq, Structural)]
pub enum Visit {
    /// Leave it alone.
    Skip,
    /// Scan the folder it is.
    Descend,
    /// Plan for the file it is.
    Keep,
}

/// What the scan does with the entry at `path`: links are never followed, so
/// the scan cannot leave the folder; folders are entered; files are kept
/// unless they are temporaries.
pub fn visit(path: &str, is_link: bool, is_folder: bool, is_file: bool) -> (r: Visit)
    ensures
        r == if is_link {
            Visit::Skip
        } else if is_folder {
            Visit::Descend
        } else if is_file && !temporary(path@) {
            Visit::Keep
        } else {
            Visit::Skip
        },
{
    if is_link {
        Visit::Skip
    } else if is_folder {
        Visit::Descend
    } else if is_file && !is_temporary(path) {
        Visit::Keep
    } else {
        Visit::Skip
    }
}

/// Whether the scan still reads a folder `depth` levels below where it started.
pub fn may_enter(depth: usize) -> (r: bool)
    ensures
        r == (depth <= MAX_SCAN_DEPTH),
{
    depth <= MAX_SCAN_DEPTH
}

/// What a folder's verdict means for a batch: a usable folder is scanned, one
/// that is missing or not a folder is passed over, a forbidden one stops the
/// whole plan before anything moves.
pub fn usable_root(verdict: Result<String, PathError>) -> (r: Result<Option<String>, ServiceError>)
    ensures
        match verdict {
            Ok(root) => r == Ok::<Option<String>, ServiceError>(Some(root)),
            Err(PathError::Forbidden) => r == Err::<Option<String>, ServiceError>(ServiceError::Folder(PathError::Forbidden)),
            Err(_) => r == Ok::<Option<String>, ServiceError>(None),
        },
{
    match verdict {
        Ok(root) => Ok(Some(root)),
        Err(PathError::Forbidden) => Err(ServiceError::Folder(PathError::Forbidden)),
        Err(_) => Ok(None),
    }
}

/// The files of `found` that lie inside `root`, in order.
pub fn inside_root(root: &str, found: Vec<String>) -> (r: Vec<String>)
    ensures
        texts(r@) == texts(found@).filter(|f: Seq<char>| path_starts_with(f, root@)),
{
    let mut kept: Vec<String> = Vec::new();
    let mut k: usize = 0;
    let ghost keep = |f: Seq<char>| path_starts_with(f, root@);
    assert(texts(found@).subrange(0, 0) =~= Seq::<Seq<char>>::empty());
    assert(texts(kept@) =~= Seq::<Seq<char>>::empty());
    reveal(Seq::filter);
    while k < found.len()
        invariant
            k <= found.len(),
            keep == |f: Seq<char>| path_starts_with(f, root@),
            texts(kept@) == texts(found@).subrange(0, k as int).filter(keep),
        decreases found.len() - k,
    {
        reveal(Seq::filter);
        let ghost prefix = texts(found@).subrange(0, k + 1);
        assert(prefix.drop_last() =~= texts(found@).subrange(0, k as int));
        assert(prefix.last() == found@[k as int]@);
        if is_within(root, found[k].as_str()) {
            let ghost before = texts(kept@);
            let c = chars_of(found[k].as_str());
            kept.push(string_of(&c));
            assert(texts(kept@) =~= before.push(found@[k as int]@));
        }
        k = k + 1;
    }
    assert(texts(found@).subrange(0, k as int) =~= texts(found@));
    kept
}

/// Whether any rule is enabled; with none, a watched file is left alone
/// without being looked at.
pub fn any_enabled(rules: &Vec<Rule>) -> (r: bool)
    ensures
        r == exists|i: int| 0 <= i < rules.len() && (#[trigger] rules@[i]).enabled,
{
    let mut i: usize = 0;
    while i < rules.len()
        invariant
            i <= rules.len(),
            forall|j: int| 0 <= j < i ==> !(#[trigger] rules@[j]).enabled,
        decreases rules.len() - i,
    {
        if rules[i].enabled {
            return true;
        }
        i = i + 1;
    }
    false
}

/// `r` answers a plan for one file: nothing where the plan is empty, its
/// operations where it has some, and its error where it failed.
pub open spec fn planned_answer(
    plan: Result<Seq<OperationView>, EvaluationErrorView>,
    r: Result<Option<Vec<Operation>>, ServiceError>,
) -> bool {
    match plan {
        Ok(ops) => if ops.len() == 0 {
            r == Ok::<Option<Vec<Operation>>, ServiceError>(None)
        } else {
            r matches Ok(Some(v)) && operation_views(v@) == ops
        },
        Err(e) => r matches Err(ServiceError::Rules(x)) && x@ == e,
    }
}

/// The plan for one file the watcher reported under `root`: nothing when the
/// file lies outside `root` or its facts could not be read, else its plan,
/// as the first file of its own batch.
pub fn plan_for_file(rules: &Vec<Rule>, root: &str, facts: &Option<FileFacts>, now: i128, cache: &mut Patterns) -> (r: Result<Option<Vec<Operation>>, ServiceError>)
    requires
        old(cache).wf(),
        system_moment(now),
        facts matches Some(f) ==> system_moment(f.modified) && (calendar_moment(f.modified) || !deciding_rule_reads_date(rules@, *f, now)),
    ensures
        final(cache).wf(),
        match facts {
            None => r == Ok::<Option<Vec<Operation>>, ServiceError>(None),
            Some(f) => if !path_starts_with(f.path@, root@) {
                r == Ok::<Option<Vec<Operation>>, ServiceError>(None)
            } else {
                &&& exists|d: CalendarDate| #![trigger planned(rules@, *f, PlanContext { now, counter: 1 }, d)]
                    date_of_file(f.modified, d) && planned_answer(planned(rules@, *f, PlanContext { now, counter: 1 }, d), r)
                &&& !deciding_rule_reads_date(rules@, *f, now) ==> forall|d: CalendarDate|
                    #![trigger planned(rules@, *f, PlanContext { now, counter: 1 }, d)]
                    planned_answer(planned(rules@, *f, PlanContext { now, counter: 1 }, d), r)
            },
        },
{
    match facts {
        None => Ok(None),
        Some(f) => {
            if !is_within(root, f.path.as_str()) {
                return Ok(None);
            }
            let context = PlanContext { now, counter: 1 };
            match plan(rules, f, context, cache) {
                Ok(ops) => {
                    if ops.len() == 0 {
                        Ok(None)
                    } else {
                        Ok(Some(ops))
                    }
                },
                Err(e) => Err(ServiceError::Rules(e)),
            }
        },
    }
}

/// The operations an interrupted run left planned, as changes, oldest first.
pub fn interrupted_changes(journal: &Journal) -> (r: Vec<PlannedChange>)
    requires
        journal.wf(),
    ensures
        r.len() == oldest_first(journal.entries(), awaiting()).len(),
        forall|i: int| 0 <= i < r.len() ==> describes(#[trigger] r@[i], oldest_first(journal.entries(), awaiting())[i].operation),
{
    let records = journal.interrupted();
    let mut r: Vec<PlannedChange> = Vec::new();
    let mut i: usize = 0;
    while i < records.len()
        invariant
            i <= records.len(),
            r.len() == i,
            record_views(records@) == oldest_first(journal.entries(), awaiting()),
            forall|j: int| 0 <= j < i ==> describes(#[trigger] r@[j], record_views(records@)[j].operation),
        decreases records.len() - i,
    {
        r.push(describe(&records[i].operation));
        i = i + 1;
    }
    r
}

/// Every operation of `batch`, oldest first, as the interface shows it.
pub fn batch_changes(journal: &Journal, batch: &str) -> (r: Vec<RecordedChange>)
    requires
        journal.wf(),
    ensures
        r.len() == oldest_first(journal.entries(), belongs_to(batch@)).len(),
        forall|i: int| 0 <= i < r.len() ==> shows_record(#[trigger] r@[i], oldest_first(journal.entries(), belongs_to(batch@))[i]),
{
    let records = journal.operations_in_batch(batch);
    let mut r: Vec<RecordedChange> = Vec::new();
    let mut i: usize = 0;
    while i < records.len()
        invariant
            i <= records.len(),
            r.len() == i,
            record_views(records@) == oldest_first(journal.entries(), belongs_to(batch@)),
            forall|j: int| 0 <= j < i ==> shows_record(#[trigger] r@[j], record_views(records@)[j]),
        decreases records.len() - i,
    {
        r.push(recorded(&records[i]));
        i = i + 1;
    }
    r
}

} // verus!
