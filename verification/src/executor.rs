//! Carrying out planned operations safely: every operation is journaled as
//! planned before it runs and marked once it has run; a destination that is
//! already taken is never overwritten; a batch is undone newest first.
//!
//! The filesystem work itself happens outside this module. The executor
//! decides, from what the filesystem showed, what is to be done next, and
//! records in the journal what came of it.
use vstd::prelude::*;

use crate::journal::{
    applied_in, destination_of, lemma_undoing_a_batch_leaves_nothing_to_undo, marked, undone_all, newest_first, next_id, planned_count, settled, record_of, record_views, source_of,
    awaiting, oldest_first, ordered, EntryView, Journal, Operation, OperationView, RecordView,
    RecordedOperation, State,
};
use crate::listing::texts;
use crate::paths::{same_folder, same_folder_exec};
use crate::pathname::{
    extension, file_stem, join, join_exec, parent_components, parent_exec, stem_and_extension,
    text_of,
};
use crate::text::{copy_string, append_chars, chars_of, decimal, decimal_exec, string_of};

verus! {

/// How many names, counting the one wanted, are tried before giving up.
pub const MAX_NAME_ATTEMPTS: u32 = 100;

/// What to do when the destination of a move or copy is already taken.
#[derive(Debug, Clone, Copy, PartialEq, Eq, Structural)]
pub enum Collision {
    /// Keep both: the newcomer gets a free name such as `notes (2).txt`.
    Suffix,
    /// Leave the file where it is.
    Skip,
}

impl Default for Collision {
    fn default() -> (r: Collision)
        ensures
            r == Collision::Suffix,
    {
        Collision::Suffix
    }
}

/// Why an operation was left alone.
#[derive(Debug, Clone, Copy, PartialEq, Eq, Structural)]
pub enum SkipReason {
    /// The file to act on is no longer there.
    SourceVanished,
    /// This platform offers no way to take a file back out of the trash.
    RestoreUnsupported,
    /// The trash no longer holds the file.
    NotFoundInTrash,
    /// The destination is taken and the policy is to leave the file alone.
    DestinationTaken,
    /// The destination is the path the file already has: it is where it belongs.
    AlreadyInPlace,
}

/// What became of one operation.
#[derive(Debug, Clone, PartialEq, Eq)]
pub enum Outcome {
    Applied(Operation),
    Skipped(SkipReason),
    Failed(String),
}

/// An outcome with its texts as character sequences.
pub enum OutcomeView {
    Applied(OperationView),
    Skipped(SkipReason),
    Failed(Seq<char>),
}

impl View for Outcome {
    type V = OutcomeView;

    open spec fn view(&self) -> OutcomeView {
        match self {
            Outcome::Applied(op) => OutcomeView::Applied(op@),
            Outcome::Skipped(reason) => OutcomeView::Skipped(*reason),
            Outcome::Failed(detail) => OutcomeView::Failed(detail@),
        }
    }
}

/// The detail recorded when every alternative name was taken.
pub open spec fn no_free_name() -> Seq<char> {
    "every candidate name was already taken"@
}

/// The file name tried at `attempt`: the stem, ` (attempt)`, then the extension.
pub open spec fn candidate_name(stem: Seq<char>, ext: Option<Seq<char>>, attempt: nat) -> Seq<char> {
    let base = stem + " ("@ + decimal(attempt) + ")"@;
    match ext {
        Some(e) => base + "."@ + e,
        None => base,
    }
}

/// The path tried at `attempt` in place of `desired`: the candidate name in
/// the same folder (none when `desired` names no file).
pub open spec fn candidate_path(desired: Seq<char>, attempt: nat) -> Option<Seq<char>> {
    match (parent_components(desired), file_stem(desired)) {
        (Some(c), Some(stem)) => Some(join(text_of(c), candidate_name(stem, extension(desired), attempt))),
        _ => None,
    }
}

/// The first attempt from `k + 2` on whose candidate is not taken, if any;
/// `taken[j]` tells whether the candidate of attempt `j + 2` exists.
pub open spec fn free_attempt(taken: Seq<bool>, k: nat) -> Option<nat>
    decreases 98 - k,
{
    if k >= 98 || k >= taken.len() {
        None
    } else if !taken[k as int] {
        Some(k + 2)
    } else {
        free_attempt(taken, k + 1)
    }
}

/// What the filesystem showed about one operation just before it would run.
#[derive(Debug, Clone)]
pub struct Probe {
    /// The file to act on exists.
    pub source_exists: bool,
    /// The destination of a move or copy exists.
    pub destination_exists: bool,
    /// For each alternative name, from attempt 2 on, whether it exists.
    pub taken: Vec<bool>,
}

/// A probe with its list of taken names as a sequence.
pub struct ProbeView {
    pub source_exists: bool,
    pub destination_exists: bool,
    pub taken: Seq<bool>,
}

impl View for Probe {
    type V = ProbeView;

    open spec fn view(&self) -> ProbeView {
        ProbeView { source_exists: self.source_exists, destination_exists: self.destination_exists, taken: self.taken@ }
    }
}

/// What is decided for an operation before it runs.
pub enum Resolution {
    /// Run this operation.
    Proceed(OperationView),
    /// Leave the file alone.
    Skip(SkipReason),
    /// Give up with this detail.
    Fail(Seq<char>),
}

/// `op` with its destination set to `to`.
pub open spec fn redirected(op: OperationView, to: Seq<char>) -> OperationView {
    match op {
        OperationView::Move { from, .. } => OperationView::Move { from, to },
        OperationView::Copy { from, .. } => OperationView::Copy { from, to },
        OperationView::Trash { from } => OperationView::Trash { from },
    }
}

/// The decision for `op` under `policy`, given what the filesystem showed: a
/// vanished source is skipped; a file whose destination is its own path is
/// already in place and left alone; a taken destination is either left alone
/// or replaced by the first free alternative name; nothing is ever overwritten.
pub open spec fn resolution(op: OperationView, policy: Collision, probe: ProbeView) -> Resolution {
    if !probe.source_exists {
        Resolution::Skip(SkipReason::SourceVanished)
    } else {
        match destination_of(op) {
            None => Resolution::Proceed(op),
            Some(to) => if same_folder(to, source_of(op)) {
                Resolution::Skip(SkipReason::AlreadyInPlace)
            } else if !probe.destination_exists {
                Resolution::Proceed(op)
            } else if policy == Collision::Skip {
                Resolution::Skip(SkipReason::DestinationTaken)
            } else {
                match free_attempt(probe.taken, 0) {
                    Some(a) => match candidate_path(to, a) {
                        Some(p) => Resolution::Proceed(redirected(op, p)),
                        None => Resolution::Fail(no_free_name()),
                    },
                    None => Resolution::Fail(no_free_name()),
                }
            },
        }
    }
}

/// The next thing to do for an operation.
#[derive(Debug, Clone, PartialEq, Eq)]
pub enum Step {
    /// Carry out `operation`, journaled as entry `id`, then report back.
    Run { id: i64, operation: Operation },
    /// Nothing is to be carried out; this is what came of the operation.
    Settled(Outcome),
}

/// How an applied operation is taken back.
#[derive(Debug, Clone, PartialEq, Eq)]
pub enum UndoStep {
    /// Carry out this operation, which reverses the recorded one.
    Reapply(Operation),
    /// Take the file that was at this path back out of the trash.
    Restore(String),
}

/// An undo step with its texts as character sequences.
pub enum UndoView {
    Reapply(OperationView),
    Restore(Seq<char>),
}

impl View for UndoStep {
    type V = UndoView;

    open spec fn view(&self) -> UndoView {
        match self {
            UndoStep::Reapply(op) => UndoView::Reapply(op@),
            UndoStep::Restore(p) => UndoView::Restore(p@),
        }
    }
}

/// How an applied operation is reversed: a move goes back where it came from,
/// a copy is sent to the trash, a trashed file is restored.
pub open spec fn reversal(op: OperationView) -> UndoView {
    match op {
        OperationView::Move { from, to } => UndoView::Reapply(OperationView::Move { from: to, to: from }),
        OperationView::Copy { to, .. } => UndoView::Reapply(OperationView::Trash { from: to }),
        OperationView::Trash { from } => UndoView::Restore(from),
    }
}

/// Which trashed item, if any, a restore takes back.
#[derive(Debug, Clone, PartialEq, Eq)]
pub enum TrashChoice {
    /// Restore the listed item at this index.
    Restore(usize),
    /// Nothing is restored; this is the outcome.
    Settled(Outcome),
}

/// The first index in `listed` whose path is `original`, if any.
pub open spec fn first_listed(listed: Seq<Seq<char>>, original: Seq<char>, k: nat) -> Option<nat>
    decreases listed.len() - k,
{
    if k >= listed.len() {
        None
    } else if listed[k as int] == original {
        Some(k)
    } else {
        first_listed(listed, original, k + 1)
    }
}


/// The file name tried at `attempt` in place of a taken one: `notes.txt` becomes `notes (2).txt`.
pub fn candidate_name_exec(stem: &Vec<char>, extension: &Option<Vec<char>>, attempt: u32) -> (r: Vec<char>)
    ensures
        r@ == candidate_name(stem@, match extension { Some(e) => Some(e@), None => None }, attempt as nat),
{
    let mut name: Vec<char> = Vec::new();
    append_chars(&mut name, stem);
    assert(name@ =~= stem@);
    let open = chars_of(" (");
    append_chars(&mut name, &open);
    let digits = decimal_exec(attempt as u64);
    append_chars(&mut name, &digits);
    let close = chars_of(")");
    append_chars(&mut name, &close);
    match extension {
        Some(e) => {
            let dot = chars_of(".");
            append_chars(&mut name, &dot);
            append_chars(&mut name, e);
        },
        None => {},
    }
    name
}

/// The path tried at `attempt` in place of `desired`, if `desired` names a file.
pub fn candidate_path_exec(desired: &str, attempt: u32) -> (r: Option<String>)
    ensures
        match r {
            Some(p) => candidate_path(desired@, attempt as nat) == Some(p@),
            None => candidate_path(desired@, attempt as nat).is_none(),
        },
{
    let d = chars_of(desired);
    let parent = parent_exec(&d);
    let split = stem_and_extension(&d);
    match (parent, split) {
        (Some(folder), Some(pair)) => {
            let name = candidate_name_exec(&pair.0, &pair.1, attempt);
            let full = join_exec(&folder, &name);
            Some(string_of(&full))
        },
        (None, _) => None,
        (_, None) => None,
    }
}

/// The first attempt whose candidate is free, as `free_attempt` from 0.
fn first_free_attempt(taken: &Vec<bool>) -> (r: Option<u32>)
    ensures
        match r {
            Some(a) => free_attempt(taken@, 0) == Some(a as nat),
            None => free_attempt(taken@, 0).is_none(),
        },
{
    let mut k: usize = 0;
    while k < 98 && k < taken.len()
        invariant
            k <= 98,
            free_attempt(taken@, 0) == free_attempt(taken@, k as nat),
        decreases 98 - k,
    {
        if !taken[k] {
            let a: u32 = (k + 2) as u32;
            return Some(a);
        }
        k = k + 1;
    }
    None
}

/// `op` with its destination replaced by `to`.
fn redirect(op: &Operation, to: String) -> (r: Operation)
    ensures
        r@ == redirected(op@, to@),
{
    match op {
        Operation::Move { from, .. } => Operation::Move { from: copy_string(from), to },
        Operation::Copy { from, .. } => Operation::Copy { from: copy_string(from), to },
        Operation::Trash { from } => Operation::Trash { from: copy_string(from) },
    }
}

fn copy_operation(op: &Operation) -> (r: Operation)
    ensures
        r@ == op@,
{
    match op {
        Operation::Move { from, to } => Operation::Move { from: copy_string(from), to: copy_string(to) },
        Operation::Copy { from, to } => Operation::Copy { from: copy_string(from), to: copy_string(to) },
        Operation::Trash { from } => Operation::Trash { from: copy_string(from) },
    }
}

/// Decides what happens to `op` under `policy`, given what the filesystem showed.
pub fn resolve(op: &Operation, policy: Collision, probe: &Probe) -> (r: Result<Operation, Outcome>)
    ensures
        match resolution(op@, policy, probe@) {
            Resolution::Proceed(o) => r matches Ok(x) && x@ == o,
            Resolution::Skip(reason) => r == Err::<Operation, Outcome>(Outcome::Skipped(reason)),
            Resolution::Fail(d) => r matches Err(Outcome::Failed(x)) && x@ == d,
        },
{
    if !probe.source_exists {
        return Err(Outcome::Skipped(SkipReason::SourceVanished));
    }
    let to: &String = match op {
        Operation::Trash { .. } => {
            return Ok(copy_operation(op));
        },
        Operation::Move { to, .. } => to,
        Operation::Copy { to, .. } => to,
    };
    let there = chars_of(to.as_str());
    let here = chars_of(op.source().as_str());
    if same_folder_exec(&there, &here) {
        return Err(Outcome::Skipped(SkipReason::AlreadyInPlace));
    }
    if !probe.destination_exists {
        return Ok(copy_operation(op));
    }
    if policy == Collision::Skip {
        return Err(Outcome::Skipped(SkipReason::DestinationTaken));
    }
    match first_free_attempt(&probe.taken) {
        Some(a) => match candidate_path_exec(to.as_str(), a) {
            Some(p) => Ok(redirect(op, p)),
            None => Err(Outcome::Failed(String::from_str("every candidate name was already taken"))),
        },
        None => Err(Outcome::Failed(String::from_str("every candidate name was already taken"))),
    }
}

/// The name under which the undo run of `batch` is journaled: `batch:undo`.
pub fn undo_batch_name(batch: &str) -> (r: String)
    ensures
        r@ == batch@ + ":undo"@,
{
    let mut name = chars_of(batch);
    let marker = chars_of(":undo");
    append_chars(&mut name, &marker);
    string_of(&name)
}

/// How `record` is taken back.
pub fn undo_step(record: &RecordedOperation) -> (r: UndoStep)
    ensures
        r@ == reversal(record.operation@),
{
    match &record.operation {
        Operation::Move { from, to } => UndoStep::Reapply(Operation::Move { from: copy_string(to), to: copy_string(from) }),
        Operation::Copy { to, .. } => UndoStep::Reapply(Operation::Trash { from: copy_string(to) }),
        Operation::Trash { from } => UndoStep::Restore(copy_string(from)),
    }
}

/// Picks the trashed item to restore for `original`: where the platform
/// cannot list the trash (`None`) nothing can be restored; a listing that
/// failed fails the restore; otherwise the first item that was at `original`.
pub fn from_trash(original: &str, listing: &Option<Result<Vec<String>, String>>) -> (r: TrashChoice)
    ensures
        match listing {
            None => r == TrashChoice::Settled(Outcome::Skipped(SkipReason::RestoreUnsupported)),
            Some(Err(m)) => r matches TrashChoice::Settled(Outcome::Failed(x)) && x@ == m@,
            Some(Ok(items)) => match first_listed(texts(items@), original@, 0) {
                Some(k) => r == TrashChoice::Restore(k as usize),
                None => r == TrashChoice::Settled(Outcome::Skipped(SkipReason::NotFoundInTrash)),
            },
        },
{
    match listing {
        None => TrashChoice::Settled(Outcome::Skipped(SkipReason::RestoreUnsupported)),
        Some(Err(m)) => TrashChoice::Settled(Outcome::Failed(copy_string(m))),
        Some(Ok(items)) => {
            let ghost listed = texts(items@);
            let wanted = chars_of(original);
            let mut k: usize = 0;
            while k < items.len()
                invariant
                    k <= items.len(),
                    wanted@ == original@,
                    *listing == Some(Ok::<Vec<String>, String>(*items)),
                    listed == texts(items@),
                    first_listed(listed, original@, 0) == first_listed(listed, original@, k as nat),
                decreases items.len() - k,
            {
                let path = chars_of(items[k].as_str());
                assert(listed[k as int] == items@[k as int]@);
                if crate::text::same_chars(&path, &wanted) {
                    assert(first_listed(listed, original@, k as nat) == Some(k as nat));
                    return TrashChoice::Restore(k);
                }
                k = k + 1;
            }
            TrashChoice::Settled(Outcome::Skipped(SkipReason::NotFoundInTrash))
        },
    }
}

/// What came of restoring `original` from the trash.
pub fn restored(original: &str, result: Result<(), String>) -> (r: Outcome)
    ensures
        match result {
            Ok(()) => r@ == OutcomeView::Applied(OperationView::Trash { from: original@ }),
            Err(m) => r@ == OutcomeView::Failed(m@),
        },
{
    match result {
        Ok(()) => {
            let c = chars_of(original);
            Outcome::Applied(Operation::Trash { from: string_of(&c) })
        },
        Err(m) => Outcome::Failed(m),
    }
}

/// Carries out operations through the journal.
pub struct Executor {
    journal: Journal,
}

impl Executor {
    /// An executor that records into `journal`.
    pub fn new(journal: Journal) -> (r: Executor)
        ensures
            r.history() == journal,
    {
        Executor { journal }
    }

    /// The journal the executor records into.
    pub closed spec fn history(&self) -> Journal {
        self.journal
    }

    /// The journal the executor records into.
    pub fn journal(&self) -> (r: &Journal)
        ensures
            *r == self.history(),
    {
        &self.journal
    }

    /// Decides what happens to `op` and, where it is to run, journals it as
    /// planned before anything is touched.
    pub fn prepare(&mut self, batch: &str, op: &Operation, policy: Collision, probe: &Probe, recorded_at: i64) -> (r: Step)
        requires
            old(self).history().wf(),
            next_id(old(self).history().entries()) <= i64::MAX,
        ensures
            final(self).history().wf(),
            match resolution(op@, policy, probe@) {
                Resolution::Proceed(o) => r matches Step::Run { id, operation } && operation@ == o && id == next_id(old(self).history().entries()) && final(self).history().entries() == old(self).history().entries().push(EntryView {
                    id,
                    batch: batch@,
                    operation: o,
                    state: State::Planned,
                    detail: None,
                    recorded_at,
                }),
                Resolution::Skip(reason) => r == Step::Settled(Outcome::Skipped(reason)) && final(self).history().entries() == old(self).history().entries(),
                Resolution::Fail(d) => r matches Step::Settled(Outcome::Failed(x)) && x@ == d && final(self).history().entries() == old(self).history().entries(),
            },
    {
        match resolve(op, policy, probe) {
            Ok(operation) => {
                let id = self.journal.record_planned(batch, &operation, recorded_at);
                Step::Run { id, operation }
            },
            Err(outcome) => Step::Settled(outcome),
        }
    }

    /// Records what came of running the operation journaled as `id`.
    pub fn finish(&mut self, id: i64, operation: Operation, result: Result<(), String>) -> (r: Outcome)
        requires
            old(self).history().wf(),
        ensures
            final(self).history().wf(),
            match result {
                Ok(()) => r == Outcome::Applied(operation) && final(self).history().entries() == marked(old(self).history().entries(), id, State::Done, None),
                Err(d) => r@ == OutcomeView::Failed(d@) && final(self).history().entries() == marked(old(self).history().entries(), id, State::Failed, Some(d@)),
            },
    {
        match result {
            Ok(()) => {
                self.journal.mark(id, State::Done, None);
                Outcome::Applied(operation)
            },
            Err(detail) => {
                self.journal.mark(id, State::Failed, Some(detail.as_str()));
                Outcome::Failed(detail)
            },
        }
    }

    /// Marks every operation an interrupted run left planned as failed with
    /// `detail`; returns how many there were.
    pub fn settle_interrupted(&mut self, detail: &str) -> (count: usize)
        requires
            old(self).history().wf(),
        ensures
            final(self).history().wf(),
            final(self).history().entries() == settled(old(self).history().entries(), detail@),
            count == planned_count(old(self).history().entries()),
    {
        self.journal.settle_interrupted(detail)
    }

    /// The operations of `batch` to take back, newest first.
    pub fn undo_plan(&self, batch: &str) -> (r: Vec<RecordedOperation>)
        requires
            self.history().wf(),
        ensures
            record_views(r@) == newest_first(self.history().entries(), applied_in(batch@)),
    {
        self.journal.applied_in_batch(batch)
    }

    /// The entry `id` when it can be taken back on its own: it was carried out
    /// and not yet undone.
    pub fn undoable(&self, id: i64) -> (r: Option<RecordedOperation>)
        requires
            self.history().wf(),
        ensures
            match r {
                Some(rec) => rec@.state == State::Done && exists|k: int| 0 <= k < self.history().entries().len() && self.history().entries()[k].id == id && rec@ == record_of(#[trigger] self.history().entries()[k]),
                None => forall|k: int| 0 <= k < self.history().entries().len() && (#[trigger] self.history().entries()[k]).id == id ==> self.history().entries()[k].state != State::Done,
            },
    {
        self.journal.undoable(id)
    }

    /// Records what came of taking back entry `id`: applied or skipped, it
    /// counts as undone; a failure leaves it applied, to be tried again.
    pub fn settle_undo(&mut self, id: i64, outcome: &Outcome)
        requires
            old(self).history().wf(),
        ensures
            final(self).history().wf(),
            match outcome {
                Outcome::Failed(_) => final(self).history().entries() == old(self).history().entries(),
                _ => final(self).history().entries() == marked(old(self).history().entries(), id, State::Undone, None),
            },
    {
        match outcome {
            Outcome::Failed(_) => {},
            _ => {
                self.journal.mark(id, State::Undone, None);
            },
        }
    }
}

/// What `free_attempt` finds: an attempt from `k + 2` to 99 whose candidate
/// is reported free, every earlier one from `k + 2` on being taken.
pub proof fn lemma_free_attempt(taken: Seq<bool>, k: nat)
    ensures
        match free_attempt(taken, k) {
            Some(a) => k + 2 <= a <= 99 && a - 2 < taken.len() && !taken[a - 2] && forall|j: int| k <= j < a - 2 ==> taken[j],
            None => forall|j: int| k <= j < taken.len() && j < 98 ==> taken[j],
        },
    decreases 98 - k,
{
    if k < 98 && k < taken.len() && taken[k as int] {
        lemma_free_attempt(taken, k + 1);
    }
}

/// A collision never overwrites: an operation that goes ahead either had a
/// free destination, or was sent to the first alternative name that the
/// filesystem reported free; it always starts from the file it was planned for.
pub proof fn lemma_never_overwrites(op: OperationView, policy: Collision, probe: ProbeView)
    requires
        resolution(op, policy, probe) is Proceed,
    ensures
        ({
            let o = resolution(op, policy, probe)->Proceed_0;
            &&& source_of(o) == source_of(op)
            &&& probe.source_exists
            &&& match destination_of(op) {
                None => o == op,
                Some(to) => (!probe.destination_exists && o == op) || (probe.destination_exists && policy == Collision::Suffix && exists|a: nat|
                    2 <= a <= 99 && a - 2 < probe.taken.len() && !probe.taken[a - 2] && (forall|j: int| 0 <= j < a - 2 ==> probe.taken[j])
                        && #[trigger] candidate_path(to, a) == destination_of(o)),
            }
        }),
{
    lemma_free_attempt(probe.taken, 0);
    let o = resolution(op, policy, probe)->Proceed_0;
    match destination_of(op) {
        None => {},
        Some(to) => {
            if probe.destination_exists {
                let a = free_attempt(probe.taken, 0)->Some_0;
                assert(candidate_path(to, a) == destination_of(o));
            }
        },
    }
}

/// Records other than entry `id`.
pub open spec fn other_than(id: i64) -> spec_fn(RecordView) -> bool {
    |r: RecordView| r.id != id
}

/// Taking back an entry removes exactly that entry from what its batch shows
/// as applied, so a second undo does not move the file again.
pub proof fn lemma_undone_leaves_the_applied_list(s: Seq<EntryView>, id: i64, detail: Option<Seq<char>>, batch: Seq<char>)
    ensures
        newest_first(marked(s, id, State::Undone, detail), applied_in(batch)) == newest_first(s, applied_in(batch)).filter(other_than(id)),
    decreases s.len(),
{
    reveal(Seq::filter);
    if s.len() > 0 {
        let t = s.drop_first();
        lemma_undone_leaves_the_applied_list(t, id, detail, batch);
        assert(marked(s, id, State::Undone, detail).drop_first() =~= marked(t, id, State::Undone, detail));
        let rest = newest_first(t, applied_in(batch));
        let p = other_than(id);
        if applied_in(batch)(s[0]) {
            let grown = rest.push(record_of(s[0]));
            assert(grown.drop_last() =~= rest);
            assert(grown.last() == record_of(s[0]));
            assert(grown.filter(p) == if p(record_of(s[0])) { rest.filter(p).push(record_of(s[0])) } else { rest.filter(p) });
        }
    }
}

/// Undoing a move puts the file back where it was, and undoing that again
/// moves it forward once more.
pub proof fn lemma_undo_puts_a_move_back(from: Seq<char>, to: Seq<char>)
    ensures
        reversal(OperationView::Move { from, to }) == UndoView::Reapply(OperationView::Move { from: to, to: from }),
        reversal(OperationView::Move { from: to, to: from }) == UndoView::Reapply(OperationView::Move { from, to }),
{
}

/// A file whose destination is its own path is already where it belongs: it
/// is left alone and nothing is journaled, so a second pass over a tidy
/// folder changes nothing.
pub proof fn lemma_in_place_is_left_alone(op: OperationView, policy: Collision, probe: ProbeView)
    requires
        probe.source_exists,
        destination_of(op) matches Some(to) && same_folder(to, source_of(op)),
    ensures
        resolution(op, policy, probe) == Resolution::Skip(SkipReason::AlreadyInPlace),
{
}

/// The alternative name chosen for a taken destination is the first of
/// ` (2)` to ` (99)` that does not exist, in the same folder; when all exist
/// the operation fails. `on_disk` tells which paths exist; the probe must
/// report them faithfully, from attempt 2 on, until the first free one or
/// through all 98.
pub proof fn lemma_first_free_name_is_chosen(op: OperationView, probe: ProbeView, to: Seq<char>, on_disk: spec_fn(Seq<char>) -> bool)
    requires
        probe.source_exists,
        probe.destination_exists,
        destination_of(op) == Some(to),
        !same_folder(to, source_of(op)),
        candidate_path(to, 2) is Some,
        probe.taken.len() <= 98,
        forall|j: int| 0 <= j < probe.taken.len() ==> probe.taken[j] == on_disk(#[trigger] candidate_path(to, (j + 2) as nat)->Some_0),
        probe.taken.len() == 98 || (probe.taken.len() > 0 && !probe.taken.last()),
    ensures
        match resolution(op, Collision::Suffix, probe) {
            Resolution::Proceed(o) => exists|k: nat| 2 <= k <= 99 && !on_disk(#[trigger] candidate_path(to, k)->Some_0)
                && (forall|j: nat| 2 <= j < k ==> on_disk(#[trigger] candidate_path(to, j)->Some_0))
                && destination_of(o) == candidate_path(to, k),
            Resolution::Fail(d) => d == no_free_name() && forall|j: nat| 2 <= j <= 99 ==> on_disk(#[trigger] candidate_path(to, j)->Some_0),
            Resolution::Skip(_) => false,
        },
{
    lemma_free_attempt(probe.taken, 0);
    match free_attempt(probe.taken, 0) {
        Some(a) => {
            assert(!on_disk(candidate_path(to, a)->Some_0)) by {
                assert(probe.taken[a - 2] == on_disk(candidate_path(to, ((a - 2) + 2) as nat)->Some_0));
            }
            assert forall|j: nat| 2 <= j < a implies on_disk(#[trigger] candidate_path(to, j)->Some_0) by {
                assert(probe.taken[j - 2] == on_disk(candidate_path(to, ((j - 2) + 2) as nat)->Some_0));
            }
        },
        None => {
            assert(probe.taken.len() == 98);
            assert forall|j: nat| 2 <= j <= 99 implies on_disk(#[trigger] candidate_path(to, j)->Some_0) by {
                assert(probe.taken[j - 2] == on_disk(candidate_path(to, ((j - 2) + 2) as nat)->Some_0));
            }
        },
    }
}

/// What carrying out one operation of a batch leaves in the journal.
pub enum StepEffect {
    /// The operation was skipped or refused before anything was journaled.
    Untouched,
    /// The operation was journaled as planned, run, and marked done or failed.
    Ran { operation: OperationView, done: bool, detail: Option<Seq<char>> },
}

/// The entry an operation of `batch` gets when it is journaled.
pub open spec fn planned_entry(s: Seq<EntryView>, batch: Seq<char>, operation: OperationView, at: i64) -> EntryView {
    EntryView { id: next_id(s) as i64, batch, operation, state: State::Planned, detail: None, recorded_at: at }
}

/// The journal after one step, as `prepare` and `finish` leave it.
pub open spec fn after_step(s: Seq<EntryView>, batch: Seq<char>, effect: StepEffect, at: i64) -> Seq<EntryView> {
    match effect {
        StepEffect::Untouched => s,
        StepEffect::Ran { operation, done, detail } => marked(
            s.push(planned_entry(s, batch, operation, at)),
            next_id(s) as i64,
            if done { State::Done } else { State::Failed },
            detail,
        ),
    }
}

/// The journal after the steps of a batch, in order.
pub open spec fn after_steps(s: Seq<EntryView>, batch: Seq<char>, effects: Seq<StepEffect>, at: i64) -> Seq<EntryView>
    decreases effects.len(),
{
    if effects.len() == 0 {
        s
    } else {
        after_steps(after_step(s, batch, effects[0], at), batch, effects.drop_first(), at)
    }
}

/// How many steps ran, and how many of those were carried out.
pub open spec fn ran_count(effects: Seq<StepEffect>) -> nat
    decreases effects.len(),
{
    if effects.len() == 0 {
        0
    } else {
        ran_count(effects.drop_first()) + if effects[0] is Ran { 1nat } else { 0nat }
    }
}

/// How many steps were carried out.
pub open spec fn done_count(effects: Seq<StepEffect>) -> nat
    decreases effects.len(),
{
    if effects.len() == 0 {
        0
    } else {
        done_count(effects.drop_first()) + if effects[0] matches StepEffect::Ran { done, .. } && done { 1nat } else { 0nat }
    }
}

/// Marking the entry just journaled reaches that entry alone.
proof fn lemma_mark_newest(s: Seq<EntryView>, e: EntryView, st: State, detail: Option<Seq<char>>)
    requires
        ordered(s),
        e.id as int == next_id(s),
    ensures
        marked(s.push(e), e.id, st, detail) == s.push(EntryView { state: st, detail, ..e }),
        ordered(s.push(EntryView { state: st, detail, ..e })),
{
    let t = s.push(e);
    assert forall|k: int| 0 <= k < s.len() implies #[trigger] s[k].id < e.id by {
        assert(s[k].id <= s.last().id);
    }
    assert(marked(t, e.id, st, detail) =~= s.push(EntryView { state: st, detail, ..e }));
}

/// A step keeps the journal in order, adds the row it ran, and leaves what
/// was waiting and what was not run as it was.
proof fn lemma_step(s: Seq<EntryView>, batch: Seq<char>, effect: StepEffect, at: i64)
    requires
        ordered(s),
        next_id(s) <= i64::MAX,
    ensures
        ordered(after_step(s, batch, effect, at)),
        next_id(after_step(s, batch, effect, at)) == next_id(s) + if effect is Ran { 1int } else { 0int },
        after_step(s, batch, effect, at).len() == s.len() + if effect is Ran { 1int } else { 0int },
        oldest_first(after_step(s, batch, effect, at), awaiting()) == oldest_first(s, awaiting()),
        newest_first(after_step(s, batch, effect, at), applied_in(batch)).len() == newest_first(s, applied_in(batch)).len() + if effect matches StepEffect::Ran { done, .. } && done { 1int } else { 0int },
{
    match effect {
        StepEffect::Untouched => {},
        StepEffect::Ran { operation, done, detail } => {
            let e = planned_entry(s, batch, operation, at);
            let st = if done { State::Done } else { State::Failed };
            lemma_mark_newest(s, e, st, detail);
            let x = EntryView { state: st, detail, ..e };
            let t = s.push(x);
            assert(t.drop_last() =~= s);
            lemma_newest_first_push(s, x, applied_in(batch));
        },
    }
}

/// Journaling an entry last puts its record first among the newest.
proof fn lemma_newest_first_push(s: Seq<EntryView>, x: EntryView, keep: spec_fn(EntryView) -> bool)
    ensures
        newest_first(s.push(x), keep) == if keep(x) { seq![record_of(x)] + newest_first(s, keep) } else { newest_first(s, keep) },
    decreases s.len(),
{
    if s.len() == 0 {
        let t = s.push(x);
        assert(t.drop_first() =~= Seq::<EntryView>::empty());
        assert(newest_first(Seq::<EntryView>::empty(), keep) =~= Seq::<RecordView>::empty());
        if keep(x) {
            assert(Seq::<RecordView>::empty().push(record_of(x)) =~= seq![record_of(x)] + Seq::<RecordView>::empty());
        }
    } else {
        let t = s.push(x);
        assert(t.drop_first() =~= s.drop_first().push(x));
        assert(t[0] == s[0]);
        lemma_newest_first_push(s.drop_first(), x, keep);
        if keep(x) {
            let r = newest_first(s.drop_first(), keep);
            if keep(s[0]) {
                assert((seq![record_of(x)] + r).push(record_of(s[0])) =~= seq![record_of(x)] + r.push(record_of(s[0])));
            }
        }
    }
}

/// The rows a batch adds, in order, numbered from `start`: one per step that
/// ran, holding its operation, marked done or failed; none for the others.
pub open spec fn ran_rows(start: int, batch: Seq<char>, effects: Seq<StepEffect>, at: i64) -> Seq<EntryView>
    decreases effects.len(),
{
    if effects.len() == 0 {
        Seq::empty()
    } else {
        match effects[0] {
            StepEffect::Untouched => ran_rows(start, batch, effects.drop_first(), at),
            StepEffect::Ran { operation, done, detail } => seq![
                EntryView {
                    id: start as i64,
                    batch,
                    operation,
                    state: if done { State::Done } else { State::Failed },
                    detail,
                    recorded_at: at,
                },
            ] + ran_rows(start + 1, batch, effects.drop_first(), at),
        }
    }
}

/// The rows of a batch are as many as the steps that ran, none is left
/// planned, and each belongs to the batch.
proof fn lemma_ran_rows(start: int, batch: Seq<char>, effects: Seq<StepEffect>, at: i64)
    ensures
        ran_rows(start, batch, effects, at).len() == ran_count(effects),
        forall|k: int| 0 <= k < ran_rows(start, batch, effects, at).len() ==> {
            let row = #[trigger] ran_rows(start, batch, effects, at)[k];
            &&& row.state == State::Done || row.state == State::Failed
            &&& row.batch == batch
        },
    decreases effects.len(),
{
    if effects.len() > 0 {
        lemma_ran_rows(start, batch, effects.drop_first(), at);
        lemma_ran_rows(start + 1, batch, effects.drop_first(), at);
    }
}

/// Law over a whole batch: the journal after it is the journal before it
/// followed by one row per operation that ran, holding that operation and
/// marked done or failed, and no row for an operation that was skipped or
/// refused (a vanished source among them); no row of the batch stays planned,
/// so a crash-free run leaves nothing interrupted; and what the batch carried
/// out joins the list of operations to undo, one record per operation done.
pub proof fn lemma_batch_in_the_journal(s: Seq<EntryView>, batch: Seq<char>, effects: Seq<StepEffect>, at: i64)
    requires
        ordered(s),
        next_id(s) + effects.len() <= i64::MAX + 1,
    ensures
        after_steps(s, batch, effects, at) == s + ran_rows(next_id(s), batch, effects, at),
        ran_rows(next_id(s), batch, effects, at).len() == ran_count(effects),
        forall|k: int| 0 <= k < ran_rows(next_id(s), batch, effects, at).len() ==> {
            let row = #[trigger] ran_rows(next_id(s), batch, effects, at)[k];
            &&& row.state == State::Done || row.state == State::Failed
            &&& row.batch == batch
        },
        ordered(after_steps(s, batch, effects, at)),
        oldest_first(after_steps(s, batch, effects, at), awaiting()) == oldest_first(s, awaiting()),
        newest_first(after_steps(s, batch, effects, at), applied_in(batch)).len() == newest_first(s, applied_in(batch)).len() + done_count(effects),
    decreases effects.len(),
{
    lemma_ran_rows(next_id(s), batch, effects, at);
    if effects.len() == 0 {
        assert(s + Seq::<EntryView>::empty() =~= s);
    } else {
        lemma_step(s, batch, effects[0], at);
        let t = after_step(s, batch, effects[0], at);
        lemma_batch_in_the_journal(t, batch, effects.drop_first(), at);
        match effects[0] {
            StepEffect::Untouched => {},
            StepEffect::Ran { operation, done, detail } => {
                let e = planned_entry(s, batch, operation, at);
                let st = if done { State::Done } else { State::Failed };
                lemma_mark_newest(s, e, st, detail);
                let x = EntryView { state: st, detail, ..e };
                assert(t == s.push(x));
                assert(s.push(x) + ran_rows(next_id(s) + 1, batch, effects.drop_first(), at) =~= s + (seq![x] + ran_rows(next_id(s) + 1, batch, effects.drop_first(), at)));
            },
        }
    }
}

/// What a set of files looks like after `op`: a move takes the contents from
/// its source to its destination, a copy puts them at its destination as
/// well, and the trash takes the file away.
pub open spec fn after_operation(files: Map<Seq<char>, Seq<u8>>, op: OperationView) -> Map<Seq<char>, Seq<u8>> {
    match op {
        OperationView::Move { from, to } => files.remove(from).insert(to, files[from]),
        OperationView::Copy { from, to } => files.insert(to, files[from]),
        OperationView::Trash { from } => files.remove(from),
    }
}

/// `op` can run on `files` as the executor lets it: its source is there and
/// its destination, if it has one, is free.
pub open spec fn runs_cleanly(files: Map<Seq<char>, Seq<u8>>, op: OperationView) -> bool {
    &&& files.contains_key(source_of(op))
    &&& destination_of(op) matches Some(to) ==> !files.contains_key(to)
}

/// Each operation of `ops`, in order, can run on the files the earlier ones left.
pub open spec fn all_run_cleanly(files: Map<Seq<char>, Seq<u8>>, ops: Seq<OperationView>) -> bool
    decreases ops.len(),
{
    ops.len() == 0 || (runs_cleanly(files, ops[0]) && all_run_cleanly(after_operation(files, ops[0]), ops.drop_first()))
}

/// The files after `ops`, run in order.
pub open spec fn after_operations(files: Map<Seq<char>, Seq<u8>>, ops: Seq<OperationView>) -> Map<Seq<char>, Seq<u8>>
    decreases ops.len(),
{
    if ops.len() == 0 {
        files
    } else {
        after_operations(after_operation(files, ops[0]), ops.drop_first())
    }
}

/// The operations that take back `ops`, newest first, each as its reversal
/// carries it out again; a trashed file, which is restored rather than
/// carried out, is left as it is.
pub open spec fn taken_back(ops: Seq<OperationView>) -> Seq<OperationView> {
    Seq::new(
        ops.len(),
        |i: int| match reversal(ops[ops.len() - 1 - i]) {
            UndoView::Reapply(op) => op,
            UndoView::Restore(_) => ops[ops.len() - 1 - i],
        },
    )
}

/// Operations run one after another: first `a`, then `b`.
proof fn lemma_operations_in_turn(files: Map<Seq<char>, Seq<u8>>, a: Seq<OperationView>, b: Seq<OperationView>)
    ensures
        after_operations(files, a + b) == after_operations(after_operations(files, a), b),
        all_run_cleanly(files, a + b) == (all_run_cleanly(files, a) && all_run_cleanly(after_operations(files, a), b)),
    decreases a.len(),
{
    if a.len() == 0 {
        assert(a + b =~= b);
    } else {
        assert((a + b).drop_first() =~= a.drop_first() + b);
        assert((a + b)[0] == a[0]);
        lemma_operations_in_turn(after_operation(files, a[0]), a.drop_first(), b);
    }
}

/// Law: undoing a batch of moves puts every file back. Where the moves ran
/// cleanly one after another, their reversals, newest first, run cleanly too
/// and leave the files exactly as they were before the batch.
pub proof fn lemma_undoing_moves_restores_the_files(files: Map<Seq<char>, Seq<u8>>, ops: Seq<OperationView>)
    requires
        forall|i: int| 0 <= i < ops.len() ==> #[trigger] ops[i] is Move,
        all_run_cleanly(files, ops),
    ensures
        all_run_cleanly(after_operations(files, ops), taken_back(ops)),
        after_operations(after_operations(files, ops), taken_back(ops)) == files,
        forall|i: int| 0 <= i < ops.len() ==> reversal(ops[ops.len() - 1 - i]) == UndoView::Reapply(#[trigger] taken_back(ops)[i]),
    decreases ops.len(),
{
    if ops.len() > 0 {
        let o = ops[0];
        let rest = ops.drop_first();
        let d1 = after_operation(files, o);
        assert forall|i: int| 0 <= i < rest.len() implies #[trigger] rest[i] is Move by {
            assert(rest[i] == ops[i + 1]);
        }
        lemma_undoing_moves_restores_the_files(d1, rest);
        assert(o is Move);
        let back = taken_back(ops).last();
        assert(taken_back(ops) =~= taken_back(rest) + seq![back]);
        lemma_operations_in_turn(after_operations(d1, rest), taken_back(rest), seq![back]);
        match o {
            OperationView::Move { from, to } => {
                assert(back == OperationView::Move { from: to, to: from });
                assert(from != to);
                assert(after_operation(d1, back) =~= files);
                let one = seq![back];
                assert(one.drop_first() =~= Seq::<OperationView>::empty());
                assert(one[0] == back);
                assert(after_operations(after_operation(d1, back), one.drop_first()) == after_operation(d1, back));
                assert(after_operations(d1, one) == files);
                assert(all_run_cleanly(after_operation(d1, back), one.drop_first()));
                assert(runs_cleanly(d1, back));
                assert(all_run_cleanly(d1, one));
            },
            _ => {},
        }
        assert forall|i: int| 0 <= i < ops.len() implies reversal(ops[ops.len() - 1 - i]) == UndoView::Reapply(#[trigger] taken_back(ops)[i]) by {
            assert(ops[ops.len() - 1 - i] is Move);
        }
    }
}

/// The operations of a list of records, in order.
pub open spec fn record_operations(r: Seq<RecordView>) -> Seq<OperationView> {
    Seq::new(r.len(), |i: int| r[i].operation)
}

/// Reporting oldest first takes the first entry, if it is kept, ahead of the rest.
proof fn lemma_oldest_first_front(s: Seq<EntryView>, keep: spec_fn(EntryView) -> bool)
    requires
        s.len() > 0,
    ensures
        oldest_first(s, keep) == (if keep(s[0]) { seq![record_of(s[0])] } else { Seq::empty() }) + oldest_first(s.drop_first(), keep),
    decreases s.len(),
{
    let head = if keep(s[0]) { seq![record_of(s[0])] } else { Seq::<RecordView>::empty() };
    if s.len() == 1 {
        assert(s.drop_last() =~= Seq::<EntryView>::empty());
        assert(s.drop_first() =~= Seq::<EntryView>::empty());
        assert(oldest_first(Seq::<EntryView>::empty(), keep) =~= Seq::<RecordView>::empty());
        assert(s.last() == s[0]);
        assert(head + Seq::<RecordView>::empty() =~= head);
        if keep(s[0]) {
            assert(Seq::<RecordView>::empty().push(record_of(s[0])) =~= head);
        }
    } else {
        let d = s.drop_last();
        let t = s.drop_first();
        assert(d[0] == s[0]);
        assert(d.drop_first() =~= t.drop_last());
        assert(t.last() == s.last());
        lemma_oldest_first_front(d, keep);
        let inner = oldest_first(t.drop_last(), keep);
        if keep(s.last()) {
            assert((head + inner).push(record_of(s.last())) =~= head + inner.push(record_of(s.last())));
        }
    }
}

/// Newest first is oldest first read backwards.
pub proof fn lemma_newest_first_is_reversed(s: Seq<EntryView>, keep: spec_fn(EntryView) -> bool)
    ensures
        newest_first(s, keep).len() == oldest_first(s, keep).len(),
        forall|i: int| 0 <= i < newest_first(s, keep).len() ==> #[trigger] newest_first(s, keep)[i] == oldest_first(s, keep)[oldest_first(s, keep).len() - 1 - i],
    decreases s.len(),
{
    if s.len() > 0 {
        let t = s.drop_first();
        lemma_newest_first_is_reversed(t, keep);
        lemma_oldest_first_front(s, keep);
    }
}

/// Law: undoing a batch of moves puts every file back. The undo plan of the
/// batch lists its carried-out operations newest first; where they were all
/// moves and ran cleanly in journal order, the reversals of that plan are
/// exactly the moves back, newest first, and running them restores the files.
pub proof fn lemma_undoing_a_batch_restores_its_moves(s: Seq<EntryView>, batch: Seq<char>, files: Map<Seq<char>, Seq<u8>>)
    requires
        forall|i: int| 0 <= i < oldest_first(s, applied_in(batch)).len() ==> #[trigger] oldest_first(s, applied_in(batch))[i].operation is Move,
        all_run_cleanly(files, record_operations(oldest_first(s, applied_in(batch)))),
    ensures
        newest_first(s, applied_in(batch)).len() == oldest_first(s, applied_in(batch)).len(),
        forall|i: int| 0 <= i < newest_first(s, applied_in(batch)).len() ==> reversal(#[trigger] newest_first(s, applied_in(batch))[i].operation) == UndoView::Reapply(taken_back(record_operations(oldest_first(s, applied_in(batch))))[i]),
        all_run_cleanly(after_operations(files, record_operations(oldest_first(s, applied_in(batch)))), taken_back(record_operations(oldest_first(s, applied_in(batch))))),
        after_operations(after_operations(files, record_operations(oldest_first(s, applied_in(batch)))), taken_back(record_operations(oldest_first(s, applied_in(batch))))) == files,
{
    let keep = applied_in(batch);
    let ops = record_operations(oldest_first(s, keep));
    assert forall|i: int| 0 <= i < ops.len() implies #[trigger] ops[i] is Move by {
        assert(oldest_first(s, keep)[i].operation is Move);
    }
    lemma_undoing_moves_restores_the_files(files, ops);
    lemma_newest_first_is_reversed(s, keep);
    assert forall|i: int| 0 <= i < newest_first(s, keep).len() implies reversal(#[trigger] newest_first(s, keep)[i].operation) == UndoView::Reapply(taken_back(ops)[i]) by {
        assert(newest_first(s, keep)[i].operation == ops[ops.len() - 1 - i]);
    }
}

/// The identifiers of a list of records, in order.
pub open spec fn record_ids(r: Seq<RecordView>) -> Seq<i64> {
    Seq::new(r.len(), |i: int| r[i].id)
}

/// Law: an undone operation is never undone again. Once `settle_undo` has
/// marked undone each record of a batch's undo plan (each was applied or
/// skipped), the undo plan of that batch is empty, so undoing it a second
/// time moves nothing.
pub proof fn lemma_second_undo_finds_nothing(s: Seq<EntryView>, batch: Seq<char>)
    ensures
        newest_first(undone_all(s, record_ids(newest_first(s, applied_in(batch)))), applied_in(batch)).len() == 0,
{
    let plan = newest_first(s, applied_in(batch));
    let ids = record_ids(plan);
    assert forall|i: int| 0 <= i < plan.len() implies ids.contains(#[trigger] plan[i].id) by {
        assert(ids[i] == plan[i].id);
    }
    lemma_undoing_a_batch_leaves_nothing_to_undo(s, batch, ids);
}

} // verus!
