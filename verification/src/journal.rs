//! The journal: every operation is recorded as planned before it runs and
//! marked once it has run, so an interrupted run can be recognised and a
//! batch can be undone in reverse order.
use vstd::prelude::*;

use crate::text::{copy_string, 
    chars_of, eq_ignore_ascii_case, eq_ignore_ascii_case_exec, lemma_text_less_irreflexive,
    lemma_text_less_total, lemma_text_less_transitive, same_chars, slice_chars, string_of, text_less,
    text_less_exec,
};

verus! {

/// A change to the filesystem.
#[derive(Debug, Clone, PartialEq, Eq)]
pub enum Operation {
    Move { from: String, to: String },
    Copy { from: String, to: String },
    Trash { from: String },
}

/// An operation with its paths as character sequences.
pub enum OperationView {
    Move { from: Seq<char>, to: Seq<char> },
    Copy { from: Seq<char>, to: Seq<char> },
    Trash { from: Seq<char> },
}

impl View for Operation {
    type V = OperationView;

    open spec fn view(&self) -> OperationView {
        match self {
            Operation::Move { from, to } => OperationView::Move { from: from@, to: to@ },
            Operation::Copy { from, to } => OperationView::Copy { from: from@, to: to@ },
            Operation::Trash { from } => OperationView::Trash { from: from@ },
        }
    }
}

/// The word the journal stores for the kind of an operation.
pub open spec fn kind_text(op: OperationView) -> Seq<char> {
    match op {
        OperationView::Move { .. } => "move"@,
        OperationView::Copy { .. } => "copy"@,
        OperationView::Trash { .. } => "trash"@,
    }
}

/// The path an operation starts from.
pub open spec fn source_of(op: OperationView) -> Seq<char> {
    match op {
        OperationView::Move { from, .. } => from,
        OperationView::Copy { from, .. } => from,
        OperationView::Trash { from } => from,
    }
}

/// The path an operation leads to, if any.
pub open spec fn destination_of(op: OperationView) -> Option<Seq<char>> {
    match op {
        OperationView::Move { to, .. } => Some(to),
        OperationView::Copy { to, .. } => Some(to),
        OperationView::Trash { .. } => None,
    }
}

impl Operation {
    /// The word the journal stores for the kind of operation.
    pub fn kind(&self) -> (r: &'static str)
        ensures
            r@ == kind_text(self@),
    {
        match self {
            Operation::Move { .. } => "move",
            Operation::Copy { .. } => "copy",
            Operation::Trash { .. } => "trash",
        }
    }

    /// The path the operation starts from.
    pub fn source(&self) -> (r: &String)
        ensures
            r@ == source_of(self@),
    {
        match self {
            Operation::Move { from, .. } => from,
            Operation::Copy { from, .. } => from,
            Operation::Trash { from } => from,
        }
    }

    /// The path the operation leads to, if any.
    pub fn destination(&self) -> (r: Option<&String>)
        ensures
            match r {
                Some(t) => destination_of(self@) == Some(t@),
                None => destination_of(self@).is_none(),
            },
    {
        match self {
            Operation::Move { to, .. } => Some(to),
            Operation::Copy { to, .. } => Some(to),
            Operation::Trash { .. } => None,
        }
    }
}

/// The state of a recorded operation.
#[derive(Debug, Clone, Copy, PartialEq, Eq, Structural)]
pub enum State {
    Planned,
    Done,
    Failed,
    Undone,
}

/// The word the journal stores for a state.
pub open spec fn state_text(s: State) -> Seq<char> {
    match s {
        State::Planned => "planned"@,
        State::Done => "done"@,
        State::Failed => "failed"@,
        State::Undone => "undone"@,
    }
}

impl State {
    /// The word the journal stores for this state.
    pub fn as_text(self) -> (r: &'static str)
        ensures
            r@ == state_text(self),
    {
        match self {
            State::Planned => "planned",
            State::Done => "done",
            State::Failed => "failed",
            State::Undone => "undone",
        }
    }
}

/// The state a stored word names, if any.
pub fn parse_state(text: &str) -> (r: Option<State>)
    ensures
        match r {
            Some(st) => state_text(st) == text@,
            None => forall|st: State| state_text(st) != text@,
        },
{
    let t = chars_of(text);
    let planned = chars_of("planned");
    let done = chars_of("done");
    let failed = chars_of("failed");
    let undone = chars_of("undone");
    if same_chars(&t, &planned) {
        Some(State::Planned)
    } else if same_chars(&t, &done) {
        Some(State::Done)
    } else if same_chars(&t, &failed) {
        Some(State::Failed)
    } else if same_chars(&t, &undone) {
        Some(State::Undone)
    } else {
        proof {
            assert forall|st: State| state_text(st) != text@ by {
                match st {
                    State::Planned => {},
                    State::Done => {},
                    State::Failed => {},
                    State::Undone => {},
                }
            }
        }
        None
    }
}

/// Why the journal could not be read or written.
#[derive(Debug, Clone, PartialEq, Eq)]
pub enum JournalError {
    /// The store behind the journal failed; the message says how.
    Database(String),
    /// A path is not valid UTF-8 and cannot be journaled.
    UnrepresentablePath,
    /// The journal holds an operation kind this version does not know.
    UnknownKind,
    /// A move or copy was journaled without a destination.
    MissingDestination,
    /// Stored entries are not in the order of their identifiers.
    OutOfOrder,
}

/// The text that describes an error.
pub open spec fn journal_error_text(e: JournalError) -> Seq<char> {
    match e {
        JournalError::Database(_) => "the journal could not be read or written"@,
        JournalError::UnrepresentablePath => "the path is not valid UTF-8 and cannot be journaled"@,
        JournalError::UnknownKind => "the journal holds an unknown operation kind"@,
        JournalError::MissingDestination => "a move operation was journaled without a destination"@,
        JournalError::OutOfOrder => "the journal holds entries out of order"@,
    }
}

impl JournalError {
    /// The message that describes the error.
    pub fn message(&self) -> (r: String)
        ensures
            r@ == journal_error_text(*self),
    {
        match self {
            JournalError::Database(_) => String::from_str("the journal could not be read or written"),
            JournalError::UnrepresentablePath => String::from_str("the path is not valid UTF-8 and cannot be journaled"),
            JournalError::UnknownKind => String::from_str("the journal holds an unknown operation kind"),
            JournalError::MissingDestination => String::from_str("a move operation was journaled without a destination"),
            JournalError::OutOfOrder => String::from_str("the journal holds entries out of order"),
        }
    }
}

/// What the journal stores for a stored kind and paths.
pub open spec fn rebuilt(kind: Seq<char>, source: Seq<char>, destination: Option<Seq<char>>) -> Result<OperationView, JournalError> {
    if kind == "move"@ {
        match destination {
            Some(to) => Ok(OperationView::Move { from: source, to }),
            None => Err(JournalError::MissingDestination),
        }
    } else if kind == "copy"@ {
        match destination {
            Some(to) => Ok(OperationView::Copy { from: source, to }),
            None => Err(JournalError::MissingDestination),
        }
    } else if kind == "trash"@ {
        Ok(OperationView::Trash { from: source })
    } else {
        Err(JournalError::UnknownKind)
    }
}

/// Rebuilds an operation from what the journal stored for it.
pub fn rebuild(kind: &str, source: String, destination: Option<String>) -> (r: Result<Operation, JournalError>)
    ensures
        match r {
            Ok(op) => rebuilt(kind@, source@, match destination { Some(d) => Some(d@), None => None }) == Ok::<OperationView, JournalError>(op@),
            Err(e) => rebuilt(kind@, source@, match destination { Some(d) => Some(d@), None => None }) == Err::<OperationView, JournalError>(e),
        },
{
    let k = chars_of(kind);
    let word_move = chars_of("move");
    let word_copy = chars_of("copy");
    let word_trash = chars_of("trash");
    if same_chars(&k, &word_move) {
        match destination {
            Some(to) => Ok(Operation::Move { from: source, to }),
            None => Err(JournalError::MissingDestination),
        }
    } else if same_chars(&k, &word_copy) {
        match destination {
            Some(to) => Ok(Operation::Copy { from: source, to }),
            None => Err(JournalError::MissingDestination),
        }
    } else if same_chars(&k, &word_trash) {
        Ok(Operation::Trash { from: source })
    } else {
        Err(JournalError::UnknownKind)
    }
}

/// One line of the journal.
#[derive(Debug, Clone, PartialEq, Eq)]
pub struct Entry {
    pub id: i64,
    pub batch: String,
    pub operation: Operation,
    pub state: State,
    pub detail: Option<String>,
    /// When the operation was planned, in seconds since the Unix epoch.
    pub recorded_at: i64,
}

/// An entry with its texts as character sequences.
pub struct EntryView {
    pub id: i64,
    pub batch: Seq<char>,
    pub operation: OperationView,
    pub state: State,
    pub detail: Option<Seq<char>>,
    pub recorded_at: i64,
}

impl View for Entry {
    type V = EntryView;

    open spec fn view(&self) -> EntryView {
        EntryView {
            id: self.id,
            batch: self.batch@,
            operation: self.operation@,
            state: self.state,
            detail: match self.detail {
                Some(d) => Some(d@),
                None => None,
            },
            recorded_at: self.recorded_at,
        }
    }
}

/// An operation as the journal reports it.
#[derive(Debug, Clone, PartialEq, Eq)]
pub struct RecordedOperation {
    pub id: i64,
    pub batch: String,
    pub operation: Operation,
    pub state: State,
}

/// A recorded operation with its texts as character sequences.
pub struct RecordView {
    pub id: i64,
    pub batch: Seq<char>,
    pub operation: OperationView,
    pub state: State,
}

impl View for RecordedOperation {
    type V = RecordView;

    open spec fn view(&self) -> RecordView {
        RecordView { id: self.id, batch: self.batch@, operation: self.operation@, state: self.state }
    }
}

/// How an entry is reported.
pub open spec fn record_of(e: EntryView) -> RecordView {
    RecordView { id: e.id, batch: e.batch, operation: e.operation, state: e.state }
}

/// The views of a list of recorded operations.
pub open spec fn record_views(r: Seq<RecordedOperation>) -> Seq<RecordView> {
    Seq::new(r.len(), |i: int| r[i]@)
}

/// The entries satisfying `keep`, reported oldest first.
pub open spec fn oldest_first(s: Seq<EntryView>, keep: spec_fn(EntryView) -> bool) -> Seq<RecordView>
    decreases s.len(),
{
    if s.len() == 0 {
        Seq::empty()
    } else {
        let r = oldest_first(s.drop_last(), keep);
        if keep(s.last()) {
            r.push(record_of(s.last()))
        } else {
            r
        }
    }
}

/// The entries satisfying `keep`, reported newest first.
pub open spec fn newest_first(s: Seq<EntryView>, keep: spec_fn(EntryView) -> bool) -> Seq<RecordView>
    decreases s.len(),
{
    if s.len() == 0 {
        Seq::empty()
    } else {
        let r = newest_first(s.drop_first(), keep);
        if keep(s[0]) {
            r.push(record_of(s[0]))
        } else {
            r
        }
    }
}

/// Entries waiting to be carried out.
pub open spec fn is_planned(e: EntryView) -> bool {
    e.state == State::Planned
}

/// The filter of entries waiting to be carried out.
pub open spec fn awaiting() -> spec_fn(EntryView) -> bool {
    |e: EntryView| is_planned(e)
}

/// Entries of `batch` that were carried out.
pub open spec fn applied_in(batch: Seq<char>) -> spec_fn(EntryView) -> bool {
    |e: EntryView| e.batch == batch && e.state == State::Done
}

/// Entries of `batch`.
pub open spec fn belongs_to(batch: Seq<char>) -> spec_fn(EntryView) -> bool {
    |e: EntryView| e.batch == batch
}

/// Identifiers strictly increase along the journal and are positive.
pub open spec fn ordered(s: Seq<EntryView>) -> bool {
    &&& forall|i: int, j: int| 0 <= i < j < s.len() ==> s[i].id < s[j].id
    &&& forall|i: int| 0 <= i < s.len() ==> s[i].id >= 1
}

/// The entry views of a list of entries.
pub open spec fn entry_views(v: Seq<Entry>) -> Seq<EntryView> {
    Seq::new(v.len(), |i: int| v[i]@)
}

/// The record of every operation the organizer has planned, in the order they were planned.
pub struct Journal {
    entries: Vec<Entry>,
}

/// `s` with the entry `id` set to `state` and `detail`.
pub open spec fn marked(s: Seq<EntryView>, id: i64, state: State, detail: Option<Seq<char>>) -> Seq<EntryView> {
    Seq::new(
        s.len(),
        |i: int| if s[i].id == id { EntryView { state, detail, ..s[i] } } else { s[i] },
    )
}

/// `s` with every planned entry set to failed with `detail`.
pub open spec fn settled(s: Seq<EntryView>, detail: Seq<char>) -> Seq<EntryView> {
    Seq::new(
        s.len(),
        |i: int| if s[i].state == State::Planned { EntryView { state: State::Failed, detail: Some(detail), ..s[i] } } else { s[i] },
    )
}

/// How many entries are planned.
pub open spec fn planned_count(s: Seq<EntryView>) -> nat
    decreases s.len(),
{
    if s.len() == 0 {
        0
    } else {
        planned_count(s.drop_last()) + if is_planned(s.last()) { 1nat } else { 0nat }
    }
}

/// The identifier the next entry gets.
pub open spec fn next_id(s: Seq<EntryView>) -> int {
    if s.len() == 0 {
        1
    } else {
        s.last().id + 1
    }
}


fn copy_operation(op: &Operation) -> (r: Operation)
    ensures
        r@ == op@,
{
    match op {
        Operation::Move { from, to } => Operation::Move { from: copy_string(from), to: copy_string(to) },
        Operation::Copy { from, to } => Operation::Copy { from: copy_string(from), to: copy_string(to) },
        Operation::Trash { from } => Operation::Trash { from: copy_string(from) },
    }
}

fn record_exec(e: &Entry) -> (r: RecordedOperation)
    ensures
        r@ == record_of(e@),
{
    RecordedOperation { id: e.id, batch: copy_string(&e.batch), operation: copy_operation(&e.operation), state: e.state }
}

impl Journal {
    /// The entries, oldest first.
    pub closed spec fn entries(&self) -> Seq<EntryView> {
        entry_views(self.entries@)
    }

    /// The journal keeps its identifiers in increasing order.
    pub closed spec fn wf(&self) -> bool {
        ordered(entry_views(self.entries@))
    }

    /// An empty journal.
    pub fn new() -> (r: Journal)
        ensures
            r.wf(),
            r.entries().len() == 0,
    {
        let j = Journal { entries: Vec::new() };
        assert(j.entries() =~= Seq::<EntryView>::empty());
        j
    }

    /// A journal holding stored entries, which must come in increasing order of
    /// positive identifiers.
    pub fn from_entries(entries: Vec<Entry>) -> (r: Result<Journal, JournalError>)
        ensures
            match r {
                Ok(j) => j.wf() && j.entries() == entry_views(entries@),
                Err(e) => e == JournalError::OutOfOrder && !ordered(entry_views(entries@)),
            },
    {
        let mut i: usize = 0;
        while i < entries.len()
            invariant
                i <= entries.len(),
                forall|a: int, b: int| 0 <= a < b < i ==> entries@[a].id < entries@[b].id,
                forall|a: int| 0 <= a < i ==> entries@[a].id >= 1,
            decreases entries.len() - i,
        {
            if entries[i].id < 1 || (i > 0 && entries[i - 1].id >= entries[i].id) {
                proof {
                    let v = entry_views(entries@);
                    if entries[i as int].id < 1 {
                        assert(v[i as int].id < 1);
                    } else {
                        assert(v[i - 1].id >= v[i as int].id);
                    }
                }
                return Err(JournalError::OutOfOrder);
            }
            i = i + 1;
        }
        let j = Journal { entries };
        Ok(j)
    }

    /// Whether another entry can be given an identifier.
    pub fn can_record(&self) -> (r: bool)
        requires
            self.wf(),
        ensures
            r == (next_id(self.entries()) <= i64::MAX),
    {
        if self.entries.len() == 0 {
            true
        } else {
            self.entries[self.entries.len() - 1].id < i64::MAX
        }
    }

    /// Records an operation as planned, before it runs, and returns its identifier.
    pub fn record_planned(&mut self, batch: &str, operation: &Operation, recorded_at: i64) -> (id: i64)
        requires
            old(self).wf(),
            next_id(old(self).entries()) <= i64::MAX,
        ensures
            final(self).wf(),
            id == next_id(old(self).entries()),
            final(self).entries() == old(self).entries().push(EntryView {
                id,
                batch: batch@,
                operation: operation@,
                state: State::Planned,
                detail: None,
                recorded_at,
            }),
    {
        let id: i64 = if self.entries.len() == 0 {
            1
        } else {
            self.entries[self.entries.len() - 1].id + 1
        };
        let b = chars_of(batch);
        let entry = Entry {
            id,
            batch: string_of(&b),
            operation: copy_operation(operation),
            state: State::Planned,
            detail: None,
            recorded_at,
        };
        let ghost before = entry_views(self.entries@);
        self.entries.push(entry);
        assert(entry_views(self.entries@) =~= before.push(entry@));
        id
    }

    /// Sets the state and detail of the entry `id` (nothing changes when there is none).
    pub fn mark(&mut self, id: i64, state: State, detail: Option<&str>)
        requires
            old(self).wf(),
        ensures
            final(self).wf(),
            final(self).entries() == marked(old(self).entries(), id, state, match detail { Some(d) => Some(d@), None => None }),
    {
        let ghost want = match detail { Some(d) => Some(d@), None => None };
        let ghost start = entry_views(self.entries@);
        let mut i: usize = 0;
        while i < self.entries.len()
            invariant
                i <= self.entries.len(),
                self.entries.len() == start.len(),
                ordered(start),
                want == match detail { Some(d) => Some(d@), None => None::<Seq<char>> },
                forall|k: int| 0 <= k < i ==> entry_views(self.entries@)[k] == marked(start, id, state, want)[k],
                forall|k: int| i <= k < start.len() ==> entry_views(self.entries@)[k] == start[k],
            decreases self.entries.len() - i,
        {
            if self.entries[i].id == id {
                let note: Option<String> = match detail {
                    Some(d) => {
                        let c = chars_of(d);
                        Some(string_of(&c))
                    },
                    None => None,
                };
                let updated = Entry {
                    id: self.entries[i].id,
                    batch: copy_string(&self.entries[i].batch),
                    operation: copy_operation(&self.entries[i].operation),
                    state,
                    detail: note,
                    recorded_at: self.entries[i].recorded_at,
                };
                let ghost before = self.entries@;
                self.entries.set(i, updated);
                assert forall|k: int| 0 <= k < self.entries.len() && k != i implies self.entries@[k] == before[k] by {}
            }
            i = i + 1;
        }
        assert(entry_views(self.entries@) =~= marked(start, id, state, want));
    }

    /// Entries still marked as planned, oldest first: operations whose run stopped before they were marked.
    pub fn interrupted(&self) -> (r: Vec<RecordedOperation>)
        requires
            self.wf(),
        ensures
            record_views(r@) == oldest_first(self.entries(), awaiting()),
    {
        let ghost keep = awaiting();
        let mut out: Vec<RecordedOperation> = Vec::new();
        let mut i: usize = 0;
        while i < self.entries.len()
            invariant
                i <= self.entries.len(),
                keep == awaiting(),
                record_views(out@) == oldest_first(entry_views(self.entries@).subrange(0, i as int), keep),
            decreases self.entries.len() - i,
        {
            let ghost prefix = entry_views(self.entries@).subrange(0, i + 1);
            assert(prefix.drop_last() =~= entry_views(self.entries@).subrange(0, i as int));
            assert(prefix.last() == self.entries@[i as int]@);
            if self.entries[i].state == State::Planned {
                let ghost before = record_views(out@);
                let rec = record_exec(&self.entries[i]);
                out.push(rec);
                assert(record_views(out@) =~= before.push(record_of(self.entries@[i as int]@)));
            }
            i = i + 1;
        }
        assert(entry_views(self.entries@).subrange(0, i as int) =~= entry_views(self.entries@));
        out
    }

    /// Marks every planned entry as failed with `detail`; returns how many there were.
    pub fn settle_interrupted(&mut self, detail: &str) -> (count: usize)
        requires
            old(self).wf(),
        ensures
            final(self).wf(),
            final(self).entries() == settled(old(self).entries(), detail@),
            count == planned_count(old(self).entries()),
    {
        let ghost start = entry_views(self.entries@);
        let mut count: usize = 0;
        let mut i: usize = 0;
        while i < self.entries.len()
            invariant
                i <= self.entries.len(),
                self.entries.len() == start.len(),
                ordered(start),
                count == planned_count(start.subrange(0, i as int)),
                count <= i,
                forall|k: int| 0 <= k < i ==> entry_views(self.entries@)[k] == settled(start, detail@)[k],
                forall|k: int| i <= k < start.len() ==> entry_views(self.entries@)[k] == start[k],
            decreases self.entries.len() - i,
        {
            let ghost prefix = start.subrange(0, i + 1);
            assert(prefix.drop_last() =~= start.subrange(0, i as int));
            if self.entries[i].state == State::Planned {
                let c = chars_of(detail);
                let updated = Entry {
                    id: self.entries[i].id,
                    batch: copy_string(&self.entries[i].batch),
                    operation: copy_operation(&self.entries[i].operation),
                    state: State::Failed,
                    detail: Some(string_of(&c)),
                    recorded_at: self.entries[i].recorded_at,
                };
                let ghost before = self.entries@;
                self.entries.set(i, updated);
                assert forall|k: int| 0 <= k < self.entries.len() && k != i implies self.entries@[k] == before[k] by {}
                count = count + 1;
            }
            i = i + 1;
        }
        assert(start.subrange(0, i as int) =~= start);
        assert(entry_views(self.entries@) =~= settled(start, detail@));
        count
    }

    /// The operations of `batch` that were carried out, newest first: the order in which to undo them.
    pub fn applied_in_batch(&self, batch: &str) -> (r: Vec<RecordedOperation>)
        requires
            self.wf(),
        ensures
            record_views(r@) == newest_first(self.entries(), applied_in(batch@)),
    {
        let b = chars_of(batch);
        let ghost keep = applied_in(batch@);
        let mut out: Vec<RecordedOperation> = Vec::new();
        let mut i: usize = self.entries.len();
        assert(entry_views(self.entries@).subrange(i as int, i as int) =~= Seq::<EntryView>::empty());
        while i > 0
            invariant
                i <= self.entries.len(),
                b@ == batch@,
                keep == applied_in(batch@),
                record_views(out@) == newest_first(entry_views(self.entries@).subrange(i as int, self.entries.len() as int), keep),
            decreases i,
        {
            let ghost suffix = entry_views(self.entries@).subrange(i - 1, self.entries.len() as int);
            assert(suffix.drop_first() =~= entry_views(self.entries@).subrange(i as int, self.entries.len() as int));
            assert(suffix[0] == self.entries@[i - 1]@);
            let e = &self.entries[i - 1];
            let name = chars_of(e.batch.as_str());
            if e.state == State::Done && same_chars(&name, &b) {
                let ghost before = record_views(out@);
                let rec = record_exec(e);
                out.push(rec);
                assert(record_views(out@) =~= before.push(record_of(self.entries@[i - 1]@)));
            }
            i = i - 1;
        }
        assert(entry_views(self.entries@).subrange(0, self.entries.len() as int) =~= entry_views(self.entries@));
        out
    }

    /// Every operation of `batch`, oldest first.
    pub fn operations_in_batch(&self, batch: &str) -> (r: Vec<RecordedOperation>)
        requires
            self.wf(),
        ensures
            record_views(r@) == oldest_first(self.entries(), belongs_to(batch@)),
    {
        let b = chars_of(batch);
        let ghost keep = belongs_to(batch@);
        let mut out: Vec<RecordedOperation> = Vec::new();
        let mut i: usize = 0;
        while i < self.entries.len()
            invariant
                i <= self.entries.len(),
                b@ == batch@,
                keep == belongs_to(batch@),
                record_views(out@) == oldest_first(entry_views(self.entries@).subrange(0, i as int), keep),
            decreases self.entries.len() - i,
        {
            let ghost prefix = entry_views(self.entries@).subrange(0, i + 1);
            assert(prefix.drop_last() =~= entry_views(self.entries@).subrange(0, i as int));
            assert(prefix.last() == self.entries@[i as int]@);
            let name = chars_of(self.entries[i].batch.as_str());
            if same_chars(&name, &b) {
                let ghost before = record_views(out@);
                let rec = record_exec(&self.entries[i]);
                out.push(rec);
                assert(record_views(out@) =~= before.push(record_of(self.entries@[i as int]@)));
            }
            i = i + 1;
        }
        assert(entry_views(self.entries@).subrange(0, i as int) =~= entry_views(self.entries@));
        out
    }

    /// The entry `id`, if the journal holds it.
    pub fn find(&self, id: i64) -> (r: Option<RecordedOperation>)
        requires
            self.wf(),
        ensures
            match r {
                Some(rec) => exists|k: int| 0 <= k < self.entries().len() && self.entries()[k].id == id && rec@ == record_of(#[trigger] self.entries()[k]),
                None => forall|k: int| 0 <= k < self.entries().len() ==> (#[trigger] self.entries()[k]).id != id,
            },
    {
        let mut i: usize = 0;
        while i < self.entries.len()
            invariant
                i <= self.entries.len(),
                forall|k: int| 0 <= k < i ==> (#[trigger] entry_views(self.entries@)[k]).id != id,
            decreases self.entries.len() - i,
        {
            if self.entries[i].id == id {
                let rec = record_exec(&self.entries[i]);
                assert(self.entries()[i as int] == self.entries@[i as int]@);
                return Some(rec);
            }
            i = i + 1;
        }
        None
    }

    /// The entry `id` when it can be taken back: it was carried out and not
    /// yet undone.
    pub fn undoable(&self, id: i64) -> (r: Option<RecordedOperation>)
        requires
            self.wf(),
        ensures
            match r {
                Some(rec) => rec@.state == State::Done && exists|k: int| 0 <= k < self.entries().len() && self.entries()[k].id == id && rec@ == record_of(#[trigger] self.entries()[k]),
                None => forall|k: int| 0 <= k < self.entries().len() && (#[trigger] self.entries()[k]).id == id ==> self.entries()[k].state != State::Done,
            },
    {
        match self.find(id) {
            Some(rec) => {
                if rec.state == State::Done {
                    Some(rec)
                } else {
                    proof {
                        let s = self.entries();
                        let k0 = choose|k: int| 0 <= k < s.len() && s[k].id == id && rec@ == record_of(#[trigger] s[k]);
                        assert forall|k: int| 0 <= k < s.len() && (#[trigger] s[k]).id == id implies s[k].state != State::Done by {
                            if k < k0 {
                                assert(s[k].id < s[k0].id);
                            } else if k > k0 {
                                assert(s[k0].id < s[k].id);
                            }
                        }
                    }
                    None
                }
            },
            None => None,
        }
    }

    /// Every entry, oldest first (what a store keeps).
    pub fn snapshot(&self) -> (r: Vec<Entry>)
        ensures
            entry_views(r@) == self.entries(),
    {
        let mut out: Vec<Entry> = Vec::new();
        let mut i: usize = 0;
        while i < self.entries.len()
            invariant
                i <= self.entries.len(),
                entry_views(out@) == entry_views(self.entries@).subrange(0, i as int),
            decreases self.entries.len() - i,
        {
            let e = &self.entries[i];
            let copy = Entry {
                id: e.id,
                batch: copy_string(&e.batch),
                operation: copy_operation(&e.operation),
                state: e.state,
                detail: match &e.detail {
                    Some(d) => Some(copy_string(d)),
                    None => None,
                },
                recorded_at: e.recorded_at,
            };
            let ghost before = entry_views(out@);
            out.push(copy);
            assert(entry_views(out@) =~= before.push(entry_views(self.entries@)[i as int]));
            i = i + 1;
        }
        assert(entry_views(self.entries@).subrange(0, i as int) =~= entry_views(self.entries@));
        out
    }
}

/// How the journal sums up one batch.
#[derive(Debug, Clone, PartialEq, Eq)]
pub struct BatchSummary {
    pub batch: String,
    pub done: usize,
    pub undone: usize,
    pub failed: usize,
    /// The latest time, in seconds since the Unix epoch, at which an operation of the batch was planned.
    pub recorded_at: i64,
}

/// A batch summary with its name as a character sequence.
pub struct SummaryView {
    pub batch: Seq<char>,
    pub done: nat,
    pub undone: nat,
    pub failed: nat,
    pub recorded_at: i64,
}

impl View for BatchSummary {
    type V = SummaryView;

    open spec fn view(&self) -> SummaryView {
        SummaryView {
            batch: self.batch@,
            done: self.done as nat,
            undone: self.undone as nat,
            failed: self.failed as nat,
            recorded_at: self.recorded_at,
        }
    }
}

/// The names under which undo runs are journaled: those ending in `:undo`,
/// ASCII letters compared without regard to case.
pub open spec fn undo_name(b: Seq<char>) -> bool {
    b.len() >= 5 && eq_ignore_ascii_case(b.subrange(b.len() - 5, b.len() as int), ":undo"@)
}

/// How many entries of batch `b` are in state `st`.
pub open spec fn state_count(s: Seq<EntryView>, b: Seq<char>, st: State) -> nat
    decreases s.len(),
{
    if s.len() == 0 {
        0
    } else {
        state_count(s.drop_last(), b, st) + if s.last().batch == b && s.last().state == st { 1nat } else { 0nat }
    }
}

/// The latest planning time among the entries of batch `b` (`i64::MIN` when there are none).
pub open spec fn latest(s: Seq<EntryView>, b: Seq<char>) -> i64
    decreases s.len(),
{
    if s.len() == 0 {
        i64::MIN
    } else {
        let r = latest(s.drop_last(), b);
        if s.last().batch == b && s.last().recorded_at > r {
            s.last().recorded_at
        } else {
            r
        }
    }
}

/// The summary of batch `b`.
pub open spec fn summary_of(s: Seq<EntryView>, b: Seq<char>) -> SummaryView {
    SummaryView {
        batch: b,
        done: state_count(s, b, State::Done),
        undone: state_count(s, b, State::Undone),
        failed: state_count(s, b, State::Failed),
        recorded_at: latest(s, b),
    }
}

/// The batches the activity list shows: every batch with an entry, except undo runs.
pub open spec fn listed(s: Seq<EntryView>, b: Seq<char>) -> bool {
    !undo_name(b) && exists|k: int| 0 <= k < s.len() && (#[trigger] s[k]).batch == b
}

/// `x` is listed before `y`: planned later, or at the same second under a name
/// that sorts later.
pub open spec fn ranks_before(x: SummaryView, y: SummaryView) -> bool {
    x.recorded_at > y.recorded_at || (x.recorded_at == y.recorded_at && text_less(y.batch, x.batch))
}

/// Listing order is transitive.
pub proof fn lemma_rank_transitive(x: SummaryView, y: SummaryView, z: SummaryView)
    requires
        ranks_before(x, y),
        ranks_before(y, z),
    ensures
        ranks_before(x, z),
{
    if x.recorded_at == y.recorded_at && y.recorded_at == z.recorded_at {
        lemma_text_less_transitive(z.batch, y.batch, x.batch);
    }
}

/// Of two summaries of different batches, exactly one is listed first.
pub proof fn lemma_rank_total(x: SummaryView, y: SummaryView)
    ensures
        x.batch != y.batch ==> (ranks_before(x, y) || ranks_before(y, x)),
        !(ranks_before(x, y) && ranks_before(y, x)),
        !ranks_before(x, x),
{
    lemma_text_less_total(x.batch, y.batch);
    lemma_text_less_irreflexive(x.batch);
}

/// A batch with no entries has no counts and no planning time.
proof fn lemma_absent_batch(s: Seq<EntryView>, b: Seq<char>)
    requires
        forall|k: int| 0 <= k < s.len() ==> (#[trigger] s[k]).batch != b,
    ensures
        state_count(s, b, State::Done) == 0,
        state_count(s, b, State::Undone) == 0,
        state_count(s, b, State::Failed) == 0,
        latest(s, b) == i64::MIN,
    decreases s.len(),
{
    if s.len() > 0 {
        assert forall|k: int| 0 <= k < s.drop_last().len() implies (#[trigger] s.drop_last()[k]).batch != b by {
            assert(s.drop_last()[k] == s[k]);
        }
        assert(s.last() == s[s.len() - 1]);
        lemma_absent_batch(s.drop_last(), b);
    }
}

/// A batch listed in a prefix stays listed when the journal grows.
proof fn lemma_listed_grows(q: Seq<EntryView>)
    requires
        q.len() > 0,
    ensures
        forall|b: Seq<char>| listed(q.drop_last(), b) ==> listed(q, b),
{
    assert forall|b: Seq<char>| listed(q.drop_last(), b) implies listed(q, b) by {
        let p = q.drop_last();
        let k = choose|k: int| 0 <= k < p.len() && (#[trigger] p[k]).batch == b;
        assert(q[k] == p[k]);
    }
}

/// Whether `name` is the name of an undo run.
fn is_undo_name(name: &Vec<char>) -> (r: bool)
    ensures
        r == undo_name(name@),
{
    if name.len() < 5 {
        return false;
    }
    let tail = slice_chars(name, name.len() - 5, name.len());
    let marker = chars_of(":undo");
    eq_ignore_ascii_case_exec(&tail, &marker)
}

/// Whether `x` is listed before `y`.
fn ranks_before_exec(x: &BatchSummary, y: &BatchSummary) -> (r: bool)
    ensures
        r == ranks_before(x@, y@),
{
    if x.recorded_at != y.recorded_at {
        return x.recorded_at > y.recorded_at;
    }
    let a = chars_of(y.batch.as_str());
    let b = chars_of(x.batch.as_str());
    text_less_exec(&a, &b)
}

/// Where the summary of `name` stands in `all`, if anywhere.
fn position_of(all: &Vec<BatchSummary>, name: &Vec<char>) -> (r: Option<usize>)
    ensures
        match r {
            Some(x) => x < all.len() && all@[x as int]@.batch == name@,
            None => forall|y: int| 0 <= y < all.len() ==> (#[trigger] all@[y])@.batch != name@,
        },
{
    let mut x: usize = 0;
    while x < all.len()
        invariant
            x <= all.len(),
            forall|y: int| 0 <= y < x ==> (#[trigger] all@[y])@.batch != name@,
        decreases all.len() - x,
    {
        let other = chars_of(all[x].batch.as_str());
        if same_chars(&other, name) {
            return Some(x);
        }
        x = x + 1;
    }
    None
}

/// Where `item` goes in a list kept in listing order.
fn insertion_point(sorted: &Vec<BatchSummary>, item: &BatchSummary) -> (p: usize)
    ensures
        p <= sorted.len(),
        forall|q: int| 0 <= q < p ==> !ranks_before(item@, (#[trigger] sorted@[q])@),
        p < sorted.len() ==> ranks_before(item@, sorted@[p as int]@),
{
    let mut p: usize = 0;
    while p < sorted.len()
        invariant
            p <= sorted.len(),
            forall|q: int| 0 <= q < p ==> !ranks_before(item@, (#[trigger] sorted@[q])@),
        decreases sorted.len() - p,
    {
        if ranks_before_exec(item, &sorted[p]) {
            return p;
        }
        p = p + 1;
    }
    p
}

/// A list in strict listing order.
pub open spec fn in_rank_order(v: Seq<BatchSummary>) -> bool {
    forall|a: int, b: int| #![trigger v[a], v[b]] 0 <= a < b < v.len() ==> ranks_before(v[a]@, v[b]@)
}

fn copy_summary(x: &BatchSummary) -> (r: BatchSummary)
    ensures
        r@ == x@,
{
    BatchSummary { batch: copy_string(&x.batch), done: x.done, undone: x.undone, failed: x.failed, recorded_at: x.recorded_at }
}

/// Some summary among the first `n` of `v` reads `x`.
pub open spec fn among(v: Seq<BatchSummary>, n: int, x: SummaryView) -> bool {
    exists|i: int| 0 <= i < n && #[trigger] v[i]@ == x
}

/// Inserting an item at its place keeps a list in listing order.
proof fn lemma_insert_in_order(old: Seq<BatchSummary>, p: int, item: BatchSummary)
    requires
        in_rank_order(old),
        0 <= p <= old.len(),
        forall|q: int| 0 <= q < p ==> ranks_before((#[trigger] old[q])@, item@),
        p < old.len() ==> ranks_before(item@, old[p]@),
    ensures
        in_rank_order(old.insert(p, item)),
{
    old.insert_ensures(p, item);
    let new = old.insert(p, item);
    assert forall|a: int, b: int| #![trigger new[a], new[b]] 0 <= a < b < new.len() implies ranks_before(new[a]@, new[b]@) by {
        if b < p {
            assert(new[a] == old[a] && new[b] == old[b]);
        } else if b == p {
            assert(new[a] == old[a]);
        } else if a == p {
            assert(new[b] == old[b - 1]);
            if b - 1 > p {
                assert(ranks_before(old[p]@, old[b - 1]@));
                lemma_rank_transitive(item@, old[p]@, old[b - 1]@);
            }
        } else if a < p {
            assert(new[a] == old[a] && new[b] == old[b - 1]);
        } else {
            assert(new[a] == old[a - 1] && new[b] == old[b - 1]);
        }
    }
}

/// Inserting an item keeps every other item and adds that one.
proof fn lemma_insert_members(old: Seq<BatchSummary>, p: int, item: BatchSummary)
    requires
        0 <= p <= old.len(),
    ensures
        among(old.insert(p, item), old.len() + 1int, item@),
        forall|x: SummaryView| among(old, old.len() as int, x) ==> among(old.insert(p, item), old.len() + 1int, x),
        forall|i: int| 0 <= i < old.len() + 1 ==> (#[trigger] old.insert(p, item)[i])@ == item@ || among(old, old.len() as int, old.insert(p, item)[i]@),
{
    old.insert_ensures(p, item);
    let new = old.insert(p, item);
    assert(new[p]@ == item@);
    assert forall|x: SummaryView| among(old, old.len() as int, x) implies among(new, old.len() + 1int, x) by {
        let i = choose|i: int| 0 <= i < old.len() && #[trigger] old[i]@ == x;
        if i < p {
            assert(new[i] == old[i]);
        } else {
            assert(new[i + 1] == old[i]);
        }
    }
    assert forall|i: int| 0 <= i < old.len() + 1 implies (#[trigger] new[i])@ == item@ || among(old, old.len() as int, new[i]@) by {
        if i < p {
            assert(new[i] == old[i]);
        } else if i > p {
            assert(new[i] == old[i - 1]);
        }
    }
}

/// The summaries of `all`, which name different batches, in listing order.
fn sort_by_rank(all: &Vec<BatchSummary>) -> (r: Vec<BatchSummary>)
    requires
        forall|x: int, y: int| #![trigger all@[x], all@[y]] 0 <= x < y < all.len() ==> all@[x]@.batch != all@[y]@.batch,
    ensures
        in_rank_order(r@),
        forall|x: int| 0 <= x < all.len() ==> among(r@, r.len() as int, (#[trigger] all@[x])@),
        forall|i: int| 0 <= i < r.len() ==> among(all@, all.len() as int, (#[trigger] r@[i])@),
{
    let mut sorted: Vec<BatchSummary> = Vec::new();
    let mut k: usize = 0;
    while k < all.len()
        invariant
            k <= all.len(),
            forall|x: int, y: int| #![trigger all@[x], all@[y]] 0 <= x < y < all.len() ==> all@[x]@.batch != all@[y]@.batch,
            in_rank_order(sorted@),
            forall|x: int| 0 <= x < k ==> among(sorted@, sorted.len() as int, (#[trigger] all@[x])@),
            forall|i: int| 0 <= i < sorted.len() ==> among(all@, k as int, (#[trigger] sorted@[i])@),
        decreases all.len() - k,
    {
        let item = copy_summary(&all[k]);
        let p = insertion_point(&sorted, &item);
        let ghost old_sorted = sorted@;
        proof {
            assert forall|q: int| 0 <= q < p implies ranks_before((#[trigger] old_sorted[q])@, item@) by {
                assert(among(all@, k as int, old_sorted[q]@));
                let x = choose|x: int| 0 <= x < k && #[trigger] all@[x]@ == old_sorted[q]@;
                assert(all@[x]@.batch != all@[k as int]@.batch);
                lemma_rank_total(old_sorted[q]@, item@);
            }
            lemma_insert_in_order(old_sorted, p as int, item);
            lemma_insert_members(old_sorted, p as int, item);
        }
        sorted.insert(p, item);
        proof {
            let new_sorted = sorted@;
            assert forall|x: int| 0 <= x < k + 1 implies among(new_sorted, new_sorted.len() as int, (#[trigger] all@[x])@) by {
                if x < k {
                    assert(among(old_sorted, old_sorted.len() as int, all@[x]@));
                }
            }
            assert forall|i: int| 0 <= i < new_sorted.len() implies among(all@, k + 1, (#[trigger] new_sorted[i])@) by {
                if new_sorted[i]@ == item@ {
                    assert(all@[k as int]@ == item@);
                } else {
                    let j = choose|j: int| 0 <= j < old_sorted.len() && #[trigger] old_sorted[j]@ == new_sorted[i]@;
                    assert(among(all@, k as int, old_sorted[j]@));
                    let x = choose|x: int| 0 <= x < k && #[trigger] all@[x]@ == old_sorted[j]@;
                    assert(all@[x]@ == new_sorted[i]@);
                }
            }
        }
        k = k + 1;
    }
    sorted
}

/// Distinct names, each summary read from `s`, every listed batch present.
pub open spec fn gathered(s: Seq<EntryView>, all: Seq<BatchSummary>) -> bool {
    &&& forall|x: int| 0 <= x < all.len() ==> listed(s, (#[trigger] all[x])@.batch) && all[x]@ == summary_of(s, all[x]@.batch)
    &&& forall|x: int, y: int| #![trigger all[x], all[y]] 0 <= x < y < all.len() ==> all[x]@.batch != all[y]@.batch
    &&& forall|b: Seq<char>| listed(s, b) ==> exists|x: int| 0 <= x < all.len() && (#[trigger] all[x])@.batch == b
}

/// `r` is the activity list of `s` cut at `limit`: summaries of listed
/// batches, in listing order, and where a listed batch is missing the list is
/// full and every entry ranks before it.
pub open spec fn recent_batches_of(s: Seq<EntryView>, limit: usize, r: Seq<BatchSummary>) -> bool {
    &&& r.len() <= limit
    &&& forall|i: int| 0 <= i < r.len() ==> listed(s, (#[trigger] r[i])@.batch) && r[i]@ == summary_of(s, r[i]@.batch)
    &&& in_rank_order(r)
    &&& forall|b: Seq<char>| #[trigger] listed(s, b) && !(exists|i: int| 0 <= i < r.len() && (#[trigger] r[i])@.batch == b) ==> r.len() == limit && forall|i: int| 0 <= i < r.len() ==> ranks_before((#[trigger] r[i])@, summary_of(s, b))
}

impl Journal {
    /// One summary for each listed batch, in the order the batches first appear.
    fn gather(&self) -> (all: Vec<BatchSummary>)
        ensures
            gathered(self.entries(), all@),
    {
        let ghost full = entry_views(self.entries@);
        let mut all: Vec<BatchSummary> = Vec::new();
        let mut i: usize = 0;
        assert(full.subrange(0, 0) =~= Seq::<EntryView>::empty());
        while i < self.entries.len()
            invariant
                i <= self.entries.len(),
                full == entry_views(self.entries@),
                gathered(full.subrange(0, i as int), all@),
                forall|x: int| 0 <= x < all.len() ==> (#[trigger] all@[x]).done <= i && all@[x].undone <= i && all@[x].failed <= i,
            decreases self.entries.len() - i,
        {
            let ghost p = full.subrange(0, i as int);
            let ghost q = full.subrange(0, i + 1);
            let ghost before = all@;
            proof {
                assert(q.drop_last() =~= p);
                assert(q.last() == self.entries@[i as int]@);
                lemma_listed_grows(q);
            }
            let e = &self.entries[i];
            let name = chars_of(e.batch.as_str());
            if is_undo_name(&name) {
                proof {
                    assert forall|x: int| 0 <= x < all.len() implies listed(q, (#[trigger] all@[x])@.batch) && all@[x]@ == summary_of(q, all@[x]@.batch) by {
                        assert(all@[x]@.batch != name@);
                    }
                    assert forall|b: Seq<char>| listed(q, b) implies exists|x: int| 0 <= x < all.len() && (#[trigger] all@[x])@.batch == b by {
                        let k = choose|k: int| 0 <= k < q.len() && (#[trigger] q[k]).batch == b;
                        if k < i {
                            assert(p[k] == q[k]);
                            assert(listed(p, b));
                        }
                    }
                }
            } else {
                let done: usize = if e.state == State::Done { 1 } else { 0 };
                let undone: usize = if e.state == State::Undone { 1 } else { 0 };
                let failed: usize = if e.state == State::Failed { 1 } else { 0 };
                match position_of(&all, &name) {
                    Some(x) => {
                        let current = &all[x];
                        let updated = BatchSummary {
                            batch: copy_string(&current.batch),
                            done: current.done + done,
                            undone: current.undone + undone,
                            failed: current.failed + failed,
                            recorded_at: if e.recorded_at > current.recorded_at { e.recorded_at } else { current.recorded_at },
                        };
                        all.set(x, updated);
                        proof {
                            assert(q[i as int].batch == name@);
                            assert forall|y: int| 0 <= y < all.len() implies listed(q, (#[trigger] all@[y])@.batch) && all@[y]@ == summary_of(q, all@[y]@.batch) by {
                                if y != x {
                                    assert(all@[y] == before[y]);
                                    assert(before[y]@.batch != before[x as int]@.batch);
                                }
                            }
                            assert forall|a: int, b: int| #![trigger all@[a], all@[b]] 0 <= a < b < all.len() implies all@[a]@.batch != all@[b]@.batch by {
                                assert(all@[a]@.batch == before[a]@.batch);
                                assert(all@[b]@.batch == before[b]@.batch);
                            }
                            assert forall|b: Seq<char>| listed(q, b) implies exists|y: int| 0 <= y < all.len() && (#[trigger] all@[y])@.batch == b by {
                                let k = choose|k: int| 0 <= k < q.len() && (#[trigger] q[k]).batch == b;
                                if k < i {
                                    assert(p[k] == q[k]);
                                    assert(listed(p, b));
                                    let y = choose|y: int| 0 <= y < before.len() && (#[trigger] before[y])@.batch == b;
                                    assert(all@[y]@.batch == b);
                                } else {
                                    assert(all@[x as int]@.batch == b);
                                }
                            }
                        }
                    },
                    None => {
                        let fresh = BatchSummary {
                            batch: string_of(&name),
                            done,
                            undone,
                            failed,
                            recorded_at: e.recorded_at,
                        };
                        all.push(fresh);
                        proof {
                            assert forall|k: int| 0 <= k < p.len() implies (#[trigger] p[k]).batch != name@ by {
                                if p[k].batch == name@ {
                                    assert(listed(p, name@));
                                }
                            }
                            lemma_absent_batch(p, name@);
                            assert(q[i as int].batch == name@);
                            assert forall|y: int| 0 <= y < all.len() implies listed(q, (#[trigger] all@[y])@.batch) && all@[y]@ == summary_of(q, all@[y]@.batch) by {
                                if y < before.len() {
                                    assert(all@[y] == before[y]);
                                }
                            }
                            assert forall|a: int, b: int| #![trigger all@[a], all@[b]] 0 <= a < b < all.len() implies all@[a]@.batch != all@[b]@.batch by {
                                assert(all@[a] == before[a]);
                                if b < before.len() {
                                    assert(all@[b] == before[b]);
                                }
                            }
                            assert forall|b: Seq<char>| listed(q, b) implies exists|y: int| 0 <= y < all.len() && (#[trigger] all@[y])@.batch == b by {
                                let k = choose|k: int| 0 <= k < q.len() && (#[trigger] q[k]).batch == b;
                                if k < i {
                                    assert(p[k] == q[k]);
                                    assert(listed(p, b));
                                    let y = choose|y: int| 0 <= y < before.len() && (#[trigger] before[y])@.batch == b;
                                    assert(all@[y] == before[y]);
                                } else {
                                    assert(all@[before.len() as int]@.batch == b);
                                }
                            }
                        }
                    },
                }
            }
            i = i + 1;
        }
        assert(full.subrange(0, i as int) =~= full);
        all
    }

    /// The most recent batches, at most `limit` of them, latest first (ties by
    /// name, later names first); undo runs are left out.
    pub fn recent_batches(&self, limit: usize) -> (r: Vec<BatchSummary>)
        ensures
            recent_batches_of(self.entries(), limit, r@),
    {
        let all = self.gather();
        let sorted = sort_by_rank(&all);
        let mut r: Vec<BatchSummary> = Vec::new();
        let mut i: usize = 0;
        while i < sorted.len() && i < limit
            invariant
                i <= sorted.len(),
                i <= limit,
                r.len() == i,
                forall|j: int| 0 <= j < i ==> (#[trigger] r@[j])@ == sorted@[j]@,
            decreases sorted.len() - i,
        {
            r.push(copy_summary(&sorted[i]));
            i = i + 1;
        }
        proof {
            let s = self.entries();
            assert forall|j: int| 0 <= j < r.len() implies listed(s, (#[trigger] r@[j])@.batch) && r@[j]@ == summary_of(s, r@[j]@.batch) by {
                assert(r@[j]@ == sorted@[j]@);
                assert(among(all@, all.len() as int, sorted@[j]@));
                let x = choose|x: int| 0 <= x < all.len() && #[trigger] all@[x]@ == sorted@[j]@;
            }
            assert(in_rank_order(r@)) by {
                assert forall|a: int, b: int| #![trigger r@[a], r@[b]] 0 <= a < b < r.len() implies ranks_before(r@[a]@, r@[b]@) by {
                    assert(r@[a]@ == sorted@[a]@ && r@[b]@ == sorted@[b]@);
                }
            }
            assert forall|b: Seq<char>| #[trigger] listed(s, b) && !(exists|j: int| 0 <= j < r.len() && (#[trigger] r@[j])@.batch == b) implies r.len() == limit && forall|j: int| 0 <= j < r.len() ==> ranks_before((#[trigger] r@[j])@, summary_of(s, b)) by {
                let x = choose|x: int| 0 <= x < all.len() && (#[trigger] all@[x])@.batch == b;
                assert(among(sorted@, sorted.len() as int, all@[x]@));
                let k = choose|k: int| 0 <= k < sorted.len() && #[trigger] sorted@[k]@ == all@[x]@;
                if k < r.len() {
                    assert(r@[k]@ == sorted@[k]@);
                }
                assert(k >= r.len());
                assert forall|j: int| 0 <= j < r.len() implies ranks_before((#[trigger] r@[j])@, summary_of(s, b)) by {
                    assert(r@[j]@ == sorted@[j]@);
                    assert(ranks_before(sorted@[j]@, sorted@[k]@));
                }
            }
        }
        r
    }
}

/// What the journal stores for an operation rebuilds that same operation:
/// moves, copies and trashings (the last without a destination) round-trip.
pub proof fn lemma_rebuild_round_trip(op: OperationView)
    ensures
        rebuilt(kind_text(op), source_of(op), destination_of(op)) == Ok::<OperationView, JournalError>(op),
{
    reveal_strlit("move");
    reveal_strlit("copy");
    reveal_strlit("trash");
    assert("move"@[0] != "copy"@[0]);
    assert("move"@.len() != "trash"@.len());
    assert("copy"@.len() != "trash"@.len());
}

/// What a report lists in oldest-first order: records of entries that pass
/// `keep`, in increasing order of identifier.
pub proof fn lemma_oldest_first_facts(s: Seq<EntryView>, keep: spec_fn(EntryView) -> bool)
    requires
        ordered(s),
    ensures
        forall|i: int| #![trigger oldest_first(s, keep)[i]] 0 <= i < oldest_first(s, keep).len() ==> exists|k: int| 0 <= k < s.len() && keep(#[trigger] s[k]) && oldest_first(s, keep)[i] == record_of(s[k]),
        forall|i: int, j: int| 0 <= i < j < oldest_first(s, keep).len() ==> (#[trigger] oldest_first(s, keep)[i]).id < (#[trigger] oldest_first(s, keep)[j]).id,
        forall|i: int| 0 <= i < oldest_first(s, keep).len() ==> (#[trigger] oldest_first(s, keep)[i]).id <= s.last().id,
    decreases s.len(),
{
    if s.len() > 0 {
        let p = s.drop_last();
        assert(ordered(p));
        lemma_oldest_first_facts(p, keep);
        let r = oldest_first(p, keep);
        assert forall|i: int| #![trigger r[i]] 0 <= i < r.len() implies exists|k: int| 0 <= k < s.len() && keep(#[trigger] s[k]) && r[i] == record_of(s[k]) by {
            let k = choose|k: int| 0 <= k < p.len() && keep(#[trigger] p[k]) && r[i] == record_of(p[k]);
            assert(s[k] == p[k]);
        }
        assert forall|i: int| 0 <= i < r.len() implies (#[trigger] r[i]).id < s.last().id by {
            if p.len() > 0 {
                assert(p.last() == s[p.len() - 1]);
            }
        }
        if keep(s.last()) {
            assert(keep(s[s.len() - 1]));
        }
    }
}

/// What a report lists in newest-first order: records of entries that pass
/// `keep`, in decreasing order of identifier.
pub proof fn lemma_newest_first_facts(s: Seq<EntryView>, keep: spec_fn(EntryView) -> bool)
    requires
        ordered(s),
    ensures
        forall|i: int| #![trigger newest_first(s, keep)[i]] 0 <= i < newest_first(s, keep).len() ==> exists|k: int| 0 <= k < s.len() && keep(#[trigger] s[k]) && newest_first(s, keep)[i] == record_of(s[k]),
        forall|i: int, j: int| 0 <= i < j < newest_first(s, keep).len() ==> (#[trigger] newest_first(s, keep)[i]).id > (#[trigger] newest_first(s, keep)[j]).id,
        forall|i: int| 0 <= i < newest_first(s, keep).len() ==> (#[trigger] newest_first(s, keep)[i]).id >= s[0].id,
    decreases s.len(),
{
    if s.len() > 0 {
        let t = s.drop_first();
        assert(ordered(t));
        lemma_newest_first_facts(t, keep);
        let r = newest_first(t, keep);
        assert forall|i: int| #![trigger r[i]] 0 <= i < r.len() implies exists|k: int| 0 <= k < s.len() && keep(#[trigger] s[k]) && r[i] == record_of(s[k]) by {
            let k = choose|k: int| 0 <= k < t.len() && keep(#[trigger] t[k]) && r[i] == record_of(t[k]);
            assert(s[k + 1] == t[k]);
        }
        assert forall|i: int| 0 <= i < r.len() implies (#[trigger] r[i]).id > s[0].id by {
            assert(t[0] == s[1]);
        }
    }
}

/// Undo order is the reverse of application: the operations of a batch that
/// were carried out come newest first, each of that batch and done.
pub proof fn lemma_undo_order_is_reverse(s: Seq<EntryView>, batch: Seq<char>)
    requires
        ordered(s),
    ensures
        forall|i: int, j: int| 0 <= i < j < newest_first(s, applied_in(batch)).len() ==> (#[trigger] newest_first(s, applied_in(batch))[i]).id > (#[trigger] newest_first(s, applied_in(batch))[j]).id,
        forall|i: int| 0 <= i < newest_first(s, applied_in(batch)).len() ==> (#[trigger] newest_first(s, applied_in(batch))[i]).batch == batch && newest_first(s, applied_in(batch))[i].state == State::Done,
{
    lemma_newest_first_facts(s, applied_in(batch));
    let r = newest_first(s, applied_in(batch));
    assert forall|i: int| 0 <= i < r.len() implies (#[trigger] r[i]).batch == batch && r[i].state == State::Done by {
        let k = choose|k: int| 0 <= k < s.len() && applied_in(batch)(#[trigger] s[k]) && r[i] == record_of(s[k]);
    }
}

/// Once an entry has a verdict other than planned, it is off the interrupted list.
pub proof fn lemma_marked_is_not_interrupted(s: Seq<EntryView>, id: i64, state: State, detail: Option<Seq<char>>)
    requires
        ordered(s),
        state != State::Planned,
    ensures
        forall|i: int| 0 <= i < oldest_first(marked(s, id, state, detail), awaiting()).len() ==> (#[trigger] oldest_first(marked(s, id, state, detail), awaiting())[i]).id != id,
{
    let m = marked(s, id, state, detail);
    assert(ordered(m)) by {
        assert forall|i: int| 0 <= i < m.len() implies (#[trigger] m[i]).id == s[i].id by {}
    }
    let keep = awaiting();
    lemma_oldest_first_facts(m, keep);
    let r = oldest_first(m, keep);
    assert forall|i: int| 0 <= i < r.len() implies (#[trigger] r[i]).id != id by {
        let k = choose|k: int| 0 <= k < m.len() && keep(#[trigger] m[k]) && r[i] == record_of(m[k]);
    }
}

/// Settling leaves nothing planned.
pub proof fn lemma_settling_clears_interrupted(s: Seq<EntryView>, detail: Seq<char>)
    ensures
        oldest_first(settled(s, detail), awaiting()).len() == 0,
    decreases s.len(),
{
    if s.len() > 0 {
        lemma_settling_clears_interrupted(s.drop_last(), detail);
        assert(settled(s, detail).drop_last() =~= settled(s.drop_last(), detail));
    }
}

/// Settling does not disturb finished operations: what a batch carried out
/// stays as it was.
pub proof fn lemma_settling_keeps_finished(s: Seq<EntryView>, detail: Seq<char>, batch: Seq<char>)
    ensures
        newest_first(settled(s, detail), applied_in(batch)) == newest_first(s, applied_in(batch)),
    decreases s.len(),
{
    if s.len() > 0 {
        lemma_settling_keeps_finished(s.drop_first(), detail, batch);
        assert(settled(s, detail).drop_first() =~= settled(s.drop_first(), detail));
    }
}

/// An operation recorded as planned is reported as interrupted until it gets a verdict.
pub proof fn lemma_planned_is_interrupted(s: Seq<EntryView>, e: EntryView)
    requires
        e.state == State::Planned,
    ensures
        oldest_first(s.push(e), awaiting()) == oldest_first(s, awaiting()).push(record_of(e)),
{
    assert(s.push(e).drop_last() =~= s);
}

/// `s` with every entry whose identifier is in `ids` marked undone, one after the other.
pub open spec fn undone_all(s: Seq<EntryView>, ids: Seq<i64>) -> Seq<EntryView>
    decreases ids.len(),
{
    if ids.len() == 0 {
        s
    } else {
        undone_all(marked(s, ids[0], State::Undone, None), ids.drop_first())
    }
}

/// Marking a list of identifiers undone touches exactly the entries with those identifiers.
proof fn lemma_undone_all_entries(s: Seq<EntryView>, ids: Seq<i64>)
    ensures
        undone_all(s, ids).len() == s.len(),
        forall|k: int| 0 <= k < s.len() ==> {
            &&& (ids.contains(s[k].id) ==> (#[trigger] undone_all(s, ids)[k]).state == State::Undone)
            &&& (!ids.contains(s[k].id) ==> undone_all(s, ids)[k] == s[k])
            &&& undone_all(s, ids)[k].batch == s[k].batch
        },
    decreases ids.len(),
{
    if ids.len() > 0 {
        let t = marked(s, ids[0], State::Undone, None);
        let rest = ids.drop_first();
        lemma_undone_all_entries(t, rest);
        assert forall|k: int| 0 <= k < s.len() implies {
            &&& (ids.contains(s[k].id) ==> (#[trigger] undone_all(s, ids)[k]).state == State::Undone)
            &&& (!ids.contains(s[k].id) ==> undone_all(s, ids)[k] == s[k])
            &&& undone_all(s, ids)[k].batch == s[k].batch
        } by {
            assert(t[k].id == s[k].id);
            assert(ids.contains(s[k].id) <==> (s[k].id == ids[0] || rest.contains(s[k].id))) by {
                if ids.contains(s[k].id) && s[k].id != ids[0] {
                    let j = choose|j: int| 0 <= j < ids.len() && ids[j] == s[k].id;
                    assert(rest[j - 1] == s[k].id);
                }
                if rest.contains(s[k].id) {
                    let j = choose|j: int| 0 <= j < rest.len() && rest[j] == s[k].id;
                    assert(ids[j + 1] == s[k].id);
                }
                if s[k].id == ids[0] {
                    assert(ids[0] == s[k].id);
                }
            }
        }
    }
}

/// Every entry that passes `keep` is reported in newest-first order.
proof fn lemma_newest_first_complete(s: Seq<EntryView>, keep: spec_fn(EntryView) -> bool)
    ensures
        forall|k: int| 0 <= k < s.len() && keep(#[trigger] s[k]) ==> exists|i: int| 0 <= i < newest_first(s, keep).len() && newest_first(s, keep)[i] == record_of(s[k]),
    decreases s.len(),
{
    if s.len() > 0 {
        let t = s.drop_first();
        lemma_newest_first_complete(t, keep);
        let r = newest_first(t, keep);
        assert forall|k: int| 0 <= k < s.len() && keep(#[trigger] s[k]) implies exists|i: int| 0 <= i < newest_first(s, keep).len() && newest_first(s, keep)[i] == record_of(s[k]) by {
            if k == 0 {
                assert(newest_first(s, keep)[r.len() as int] == record_of(s[0]));
            } else {
                assert(t[k - 1] == s[k]);
                let i = choose|i: int| 0 <= i < r.len() && r[i] == record_of(t[k - 1]);
                assert(newest_first(s, keep)[i] == r[i]);
            }
        }
    }
}

/// Nothing is reported when no entry passes `keep`.
proof fn lemma_newest_first_none(s: Seq<EntryView>, keep: spec_fn(EntryView) -> bool)
    requires
        forall|k: int| 0 <= k < s.len() ==> !keep(#[trigger] s[k]),
    ensures
        newest_first(s, keep).len() == 0,
    decreases s.len(),
{
    if s.len() > 0 {
        let t = s.drop_first();
        assert forall|k: int| 0 <= k < t.len() implies !keep(#[trigger] t[k]) by {
            assert(t[k] == s[k + 1]);
        }
        assert(!keep(s[0]));
        lemma_newest_first_none(t, keep);
    }
}

/// Undoing a batch twice does not move anything again: once every operation
/// the batch carried out is marked undone, none of it is left to undo.
pub proof fn lemma_undoing_a_batch_leaves_nothing_to_undo(s: Seq<EntryView>, batch: Seq<char>, ids: Seq<i64>)
    requires
        forall|i: int| 0 <= i < newest_first(s, applied_in(batch)).len() ==> ids.contains(#[trigger] newest_first(s, applied_in(batch))[i].id),
    ensures
        newest_first(undone_all(s, ids), applied_in(batch)).len() == 0,
{
    let keep = applied_in(batch);
    let u = undone_all(s, ids);
    lemma_undone_all_entries(s, ids);
    lemma_newest_first_complete(s, keep);
    assert forall|k: int| 0 <= k < u.len() implies !keep(#[trigger] u[k]) by {
        if keep(s[k]) {
            let i = choose|i: int| 0 <= i < newest_first(s, keep).len() && newest_first(s, keep)[i] == record_of(s[k]);
            assert(ids.contains(newest_first(s, keep)[i].id));
            assert(u[k].state == State::Undone);
        } else if !ids.contains(s[k].id) {
            assert(u[k] == s[k]);
        } else {
            assert(u[k].state == State::Undone);
        }
    }
    lemma_newest_first_none(u, keep);
}

/// Each state is stored under its own word, so a stored state reads back as itself.
pub proof fn lemma_state_words_differ(a: State, b: State)
    ensures
        state_text(a) == state_text(b) ==> a == b,
{
    reveal_strlit("planned");
    reveal_strlit("done");
    reveal_strlit("failed");
    reveal_strlit("undone");
    if state_text(a) == state_text(b) && a != b {
        assert(state_text(a).len() == state_text(b).len());
        assert(state_text(a)[0] == state_text(b)[0]);
    }
}

} // verus!
