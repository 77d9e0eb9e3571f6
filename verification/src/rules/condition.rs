//! Conditions on a single file: its extension, its name, its size, its age
//! and the subfolder it sits in.
use vstd::prelude::*;

use super::patterns::{glob, glob_accepts, glob_compiles, regex_matcher, regex_accepts, regex_compiles, Patterns};
use crate::pathname::{components, components_exec, extension, file_name, file_name_exec, path_starts_with, path_starts_with_exec};
use crate::text::{chars_of, contains, contains_exec, eq_ignore_ascii_case, eq_ignore_ascii_case_exec, lower_ascii, lower_ascii_exec, same_chars, seqs, slice_chars, utf8_len, utf8_len_exec};

verus! {

/// Longest glob or regular expression accepted, in bytes.
pub const MAX_PATTERN_LENGTH: usize = 512;

/// Seconds in a day.
pub const SECONDS_PER_DAY: u64 = 86_400;

/// Nanoseconds in a second.
pub const NANOS_PER_SECOND: i128 = 1_000_000_000;

/// Why a condition could not be evaluated.
#[derive(Debug, Clone, Copy, PartialEq, Eq, Structural)]
pub enum ConditionError {
    PatternTooLong,
    InvalidRegex,
    InvalidGlob,
}

/// The text that describes an error.
pub open spec fn condition_error_text(e: ConditionError) -> Seq<char> {
    match e {
        ConditionError::PatternTooLong => "the pattern is longer than the allowed limit"@,
        ConditionError::InvalidRegex => "the regular expression could not be compiled"@,
        ConditionError::InvalidGlob => "the glob pattern could not be compiled"@,
    }
}

impl ConditionError {
    /// The message that describes the error.
    pub fn message(&self) -> (r: String)
        ensures
            r@ == condition_error_text(*self),
    {
        match self {
            ConditionError::PatternTooLong => String::from_str("the pattern is longer than the allowed limit"),
            ConditionError::InvalidRegex => String::from_str("the regular expression could not be compiled"),
            ConditionError::InvalidGlob => String::from_str("the glob pattern could not be compiled"),
        }
    }
}

/// One test a file must pass.
#[derive(Debug, Clone, PartialEq, Eq)]
pub enum Condition {
    Extension { any_of: Vec<String> },
    NameContains { text: String },
    NameMatchesGlob { pattern: String },
    NameMatchesRegex { pattern: String },
    LargerThan { bytes: u64 },
    SmallerThan { bytes: u64 },
    OlderThan { days: u64 },
    NewerThan { days: u64 },
    InSubfolder { name: String },
}

/// What is known of a file when rules are evaluated.
#[derive(Debug, Clone, PartialEq, Eq)]
pub struct FileFacts {
    /// The file.
    pub path: String,
    /// The watched folder the file was found under.
    pub root: String,
    /// Its size in bytes.
    pub size: u64,
    /// When it was last modified, in nanoseconds since the Unix epoch.
    pub modified: i128,
}

/// A moment the system clock can hold (seconds fit in an `i64`).
pub open spec fn system_moment(t: i128) -> bool {
    -9_223_372_036_854_775_808 * (NANOS_PER_SECOND as int) <= t < 9_223_372_036_854_775_808 * (NANOS_PER_SECOND as int)
}

/// The lower-case form of a string (`str::to_lowercase`), as Unicode defines it.
pub uninterp spec fn unicode_lowercase(s: Seq<char>) -> Seq<char>;

/// `str::to_lowercase`, whose result is named by `unicode_lowercase`.
#[verifier::external_body]
fn to_lowercase(s: &str) -> (r: String)
    ensures
        r@ == unicode_lowercase(s@),
{
    s.to_lowercase()
}

/// Whole days from `modified` to `now`; a file from the future is zero days old.
pub open spec fn age_in_days(modified: i128, now: i128) -> int {
    if now >= modified {
        ((now - modified) / (NANOS_PER_SECOND as int)) / (SECONDS_PER_DAY as int)
    } else {
        0
    }
}

/// `s` without its leading dots.
pub open spec fn without_leading_dots(s: Seq<char>) -> Seq<char>
    decreases s.len(),
{
    if s.len() > 0 && s[0] == '.' {
        without_leading_dots(s.drop_first())
    } else {
        s
    }
}

/// The file's extension is one of `accepted`, ignoring case and leading dots.
pub open spec fn extension_accepted(path: Seq<char>, accepted: Seq<String>) -> bool {
    match extension(path) {
        None => false,
        Some(e) => exists|i: int| 0 <= i < accepted.len() && eq_ignore_ascii_case(
            without_leading_dots(#[trigger] accepted[i]@),
            lower_ascii(e),
        ),
    }
}

/// The file's name contains `text`, both in lower case.
pub open spec fn name_contains(path: Seq<char>, text: Seq<char>) -> bool {
    match file_name(path) {
        Some(n) => contains(unicode_lowercase(n), unicode_lowercase(text)),
        None => false,
    }
}

/// Below the watched root, a folder named `name` holds the file.
pub open spec fn in_subfolder(path: Seq<char>, root: Seq<char>, name: Seq<char>) -> bool {
    let all = components(path);
    let skip = components(root).len();
    path_starts_with(path, root) && exists|i: int|
        skip <= i < all.len() - 1 && #[trigger] all[i] == name
}

/// A pattern's outcome: refused when too long or not compilable, otherwise
/// whether the file has a name that it matches.
pub open spec fn pattern_outcome(
    pattern: Seq<char>,
    compiles: bool,
    accepts: bool,
    error: ConditionError,
    path: Seq<char>,
) -> Result<bool, ConditionError> {
    if utf8_len(pattern) > MAX_PATTERN_LENGTH {
        Err(ConditionError::PatternTooLong)
    } else if !compiles {
        Err(error)
    } else {
        Ok(file_name(path) is Some && accepts)
    }
}

/// What a condition says of a file at `now`.
pub open spec fn condition_outcome(c: Condition, facts: FileFacts, now: i128) -> Result<bool, ConditionError> {
    let path = facts.path@;
    match c {
        Condition::Extension { any_of } => Ok(extension_accepted(path, any_of@)),
        Condition::NameContains { text } => Ok(name_contains(path, text@)),
        Condition::NameMatchesGlob { pattern } => pattern_outcome(
            pattern@,
            glob_compiles(pattern@),
            glob_accepts(pattern@, file_name(path).unwrap()),
            ConditionError::InvalidGlob,
            path,
        ),
        Condition::NameMatchesRegex { pattern } => pattern_outcome(
            pattern@,
            regex_compiles(pattern@),
            regex_accepts(pattern@, file_name(path).unwrap()),
            ConditionError::InvalidRegex,
            path,
        ),
        Condition::LargerThan { bytes } => Ok(facts.size > bytes),
        Condition::SmallerThan { bytes } => Ok(facts.size < bytes),
        Condition::OlderThan { days } => Ok(age_in_days(facts.modified, now) >= days),
        Condition::NewerThan { days } => Ok(age_in_days(facts.modified, now) < days),
        Condition::InSubfolder { name } => Ok(in_subfolder(path, facts.root@, name@)),
    }
}

fn without_leading_dots_exec(s: &Vec<char>) -> (r: Vec<char>)
    ensures
        r@ == without_leading_dots(s@),
{
    let mut i: usize = 0;
    assert(s@.subrange(0, s.len() as int) =~= s@);
    while i < s.len() && s[i] == '.'
        invariant
            i <= s.len(),
            without_leading_dots(s@) == without_leading_dots(s@.subrange(i as int, s.len() as int)),
        decreases s.len() - i,
    {
        assert(s@.subrange(i as int, s.len() as int).drop_first() =~= s@.subrange(i + 1, s.len() as int));
        i = i + 1;
    }
    slice_chars(s, i, s.len())
}

impl FileFacts {
    /// Whole days since the file was modified, as of `now`.
    pub fn age_in_days(&self, now: i128) -> (r: u64)
        requires
            system_moment(self.modified),
            system_moment(now),
        ensures
            r as int == age_in_days(self.modified, now),
    {
        if now >= self.modified {
            let elapsed: i128 = now - self.modified;
            let seconds: i128 = elapsed / NANOS_PER_SECOND;
            let days: i128 = seconds / (SECONDS_PER_DAY as i128);
            days as u64
        } else {
            0
        }
    }
}

fn matches_extension(facts: &FileFacts, accepted: &Vec<String>) -> (r: bool)
    ensures
        r == extension_accepted(facts.path@, accepted@),
{
    let path = chars_of(facts.path.as_str());
    let ext = match crate::pathname::stem_and_extension(&path) {
        Some((_, Some(e))) => e,
        _ => return false,
    };
    let lowered = lower_ascii_exec(&ext);
    let mut i: usize = 0;
    while i < accepted.len()
        invariant
            i <= accepted.len(),
            extension(facts.path@) == Some(ext@),
            lowered@ == lower_ascii(ext@),
            forall|j: int| 0 <= j < i ==> !eq_ignore_ascii_case(without_leading_dots(#[trigger] accepted@[j]@), lowered@),
        decreases accepted.len() - i,
    {
        let candidate = chars_of(accepted[i].as_str());
        let trimmed = without_leading_dots_exec(&candidate);
        if eq_ignore_ascii_case_exec(&trimmed, &lowered) {
            assert(eq_ignore_ascii_case(without_leading_dots(accepted@[i as int]@), lower_ascii(ext@)));
            return true;
        }
        i = i + 1;
    }
    false
}

fn matches_contains(facts: &FileFacts, text: &String) -> (r: bool)
    ensures
        r == name_contains(facts.path@, text@),
{
    let path = chars_of(facts.path.as_str());
    match file_name_exec(&path) {
        None => false,
        Some(name) => {
            let name_text = crate::text::string_of(&name);
            let lowered_name = to_lowercase(name_text.as_str());
            let lowered_text = to_lowercase(text.as_str());
            let hay = chars_of(lowered_name.as_str());
            let needle = chars_of(lowered_text.as_str());
            contains_exec(&hay, &needle)
        },
    }
}

fn matches_subfolder(facts: &FileFacts, name: &String) -> (r: bool)
    ensures
        r == in_subfolder(facts.path@, facts.root@, name@),
{
    let path = chars_of(facts.path.as_str());
    let root = chars_of(facts.root.as_str());
    if !path_starts_with_exec(&path, &root) {
        return false;
    }
    let all = components_exec(&path);
    let skip = components_exec(&root).len();
    let wanted = chars_of(name.as_str());
    if all.len() == 0 {
        return false;
    }
    let mut i: usize = skip;
    while i < all.len() - 1
        invariant
            skip == components(facts.root@).len(),
            seqs(all@) == components(facts.path@),
            path_starts_with(facts.path@, facts.root@),
            wanted@ == name@,
            all.len() > 0,
            skip <= i,
            forall|j: int| skip <= j < i ==> seqs(all@)[j] != wanted@,
        decreases all.len() - 1 - i,
    {
        if same_chars(&all[i], &wanted) {
            assert(seqs(all@)[i as int] == wanted@);
            return true;
        }
        i = i + 1;
    }
    false
}

fn reject_oversized(pattern: &Vec<char>) -> (r: Result<(), ConditionError>)
    ensures
        r is Ok <==> utf8_len(pattern@) <= MAX_PATTERN_LENGTH,
        r is Err ==> r == Err::<(), ConditionError>(ConditionError::PatternTooLong),
{
    if utf8_len_exec(pattern, MAX_PATTERN_LENGTH) > MAX_PATTERN_LENGTH {
        Err(ConditionError::PatternTooLong)
    } else {
        Ok(())
    }
}

fn matches_glob(facts: &FileFacts, pattern: &String, cache: &mut Patterns) -> (r: Result<bool, ConditionError>)
    requires
        old(cache).wf(),
    ensures
        final(cache).wf(),
        r == pattern_outcome(pattern@, glob_compiles(pattern@), glob_accepts(pattern@, file_name(facts.path@).unwrap()), ConditionError::InvalidGlob, facts.path@),
{
    let text = chars_of(pattern.as_str());
    if let Err(e) = reject_oversized(&text) {
        return Err(e);
    }
    let compiled = match glob(cache, pattern.as_str()) {
        Ok(g) => g,
        Err(e) => return Err(e),
    };
    let path = chars_of(facts.path.as_str());
    match file_name_exec(&path) {
        None => Ok(false),
        Some(name) => {
            let name_text = crate::text::string_of(&name);
            Ok(compiled.is_match(name_text.as_str()))
        },
    }
}

fn matches_regex(facts: &FileFacts, pattern: &String, cache: &mut Patterns) -> (r: Result<bool, ConditionError>)
    requires
        old(cache).wf(),
    ensures
        final(cache).wf(),
        r == pattern_outcome(pattern@, regex_compiles(pattern@), regex_accepts(pattern@, file_name(facts.path@).unwrap()), ConditionError::InvalidRegex, facts.path@),
{
    let text = chars_of(pattern.as_str());
    if let Err(e) = reject_oversized(&text) {
        return Err(e);
    }
    let compiled = match regex_matcher(cache, pattern.as_str()) {
        Ok(x) => x,
        Err(e) => return Err(e),
    };
    let path = chars_of(facts.path.as_str());
    match file_name_exec(&path) {
        None => Ok(false),
        Some(name) => {
            let name_text = crate::text::string_of(&name);
            Ok(compiled.is_match(name_text.as_str()))
        },
    }
}

impl Condition {
    /// Whether the file passes this condition at `now`; patterns are compiled
    /// through `cache`.
    pub fn matches(&self, facts: &FileFacts, now: i128, cache: &mut Patterns) -> (r: Result<bool, ConditionError>)
        requires
            old(cache).wf(),
            system_moment(facts.modified),
            system_moment(now),
        ensures
            final(cache).wf(),
            r == condition_outcome(*self, *facts, now),
    {
        match self {
            Condition::Extension { any_of } => Ok(matches_extension(facts, any_of)),
            Condition::NameContains { text } => Ok(matches_contains(facts, text)),
            Condition::NameMatchesGlob { pattern } => matches_glob(facts, pattern, cache),
            Condition::NameMatchesRegex { pattern } => matches_regex(facts, pattern, cache),
            Condition::LargerThan { bytes } => Ok(facts.size > *bytes),
            Condition::SmallerThan { bytes } => Ok(facts.size < *bytes),
            Condition::OlderThan { days } => Ok(facts.age_in_days(now) >= *days),
            Condition::NewerThan { days } => Ok(facts.age_in_days(now) < *days),
            Condition::InSubfolder { name } => Ok(matches_subfolder(facts, name)),
        }
    }
}

/// Lower-casing twice changes nothing more.
proof fn lemma_lower_twice(s: Seq<char>)
    ensures
        lower_ascii(lower_ascii(s)) == lower_ascii(s),
{
    assert(lower_ascii(lower_ascii(s)) =~= lower_ascii(s));
}

/// Law: an extension condition holds for a file whose extension equals any
/// entry of the list, wherever the entry stands in it, when the entry's
/// leading dots are dropped and ASCII letters are compared without case.
pub proof fn lemma_any_listed_extension_is_accepted(facts: FileFacts, any_of: Vec<String>, now: i128, i: int)
    requires
        0 <= i < any_of@.len(),
        extension(facts.path@) matches Some(e) && lower_ascii(without_leading_dots(any_of@[i]@)) == lower_ascii(e),
    ensures
        condition_outcome(Condition::Extension { any_of }, facts, now) == Ok::<bool, ConditionError>(true),
{
    let e = extension(facts.path@)->Some_0;
    lemma_lower_twice(e);
    assert(eq_ignore_ascii_case(without_leading_dots(any_of@[i]@), lower_ascii(e)));
}

/// Law: an extension condition fails for a file without an extension, and
/// for one whose extension equals no entry of the list in that way.
pub proof fn lemma_unlisted_extension_is_refused(facts: FileFacts, any_of: Vec<String>, now: i128)
    requires
        extension(facts.path@) matches Some(e) ==> forall|i: int| 0 <= i < any_of@.len() ==> lower_ascii(without_leading_dots(#[trigger] any_of@[i]@)) != lower_ascii(e),
    ensures
        condition_outcome(Condition::Extension { any_of }, facts, now) == Ok::<bool, ConditionError>(false),
{
    if let Some(e) = extension(facts.path@) {
        lemma_lower_twice(e);
        assert forall|i: int| 0 <= i < any_of@.len() implies !eq_ignore_ascii_case(without_leading_dots(#[trigger] any_of@[i]@), lower_ascii(e)) by {
            assert(lower_ascii(without_leading_dots(any_of@[i]@)) != lower_ascii(e));
        }
    }
}

/// Law: a name condition holds for a file whose lower-cased name holds the
/// lower-cased text at some position, and fails for a file without a name.
pub proof fn lemma_name_holding_the_text_is_accepted(facts: FileFacts, text: String, now: i128, at: int)
    requires
        file_name(facts.path@) matches Some(n) && 0 <= at && at + unicode_lowercase(text@).len() <= unicode_lowercase(n).len()
            && unicode_lowercase(n).subrange(at, at + unicode_lowercase(text@).len()) == unicode_lowercase(text@),
    ensures
        condition_outcome(Condition::NameContains { text }, facts, now) == Ok::<bool, ConditionError>(true),
{
    let n = file_name(facts.path@)->Some_0;
    assert(crate::text::occurs_at(unicode_lowercase(n), unicode_lowercase(text@), at));
}

/// Law: a size condition compares the file's size in bytes, strictly.
pub proof fn lemma_size_conditions(facts: FileFacts, bytes: u64, now: i128)
    ensures
        condition_outcome(Condition::LargerThan { bytes }, facts, now) == Ok::<bool, ConditionError>(facts.size > bytes),
        condition_outcome(Condition::SmallerThan { bytes }, facts, now) == Ok::<bool, ConditionError>(facts.size < bytes),
        facts.size == bytes ==> condition_outcome(Condition::LargerThan { bytes }, facts, now) == Ok::<bool, ConditionError>(false)
            && condition_outcome(Condition::SmallerThan { bytes }, facts, now) == Ok::<bool, ConditionError>(false),
{
}

} // verus!
