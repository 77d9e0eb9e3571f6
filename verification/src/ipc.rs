//! What crosses the boundary to the interface: stable error codes with
//! messages that carry no paths, the collision policy in force, the limit on
//! the activity list, and the check of a pattern before it is saved.
use vstd::prelude::*;

use crate::executor::Collision;
use crate::paths::PathError;
use crate::rules::condition::{condition_error_text, Condition, ConditionError, FileFacts, MAX_PATTERN_LENGTH};
use crate::rules::patterns::{glob_compiles, regex_compiles, Patterns};
use crate::service::{service_error_text, ServiceError};
use crate::settings::Settings;
use crate::store::{store_error_text, StoreError};
use crate::text::{chars_of, same_chars, utf8_len};

verus! {

/// The most batches the activity list shows.
pub const MAX_ACTIVITY: usize = 500;

/// An error as the interface receives it: a stable code and a message.
#[derive(Debug, Clone, PartialEq, Eq)]
pub struct IpcError {
    pub code: String,
    pub message: String,
}

/// The stable code of an organizer error.
pub open spec fn code_text(e: ServiceError) -> Seq<char> {
    match e {
        ServiceError::Folder(PathError::Forbidden) => "forbiddenFolder"@,
        ServiceError::Folder(PathError::NotAFolder) => "notAFolder"@,
        ServiceError::Folder(PathError::Unresolvable) => "folderNotFound"@,
        ServiceError::Rules(_) => "invalidRule"@,
        ServiceError::Journal(_) => "historyUnavailable"@,
        ServiceError::Executor(_) => "executionFailed"@,
        ServiceError::Watcher => "watchFailed"@,
    }
}

/// The stable code of an organizer error.
pub fn code_for(error: &ServiceError) -> (r: &'static str)
    ensures
        r@ == code_text(*error),
{
    match error {
        ServiceError::Folder(PathError::Forbidden) => "forbiddenFolder",
        ServiceError::Folder(PathError::NotAFolder) => "notAFolder",
        ServiceError::Folder(PathError::Unresolvable) => "folderNotFound",
        ServiceError::Rules(_) => "invalidRule",
        ServiceError::Journal(_) => "historyUnavailable",
        ServiceError::Executor(_) => "executionFailed",
        ServiceError::Watcher => "watchFailed",
    }
}

/// The stable code of a storage error.
pub open spec fn store_code_text(e: StoreError) -> Seq<char> {
    match e {
        StoreError::Unreachable => "rulesUnreachable"@,
        StoreError::Malformed => "rulesMalformed"@,
    }
}

impl IpcError {
    /// An error with this code and message.
    pub fn new(code: &str, message: &str) -> (r: IpcError)
        ensures
            r.code@ == code@,
            r.message@ == message@,
    {
        IpcError { code: String::from_str(code), message: String::from_str(message) }
    }

    /// The error given while the organizer is busy with another request.
    pub fn unavailable() -> (r: IpcError)
        ensures
            r.code@ == "unavailable"@,
            r.message@ == "Tidyfile is busy. Try again in a moment."@,
    {
        IpcError::new("unavailable", "Tidyfile is busy. Try again in a moment.")
    }

    /// The interface's form of an organizer error.
    pub fn from_service(error: &ServiceError) -> (r: IpcError)
        ensures
            r.code@ == code_text(*error),
            r.message@ == service_error_text(*error),
    {
        IpcError { code: String::from_str(code_for(error)), message: error.message() }
    }

    /// The interface's form of a storage error.
    pub fn from_store(error: &StoreError) -> (r: IpcError)
        ensures
            r.code@ == store_code_text(*error),
            r.message@ == store_error_text(*error),
    {
        let code = match error {
            StoreError::Unreachable => "rulesUnreachable",
            StoreError::Malformed => "rulesMalformed",
        };
        IpcError { code: String::from_str(code), message: error.message() }
    }
}

/// The collision policy in force: the one in the settings that could be
/// read, else the default.
pub fn current_collision(loaded: &Result<Settings, StoreError>) -> (r: Collision)
    ensures
        r == match loaded {
            Ok(settings) => settings.on_collision,
            Err(_) => Collision::Suffix,
        },
{
    match loaded {
        Ok(settings) => settings.on_collision,
        Err(_) => Collision::Suffix,
    }
}

/// How many batches the activity list asks for: at least one, at most `MAX_ACTIVITY`.
pub fn activity_limit(limit: usize) -> (r: usize)
    ensures
        r == if limit < 1 { 1 } else if limit > MAX_ACTIVITY { MAX_ACTIVITY } else { limit },
{
    if limit < 1 {
        1
    } else if limit > MAX_ACTIVITY {
        MAX_ACTIVITY
    } else {
        limit
    }
}

/// A file to try a pattern on: `sample.txt`, empty, from the epoch.
pub fn nothing_in_particular() -> (r: FileFacts)
    ensures
        r.path@ == "sample.txt"@,
        r.root@.len() == 0,
        r.size == 0,
        r.modified == 0,
{
    FileFacts { path: String::from_str("sample.txt"), root: String::new(), size: 0, modified: 0 }
}

/// The condition a pattern of `kind` makes: `glob` for a glob, anything else
/// for a regular expression.
pub fn pattern_condition(kind: &str, pattern: String) -> (r: Condition)
    ensures
        kind@ == "glob"@ ==> r == (Condition::NameMatchesGlob { pattern }),
        kind@ != "glob"@ ==> r == (Condition::NameMatchesRegex { pattern }),
{
    let k = chars_of(kind);
    let glob = chars_of("glob");
    if same_chars(&k, &glob) {
        Condition::NameMatchesGlob { pattern }
    } else {
        Condition::NameMatchesRegex { pattern }
    }
}

/// What checking a pattern of `kind` finds: too long, not compiling, or fine.
pub open spec fn pattern_verdict(kind: Seq<char>, pattern: Seq<char>) -> Result<(), ConditionError> {
    if utf8_len(pattern) > MAX_PATTERN_LENGTH {
        Err(ConditionError::PatternTooLong)
    } else if kind == "glob"@ {
        if glob_compiles(pattern) { Ok(()) } else { Err(ConditionError::InvalidGlob) }
    } else {
        if regex_compiles(pattern) { Ok(()) } else { Err(ConditionError::InvalidRegex) }
    }
}

/// Checks a pattern before it is saved, with the same compiler that later
/// runs it: an error comes back with the code `invalidPattern`.
pub fn check_pattern(kind: &str, pattern: String, cache: &mut Patterns) -> (r: Result<(), IpcError>)
    requires
        old(cache).wf(),
    ensures
        final(cache).wf(),
        match pattern_verdict(kind@, pattern@) {
            Ok(()) => r is Ok,
            Err(e) => r matches Err(x) && x.code@ == "invalidPattern"@ && x.message@ == condition_error_text(e),
        },
{
    let ghost text = pattern@;
    let condition = pattern_condition(kind, pattern);
    let sample = nothing_in_particular();
    match condition.matches(&sample, 0, cache) {
        Ok(_) => Ok(()),
        Err(e) => Err(IpcError { code: String::from_str("invalidPattern"), message: e.message() }),
    }
}

/// The codes of the folder problems are all different.
pub proof fn lemma_folder_codes_differ()
    ensures
        code_text(ServiceError::Folder(PathError::Forbidden)) != code_text(ServiceError::Folder(PathError::NotAFolder)),
        code_text(ServiceError::Folder(PathError::Forbidden)) != code_text(ServiceError::Folder(PathError::Unresolvable)),
        code_text(ServiceError::Folder(PathError::NotAFolder)) != code_text(ServiceError::Folder(PathError::Unresolvable)),
{
    reveal_strlit("forbiddenFolder");
    reveal_strlit("notAFolder");
    reveal_strlit("folderNotFound");
    assert("forbiddenFolder"@.len() != "notAFolder"@.len());
    assert("forbiddenFolder"@.len() != "folderNotFound"@.len());
    assert("notAFolder"@[0] != "folderNotFound"@[0]);
}

/// No message that crosses the boundary names a path: none holds a path separator.
pub proof fn lemma_messages_carry_no_paths(e: ServiceError)
    ensures
        forall|i: int| 0 <= i < service_error_text(e).len() ==> #[trigger] service_error_text(e)[i] != '/' && service_error_text(e)[i] != '\\',
{
    reveal_strlit("the folder cannot be used");
    reveal_strlit("the rules could not be evaluated");
    reveal_strlit("the history could not be reached");
    reveal_strlit("the operation could not be carried out");
    reveal_strlit("the folder could not be watched");
}

} // verus!
