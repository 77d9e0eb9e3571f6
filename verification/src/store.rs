//! Where the rule and settings files are kept, and why reading or writing
//! them can fail. Reading and writing happen outside the library.
use vstd::prelude::*;

use crate::text::{append_chars, chars_of, string_of};

verus! {

/// Why a stored file could not be used.
#[derive(Debug, Clone, Copy, PartialEq, Eq, Structural)]
pub enum StoreError {
    /// The file could not be read or written.
    Unreachable,
    /// The file holds no valid JSON of the expected shape.
    Malformed,
}

/// The text that describes an error.
pub open spec fn store_error_text(e: StoreError) -> Seq<char> {
    match e {
        StoreError::Unreachable => "the rule file could not be read or written"@,
        StoreError::Malformed => "the rule file is not valid Tidyfile JSON"@,
    }
}

impl StoreError {
    /// The message that describes the error.
    pub fn message(&self) -> (r: String)
        ensures
            r@ == store_error_text(*self),
    {
        match self {
            StoreError::Unreachable => String::from_str("the rule file could not be read or written"),
            StoreError::Malformed => String::from_str("the rule file is not valid Tidyfile JSON"),
        }
    }
}

fn with_suffix(path: &str, suffix: &str) -> (r: String)
    ensures
        r@ == path@ + suffix@,
{
    let mut p = chars_of(path);
    let s = chars_of(suffix);
    append_chars(&mut p, &s);
    string_of(&p)
}

/// Where a file is written before it replaces `path`, so that a failed write
/// never destroys what was there: `path` followed by `.writing`.
pub fn staging_path(path: &str) -> (r: String)
    ensures
        r@ == path@ + ".writing"@,
{
    with_suffix(path, ".writing")
}

/// Where an unreadable file is set aside so that a later save cannot
/// overwrite it: `path` followed by `.broken`.
pub fn set_aside_path(path: &str) -> (r: String)
    ensures
        r@ == path@ + ".broken"@,
{
    with_suffix(path, ".broken")
}

} // verus!
