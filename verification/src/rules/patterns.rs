//! Compiled glob and regular-expression matchers, and the bounded cache that
//! keeps them so a pattern is compiled once rather than once per file.
use ::regex::{Regex, RegexBuilder};
use vstd::prelude::*;

use super::condition::ConditionError;
use crate::text::{chars_of, same_chars};

verus! {

/// Largest number of compiled patterns of each kind kept at once.
pub const MAX_CACHED: usize = 256;

/// Largest compiled size of a regular expression, in bytes.
pub const REGEX_SIZE_LIMIT: usize = 64 * 1024;

/// `globset::GlobSet`, declared so compiled globs can be held; what it
/// holds stays hidden.
#[verifier::external_type_specification]
#[verifier::external_body]
pub struct ExGlobSet(globset::GlobSet);

/// `regex::Regex`, declared so compiled expressions can be held; what it
/// holds stays hidden.
#[verifier::external_type_specification]
#[verifier::external_body]
pub struct ExRegex(Regex);

/// `pattern` compiles as a glob that ignores case and does not let `*` cross `/`
/// (`globset::GlobBuilder` with `case_insensitive(true)` and
/// `literal_separator(true)`), and the set holding it builds (`GlobSetBuilder::build`,
/// which refuses a glob whose regular expression is too large).
pub uninterp spec fn glob_compiles(pattern: Seq<char>) -> bool;

/// The glob `pattern`, compiled that way into a set of one, matches `name`.
pub uninterp spec fn glob_accepts(pattern: Seq<char>, name: Seq<char>) -> bool;

/// `pattern` compiles as a regular expression within the size limit
/// (`regex::RegexBuilder` with `size_limit(REGEX_SIZE_LIMIT)`).
pub uninterp spec fn regex_compiles(pattern: Seq<char>) -> bool;

/// The regular expression `pattern` matches somewhere in `name`.
pub uninterp spec fn regex_accepts(pattern: Seq<char>, name: Seq<char>) -> bool;

/// A glob compiled from a known pattern.
pub struct CompiledGlob {
    pattern: String,
    matcher: globset::GlobSet,
}

/// A regular expression compiled from a known pattern.
pub struct CompiledRegex {
    pattern: String,
    matcher: Regex,
}

impl CompiledGlob {
    /// The pattern this matcher was compiled from.
    pub closed spec fn source(&self) -> Seq<char> {
        self.pattern@
    }

    /// A copy of the matcher (`GlobSet::clone`).
    #[verifier::external_body]
    pub fn duplicate(&self) -> (r: CompiledGlob)
        ensures
            r.source() == self.source(),
    {
        CompiledGlob { pattern: self.pattern.clone(), matcher: self.matcher.clone() }
    }

    /// Whether the glob matches `name` (`GlobSet::is_match`). A
    /// `CompiledGlob` is only ever built by `compile_glob`, so its matcher is
    /// the compiled form of its pattern.
    #[verifier::external_body]
    pub fn is_match(&self, name: &str) -> (r: bool)
        ensures
            r == glob_accepts(self.source(), name@),
    {
        self.matcher.is_match(name)
    }

    fn same_source(&self, pattern: &Vec<char>) -> (r: bool)
        ensures
            r == (self.source() == pattern@),
    {
        let mine = chars_of(self.pattern.as_str());
        same_chars(&mine, pattern)
    }
}

impl CompiledRegex {
    /// The pattern this expression was compiled from.
    pub closed spec fn source(&self) -> Seq<char> {
        self.pattern@
    }

    /// A copy of the expression (`Regex::clone`).
    #[verifier::external_body]
    pub fn duplicate(&self) -> (r: CompiledRegex)
        ensures
            r.source() == self.source(),
    {
        CompiledRegex { pattern: self.pattern.clone(), matcher: self.matcher.clone() }
    }

    /// Whether the expression matches in `name` (`Regex::is_match`). A
    /// `CompiledRegex` is only ever built by `compile_regex`, so its matcher
    /// is the compiled form of its pattern.
    #[verifier::external_body]
    pub fn is_match(&self, name: &str) -> (r: bool)
        ensures
            r == regex_accepts(self.source(), name@),
    {
        self.matcher.is_match(name)
    }

    fn same_source(&self, pattern: &Vec<char>) -> (r: bool)
        ensures
            r == (self.source() == pattern@),
    {
        let mine = chars_of(self.pattern.as_str());
        same_chars(&mine, pattern)
    }
}

/// Compiles `pattern` as a case-insensitive glob whose wildcards stop at `/`
/// (`GlobBuilder::new(..).case_insensitive(true).literal_separator(true).build()`),
/// then builds a set holding that glob alone (`GlobSetBuilder::add`, `build`),
/// which reports a regular expression that is too large as an error rather
/// than panicking. Whether it compiles is named, not stated.
#[verifier::external_body]
fn compile_glob(pattern: &str) -> (r: Option<CompiledGlob>)
    ensures
        r is Some <==> glob_compiles(pattern@),
        r matches Some(g) ==> g.source() == pattern@,
{
    let glob = match globset::GlobBuilder::new(pattern).case_insensitive(true).literal_separator(true).build() {
        Ok(glob) => glob,
        Err(_) => return None,
    };
    match globset::GlobSetBuilder::new().add(glob).build() {
        Ok(matcher) => Some(CompiledGlob { pattern: pattern.to_owned(), matcher }),
        Err(_) => None,
    }
}

/// Compiles `pattern` as a regular expression of bounded size
/// (`RegexBuilder::new(..).size_limit(REGEX_SIZE_LIMIT).build()`). Whether it
/// compiles is named, not stated.
#[verifier::external_body]
fn compile_regex(pattern: &str) -> (r: Option<CompiledRegex>)
    ensures
        r is Some <==> regex_compiles(pattern@),
        r matches Some(x) ==> x.source() == pattern@,
{
    match RegexBuilder::new(pattern).size_limit(REGEX_SIZE_LIMIT).build() {
        Ok(matcher) => Some(CompiledRegex { pattern: pattern.to_owned(), matcher }),
        Err(_) => None,
    }
}

/// Compiled patterns kept for reuse, at most `MAX_CACHED` of each kind.
pub struct Patterns {
    globs: Vec<CompiledGlob>,
    regexes: Vec<CompiledRegex>,
}

/// The cache after remembering `pattern` among `kept`: a full cache is
/// emptied first.
pub open spec fn remembered(kept: Seq<Seq<char>>, pattern: Seq<char>) -> Seq<Seq<char>> {
    if kept.contains(pattern) {
        kept
    } else if kept.len() >= MAX_CACHED {
        seq![pattern]
    } else {
        kept.push(pattern)
    }
}

impl Patterns {
    /// The patterns of the cached globs.
    pub closed spec fn glob_sources(&self) -> Seq<Seq<char>> {
        Seq::new(self.globs@.len(), |i: int| self.globs@[i].source())
    }

    /// The patterns of the cached regular expressions.
    pub closed spec fn regex_sources(&self) -> Seq<Seq<char>> {
        Seq::new(self.regexes@.len(), |i: int| self.regexes@[i].source())
    }

    /// The cache holds no more than its bound of each kind, only patterns
    /// that compile, and no pattern twice, as the keys of a map.
    pub open spec fn wf(&self) -> bool {
        &&& self.glob_sources().len() <= MAX_CACHED
        &&& self.regex_sources().len() <= MAX_CACHED
        &&& forall|i: int| 0 <= i < self.glob_sources().len() ==> glob_compiles(#[trigger] self.glob_sources()[i])
        &&& forall|i: int| 0 <= i < self.regex_sources().len() ==> regex_compiles(#[trigger] self.regex_sources()[i])
        &&& self.glob_sources().no_duplicates()
        &&& self.regex_sources().no_duplicates()
    }

    /// An empty cache.
    pub fn new() -> (r: Patterns)
        ensures
            r.wf(),
            r.glob_sources().len() == 0,
            r.regex_sources().len() == 0,
    {
        Patterns { globs: Vec::new(), regexes: Vec::new() }
    }

    /// Number of cached globs.
    pub fn cached_globs(&self) -> (r: usize)
        ensures
            r == self.glob_sources().len(),
    {
        self.globs.len()
    }

    /// Number of cached regular expressions.
    pub fn cached_regexes(&self) -> (r: usize)
        ensures
            r == self.regex_sources().len(),
    {
        self.regexes.len()
    }

    fn find_glob(&self, pattern: &Vec<char>) -> (r: Option<usize>)
        ensures
            match r {
                Some(i) => i < self.globs@.len() && self.glob_sources()[i as int] == pattern@,
                None => !self.glob_sources().contains(pattern@),
            },
    {
        let mut i: usize = 0;
        while i < self.globs.len()
            invariant
                i <= self.globs@.len(),
                forall|j: int| 0 <= j < i ==> self.glob_sources()[j] != pattern@,
            decreases self.globs.len() - i,
        {
            if self.globs[i].same_source(pattern) {
                return Some(i);
            }
            i = i + 1;
        }
        None
    }

    fn find_regex(&self, pattern: &Vec<char>) -> (r: Option<usize>)
        ensures
            match r {
                Some(i) => i < self.regexes@.len() && self.regex_sources()[i as int] == pattern@,
                None => !self.regex_sources().contains(pattern@),
            },
    {
        let mut i: usize = 0;
        while i < self.regexes.len()
            invariant
                i <= self.regexes@.len(),
                forall|j: int| 0 <= j < i ==> self.regex_sources()[j] != pattern@,
            decreases self.regexes.len() - i,
        {
            if self.regexes[i].same_source(pattern) {
                return Some(i);
            }
            i = i + 1;
        }
        None
    }

    fn remember_glob(&mut self, compiled: CompiledGlob)
        requires
            old(self).wf(),
            glob_compiles(compiled.source()),
            !old(self).glob_sources().contains(compiled.source()),
        ensures
            final(self).wf(),
            final(self).glob_sources() == remembered(old(self).glob_sources(), compiled.source()),
            final(self).regex_sources() == old(self).regex_sources(),
    {
        let ghost kept = self.glob_sources();
        let ghost source = compiled.source();
        if self.globs.len() >= MAX_CACHED {
            self.globs.clear();
        }
        self.globs.push(compiled);
        assert(self.glob_sources() =~= remembered(kept, source));
    }

    fn remember_regex(&mut self, compiled: CompiledRegex)
        requires
            old(self).wf(),
            regex_compiles(compiled.source()),
            !old(self).regex_sources().contains(compiled.source()),
        ensures
            final(self).wf(),
            final(self).regex_sources() == remembered(old(self).regex_sources(), compiled.source()),
            final(self).glob_sources() == old(self).glob_sources(),
    {
        let ghost kept = self.regex_sources();
        let ghost source = compiled.source();
        if self.regexes.len() >= MAX_CACHED {
            self.regexes.clear();
        }
        self.regexes.push(compiled);
        assert(self.regex_sources() =~= remembered(kept, source));
    }
}

/// A glob matcher for `pattern`, compiled or taken from the cache.
pub fn glob(cache: &mut Patterns, pattern: &str) -> (r: Result<CompiledGlob, ConditionError>)
    requires
        old(cache).wf(),
    ensures
        final(cache).wf(),
        final(cache).regex_sources() == old(cache).regex_sources(),
        match r {
            Ok(g) => glob_compiles(pattern@) && g.source() == pattern@ && final(cache).glob_sources()
                == remembered(old(cache).glob_sources(), pattern@),
            Err(e) => !glob_compiles(pattern@) && e == ConditionError::InvalidGlob
                && final(cache).glob_sources() == old(cache).glob_sources(),
        },
{
    let wanted = chars_of(pattern);
    match cache.find_glob(&wanted) {
        Some(i) => {
            let ready = cache.globs[i].duplicate();
            assert(cache.glob_sources()[i as int] == cache.globs@[i as int].source());
            Ok(ready)
        },
        None => match compile_glob(pattern) {
            Some(built) => {
                let copy = built.duplicate();
                cache.remember_glob(built);
                Ok(copy)
            },
            None => Err(ConditionError::InvalidGlob),
        },
    }
}

/// A regular expression for `pattern`, compiled or taken from the cache.
pub fn regex_matcher(cache: &mut Patterns, pattern: &str) -> (r: Result<CompiledRegex, ConditionError>)
    requires
        old(cache).wf(),
    ensures
        final(cache).wf(),
        final(cache).glob_sources() == old(cache).glob_sources(),
        match r {
            Ok(x) => regex_compiles(pattern@) && x.source() == pattern@ && final(cache).regex_sources()
                == remembered(old(cache).regex_sources(), pattern@),
            Err(e) => !regex_compiles(pattern@) && e == ConditionError::InvalidRegex
                && final(cache).regex_sources() == old(cache).regex_sources(),
        },
{
    let wanted = chars_of(pattern);
    match cache.find_regex(&wanted) {
        Some(i) => {
            let ready = cache.regexes[i].duplicate();
            assert(cache.regex_sources()[i as int] == cache.regexes@[i as int].source());
            Ok(ready)
        },
        None => match compile_regex(pattern) {
            Some(built) => {
                let copy = built.duplicate();
                cache.remember_regex(built);
                Ok(copy)
            },
            None => Err(ConditionError::InvalidRegex),
        },
    }
}

} // verus!
