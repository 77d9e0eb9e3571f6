//! Which folders may be watched and organized: never a filesystem root, the
//! whole home folder, or a system folder; and containment of a file in the
//! folder it was found under.
use vstd::prelude::*;

use crate::pathname::{components, components_exec, dot_dot, leads_with_dot, parts, parts_exec, path_starts_with, path_starts_with_exec};
use crate::text::{char_lists, chars_of, lower_ascii, lower_ascii_exec, member, same_chars, seqs, string_of};

verus! {

/// Why a folder cannot be used.
#[derive(Debug, Clone, Copy, PartialEq, Eq, Structural)]
pub enum PathError {
    Unresolvable,
    NotAFolder,
    Forbidden,
}

/// The text that describes an error.
pub open spec fn path_error_text(e: PathError) -> Seq<char> {
    match e {
        PathError::Unresolvable => "the folder could not be resolved"@,
        PathError::NotAFolder => "the path is not a folder"@,
        PathError::Forbidden => "this folder cannot be watched"@,
    }
}

impl PathError {
    /// The message that describes the error.
    pub fn message(&self) -> (r: String)
        ensures
            r@ == path_error_text(*self),
    {
        match self {
            PathError::Unresolvable => String::from_str("the folder could not be resolved"),
            PathError::NotAFolder => String::from_str("the path is not a folder"),
            PathError::Forbidden => String::from_str("this folder cannot be watched"),
        }
    }
}

/// The kind of system whose paths are judged.
#[derive(Debug, Clone, Copy, PartialEq, Eq, Structural)]
pub enum Platform {
    /// `/` separates components; system folders are those of Unix-like systems.
    Unix,
    /// `\` and `/` separate components, a path may start with a drive or
    /// share prefix, and system folders are those of Windows.
    Windows,
}

/// First components (in lower case) of system folders on Windows.
pub open spec fn windows_forbidden_roots() -> Seq<Seq<char>> {
    seq![
        "windows"@, "program files"@, "program files (x86)"@, "programdata"@, "$recycle.bin"@,
        "system volume information"@,
    ]
}

/// First components (in lower case) of system folders on Unix-like systems.
pub open spec fn forbidden_roots() -> Seq<Seq<char>> {
    seq![
        "usr"@, "bin"@, "sbin"@, "etc"@, "var"@, "boot"@, "lib"@, "lib64"@, "opt"@, "proc"@,
        "sys"@, "dev"@, "root"@, "system"@, "library"@, "applications"@, "private"@,
    ]
}

/// Every component of `s` is a root: `s` names the top of a filesystem.
pub open spec fn filesystem_root(s: Seq<char>) -> bool {
    parts(s).len() == 0 && !leads_with_dot(s)
}

/// The first named part of a list that is not `..`.
pub open spec fn first_name_in(p: Seq<Seq<char>>) -> Option<Seq<char>>
    decreases p.len(),
{
    if p.len() == 0 {
        None
    } else if p[0] != dot_dot() {
        Some(p[0])
    } else {
        first_name_in(p.drop_first())
    }
}

/// The first normal component of `s`, in lower case.
pub open spec fn first_normal_component(s: Seq<char>) -> Option<Seq<char>> {
    match first_name_in(parts(s)) {
        Some(n) => Some(lower_ascii(n)),
        None => None,
    }
}

/// Two paths name the same folder: their components agree.
pub open spec fn same_folder(a: Seq<char>, b: Seq<char>) -> bool {
    components(a) == components(b)
}

/// A resolved folder that must never be watched or organized.
pub open spec fn forbidden(resolved: Seq<char>, home: Option<Seq<char>>) -> bool {
    ||| filesystem_root(resolved)
    ||| (home matches Some(h) && same_folder(resolved, h))
    ||| (first_normal_component(resolved) matches Some(f) && forbidden_roots().contains(f))
}

/// `s` with every backslash written as a slash.
pub open spec fn slashed(s: Seq<char>) -> Seq<char> {
    Seq::new(s.len(), |i: int| if s[i] == '\\' { '/' } else { s[i] })
}

/// An ASCII letter, as a drive is named.
pub open spec fn drive_letter(c: char) -> bool {
    ('a' <= c && c <= 'z') || ('A' <= c && c <= 'Z')
}

/// The position of the first separator of `u` at or after `from`, or the
/// length of `u` where there is none.
pub open spec fn next_separator(u: Seq<char>, from: int) -> int
    decreases u.len() - from,
{
    if from < 0 || from >= u.len() {
        u.len() as int
    } else if u[from] == '/' {
        from
    } else {
        next_separator(u, from + 1)
    }
}

/// Where the share of a `server/share` starting at `from` ends.
pub open spec fn share_end(u: Seq<char>, from: int) -> int {
    let server_end = next_separator(u, from);
    if server_end >= u.len() {
        u.len() as int
    } else {
        next_separator(u, server_end + 1)
    }
}

/// The length of the Windows prefix of `u` (written with slashes): a
/// verbatim drive `//?/C:`, a verbatim share `//?/UNC/server/share`, a share
/// `//server/share` (which also covers a verbatim name `//?/name`), a drive
/// `C:`, or nothing.
pub open spec fn windows_prefix_len(u: Seq<char>) -> int {
    if u.len() >= 6 && u[0] == '/' && u[1] == '/' && u[2] == '?' && u[3] == '/' && drive_letter(u[4]) && u[5] == ':' {
        6
    } else if u.len() >= 8 && u[0] == '/' && u[1] == '/' && u[2] == '?' && u[3] == '/' && u[4] == 'U' && u[5] == 'N' && u[6] == 'C' && u[7] == '/' {
        share_end(u, 8)
    } else if u.len() >= 2 && u[0] == '/' && u[1] == '/' {
        share_end(u, 2)
    } else if u.len() >= 2 && drive_letter(u[0]) && u[1] == ':' {
        2
    } else {
        0
    }
}

/// The prefix of a Windows path, written with slashes.
pub open spec fn windows_prefix(s: Seq<char>) -> Seq<char> {
    slashed(s).subrange(0, windows_prefix_len(slashed(s)))
}

/// What follows the prefix of a Windows path, written with slashes.
pub open spec fn windows_rest(s: Seq<char>) -> Seq<char> {
    slashed(s).subrange(windows_prefix_len(slashed(s)), s.len() as int)
}

/// A resolved folder that must never be watched or organized, on `platform`.
/// On Windows the prefix is set aside: a folder made of nothing else is the
/// top of a filesystem, and the first named component after it decides.
pub open spec fn forbidden_on(platform: Platform, resolved: Seq<char>, home: Option<Seq<char>>) -> bool {
    match platform {
        Platform::Unix => forbidden(resolved, home),
        Platform::Windows => {
            ||| filesystem_root(windows_rest(resolved))
            ||| (home matches Some(h) && windows_prefix(resolved) == windows_prefix(h) && same_folder(windows_rest(resolved), windows_rest(h)))
            ||| (first_normal_component(windows_rest(resolved)) matches Some(f) && windows_forbidden_roots().contains(f))
        },
    }
}

fn slashed_exec(s: &Vec<char>) -> (r: Vec<char>)
    ensures
        r@ == slashed(s@),
{
    let mut r: Vec<char> = Vec::new();
    let mut i: usize = 0;
    while i < s.len()
        invariant
            i <= s.len(),
            r@ == slashed(s@).subrange(0, i as int),
        decreases s.len() - i,
    {
        let c = if s[i] == '\\' { '/' } else { s[i] };
        r.push(c);
        assert(r@ =~= slashed(s@).subrange(0, i + 1));
        i = i + 1;
    }
    assert(slashed(s@).subrange(0, s.len() as int) =~= slashed(s@));
    r
}

fn next_separator_exec(u: &Vec<char>, from: usize) -> (r: usize)
    ensures
        r == next_separator(u@, from as int),
{
    let mut i: usize = from;
    while i < u.len()
        invariant
            from <= i,
            next_separator(u@, from as int) == next_separator(u@, i as int),
        decreases u.len() - i,
    {
        if u[i] == '/' {
            return i;
        }
        i = i + 1;
    }
    u.len()
}

fn share_end_exec(u: &Vec<char>, from: usize) -> (r: usize)
    ensures
        r == share_end(u@, from as int),
{
    let server_end = next_separator_exec(u, from);
    if server_end >= u.len() {
        u.len()
    } else {
        next_separator_exec(u, server_end + 1)
    }
}

proof fn lemma_next_separator_bound(u: Seq<char>, from: int)
    ensures
        from <= u.len() ==> from <= next_separator(u, from) <= u.len(),
        from > u.len() ==> next_separator(u, from) == u.len(),
    decreases u.len() - from,
{
    if 0 <= from < u.len() && u[from] != '/' {
        lemma_next_separator_bound(u, from + 1);
    }
}

fn is_drive_letter(c: char) -> (r: bool)
    ensures
        r == drive_letter(c),
{
    ('a' <= c && c <= 'z') || ('A' <= c && c <= 'Z')
}

fn windows_prefix_len_exec(u: &Vec<char>) -> (r: usize)
    ensures
        r == windows_prefix_len(u@),
        r <= u.len(),
{
    proof {
        lemma_next_separator_bound(u@, 2);
        lemma_next_separator_bound(u@, 8);
        lemma_next_separator_bound(u@, next_separator(u@, 2) + 1);
        lemma_next_separator_bound(u@, next_separator(u@, 8) + 1);
    }
    if u.len() >= 6 && u[0] == '/' && u[1] == '/' && u[2] == '?' && u[3] == '/' && is_drive_letter(u[4]) && u[5] == ':' {
        6
    } else if u.len() >= 8 && u[0] == '/' && u[1] == '/' && u[2] == '?' && u[3] == '/' && u[4] == 'U' && u[5] == 'N' && u[6] == 'C' && u[7] == '/' {
        share_end_exec(u, 8)
    } else if u.len() >= 2 && u[0] == '/' && u[1] == '/' {
        share_end_exec(u, 2)
    } else if u.len() >= 2 && is_drive_letter(u[0]) && u[1] == ':' {
        2
    } else {
        0
    }
}

fn sub_chars(s: &Vec<char>, from: usize, to: usize) -> (r: Vec<char>)
    requires
        from <= to <= s.len(),
    ensures
        r@ == s@.subrange(from as int, to as int),
{
    let mut r: Vec<char> = Vec::new();
    let mut i: usize = from;
    while i < to
        invariant
            from <= i <= to <= s.len(),
            r@ == s@.subrange(from as int, i as int),
        decreases to - i,
    {
        r.push(s[i]);
        assert(r@ =~= s@.subrange(from as int, i + 1));
        i = i + 1;
    }
    r
}

/// The prefix and the rest of a Windows path, written with slashes.
fn windows_split(s: &Vec<char>) -> (r: (Vec<char>, Vec<char>))
    ensures
        r.0@ == windows_prefix(s@),
        r.1@ == windows_rest(s@),
{
    let u = slashed_exec(s);
    let k = windows_prefix_len_exec(&u);
    (sub_chars(&u, 0, k), sub_chars(&u, k, u.len()))
}

fn is_filesystem_root(s: &Vec<char>) -> (r: bool)
    ensures
        r == filesystem_root(s@),
{
    let p = parts_exec(s);
    p.len() == 0 && !(s.len() > 0 && s[0] == '.' && (s.len() == 1 || s[1] == '/'))
}

fn first_normal_exec(s: &Vec<char>) -> (r: Option<Vec<char>>)
    ensures
        match r {
            Some(v) => first_normal_component(s@) == Some(v@),
            None => first_normal_component(s@).is_none(),
        },
{
    let p = parts_exec(s);
    let mut i: usize = 0;
    assert(seqs(p@).subrange(0, p.len() as int) =~= seqs(p@));
    while i < p.len()
        invariant
            i <= p.len(),
            seqs(p@) == parts(s@),
            first_name_in(parts(s@)) == first_name_in(seqs(p@).subrange(i as int, p.len() as int)),
        decreases p.len() - i,
    {
        let ghost rest = seqs(p@).subrange(i as int, p.len() as int);
        assert(rest.drop_first() =~= seqs(p@).subrange(i + 1, p.len() as int));
        assert(rest[0] == p@[i as int]@);
        let piece = &p[i];
        if !(piece.len() == 2 && piece[0] == '.' && piece[1] == '.') {
            assert(piece@ != dot_dot()) by {
                if piece@.len() == 2 {
                    assert(piece@[0] != '.' || piece@[1] != '.');
                }
            }
            return Some(lower_ascii_exec(piece));
        }
        assert(piece@ =~= dot_dot());
        i = i + 1;
    }
    assert(seqs(p@).subrange(i as int, p.len() as int) =~= Seq::<Seq<char>>::empty());
    None
}

pub fn same_folder_exec(a: &Vec<char>, b: &Vec<char>) -> (r: bool)
    ensures
        r == same_folder(a@, b@),
{
    let ca = components_exec(a);
    let cb = components_exec(b);
    if ca.len() != cb.len() {
        assert(seqs(ca@).len() != seqs(cb@).len());
        return false;
    }
    let mut i: usize = 0;
    while i < ca.len()
        invariant
            ca.len() == cb.len(),
            i <= ca.len(),
            seqs(ca@) == components(a@),
            seqs(cb@) == components(b@),
            forall|j: int| 0 <= j < i ==> seqs(ca@)[j] == seqs(cb@)[j],
        decreases ca.len() - i,
    {
        if !same_chars(&ca[i], &cb[i]) {
            assert(seqs(ca@)[i as int] != seqs(cb@)[i as int]);
            return false;
        }
        i = i + 1;
    }
    assert(seqs(ca@) =~= seqs(cb@));
    true
}

/// Whether a resolved folder is one that must never be watched or organized.
pub fn is_forbidden(resolved: &str, home: Option<&str>) -> (r: bool)
    ensures
        r == forbidden(resolved@, match home { Some(h) => Some(h@), None => None }),
{
    let s = chars_of(resolved);
    if is_filesystem_root(&s) {
        return true;
    }
    match home {
        Some(h) => {
            let hc = chars_of(h);
            if same_folder_exec(&s, &hc) {
                return true;
            }
        },
        None => {},
    }
    match first_normal_exec(&s) {
        Some(first) => {
            let list = char_lists(&vec![
                "usr", "bin", "sbin", "etc", "var", "boot", "lib", "lib64", "opt", "proc", "sys",
                "dev", "root", "system", "library", "applications", "private",
            ]);
            assert(seqs(list@) =~= forbidden_roots());
            member(&first, &list)
        },
        None => false,
    }
}

/// Whether a resolved folder is one that must never be watched or
/// organized on `platform`.
pub fn is_forbidden_on(platform: Platform, resolved: &str, home: Option<&str>) -> (r: bool)
    ensures
        r == forbidden_on(platform, resolved@, match home { Some(h) => Some(h@), None => None }),
{
    match platform {
        Platform::Unix => is_forbidden(resolved, home),
        Platform::Windows => {
            let (_, rest) = windows_split(&chars_of(resolved));
            if is_filesystem_root(&rest) {
                return true;
            }
            match home {
                Some(h) => {
                    let (prefix, _) = windows_split(&chars_of(resolved));
                    let (home_prefix, home_rest) = windows_split(&chars_of(h));
                    if same_chars(&prefix, &home_prefix) && same_folder_exec(&rest, &home_rest) {
                        return true;
                    }
                },
                None => {},
            }
            match first_normal_exec(&rest) {
                Some(first) => {
                    let list = char_lists(&vec![
                        "windows", "program files", "program files (x86)", "programdata", "$recycle.bin",
                        "system volume information",
                    ]);
                    assert(seqs(list@) =~= windows_forbidden_roots());
                    member(&first, &list)
                },
                None => false,
            }
        },
    }
}

/// Whether `candidate` lies inside `root` (component by component).
pub fn is_within(root: &str, candidate: &str) -> (r: bool)
    ensures
        r == path_starts_with(candidate@, root@),
{
    let r = chars_of(root);
    let c = chars_of(candidate);
    path_starts_with_exec(&c, &r)
}

/// What the filesystem reports about a folder a user picked.
#[derive(Debug, Clone)]
pub struct FolderFacts {
    /// The folder with every link resolved, if it could be resolved.
    pub resolved: Option<String>,
    /// The resolved path is a folder.
    pub is_folder: bool,
    /// The user's home folder, resolved, if known.
    pub home: Option<String>,
    /// The kind of system the folder lives on.
    pub platform: Platform,
}

/// The verdict on a picked folder, given what the filesystem reports.
pub open spec fn watched_folder_verdict(facts: FolderFacts) -> Result<Seq<char>, PathError> {
    match facts.resolved {
        None => Err(PathError::Unresolvable),
        Some(r) => if !facts.is_folder {
            Err(PathError::NotAFolder)
        } else if forbidden_on(facts.platform, r@, match facts.home { Some(h) => Some(h@), None => None }) {
            Err(PathError::Forbidden)
        } else {
            Ok(r@)
        },
    }
}

/// Accepts a folder for watching: it must resolve, be a folder and not be forbidden.
pub fn accept_watched_folder(facts: &FolderFacts) -> (r: Result<String, PathError>)
    ensures
        match r {
            Ok(s) => watched_folder_verdict(*facts) == Ok::<Seq<char>, PathError>(s@),
            Err(e) => watched_folder_verdict(*facts) == Err::<Seq<char>, PathError>(e),
        },
{
    match &facts.resolved {
        None => Err(PathError::Unresolvable),
        Some(resolved) => {
            if !facts.is_folder {
                return Err(PathError::NotAFolder);
            }
            let home: Option<&str> = match &facts.home {
                Some(h) => Some(h.as_str()),
                None => None,
            };
            if is_forbidden_on(facts.platform, resolved.as_str(), home) {
                return Err(PathError::Forbidden);
            }
            let copy = chars_of(resolved.as_str());
            Ok(string_of(&copy))
        },
    }
}

/// Law: a folder whose first named component is, ignoring ASCII case, one
/// of the Unix and macOS system folders `usr`, `bin`, `sbin`, `etc`, `var`,
/// `boot`, `lib`, `lib64`, `opt`, `proc`, `sys`, `dev`, `root`, `system`,
/// `library`, `applications` or `private` is never watched, whatever the
/// home folder.
pub proof fn lemma_unix_system_folders_are_forbidden(resolved: Seq<char>, home: Option<Seq<char>>)
    requires
        first_normal_component(resolved) matches Some(f) && {
            ||| f == "usr"@
            ||| f == "bin"@
            ||| f == "sbin"@
            ||| f == "etc"@
            ||| f == "var"@
            ||| f == "boot"@
            ||| f == "lib"@
            ||| f == "lib64"@
            ||| f == "opt"@
            ||| f == "proc"@
            ||| f == "sys"@
            ||| f == "dev"@
            ||| f == "root"@
            ||| f == "system"@
            ||| f == "library"@
            ||| f == "applications"@
            ||| f == "private"@
        },
    ensures
        forbidden(resolved, home),
        forbidden_on(Platform::Unix, resolved, home),
{
    let f = first_normal_component(resolved)->Some_0;
    let list = forbidden_roots();
    let k: int = if f == "usr"@ { 0 } else if f == "bin"@ { 1 } else if f == "sbin"@ { 2 } else if f == "etc"@ { 3 }
        else if f == "var"@ { 4 } else if f == "boot"@ { 5 } else if f == "lib"@ { 6 } else if f == "lib64"@ { 7 }
        else if f == "opt"@ { 8 } else if f == "proc"@ { 9 } else if f == "sys"@ { 10 } else if f == "dev"@ { 11 }
        else if f == "root"@ { 12 } else if f == "system"@ { 13 } else if f == "library"@ { 14 }
        else if f == "applications"@ { 15 } else { 16 };
    assert(list[k] == f);
    assert(list.contains(f));
}

/// Law: on Windows, a folder whose first named component after its drive or
/// share is, ignoring ASCII case, `Windows`, `Program Files`,
/// `Program Files (x86)`, `ProgramData`, `$Recycle.Bin` or
/// `System Volume Information` is never watched, whatever the home folder.
pub proof fn lemma_windows_system_folders_are_forbidden(resolved: Seq<char>, home: Option<Seq<char>>)
    requires
        first_normal_component(windows_rest(resolved)) matches Some(f) && {
            ||| f == "windows"@
            ||| f == "program files"@
            ||| f == "program files (x86)"@
            ||| f == "programdata"@
            ||| f == "$recycle.bin"@
            ||| f == "system volume information"@
        },
    ensures
        forbidden_on(Platform::Windows, resolved, home),
{
    let f = first_normal_component(windows_rest(resolved))->Some_0;
    let list = windows_forbidden_roots();
    let k: int = if f == "windows"@ { 0 } else if f == "program files"@ { 1 } else if f == "program files (x86)"@ { 2 }
        else if f == "programdata"@ { 3 } else if f == "$recycle.bin"@ { 4 } else { 5 };
    assert(list[k] == f);
    assert(list.contains(f));
}

} // verus!
