//! Which files the folder scan and the watcher leave alone: the partial
//! files of downloads in progress and the lock files of office suites; and
//! which changed files the watcher reports once a burst of changes settles.
use vstd::prelude::*;

use crate::listing::{dedup_paths, in_path_order, sort_paths, texts, without_repeats};
use crate::pathname::{extension, file_name};
use crate::text::{char_lists, chars_of, lower_ascii, lower_ascii_exec, member, seqs, starts_with, starts_with_exec};

verus! {

/// Extensions (in lower case) of files that are still being written.
pub open spec fn temporary_extensions() -> Seq<Seq<char>> {
    seq!["crdownload"@, "part"@, "partial"@, "tmp"@, "temp"@, "download"@, "opdownload"@]
}

/// Name prefixes of lock files and half-written saves.
pub open spec fn temporary_prefixes() -> Seq<Seq<char>> {
    seq!["~$"@, ".~lock."@, ".goutputstream"@]
}

/// The extension of the file, in lower case, is one of a download in progress.
pub open spec fn has_temporary_extension(path: Seq<char>) -> bool {
    match extension(path) {
        Some(e) => temporary_extensions().contains(lower_ascii(e)),
        None => false,
    }
}

/// The name of the file starts like a lock file or a half-written save.
pub open spec fn has_temporary_prefix(path: Seq<char>) -> bool {
    match file_name(path) {
        Some(n) => exists|i: int| 0 <= i < temporary_prefixes().len() && #[trigger] starts_with(n, temporary_prefixes()[i]),
        None => false,
    }
}

/// A file the organizer must not touch yet.
pub open spec fn temporary(path: Seq<char>) -> bool {
    has_temporary_extension(path) || has_temporary_prefix(path)
}

fn temporary_extension_exec(path: &Vec<char>) -> (r: bool)
    ensures
        r == has_temporary_extension(path@),
{
    match crate::pathname::stem_and_extension(path) {
        Some((_, Some(ext))) => {
            let lowered = lower_ascii_exec(&ext);
            let list = char_lists(&vec!["crdownload", "part", "partial", "tmp", "temp", "download", "opdownload"]);
            assert(seqs(list@) =~= temporary_extensions());
            member(&lowered, &list)
        },
        _ => false,
    }
}

fn temporary_prefix_exec(path: &Vec<char>) -> (r: bool)
    ensures
        r == has_temporary_prefix(path@),
{
    match crate::pathname::file_name_exec(path) {
        Some(name) => {
            let list = char_lists(&vec!["~$", ".~lock.", ".goutputstream"]);
            assert(seqs(list@) =~= temporary_prefixes());
            let mut i: usize = 0;
            while i < list.len()
                invariant
                    i <= list.len(),
                    file_name(path@) == Some(name@),
                    seqs(list@) == temporary_prefixes(),
                    forall|j: int| 0 <= j < i ==> !starts_with(name@, #[trigger] temporary_prefixes()[j]),
                decreases list.len() - i,
            {
                assert(list@[i as int]@ == seqs(list@)[i as int]);
                if starts_with_exec(&name, &list[i]) {
                    assert(starts_with(name@, temporary_prefixes()[i as int]));
                    assert(0 <= i < temporary_prefixes().len());
                    let ghost k: int = i as int;
                    assert(exists|j: int| 0 <= j < temporary_prefixes().len() && #[trigger] starts_with(name@, temporary_prefixes()[j]));
                    assert(file_name(path@) == Some(name@));
                    assert(file_name(path@).unwrap() == name@);
                    assert(has_temporary_prefix(path@));
                    return true;
                }
                i = i + 1;
            }
            false
        },
        None => false,
    }
}

/// Whether the file at `path` is a temporary that must be left alone.
pub fn is_temporary(path: &str) -> (r: bool)
    ensures
        r == temporary(path@),
{
    let p = chars_of(path);
    temporary_extension_exec(&p) || temporary_prefix_exec(&p)
}

/// The paths of `s` that are not temporaries, in order.
pub open spec fn lasting(s: Seq<Seq<char>>) -> Seq<Seq<char>>
    decreases s.len(),
{
    if s.len() == 0 {
        s
    } else if temporary(s.last()) {
        lasting(s.drop_last())
    } else {
        lasting(s.drop_last()).push(s.last())
    }
}

/// The files to report from a settled burst of changes to files: the
/// temporaries dropped, the rest in path order, each path once.
pub fn settled_paths(changed: &Vec<String>) -> (r: Vec<String>)
    ensures
        exists|s: Seq<Seq<char>>| #![trigger without_repeats(s)]
            in_path_order(s) && s.to_multiset() == lasting(texts(changed@)).to_multiset() && texts(r@) == without_repeats(s),
{
    let mut kept: Vec<String> = Vec::new();
    let mut k: usize = 0;
    assert(texts(changed@).subrange(0, 0) =~= Seq::<Seq<char>>::empty());
    assert(texts(kept@) =~= Seq::<Seq<char>>::empty());
    while k < changed.len()
        invariant
            k <= changed.len(),
            texts(kept@) == lasting(texts(changed@).subrange(0, k as int)),
        decreases changed.len() - k,
    {
        let ghost prefix = texts(changed@).subrange(0, k + 1);
        assert(prefix.drop_last() =~= texts(changed@).subrange(0, k as int));
        assert(prefix.last() == changed@[k as int]@);
        if !is_temporary(changed[k].as_str()) {
            let ghost before = texts(kept@);
            let c = chars_of(changed[k].as_str());
            kept.push(crate::text::string_of(&c));
            assert(texts(kept@) =~= before.push(changed@[k as int]@));
        }
        k = k + 1;
    }
    assert(texts(changed@).subrange(0, k as int) =~= texts(changed@));
    let sorted = sort_paths(&kept);
    let r = dedup_paths(&sorted);
    assert(in_path_order(texts(sorted@)));
    r
}

/// Only the last component of a path decides whether it is a temporary: two
/// paths naming the same file name are both temporaries or neither is.
pub proof fn lemma_only_the_file_name_counts(a: Seq<char>, b: Seq<char>)
    requires
        file_name(a) == file_name(b),
    ensures
        temporary(a) == temporary(b),
{
}

/// Law: a file whose extension, in lower case, is that of a download in
/// progress (`crdownload`, `part`, `partial`, `tmp`, `temp`, `download` or
/// `opdownload`) is temporary, and is left alone.
pub proof fn lemma_download_in_progress_is_temporary(path: Seq<char>)
    requires
        extension(path) matches Some(e) && {
            let x = lower_ascii(e);
            ||| x == "crdownload"@
            ||| x == "part"@
            ||| x == "partial"@
            ||| x == "tmp"@
            ||| x == "temp"@
            ||| x == "download"@
            ||| x == "opdownload"@
        },
    ensures
        temporary(path),
{
    let x = lower_ascii(extension(path)->Some_0);
    let list = temporary_extensions();
    if x == "crdownload"@ {
        assert(list[0] == x);
    } else if x == "part"@ {
        assert(list[1] == x);
    } else if x == "partial"@ {
        assert(list[2] == x);
    } else if x == "tmp"@ {
        assert(list[3] == x);
    } else if x == "temp"@ {
        assert(list[4] == x);
    } else if x == "download"@ {
        assert(list[5] == x);
    } else {
        assert(list[6] == x);
    }
}

/// Law: a file whose name starts like a lock file or a half-written save
/// (`~$`, `.~lock.` or `.goutputstream`) is temporary, and is left alone.
pub proof fn lemma_lock_file_is_temporary(path: Seq<char>)
    requires
        file_name(path) matches Some(n) && (starts_with(n, "~$"@) || starts_with(n, ".~lock."@) || starts_with(n, ".goutputstream"@)),
    ensures
        temporary(path),
{
    let n = file_name(path)->Some_0;
    let list = temporary_prefixes();
    if starts_with(n, "~$"@) {
        assert(starts_with(n, list[0]));
    } else if starts_with(n, ".~lock."@) {
        assert(starts_with(n, list[1]));
    } else {
        assert(starts_with(n, list[2]));
    }
}

} // verus!
