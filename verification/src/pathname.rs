//! The textual model of a Unix path used throughout the library.
//!
//! A path is a character sequence. Its components are those that
//! `std::path::Path::components` reports on Unix: a root (`/`) when the path
//! is absolute, a leading current-directory marker (`.`) for a relative path
//! that begins with `./` or is `.`, and then every non-empty piece between
//! slashes other than `.`. Two paths with the same components are the same
//! path, whatever separators or `.` pieces their texts hold.
use vstd::prelude::*;

use crate::text::{
    append_chars, chars_of, lemma_text_less_total, lemma_text_less_transitive, same_chars, seqs,
    slice_chars, text_less, text_less_exec,
};

verus! {

/// The piece `.` that names the current folder.
pub open spec fn dot() -> Seq<char> {
    seq!['.']
}

/// The piece `..` that names the parent folder.
pub open spec fn dot_dot() -> Seq<char> {
    seq!['.', '.']
}

/// The root component, written `/`.
pub open spec fn root_piece() -> Seq<char> {
    seq!['/']
}

/// A piece between separators that stands as a component of its own.
pub open spec fn keep_piece(p: Seq<char>) -> bool {
    p.len() > 0 && p != dot()
}

/// Reading `s` from the left: the kept pieces already closed by a separator,
/// and the piece still open at the end.
pub open spec fn scan(s: Seq<char>) -> (Seq<Seq<char>>, Seq<char>)
    decreases s.len(),
{
    if s.len() == 0 {
        (Seq::empty(), Seq::empty())
    } else {
        let (done, open) = scan(s.drop_last());
        if s.last() == '/' {
            (if keep_piece(open) { done.push(open) } else { done }, Seq::empty())
        } else {
            (done, open.push(s.last()))
        }
    }
}

/// The named parts of `s`: its pieces without empty ones and `.`.
pub open spec fn parts(s: Seq<char>) -> Seq<Seq<char>> {
    let (done, open) = scan(s);
    if keep_piece(open) {
        done.push(open)
    } else {
        done
    }
}

/// `s` starts at the root.
pub open spec fn is_absolute(s: Seq<char>) -> bool {
    s.len() > 0 && s[0] == '/'
}

/// `s` is relative and begins with the current-folder marker.
pub open spec fn leads_with_dot(s: Seq<char>) -> bool {
    !is_absolute(s) && s.len() > 0 && s[0] == '.' && (s.len() == 1 || s[1] == '/')
}

/// The components of `s`, each written as text.
pub open spec fn components(s: Seq<char>) -> Seq<Seq<char>> {
    if is_absolute(s) {
        seq![root_piece()] + parts(s)
    } else if leads_with_dot(s) {
        seq![dot()] + parts(s)
    } else {
        parts(s)
    }
}

/// The final component of `s`, when it is a name (not the root, `.` or `..`).
pub open spec fn file_name(s: Seq<char>) -> Option<Seq<char>> {
    let p = parts(s);
    if p.len() > 0 && p.last() != dot_dot() {
        Some(p.last())
    } else {
        None
    }
}

/// The index of the last `c` in `s`, or -1 when it does not occur.
pub open spec fn last_index(s: Seq<char>, c: char) -> int
    decreases s.len(),
{
    if s.len() == 0 {
        -1
    } else if s.last() == c {
        s.len() - 1
    } else {
        last_index(s.drop_last(), c)
    }
}

/// The position of the dot that separates stem and extension in `name`, if any:
/// the last dot, provided something precedes it.
pub open spec fn extension_dot(name: Seq<char>) -> int {
    let k = last_index(name, '.');
    if k > 0 && name != dot_dot() {
        k
    } else {
        -1
    }
}

/// The extension of a file name (`Path::extension`).
pub open spec fn name_extension(name: Seq<char>) -> Option<Seq<char>> {
    let k = extension_dot(name);
    if k > 0 {
        Some(name.subrange(k + 1, name.len() as int))
    } else {
        None
    }
}

/// The stem of a file name (`Path::file_stem`).
pub open spec fn name_stem(name: Seq<char>) -> Seq<char> {
    let k = extension_dot(name);
    if k > 0 {
        name.subrange(0, k)
    } else {
        name
    }
}

/// The extension of the file that `s` names.
pub open spec fn extension(s: Seq<char>) -> Option<Seq<char>> {
    match file_name(s) {
        Some(name) => name_extension(name),
        None => None,
    }
}

/// The stem of the file that `s` names.
pub open spec fn file_stem(s: Seq<char>) -> Option<Seq<char>> {
    match file_name(s) {
        Some(name) => Some(name_stem(name)),
        None => None,
    }
}

/// The components of the parent of `s`: all but the last, unless `s` is a
/// root or empty.
pub open spec fn parent_components(s: Seq<char>) -> Option<Seq<Seq<char>>> {
    let c = components(s);
    if c.len() > 0 && c.last() != root_piece() {
        Some(c.drop_last())
    } else {
        None
    }
}

/// The pieces of `p` separated by `/`.
pub open spec fn joined(p: Seq<Seq<char>>) -> Seq<char>
    decreases p.len(),
{
    if p.len() == 0 {
        Seq::empty()
    } else if p.len() == 1 {
        p[0]
    } else {
        joined(p.drop_last()).push('/') + p.last()
    }
}

/// The text of a path with components `c`.
pub open spec fn text_of(c: Seq<Seq<char>>) -> Seq<char> {
    if c.len() > 0 && c[0] == root_piece() {
        seq!['/'] + joined(c.drop_first())
    } else {
        joined(c)
    }
}

/// `base` extended by `name` as `PathBuf::push` does on Unix: an absolute
/// `name` replaces `base`, and a separator is added when `base` lacks one.
pub open spec fn join(base: Seq<char>, name: Seq<char>) -> Seq<char> {
    if is_absolute(name) {
        name
    } else if base.len() > 0 && base.last() != '/' {
        base.push('/') + name
    } else {
        base + name
    }
}

/// The components of `prefix` lead the components of `s` (`Path::starts_with`).
pub open spec fn path_starts_with(s: Seq<char>, prefix: Seq<char>) -> bool {
    let a = components(s);
    let b = components(prefix);
    b.len() <= a.len() && a.subrange(0, b.len() as int) == b
}

// ---------------------------------------------------------------------------
// Executable counterparts
// ---------------------------------------------------------------------------

/// The kept pieces of `s` (see `parts`).
pub fn parts_exec(s: &Vec<char>) -> (r: Vec<Vec<char>>)
    ensures
        seqs(r@) == parts(s@),
{
    let mut done: Vec<Vec<char>> = Vec::new();
    let mut open: Vec<char> = Vec::new();
    let mut i: usize = 0;
    while i < s.len()
        invariant
            i <= s.len(),
            (seqs(done@), open@) == scan(s@.subrange(0, i as int)),
        decreases s.len() - i,
    {
        assert(s@.subrange(0, i + 1).drop_last() =~= s@.subrange(0, i as int));
        if s[i] == '/' {
            if keep_piece_exec(&open) {
                let ghost before = seqs(done@);
                let ghost piece = open@;
                done.push(open);
                assert(seqs(done@) =~= before.push(piece));
            }
            open = Vec::new();
            assert(open@ =~= Seq::<char>::empty());
        } else {
            open.push(s[i]);
        }
        i = i + 1;
    }
    assert(s@.subrange(0, s@.len() as int) =~= s@);
    if keep_piece_exec(&open) {
        let ghost before = seqs(done@);
        let ghost piece = open@;
        done.push(open);
        assert(seqs(done@) =~= before.push(piece));
    }
    done
}

fn keep_piece_exec(p: &Vec<char>) -> (r: bool)
    ensures
        r == keep_piece(p@),
{
    if p.len() == 0 {
        false
    } else if p.len() == 1 && p[0] == '.' {
        assert(p@ =~= dot());
        false
    } else {
        assert(p@ != dot()) by {
            if p@.len() == 1 {
                assert(p@[0] != dot()[0]);
            }
        }
        true
    }
}

pub fn is_absolute_exec(s: &Vec<char>) -> (r: bool)
    ensures
        r == is_absolute(s@),
{
    s.len() > 0 && s[0] == '/'
}

fn leads_with_dot_exec(s: &Vec<char>) -> (r: bool)
    ensures
        r == leads_with_dot(s@),
{
    !is_absolute_exec(s) && s.len() > 0 && s[0] == '.' && (s.len() == 1 || s[1] == '/')
}

/// The components of `s`, as text.
pub fn components_exec(s: &Vec<char>) -> (r: Vec<Vec<char>>)
    ensures
        seqs(r@) == components(s@),
{
    let named = parts_exec(s);
    let mut r: Vec<Vec<char>> = Vec::new();
    if is_absolute_exec(s) {
        let mut root: Vec<char> = Vec::new();
        root.push('/');
        assert(root@ =~= root_piece());
        r.push(root);
    } else if leads_with_dot_exec(s) {
        let mut here: Vec<char> = Vec::new();
        here.push('.');
        assert(here@ =~= dot());
        r.push(here);
    }
    let ghost head = seqs(r@);
    assert(head =~= if is_absolute(s@) {
        seq![root_piece()]
    } else if leads_with_dot(s@) {
        seq![dot()]
    } else {
        Seq::empty()
    });
    let mut i: usize = 0;
    while i < named.len()
        invariant
            i <= named.len(),
            seqs(named@) == parts(s@),
            seqs(r@) == head + seqs(named@).subrange(0, i as int),
        decreases named.len() - i,
    {
        let piece = slice_chars(&named[i], 0, named[i].len());
        assert(piece@ =~= seqs(named@)[i as int]);
        let ghost before = seqs(r@);
        let ghost text = piece@;
        r.push(piece);
        assert(seqs(r@) =~= before.push(text));
        assert(seqs(named@).subrange(0, i + 1) =~= seqs(named@).subrange(0, i as int).push(
            seqs(named@)[i as int],
        ));
        i = i + 1;
    }
    assert(seqs(named@).subrange(0, named.len() as int) =~= seqs(named@));
    assert(seqs(r@) =~= components(s@));
    r
}

/// The final name of `s`, if it has one.
pub fn file_name_exec(s: &Vec<char>) -> (r: Option<Vec<char>>)
    ensures
        match r {
            Some(v) => file_name(s@) == Some(v@),
            None => file_name(s@).is_none(),
        },
{
    let p = parts_exec(s);
    if p.len() == 0 {
        return None;
    }
    let last = &p[p.len() - 1];
    assert(last@ == seqs(p@).last());
    if last.len() == 2 && last[0] == '.' && last[1] == '.' {
        assert(last@ =~= dot_dot());
        None
    } else {
        assert(last@ != dot_dot()) by {
            if last@.len() == 2 {
                assert(last@[0] != '.' || last@[1] != '.');
            }
        }
        Some(slice_chars(last, 0, last.len()))
    }
}

/// The index of the last `c` in `s`, if any.
pub fn rfind_char(s: &Vec<char>, c: char) -> (r: Option<usize>)
    ensures
        match r {
            Some(k) => k as int == last_index(s@, c),
            None => last_index(s@, c) == -1,
        },
        -1 <= last_index(s@, c) < s@.len(),
{
    let mut i: usize = s.len();
    assert(s@.subrange(0, s@.len() as int) =~= s@);
    while i > 0
        invariant
            i <= s.len(),
            last_index(s@, c) == last_index(s@.subrange(0, i as int), c),
        decreases i,
    {
        proof {
            lemma_last_index_bounds(s@.subrange(0, i as int), c);
        }
        assert(s@.subrange(0, i as int).drop_last() =~= s@.subrange(0, i - 1));
        if s[i - 1] == c {
            proof {
                lemma_last_index_bounds(s@, c);
            }
            return Some(i - 1);
        }
        i = i - 1;
    }
    assert(s@.subrange(0, 0) =~= Seq::<char>::empty());
    proof {
        lemma_last_index_bounds(s@, c);
    }
    None
}

pub proof fn lemma_last_index_bounds(s: Seq<char>, c: char)
    ensures
        -1 <= last_index(s, c) < s.len(),
        last_index(s, c) >= 0 ==> s[last_index(s, c)] == c,
    decreases s.len(),
{
    if s.len() > 0 && s.last() != c {
        lemma_last_index_bounds(s.drop_last(), c);
    }
}

fn extension_dot_exec(name: &Vec<char>) -> (r: Option<usize>)
    ensures
        match r {
            Some(k) => k as int == extension_dot(name@) && k > 0 && k < name@.len(),
            None => extension_dot(name@) == -1,
        },
{
    match rfind_char(name, '.') {
        Some(k) => {
            if k > 0 {
                if name.len() == 2 && name[0] == '.' && name[1] == '.' {
                    assert(name@ =~= dot_dot());
                    None
                } else {
                    assert(name@ != dot_dot()) by {
                        if name@.len() == 2 {
                            assert(name@[0] != '.' || name@[1] != '.');
                        }
                    }
                    Some(k)
                }
            } else {
                None
            }
        },
        None => None,
    }
}

/// The stem and extension of a file name.
pub fn split_name(name: &Vec<char>) -> (r: (Vec<char>, Option<Vec<char>>))
    ensures
        r.0@ == name_stem(name@),
        match r.1 {
            Some(e) => name_extension(name@) == Some(e@),
            None => name_extension(name@).is_none(),
        },
{
    match extension_dot_exec(name) {
        Some(k) => (slice_chars(name, 0, k), Some(slice_chars(name, k + 1, name.len()))),
        None => (slice_chars(name, 0, name.len()), None),
    }
}

/// The stem and extension of the file that `s` names.
pub fn stem_and_extension(s: &Vec<char>) -> (r: Option<(Vec<char>, Option<Vec<char>>)>)
    ensures
        match r {
            Some(pair) => file_stem(s@) == Some(pair.0@) && match pair.1 {
                Some(e) => extension(s@) == Some(e@),
                None => extension(s@).is_none(),
            },
            None => file_name(s@).is_none() && file_stem(s@).is_none() && extension(
                s@,
            ).is_none(),
        },
{
    match file_name_exec(s) {
        Some(name) => Some(split_name(&name)),
        None => None,
    }
}

/// `p` joined with `/` between pieces.
pub fn joined_exec(p: &Vec<Vec<char>>, from: usize) -> (r: Vec<char>)
    requires
        from <= p.len(),
    ensures
        r@ == joined(seqs(p@).subrange(from as int, p.len() as int)),
{
    let mut r: Vec<char> = Vec::new();
    let mut i: usize = from;
    while i < p.len()
        invariant
            from <= i <= p.len(),
            r@ == joined(seqs(p@).subrange(from as int, i as int)),
        decreases p.len() - i,
    {
        let ghost prev = seqs(p@).subrange(from as int, i as int);
        let ghost next = seqs(p@).subrange(from as int, i + 1);
        assert(next.drop_last() =~= prev);
        assert(next.last() == p[i as int]@);
        if i > from {
            r.push('/');
        } else {
            assert(prev.len() == 0);
            assert(joined(next) == next[0]);
        }
        append_chars(&mut r, &p[i]);
        i = i + 1;
    }
    r
}

/// The text of a path with the components `c`.
pub fn text_of_exec(c: &Vec<Vec<char>>) -> (r: Vec<char>)
    ensures
        r@ == text_of(seqs(c@)),
{
    if c.len() > 0 && c[0].len() == 1 && c[0][0] == '/' {
        assert(seqs(c@)[0] =~= root_piece());
        let mut r: Vec<char> = Vec::new();
        r.push('/');
        let rest = joined_exec(c, 1);
        assert(seqs(c@).subrange(1, c.len() as int) =~= seqs(c@).drop_first());
        append_chars(&mut r, &rest);
        r
    } else {
        assert(!(seqs(c@).len() > 0 && seqs(c@)[0] == root_piece())) by {
            if seqs(c@).len() > 0 && seqs(c@)[0] == root_piece() {
                assert(c[0]@.len() == 1 && c[0]@[0] == '/');
            }
        }
        let r = joined_exec(c, 0);
        assert(seqs(c@).subrange(0, c.len() as int) =~= seqs(c@));
        r
    }
}

/// The parent of `s`, written as the text of its components.
pub fn parent_exec(s: &Vec<char>) -> (r: Option<Vec<char>>)
    ensures
        match r {
            Some(v) => parent_components(s@) matches Some(c) && v@ == text_of(c),
            None => parent_components(s@).is_none(),
        },
{
    let mut c = components_exec(s);
    if c.len() == 0 {
        return None;
    }
    let last_is_root = c[c.len() - 1].len() == 1 && c[c.len() - 1][0] == '/';
    if last_is_root {
        assert(seqs(c@).last() =~= root_piece());
        None
    } else {
        assert(seqs(c@).last() != root_piece()) by {
            if seqs(c@).last() == root_piece() {
                assert(c[c.len() - 1]@.len() == 1);
            }
        }
        let ghost whole = seqs(c@);
        c.pop();
        assert(seqs(c@) =~= whole.drop_last());
        Some(text_of_exec(&c))
    }
}

/// `base` extended by `name` (see `join`).
pub fn join_exec(base: &Vec<char>, name: &Vec<char>) -> (r: Vec<char>)
    ensures
        r@ == join(base@, name@),
{
    if is_absolute_exec(name) {
        slice_chars(name, 0, name.len())
    } else if base.len() > 0 && base[base.len() - 1] != '/' {
        let mut r = slice_chars(base, 0, base.len());
        r.push('/');
        append_chars(&mut r, name);
        r
    } else {
        let mut r = slice_chars(base, 0, base.len());
        append_chars(&mut r, name);
        r
    }
}

/// Whether the components of `prefix` lead those of `s`.
pub fn path_starts_with_exec(s: &Vec<char>, prefix: &Vec<char>) -> (r: bool)
    ensures
        r == path_starts_with(s@, prefix@),
{
    let a = components_exec(s);
    let b = components_exec(prefix);
    if b.len() > a.len() {
        return false;
    }
    let mut i: usize = 0;
    while i < b.len()
        invariant
            seqs(a@) == components(s@),
            seqs(b@) == components(prefix@),
            b.len() <= a.len(),
            i <= b.len(),
            forall|j: int| 0 <= j < i ==> seqs(a@)[j] == seqs(b@)[j],
        decreases b.len() - i,
    {
        if !same_chars(&a[i], &b[i]) {
            assert(seqs(a@).subrange(0, b.len() as int)[i as int] != seqs(b@)[i as int]);
            assert(seqs(a@).subrange(0, b.len() as int) != seqs(b@));
            return false;
        }
        i = i + 1;
    }
    assert(seqs(a@).subrange(0, b.len() as int) =~= seqs(b@));
    true
}

/// `a` sorts before `b` when their pieces are compared one by one, each in
/// code-point order, a list that runs out first sorting first.
pub open spec fn pieces_less(a: Seq<Seq<char>>, b: Seq<Seq<char>>) -> bool
    decreases a.len(),
{
    if b.len() == 0 {
        false
    } else if a.len() == 0 {
        true
    } else if a[0] != b[0] {
        text_less(a[0], b[0])
    } else {
        pieces_less(a.drop_first(), b.drop_first())
    }
}

/// Path `a` sorts before path `b`: their components compare in that order.
pub open spec fn path_less(a: Seq<char>, b: Seq<char>) -> bool {
    pieces_less(components(a), components(b))
}

/// No list of pieces sorts before itself.
pub proof fn lemma_pieces_less_irreflexive(a: Seq<Seq<char>>)
    ensures
        !pieces_less(a, a),
    decreases a.len(),
{
    if a.len() > 0 {
        lemma_pieces_less_irreflexive(a.drop_first());
    }
}

/// The order of lists of pieces is transitive.
pub proof fn lemma_pieces_less_transitive(a: Seq<Seq<char>>, b: Seq<Seq<char>>, c: Seq<Seq<char>>)
    requires
        pieces_less(a, b),
        pieces_less(b, c),
    ensures
        pieces_less(a, c),
    decreases a.len(),
{
    if a.len() > 0 && b.len() > 0 && c.len() > 0 {
        if a[0] == b[0] && b[0] == c[0] {
            lemma_pieces_less_transitive(a.drop_first(), b.drop_first(), c.drop_first());
        } else if a[0] != b[0] && b[0] != c[0] {
            lemma_text_less_transitive(a[0], b[0], c[0]);
            lemma_text_less_total(a[0], b[0]);
        }
    }
}

/// Whether path `a` sorts before path `b`.
pub fn path_less_exec(a: &str, b: &str) -> (r: bool)
    ensures
        r == path_less(a@, b@),
{
    let ac = chars_of(a);
    let bc = chars_of(b);
    let x = components_exec(&ac);
    let y = components_exec(&bc);
    let mut i: usize = 0;
    assert(seqs(x@).skip(0) =~= seqs(x@));
    assert(seqs(y@).skip(0) =~= seqs(y@));
    while i < x.len() && i < y.len()
        invariant
            i <= x.len(),
            i <= y.len(),
            seqs(x@) == components(a@),
            seqs(y@) == components(b@),
            pieces_less(seqs(x@), seqs(y@)) == pieces_less(seqs(x@).skip(i as int), seqs(y@).skip(i as int)),
        decreases x.len() - i,
    {
        assert(seqs(x@).skip(i as int)[0] == x@[i as int]@);
        assert(seqs(y@).skip(i as int)[0] == y@[i as int]@);
        if !same_chars(&x[i], &y[i]) {
            return text_less_exec(&x[i], &y[i]);
        }
        assert(seqs(x@).skip(i as int).drop_first() =~= seqs(x@).skip(i + 1));
        assert(seqs(y@).skip(i as int).drop_first() =~= seqs(y@).skip(i + 1));
        i = i + 1;
    }
    i < y.len()
}

/// Reading a piece without separators after `a` extends the open piece.
proof fn lemma_scan_piece(a: Seq<char>, n: Seq<char>)
    requires
        forall|i: int| 0 <= i < n.len() ==> n[i] != '/',
    ensures
        scan(a + n) == (scan(a).0, scan(a).1 + n),
    decreases n.len(),
{
    if n.len() == 0 {
        assert(a + n =~= a);
        assert(scan(a).1 + n =~= scan(a).1);
    } else {
        let m = n.drop_last();
        assert((a + n).drop_last() =~= a + m);
        assert((a + n).last() == n.last());
        lemma_scan_piece(a, m);
        assert((scan(a).1 + m).push(n.last()) =~= scan(a).1 + n);
    }
}

/// Law: a name pushed onto a folder is the file name of the result, for any
/// name that is a single component (not empty, without separators, neither
/// `.` nor `..`).
pub proof fn lemma_file_name_of_join(base: Seq<char>, name: Seq<char>)
    requires
        name.len() > 0,
        forall|i: int| 0 <= i < name.len() ==> name[i] != '/',
        name != dot(),
        name != dot_dot(),
    ensures
        file_name(join(base, name)) == Some(name),
{
    assert(!is_absolute(name));
    let a = if base.len() > 0 && base.last() != '/' { base.push('/') } else { base };
    assert(join(base, name) == a + name);
    if a.len() > 0 {
        assert(a.last() == '/');
        assert(scan(a).1 == Seq::<char>::empty());
    } else {
        assert(scan(a).1 == Seq::<char>::empty());
    }
    lemma_scan_piece(a, name);
    assert(Seq::<char>::empty() + name =~= name);
}

} // verus!
