//! Name templates: placeholders such as `{name}` or `{date}` are replaced by
//! facts of a file, and the result is held to the rules every file name on
//! common systems must follow.
use chrono::Datelike;
use vstd::prelude::*;

use crate::pathname::{extension, file_stem, joined, stem_and_extension};
use crate::text::{
    append_chars, chars_of, seqs, decimal, decimal_exec, find_char, first_index, lemma_first_index,
    lower_ascii, lower_ascii_exec, slice_chars, contains, contains_exec, occurs_at, string_of, utf8_len, utf8_len_exec, zero_padded,
    zero_padded_exec,
};

verus! {

/// Longest template accepted, in bytes.
pub const MAX_TEMPLATE_LENGTH: usize = 256;

/// Longest file name a template may produce, in bytes.
pub const MAX_NAME_LENGTH: usize = 200;

/// Why a template could not be turned into a name.
#[derive(Debug, Clone, Copy, PartialEq, Eq, Structural)]
pub enum TemplateError {
    TooLong,
    UnknownPlaceholder,
    PathTraversal,
    ForbiddenCharacter,
    ReservedName,
    Unusable,
}

/// The text that describes an error.
pub open spec fn template_error_text(e: TemplateError) -> Seq<char> {
    match e {
        TemplateError::TooLong => "the template is longer than the allowed limit"@,
        TemplateError::UnknownPlaceholder => "the template contains an unknown placeholder"@,
        TemplateError::PathTraversal => "the template would escape the destination folder"@,
        TemplateError::ForbiddenCharacter => "the result contains a character that is not valid in a file name"@,
        TemplateError::ReservedName => "the result is a name reserved by the operating system"@,
        TemplateError::Unusable => "the result is empty or would be trimmed away"@,
    }
}

impl TemplateError {
    /// The message that describes the error.
    pub fn message(&self) -> (r: String)
        ensures
            r@ == template_error_text(*self),
    {
        match self {
            TemplateError::TooLong => String::from_str("the template is longer than the allowed limit"),
            TemplateError::UnknownPlaceholder => String::from_str("the template contains an unknown placeholder"),
            TemplateError::PathTraversal => String::from_str("the template would escape the destination folder"),
            TemplateError::ForbiddenCharacter => String::from_str("the result contains a character that is not valid in a file name"),
            TemplateError::ReservedName => String::from_str("the result is a name reserved by the operating system"),
            TemplateError::Unusable => String::from_str("the result is empty or would be trimmed away"),
        }
    }
}

/// The facts a template can draw on.
#[derive(Debug, Clone)]
pub struct Substitutions {
    /// The file being named.
    pub path: String,
    /// When the file was last modified, in nanoseconds since the Unix epoch.
    pub modified: i128,
    /// A running number for the file within its batch.
    pub counter: u32,
}

/// A day of the calendar.
#[derive(Debug, Clone, Copy, PartialEq, Eq, Structural)]
pub struct CalendarDate {
    pub year: i32,
    pub month: u32,
    pub day: u32,
}

/// A date whose fields lie in the ranges a calendar allows.
pub open spec fn valid_date(d: CalendarDate) -> bool {
    &&& 1 <= d.month <= 12
    &&& 1 <= d.day <= 31
    &&& -262143 <= d.year <= 262143
}

/// The first second after the epoch (negative: before it) that the calendar
/// places: one day after the earliest moment `chrono` represents, the
/// first second of the year -262143, so that a local offset of less than a
/// day never leaves `chrono`'s range.
pub const EARLIEST_CALENDAR_SECOND: i128 = -8_334_601_142_400;

/// The last second after the epoch that the calendar places: one day before
/// the latest moment `chrono` represents, the last second of the year 262142.
pub const LATEST_CALENDAR_SECOND: i128 = 8_210_266_790_399;

/// A moment (nanoseconds since the epoch) whose second the calendar places.
pub open spec fn calendar_moment(moment: i128) -> bool {
    EARLIEST_CALENDAR_SECOND * 1_000_000_000 <= moment < (LATEST_CALENDAR_SECOND + 1) * 1_000_000_000
}

/// Whether `y` is a leap year of the Gregorian calendar.
pub open spec fn leap_year(y: int) -> bool {
    y % 4 == 0 && (y % 100 != 0 || y % 400 == 0)
}

/// How many days month `m` of year `y` has.
pub open spec fn days_in_month(y: int, m: int) -> int {
    if m == 2 {
        if leap_year(y) { 29 } else { 28 }
    } else if m == 4 || m == 6 || m == 9 || m == 11 {
        30
    } else {
        31
    }
}

/// The number of days from 1970-01-01 to `d` (negative before it) in the
/// proleptic Gregorian calendar: years counted from March, in eras of 400
/// years of 146097 days.
pub open spec fn day_number(d: CalendarDate) -> int {
    let y = d.year as int;
    let m = d.month as int;
    let shifted = if m <= 2 { y - 1 } else { y };
    let era = shifted / 400;
    let year_of_era = shifted - era * 400;
    let month_from_march = if m > 2 { m - 3 } else { m + 9 };
    let day_of_year = (153 * month_from_march + 2) / 5 + d.day as int - 1;
    let day_of_era = year_of_era * 365 + year_of_era / 4 - year_of_era / 100 + day_of_year;
    era * 146097 + day_of_era - 719468
}

/// The day, counted from the epoch, that second `s` falls on.
pub open spec fn day_of_second(s: int) -> int {
    s / 86400
}

/// `d` is the calendar date of the moment `seconds` after the epoch as seen
/// under some offset from UTC of less than a day, as every time zone is.
pub open spec fn local_date_at(seconds: int, d: CalendarDate) -> bool {
    &&& valid_date(d)
    &&& d.day <= days_in_month(d.year as int, d.month as int)
    &&& exists|offset: int| -86400 < offset < 86400 && #[trigger] day_of_second(seconds + offset) == day_number(d)
}

/// `d` may stand for the date of a file modified at `moment`: a valid date,
/// and the local date of that moment whenever the calendar can place it.
pub open spec fn date_of_file(moment: i128, d: CalendarDate) -> bool {
    &&& valid_date(d)
    &&& calendar_moment(moment) ==> local_date_at(moment as int / 1_000_000_000, d)
}

/// The calendar date of a moment in the machine's local time zone
/// (`chrono::DateTime::<Utc>::from_timestamp`, then `with_timezone(&Local)`
/// and the `Datelike` accessors). `chrono`'s offsets lie strictly between
/// minus and plus one day (`FixedOffset::east_opt`), so the date is that of
/// the moment shifted by such an offset; which offset depends on the time
/// zone the machine is set to, and is not stated. When the machine's zone
/// data cannot be read, `chrono` falls back to UTC. Its lookups of a local
/// time type fail only on overflow near the ends of `i64` seconds, far beyond
/// the range the `requires` admits, and that range stays a day inside the
/// dates `chrono` represents, so neither `from_timestamp` nor the shift to
/// local time leaves it.
#[verifier::external_body]
fn local_calendar_date(seconds: i64, nanos: u32) -> (d: CalendarDate)
    requires
        EARLIEST_CALENDAR_SECOND <= seconds <= LATEST_CALENDAR_SECOND,
        nanos < 1_000_000_000,
    ensures
        local_date_at(seconds as int, d),
{
    let utc = chrono::DateTime::<chrono::Utc>::from_timestamp(seconds, nanos).unwrap();
    let local = utc.with_timezone(&chrono::Local);
    CalendarDate { year: local.year(), month: local.month(), day: local.day() }
}

/// Whether the calendar can place `moment`.
pub fn on_calendar(moment: i128) -> (r: bool)
    ensures
        r == calendar_moment(moment),
{
    EARLIEST_CALENDAR_SECOND * 1_000_000_000 <= moment && moment < (LATEST_CALENDAR_SECOND + 1) * 1_000_000_000
}

/// The local calendar date of a moment.
pub fn calendar_date_of(moment: i128) -> (d: CalendarDate)
    requires
        calendar_moment(moment),
    ensures
        date_of_file(moment, d),
{
    let seconds: i128 = moment / 1_000_000_000;
    let rest: i128 = moment % 1_000_000_000;
    let (seconds, nanos) = if rest < 0 {
        (seconds - 1, rest + 1_000_000_000)
    } else {
        (seconds, rest)
    };
    assert(seconds * 1_000_000_000 + nanos == moment);
    assert(seconds as int == moment as int / 1_000_000_000);
    local_calendar_date(seconds as i64, nanos as u32)
}

/// The date a template is rendered with: the local date of `moment` where
/// the calendar can place it, else the first day of 1970, for templates that
/// never read the date.
pub fn date_for(moment: i128) -> (d: CalendarDate)
    ensures
        date_of_file(moment, d),
{
    if on_calendar(moment) {
        calendar_date_of(moment)
    } else {
        CalendarDate { year: 1970, month: 1, day: 1 }
    }
}

// ---------------------------------------------------------------------------
// The rules of a valid file name
// ---------------------------------------------------------------------------

/// Characters that no file name on common systems may hold.
pub open spec fn forbidden_char(c: char) -> bool {
    c == '/' || c == '\\' || c == ':' || c == '*' || c == '?' || c == '"' || c == '<' || c == '>'
        || c == '|'
}

/// Control characters (Unicode category Cc).
pub open spec fn control_char(c: char) -> bool {
    (c as u32) <= 0x1F || (0x7F <= (c as u32) && (c as u32) <= 0x9F)
}

/// White space as Unicode defines it (what `str::trim` removes).
pub open spec fn whitespace_char(c: char) -> bool {
    let u = c as u32;
    (0x09 <= u && u <= 0x0D) || u == 0x20 || u == 0x85 || u == 0xA0 || u == 0x1680 || (0x2000 <= u
        && u <= 0x200A) || u == 0x2028 || u == 0x2029 || u == 0x202F || u == 0x205F || u == 0x3000
}

/// `s` holds a character that a file name cannot hold.
pub open spec fn has_bad_char(s: Seq<char>) -> bool {
    exists|i: int| 0 <= i < s.len() && (forbidden_char(s[i]) || control_char(s[i]))
}

/// `s` is empty, too long, or would be changed by trimming white space or
/// trailing dots.
pub open spec fn unusable(s: Seq<char>) -> bool {
    s.len() == 0 || whitespace_char(s[0]) || whitespace_char(s.last()) || s.last() == '.'
        || utf8_len(s) > MAX_NAME_LENGTH
}

/// The part of a name before its first dot.
pub open spec fn before_first_dot(s: Seq<char>) -> Seq<char> {
    let k = first_index(s, '.');
    if k >= 0 {
        s.subrange(0, k)
    } else {
        s
    }
}

/// Device names that some systems reserve (compared in lower case).
pub open spec fn reserved_stem(t: Seq<char>) -> bool {
    ||| t == seq!['c', 'o', 'n']
    ||| t == seq!['p', 'r', 'n']
    ||| t == seq!['a', 'u', 'x']
    ||| t == seq!['n', 'u', 'l']
    ||| t.len() == 4 && (t.subrange(0, 3) == seq!['c', 'o', 'm'] || t.subrange(0, 3) == seq![
        'l',
        'p',
        't',
    ]) && '1' <= t[3] && t[3] <= '9'
}

/// The verdict on a candidate file name.
pub open spec fn name_verdict(s: Seq<char>) -> Result<(), TemplateError> {
    if has_bad_char(s) {
        Err(TemplateError::ForbiddenCharacter)
    } else if unusable(s) {
        Err(TemplateError::Unusable)
    } else if reserved_stem(lower_ascii(before_first_dot(s))) {
        Err(TemplateError::ReservedName)
    } else {
        Ok(())
    }
}

fn forbidden_or_control(c: char) -> (r: bool)
    ensures
        r == (forbidden_char(c) || control_char(c)),
{
    let u: u32 = c as u32;
    c == '/' || c == '\\' || c == ':' || c == '*' || c == '?' || c == '"' || c == '<' || c == '>'
        || c == '|' || u <= 0x1F || (0x7F <= u && u <= 0x9F)
}

fn whitespace_exec(c: char) -> (r: bool)
    ensures
        r == whitespace_char(c),
{
    let u: u32 = c as u32;
    (0x09 <= u && u <= 0x0D) || u == 0x20 || u == 0x85 || u == 0xA0 || u == 0x1680 || (0x2000 <= u
        && u <= 0x200A) || u == 0x2028 || u == 0x2029 || u == 0x202F || u == 0x205F || u == 0x3000
}

fn has_bad_char_exec(s: &Vec<char>) -> (r: bool)
    ensures
        r == has_bad_char(s@),
{
    let mut i: usize = 0;
    while i < s.len()
        invariant
            i <= s.len(),
            forall|j: int| 0 <= j < i ==> !(forbidden_char(s@[j]) || control_char(s@[j])),
        decreases s.len() - i,
    {
        if forbidden_or_control(s[i]) {
            return true;
        }
        i = i + 1;
    }
    false
}

fn reserved_stem_exec(t: &Vec<char>) -> (r: bool)
    ensures
        r == reserved_stem(t@),
{
    let n = t.len();
    let three = n == 3;
    if three && t[0] == 'c' && t[1] == 'o' && t[2] == 'n' {
        assert(t@ =~= seq!['c', 'o', 'n']);
        return true;
    }
    if three && t[0] == 'p' && t[1] == 'r' && t[2] == 'n' {
        assert(t@ =~= seq!['p', 'r', 'n']);
        return true;
    }
    if three && t[0] == 'a' && t[1] == 'u' && t[2] == 'x' {
        assert(t@ =~= seq!['a', 'u', 'x']);
        return true;
    }
    if three && t[0] == 'n' && t[1] == 'u' && t[2] == 'l' {
        assert(t@ =~= seq!['n', 'u', 'l']);
        return true;
    }
    if n == 4 && '1' <= t[3] && t[3] <= '9' {
        if t[0] == 'c' && t[1] == 'o' && t[2] == 'm' {
            assert(t@.subrange(0, 3) =~= seq!['c', 'o', 'm']);
            return true;
        }
        if t[0] == 'l' && t[1] == 'p' && t[2] == 't' {
            assert(t@.subrange(0, 3) =~= seq!['l', 'p', 't']);
            return true;
        }
    }
    proof {
        if n == 3 {
            assert(t@ != seq!['c', 'o', 'n'] && t@ != seq!['p', 'r', 'n']) by {
                if t@ == seq!['c', 'o', 'n'] {
                    assert(t@[0] == 'c' && t@[1] == 'o' && t@[2] == 'n');
                }
                if t@ == seq!['p', 'r', 'n'] {
                    assert(t@[0] == 'p' && t@[1] == 'r' && t@[2] == 'n');
                }
            }
            assert(t@ != seq!['a', 'u', 'x'] && t@ != seq!['n', 'u', 'l']) by {
                if t@ == seq!['a', 'u', 'x'] {
                    assert(t@[0] == 'a' && t@[1] == 'u' && t@[2] == 'x');
                }
                if t@ == seq!['n', 'u', 'l'] {
                    assert(t@[0] == 'n' && t@[1] == 'u' && t@[2] == 'l');
                }
            }
        }
        if n == 4 {
            assert(t@.subrange(0, 3) != seq!['c', 'o', 'm'] || !('1' <= t@[3] && t@[3] <= '9')) by {
                if t@.subrange(0, 3) == seq!['c', 'o', 'm'] {
                    assert(t@.subrange(0, 3)[0] == 'c' && t@.subrange(0, 3)[1] == 'o'
                        && t@.subrange(0, 3)[2] == 'm');
                }
            }
            assert(t@.subrange(0, 3) != seq!['l', 'p', 't'] || !('1' <= t@[3] && t@[3] <= '9')) by {
                if t@.subrange(0, 3) == seq!['l', 'p', 't'] {
                    assert(t@.subrange(0, 3)[0] == 'l' && t@.subrange(0, 3)[1] == 'p'
                        && t@.subrange(0, 3)[2] == 't');
                }
            }
        }
    }
    false
}

fn before_first_dot_exec(s: &Vec<char>) -> (r: Vec<char>)
    ensures
        r@ == before_first_dot(s@),
{
    proof {
        lemma_first_index(s@, '.');
    }
    match find_char(s, '.') {
        Some(k) => slice_chars(s, 0, k),
        None => slice_chars(s, 0, s.len()),
    }
}

/// Holds a candidate file name to the naming rules.
pub fn validate(s: &Vec<char>) -> (r: Result<(), TemplateError>)
    ensures
        r == name_verdict(s@),
{
    if has_bad_char_exec(s) {
        return Err(TemplateError::ForbiddenCharacter);
    }
    let len = utf8_len_exec(s, MAX_NAME_LENGTH);
    if s.len() == 0 || whitespace_exec(s[0]) || whitespace_exec(s[s.len() - 1]) || s[s.len() - 1]
        == '.' || len > MAX_NAME_LENGTH {
        return Err(TemplateError::Unusable);
    }
    let stem = before_first_dot_exec(s);
    let lowered = lower_ascii_exec(&stem);
    if reserved_stem_exec(&lowered) {
        return Err(TemplateError::ReservedName);
    }
    Ok(())
}

// ---------------------------------------------------------------------------
// Placeholders
// ---------------------------------------------------------------------------

/// `%Y` as `chrono` writes it: four digits at least, with a sign outside 0..=9999.
pub open spec fn year_text(y: int) -> Seq<char> {
    if 0 <= y <= 9999 {
        zero_padded(decimal(y as nat), 4)
    } else if y < 0 {
        seq!['-'] + zero_padded(decimal((-y) as nat), 4)
    } else {
        seq!['+'] + zero_padded(decimal(y as nat), 4)
    }
}

/// A month or day as two digits.
pub open spec fn two_digits(n: nat) -> Seq<char> {
    zero_padded(decimal(n), 2)
}

/// `%Y-%m-%d`.
pub open spec fn date_text(d: CalendarDate) -> Seq<char> {
    year_text(d.year as int) + seq!['-'] + two_digits(d.month as nat) + seq!['-'] + two_digits(
        d.day as nat,
    )
}

/// The value of a placeholder for a file at `path`.
pub open spec fn placeholder_value(
    word: Seq<char>,
    path: Seq<char>,
    date: CalendarDate,
    counter: u32,
) -> Result<Seq<char>, TemplateError> {
    if word == seq!['n', 'a', 'm', 'e'] {
        Ok(
            match file_stem(path) {
                Some(s) => s,
                None => Seq::empty(),
            },
        )
    } else if word == seq!['e', 'x', 't'] {
        Ok(
            match extension(path) {
                Some(e) => e,
                None => Seq::empty(),
            },
        )
    } else if word == seq!['d', 'a', 't', 'e'] {
        Ok(date_text(date))
    } else if word == seq!['y', 'e', 'a', 'r'] {
        Ok(year_text(date.year as int))
    } else if word == seq!['m', 'o', 'n', 't', 'h'] {
        Ok(two_digits(date.month as nat))
    } else if word == seq!['d', 'a', 'y'] {
        Ok(two_digits(date.day as nat))
    } else if word == seq!['c', 'o', 'u', 'n', 't', 'e', 'r'] {
        Ok(decimal(counter as nat))
    } else {
        Err(TemplateError::UnknownPlaceholder)
    }
}

/// `t` with each `{word}` replaced by its value, read from the left.
pub open spec fn substituted(
    t: Seq<char>,
    path: Seq<char>,
    date: CalendarDate,
    counter: u32,
) -> Result<Seq<char>, TemplateError>
    decreases t.len(),
{
    let open = first_index(t, '{');
    if open < 0 {
        Ok(t)
    } else {
        let after = t.subrange(open + 1, t.len() as int);
        let close = first_index(after, '}');
        if close < 0 {
            Err(TemplateError::UnknownPlaceholder)
        } else {
            proof {
                lemma_first_index(t, '{');
                lemma_first_index(after, '}');
            }
            match placeholder_value(after.subrange(0, close), path, date, counter) {
                Err(e) => Err(e),
                Ok(v) => match substituted(
                    after.subrange(close + 1, after.len() as int),
                    path,
                    date,
                    counter,
                ) {
                    Ok(r) => Ok(t.subrange(0, open) + v + r),
                    Err(e) => Err(e),
                },
            }
        }
    }
}

fn word_is(v: &Vec<char>, w: &Vec<char>) -> (r: bool)
    ensures
        r == (v@ == w@),
{
    crate::text::same_chars(v, w)
}

fn year_text_exec(y: i32) -> (r: Vec<char>)
    ensures
        r@ == year_text(y as int),
{
    if 0 <= y && y <= 9999 {
        let digits = decimal_exec(y as u64);
        zero_padded_exec(&digits, 4)
    } else if y < 0 {
        let magnitude: u64 = (-(y as i64)) as u64;
        let digits = decimal_exec(magnitude);
        let mut r: Vec<char> = vec!['-'];
        let padded = zero_padded_exec(&digits, 4);
        append_chars(&mut r, &padded);
        r
    } else {
        let digits = decimal_exec(y as u64);
        let mut r: Vec<char> = vec!['+'];
        let padded = zero_padded_exec(&digits, 4);
        append_chars(&mut r, &padded);
        r
    }
}

fn two_digits_exec(n: u32) -> (r: Vec<char>)
    ensures
        r@ == two_digits(n as nat),
{
    let digits = decimal_exec(n as u64);
    zero_padded_exec(&digits, 2)
}

/// The value of one placeholder.
pub fn resolve(word: &Vec<char>, path: &Vec<char>, date: CalendarDate, counter: u32) -> (r: Result<
    Vec<char>,
    TemplateError,
>)
    ensures
        match r {
            Ok(v) => placeholder_value(word@, path@, date, counter) == Ok::<Seq<char>, TemplateError>(v@),
            Err(e) => placeholder_value(word@, path@, date, counter) == Err::<Seq<char>, TemplateError>(e),
        },
{
    if word_is(word, &vec!['n', 'a', 'm', 'e']) {
        match stem_and_extension(path) {
            Some((stem, _)) => Ok(stem),
            None => Ok(Vec::new()),
        }
    } else if word_is(word, &vec!['e', 'x', 't']) {
        match stem_and_extension(path) {
            Some((_, Some(ext))) => Ok(ext),
            _ => Ok(Vec::new()),
        }
    } else if word_is(word, &vec!['d', 'a', 't', 'e']) {
        let mut r = year_text_exec(date.year);
        r.push('-');
        let m = two_digits_exec(date.month);
        append_chars(&mut r, &m);
        r.push('-');
        let d = two_digits_exec(date.day);
        append_chars(&mut r, &d);
        assert(r@ =~= date_text(date));
        Ok(r)
    } else if word_is(word, &vec!['y', 'e', 'a', 'r']) {
        Ok(year_text_exec(date.year))
    } else if word_is(word, &vec!['m', 'o', 'n', 't', 'h']) {
        Ok(two_digits_exec(date.month))
    } else if word_is(word, &vec!['d', 'a', 'y']) {
        Ok(two_digits_exec(date.day))
    } else if word_is(word, &vec!['c', 'o', 'u', 'n', 't', 'e', 'r']) {
        Ok(decimal_exec(counter as u64))
    } else {
        Err(TemplateError::UnknownPlaceholder)
    }
}

/// Replaces every placeholder of `template`.
pub fn substitute(template: &Vec<char>, path: &Vec<char>, date: CalendarDate, counter: u32) -> (r:
    Result<Vec<char>, TemplateError>)
    ensures
        match r {
            Ok(v) => substituted(template@, path@, date, counter) == Ok::<Seq<char>, TemplateError>(v@),
            Err(e) => substituted(template@, path@, date, counter) == Err::<Seq<char>, TemplateError>(e),
        },
{
    let mut out: Vec<char> = Vec::new();
    let mut pos: usize = 0;
    proof {
        assert(template@.subrange(0, template.len() as int) =~= template@);
        match substituted(template@, path@, date, counter) {
            Ok(rest) => {
                assert(out@ + rest =~= rest);
            },
            Err(e) => {},
        }
    }
    while pos < template.len()
        invariant
            pos <= template.len(),
            match substituted(template@.subrange(pos as int, template.len() as int), path@, date, counter) {
                Ok(rest) => substituted(template@, path@, date, counter) == Ok::<Seq<char>, TemplateError>(out@ + rest),
                Err(e) => substituted(template@, path@, date, counter) == Err::<Seq<char>, TemplateError>(e),
            },
        decreases template.len() - pos,
    {
        let rest = slice_chars(template, pos, template.len());
        proof {
            lemma_first_index(rest@, '{');
        }
        match find_char(&rest, '{') {
            None => {
                append_chars(&mut out, &rest);
                assert(template@.subrange(template.len() as int, template.len() as int) =~= Seq::<char>::empty());
                assert(substituted(Seq::<char>::empty(), path@, date, counter) == Ok::<Seq<char>, TemplateError>(Seq::<char>::empty()));
                assert(out@ =~= out@ + Seq::<char>::empty());
                pos = template.len();
            },
            Some(open) => {
                let after = slice_chars(&rest, open + 1, rest.len());
                proof {
                    lemma_first_index(after@, '}');
                }
                match find_char(&after, '}') {
                    None => {
                        return Err(TemplateError::UnknownPlaceholder);
                    },
                    Some(close) => {
                        let word = slice_chars(&after, 0, close);
                        match resolve(&word, path, date, counter) {
                            Err(e) => {
                                return Err(e);
                            },
                            Ok(value) => {
                                let before = slice_chars(&rest, 0, open);
                                let ghost tail = after@.subrange(close + 1, after.len() as int);
                                assert(tail =~= template@.subrange(
                                    pos + open + 1 + close + 1,
                                    template.len() as int,
                                ));
                                let ghost old_out = out@;
                                append_chars(&mut out, &before);
                                append_chars(&mut out, &value);
                                proof {
                                    match substituted(tail, path@, date, counter) {
                                        Ok(r) => {
                                            assert(old_out + (before@ + value@ + r) =~= out@ + r);
                                        },
                                        Err(e) => {},
                                    }
                                }
                                pos = pos + open + 1 + close + 1;
                            },
                        }
                    },
                }
            },
        }
    }
    proof {
        assert(template@.subrange(pos as int, template.len() as int) =~= Seq::<char>::empty());
        assert(out@ + Seq::<char>::empty() =~= out@);
    }
    Ok(out)
}

// ---------------------------------------------------------------------------
// Rendering
// ---------------------------------------------------------------------------

/// Two dots in a row anywhere in the template.
pub open spec fn has_double_dot(t: Seq<char>) -> bool {
    exists|i: int| 0 <= i && i + 1 < t.len() && #[trigger] t[i] == '.' && t[i + 1] == '.'
}

/// What rendering `template` gives once the date of the file is known.
pub open spec fn rendered(
    template: Seq<char>,
    path: Seq<char>,
    date: CalendarDate,
    counter: u32,
) -> Result<Seq<char>, TemplateError> {
    if utf8_len(template) > MAX_TEMPLATE_LENGTH {
        Err(TemplateError::TooLong)
    } else if has_double_dot(template) {
        Err(TemplateError::PathTraversal)
    } else {
        match substituted(template, path, date, counter) {
            Err(e) => Err(e),
            Ok(name) => match name_verdict(name) {
                Err(e) => Err(e),
                Ok(_) => Ok(name),
            },
        }
    }
}

fn reject_traversal(template: &Vec<char>) -> (r: Result<(), TemplateError>)
    ensures
        r is Ok <==> !has_double_dot(template@),
        r is Err ==> r == Err::<(), TemplateError>(TemplateError::PathTraversal),
{
    let mut i: usize = 0;
    while i < template.len()
        invariant
            forall|j: int| 0 <= j < i && j + 1 < template@.len() ==> !(#[trigger] template@[j] == '.'
                && template@[j + 1] == '.'),
        decreases template.len() - i,
    {
        if i + 1 < template.len() && template[i] == '.' && template[i + 1] == '.' {
            return Err(TemplateError::PathTraversal);
        }
        i = i + 1;
    }
    Ok(())
}

/// Renders a template with the date already known.
pub fn render_on(template: &Vec<char>, path: &Vec<char>, date: CalendarDate, counter: u32) -> (r:
    Result<Vec<char>, TemplateError>)
    ensures
        match r {
            Ok(v) => rendered(template@, path@, date, counter) == Ok::<Seq<char>, TemplateError>(v@),
            Err(e) => rendered(template@, path@, date, counter) == Err::<Seq<char>, TemplateError>(e),
        },
{
    if utf8_len_exec(template, MAX_TEMPLATE_LENGTH) > MAX_TEMPLATE_LENGTH {
        return Err(TemplateError::TooLong);
    }
    if let Err(e) = reject_traversal(template) {
        return Err(e);
    }
    let name = match substitute(template, path, date, counter) {
        Ok(name) => name,
        Err(e) => return Err(e),
    };
    match validate(&name) {
        Ok(()) => Ok(name),
        Err(e) => Err(e),
    }
}

/// Renders `template` into a file name for the file `values` describes.
///
/// The date placeholders take the local date of the file's modification time,
/// read only when the template needs it: the result is the rendering for a
/// date that is the local date of that moment under the machine's time zone,
/// and a template without date placeholders renders the same for every date.
pub fn render(template: &str, values: &Substitutions) -> (r: Result<String, TemplateError>)
    requires
        calendar_moment(values.modified) || !date_needed(template@),
    ensures
        exists|d: CalendarDate|
            #![trigger rendered(template@, values.path@, d, values.counter)]
            date_of_file(values.modified, d) && match r {
                Ok(s) => rendered(template@, values.path@, d, values.counter) == Ok::<Seq<char>, TemplateError>(s@),
                Err(e) => rendered(template@, values.path@, d, values.counter) == Err::<Seq<char>, TemplateError>(e),
            },
        !date_needed(template@) ==> forall|d: CalendarDate|
            #![trigger rendered(template@, values.path@, d, values.counter)]
            match r {
                Ok(s) => rendered(template@, values.path@, d, values.counter) == Ok::<Seq<char>, TemplateError>(s@),
                Err(e) => rendered(template@, values.path@, d, values.counter) == Err::<Seq<char>, TemplateError>(e),
            },
{
    let t = chars_of(template);
    let p = chars_of(values.path.as_str());
    let date = date_for(values.modified);
    let r = match render_on(&t, &p, date, values.counter) {
        Ok(v) => Ok(string_of(&v)),
        Err(e) => Err(e),
    };
    proof {
        if !date_needed(template@) {
            assert forall|d: CalendarDate| #![trigger rendered(template@, values.path@, d, values.counter)]
                rendered(template@, values.path@, d, values.counter) == rendered(template@, values.path@, date, values.counter) by {
                lemma_rendering_date_free(template@, values.path@, d, date, values.counter);
            }
        }
    }
    r
}

// ---------------------------------------------------------------------------
// Subfolders
// ---------------------------------------------------------------------------

/// Either separator.
pub open spec fn separator(c: char) -> bool {
    c == '/' || c == '\\'
}

/// The pieces of `s` between separators, empty ones included.
pub open spec fn split_at_separators(s: Seq<char>) -> Seq<Seq<char>>
    decreases s.len(),
{
    if s.len() == 0 {
        seq![Seq::empty()]
    } else {
        let p = split_at_separators(s.drop_last());
        if separator(s.last()) {
            p.push(Seq::empty())
        } else {
            p.update(p.len() - 1, p.last().push(s.last()))
        }
    }
}

pub proof fn lemma_split_nonempty(s: Seq<char>)
    ensures
        split_at_separators(s).len() >= 1,
    decreases s.len(),
{
    if s.len() > 0 {
        lemma_split_nonempty(s.drop_last());
    }
}

/// The first piece that fails the naming rules decides; all must pass.
pub open spec fn pieces_verdict(p: Seq<Seq<char>>) -> Result<(), TemplateError>
    decreases p.len(),
{
    if p.len() == 0 {
        Ok(())
    } else {
        match name_verdict(p[0]) {
            Err(e) => Err(e),
            Ok(_) => pieces_verdict(p.drop_first()),
        }
    }
}

/// The relative folder a subfolder template builds: its pieces joined by `/`.
pub open spec fn relative_folder(s: Seq<char>) -> Result<Seq<char>, TemplateError> {
    let p = split_at_separators(s);
    match pieces_verdict(p) {
        Err(e) => Err(e),
        Ok(_) => Ok(joined(p)),
    }
}

/// What rendering a subfolder template gives once the date is known.
pub open spec fn rendered_folder(
    template: Seq<char>,
    path: Seq<char>,
    date: CalendarDate,
    counter: u32,
) -> Result<Seq<char>, TemplateError> {
    if utf8_len(template) > MAX_TEMPLATE_LENGTH {
        Err(TemplateError::TooLong)
    } else if has_double_dot(template) {
        Err(TemplateError::PathTraversal)
    } else {
        match substituted(template, path, date, counter) {
            Err(e) => Err(e),
            Ok(text) => relative_folder(text),
        }
    }
}

/// The template holds one of the date placeholders `{date}`, `{year}`,
/// `{month}` or `{day}`.
pub open spec fn mentions_date(t: Seq<char>) -> bool {
    ||| contains(t, seq!['{', 'd', 'a', 't', 'e', '}'])
    ||| contains(t, seq!['{', 'y', 'e', 'a', 'r', '}'])
    ||| contains(t, seq!['{', 'm', 'o', 'n', 't', 'h', '}'])
    ||| contains(t, seq!['{', 'd', 'a', 'y', '}'])
}

/// Rendering `t` reads the date: it is neither refused as too long or as
/// climbing out before anything is substituted, and it holds a date placeholder.
pub open spec fn date_needed(t: Seq<char>) -> bool {
    utf8_len(t) <= MAX_TEMPLATE_LENGTH && !has_double_dot(t) && mentions_date(t)
}

/// What occurs in a tail of `t` occurs in `t`.
proof fn lemma_contains_tail(t: Seq<char>, k: int, x: Seq<char>)
    requires
        0 <= k <= t.len(),
        contains(t.subrange(k, t.len() as int), x),
    ensures
        contains(t, x),
{
    let tail = t.subrange(k, t.len() as int);
    let a = choose|a: int| occurs_at(tail, x, a);
    assert(t.subrange(k + a, k + a + x.len()) =~= tail.subrange(a, a + x.len()));
    assert(occurs_at(t, x, k + a));
}

/// Without a date placeholder, substituting a template does not depend on the date.
pub proof fn lemma_substituted_date_free(t: Seq<char>, path: Seq<char>, d1: CalendarDate, d2: CalendarDate, counter: u32)
    requires
        !mentions_date(t),
    ensures
        substituted(t, path, d1, counter) == substituted(t, path, d2, counter),
    decreases t.len(),
{
    lemma_first_index(t, '{');
    let open = first_index(t, '{');
    if open >= 0 {
        let after = t.subrange(open + 1, t.len() as int);
        lemma_first_index(after, '}');
        let close = first_index(after, '}');
        if close >= 0 {
            let w = after.subrange(0, close);
            let braced = seq!['{'] + w + seq!['}'];
            assert(t.subrange(open, open + braced.len()) =~= braced);
            assert(occurs_at(t, braced, open));
            assert(contains(t, braced));
            if w == seq!['d', 'a', 't', 'e'] {
                assert(braced =~= seq!['{', 'd', 'a', 't', 'e', '}']);
            }
            if w == seq!['y', 'e', 'a', 'r'] {
                assert(braced =~= seq!['{', 'y', 'e', 'a', 'r', '}']);
            }
            if w == seq!['m', 'o', 'n', 't', 'h'] {
                assert(braced =~= seq!['{', 'm', 'o', 'n', 't', 'h', '}']);
            }
            if w == seq!['d', 'a', 'y'] {
                assert(braced =~= seq!['{', 'd', 'a', 'y', '}']);
            }
            assert(placeholder_value(w, path, d1, counter) == placeholder_value(w, path, d2, counter));
            let rest = after.subrange(close + 1, after.len() as int);
            let k = open + close + 2;
            assert(rest =~= t.subrange(k, t.len() as int));
            if mentions_date(rest) {
                if contains(rest, seq!['{', 'd', 'a', 't', 'e', '}']) {
                    lemma_contains_tail(t, k, seq!['{', 'd', 'a', 't', 'e', '}']);
                } else if contains(rest, seq!['{', 'y', 'e', 'a', 'r', '}']) {
                    lemma_contains_tail(t, k, seq!['{', 'y', 'e', 'a', 'r', '}']);
                } else if contains(rest, seq!['{', 'm', 'o', 'n', 't', 'h', '}']) {
                    lemma_contains_tail(t, k, seq!['{', 'm', 'o', 'n', 't', 'h', '}']);
                } else {
                    lemma_contains_tail(t, k, seq!['{', 'd', 'a', 'y', '}']);
                }
            }
            lemma_substituted_date_free(rest, path, d1, d2, counter);
        }
    }
}

/// A template that does not need the date renders the same whatever the date.
pub proof fn lemma_rendering_date_free(t: Seq<char>, path: Seq<char>, d1: CalendarDate, d2: CalendarDate, counter: u32)
    requires
        !date_needed(t),
    ensures
        rendered(t, path, d1, counter) == rendered(t, path, d2, counter),
        rendered_folder(t, path, d1, counter) == rendered_folder(t, path, d2, counter),
{
    if utf8_len(t) <= MAX_TEMPLATE_LENGTH && !has_double_dot(t) {
        lemma_substituted_date_free(t, path, d1, d2, counter);
    }
}

/// Whether rendering `t` reads the date.
pub fn date_needed_exec(t: &Vec<char>) -> (r: bool)
    ensures
        r == date_needed(t@),
{
    if utf8_len_exec(t, MAX_TEMPLATE_LENGTH) > MAX_TEMPLATE_LENGTH {
        return false;
    }
    if reject_traversal(t).is_err() {
        return false;
    }
    contains_exec(t, &vec!['{', 'd', 'a', 't', 'e', '}']) || contains_exec(t, &vec!['{', 'y', 'e', 'a', 'r', '}'])
        || contains_exec(t, &vec!['{', 'm', 'o', 'n', 't', 'h', '}']) || contains_exec(t, &vec!['{', 'd', 'a', 'y', '}'])
}

fn split_exec(s: &Vec<char>) -> (r: Vec<Vec<char>>)
    ensures
        seqs(r@) == split_at_separators(s@),
{
    let mut r: Vec<Vec<char>> = Vec::new();
    let mut open: Vec<char> = Vec::new();
    let mut i: usize = 0;
    while i < s.len()
        invariant
            i <= s.len(),
            seqs(r@).push(open@) == split_at_separators(s@.subrange(0, i as int)),
        decreases s.len() - i,
    {
        proof {
            lemma_split_nonempty(s@.subrange(0, i as int));
        }
        assert(s@.subrange(0, i + 1).drop_last() =~= s@.subrange(0, i as int));
        let ghost before = seqs(r@);
        if s[i] == '/' || s[i] == '\\' {
            let ghost piece = open@;
            r.push(open);
            open = Vec::new();
            assert(seqs(r@) =~= before.push(piece));
            assert(seqs(r@).push(open@) =~= before.push(piece).push(Seq::<char>::empty()));
        } else {
            let ghost piece = open@;
            open.push(s[i]);
            assert(seqs(r@).push(open@) =~= before.push(piece).update(before.len() as int, piece.push(s@[i as int])));
        }
        i = i + 1;
    }
    assert(s@.subrange(0, s@.len() as int) =~= s@);
    let ghost before = seqs(r@);
    let ghost piece = open@;
    r.push(open);
    assert(seqs(r@) =~= before.push(piece));
    r
}

/// Builds a relative folder from the rendered text, checking each piece.
pub fn build_relative(rendered_text: &Vec<char>) -> (r: Result<Vec<char>, TemplateError>)
    ensures
        match r {
            Ok(v) => relative_folder(rendered_text@) == Ok::<Seq<char>, TemplateError>(v@),
            Err(e) => relative_folder(rendered_text@) == Err::<Seq<char>, TemplateError>(e),
        },
{
    let pieces = split_exec(rendered_text);
    let mut i: usize = 0;
    assert(seqs(pieces@).subrange(0, pieces.len() as int) =~= seqs(pieces@));
    while i < pieces.len()
        invariant
            i <= pieces.len(),
            seqs(pieces@) == split_at_separators(rendered_text@),
            pieces_verdict(seqs(pieces@)) == pieces_verdict(seqs(pieces@).subrange(i as int, pieces.len() as int)),
        decreases pieces.len() - i,
    {
        assert(seqs(pieces@).subrange(i as int, pieces.len() as int).drop_first() =~= seqs(pieces@).subrange(i + 1, pieces.len() as int));
        assert(seqs(pieces@).subrange(i as int, pieces.len() as int)[0] == pieces@[i as int]@);
        if let Err(e) = validate(&pieces[i]) {
            return Err(e);
        }
        i = i + 1;
    }
    assert(seqs(pieces@).subrange(i as int, pieces.len() as int) =~= Seq::<Seq<char>>::empty());
    let joined_text = crate::pathname::joined_exec(&pieces, 0);
    assert(seqs(pieces@).subrange(0, pieces.len() as int) =~= seqs(pieces@));
    Ok(joined_text)
}

/// Renders a subfolder template with the date already known.
pub fn render_subfolder_on(template: &Vec<char>, path: &Vec<char>, date: CalendarDate, counter: u32) -> (r:
    Result<Vec<char>, TemplateError>)
    ensures
        match r {
            Ok(v) => rendered_folder(template@, path@, date, counter) == Ok::<Seq<char>, TemplateError>(v@),
            Err(e) => rendered_folder(template@, path@, date, counter) == Err::<Seq<char>, TemplateError>(e),
        },
{
    if utf8_len_exec(template, MAX_TEMPLATE_LENGTH) > MAX_TEMPLATE_LENGTH {
        return Err(TemplateError::TooLong);
    }
    if let Err(e) = reject_traversal(template) {
        return Err(e);
    }
    match substitute(template, path, date, counter) {
        Ok(text) => build_relative(&text),
        Err(e) => Err(e),
    }
}

/// Renders a subfolder template into a relative folder (pieces joined by `/`).
pub fn render_subfolder(template: &str, values: &Substitutions) -> (r: Result<String, TemplateError>)
    requires
        calendar_moment(values.modified) || !date_needed(template@),
    ensures
        exists|d: CalendarDate|
            #![trigger rendered_folder(template@, values.path@, d, values.counter)]
            date_of_file(values.modified, d) && match r {
                Ok(s) => rendered_folder(template@, values.path@, d, values.counter) == Ok::<Seq<char>, TemplateError>(s@),
                Err(e) => rendered_folder(template@, values.path@, d, values.counter) == Err::<Seq<char>, TemplateError>(e),
            },
        !date_needed(template@) ==> forall|d: CalendarDate|
            #![trigger rendered_folder(template@, values.path@, d, values.counter)]
            match r {
                Ok(s) => rendered_folder(template@, values.path@, d, values.counter) == Ok::<Seq<char>, TemplateError>(s@),
                Err(e) => rendered_folder(template@, values.path@, d, values.counter) == Err::<Seq<char>, TemplateError>(e),
            },
{
    let t = chars_of(template);
    let p = chars_of(values.path.as_str());
    let date = date_for(values.modified);
    let r = match render_subfolder_on(&t, &p, date, values.counter) {
        Ok(v) => Ok(string_of(&v)),
        Err(e) => Err(e),
    };
    proof {
        if !date_needed(template@) {
            assert forall|d: CalendarDate| #![trigger rendered_folder(template@, values.path@, d, values.counter)]
                rendered_folder(template@, values.path@, d, values.counter) == rendered_folder(template@, values.path@, date, values.counter) by {
                lemma_rendering_date_free(template@, values.path@, d, date, values.counter);
            }
        }
    }
    r
}

/// Law: every name a template renders is a valid file name: it passes the
/// naming rules, holds no separator or forbidden character, and is neither
/// empty nor `.` nor `..`.
pub proof fn lemma_rendered_name_is_valid(
    template: Seq<char>,
    path: Seq<char>,
    date: CalendarDate,
    counter: u32,
)
    requires
        rendered(template, path, date, counter) is Ok,
    ensures
        ({
            let name = rendered(template, path, date, counter)->Ok_0;
            &&& name_verdict(name) is Ok
            &&& forall|i: int| 0 <= i < name.len() ==> !forbidden_char(#[trigger] name[i])
            &&& name.len() > 0
            &&& name != crate::pathname::dot()
            &&& name != crate::pathname::dot_dot()
        }),
{
    let name = rendered(template, path, date, counter)->Ok_0;
    assert forall|i: int| 0 <= i < name.len() implies !forbidden_char(#[trigger] name[i]) by {
        if forbidden_char(name[i]) {
            assert(has_bad_char(name));
        }
    }
    assert(name.last() != '.');
    assert(name != crate::pathname::dot()) by {
        if name == crate::pathname::dot() {
            assert(name.last() == '.');
        }
    }
    assert(name != crate::pathname::dot_dot()) by {
        if name == crate::pathname::dot_dot() {
            assert(name.last() == '.');
        }
    }
}

/// Law: a template that holds `..` is refused as a path traversal, whatever
/// the file (unless it is already too long).
pub proof fn lemma_double_dot_is_refused(template: Seq<char>, path: Seq<char>, date: CalendarDate, counter: u32)
    requires
        has_double_dot(template),
        utf8_len(template) <= MAX_TEMPLATE_LENGTH,
    ensures
        rendered(template, path, date, counter) == Err::<Seq<char>, TemplateError>(TemplateError::PathTraversal),
        rendered_folder(template, path, date, counter) == Err::<Seq<char>, TemplateError>(TemplateError::PathTraversal),
{
}

/// Every piece checked by `pieces_verdict` passes the naming rules.
pub proof fn lemma_pieces_verdict_each(p: Seq<Seq<char>>, i: int)
    requires
        pieces_verdict(p) is Ok,
        0 <= i < p.len(),
    ensures
        name_verdict(p[i]) is Ok,
    decreases p.len(),
{
    if i > 0 {
        lemma_pieces_verdict_each(p.drop_first(), i - 1);
    }
}

/// The first character of joined pieces is the first character of the first piece.
pub proof fn lemma_joined_first(p: Seq<Seq<char>>)
    requires
        p.len() > 0,
        p[0].len() > 0,
    ensures
        joined(p).len() > 0,
        joined(p)[0] == p[0][0],
    decreases p.len(),
{
    if p.len() > 1 {
        lemma_joined_first(p.drop_last());
        assert(p.drop_last()[0] == p[0]);
    }
}

/// Law: a rendered subfolder is relative and each of its pieces is a valid
/// file name, so it can neither start at the root nor climb out with `..`.
pub proof fn lemma_subfolder_stays_below(template: Seq<char>, path: Seq<char>, date: CalendarDate, counter: u32)
    requires
        rendered_folder(template, path, date, counter) is Ok,
    ensures
        ({
            let text = substituted(template, path, date, counter)->Ok_0;
            let pieces = split_at_separators(text);
            let folder = rendered_folder(template, path, date, counter)->Ok_0;
            &&& folder == joined(pieces)
            &&& !crate::pathname::is_absolute(folder)
            &&& forall|i: int| 0 <= i < pieces.len() ==> name_verdict(#[trigger] pieces[i]) is Ok
                && pieces[i] != crate::pathname::dot_dot() && pieces[i] != crate::pathname::dot()
        }),
{
    assert(substituted(template, path, date, counter) is Ok);
    let text = substituted(template, path, date, counter)->Ok_0;
    let pieces = split_at_separators(text);
    assert(relative_folder(text) is Ok);
    assert(pieces_verdict(pieces) is Ok);
    lemma_split_nonempty(text);
    assert forall|i: int| 0 <= i < pieces.len() implies name_verdict(#[trigger] pieces[i]) is Ok
        && pieces[i] != crate::pathname::dot_dot() && pieces[i] != crate::pathname::dot() by {
        lemma_pieces_verdict_each(pieces, i);
        let q = pieces[i];
        assert(q.last() != '.');
        if q == crate::pathname::dot_dot() || q == crate::pathname::dot() {
            assert(q.last() == '.');
        }
    }
    lemma_pieces_verdict_each(pieces, 0);
    assert(pieces[0].len() > 0);
    lemma_joined_first(pieces);
    if forbidden_char(pieces[0][0]) {
        assert(has_bad_char(pieces[0]));
    }
}

/// Law: a number below one hundred is written as exactly two decimal
/// digits, its tens and its units, so the text reads back as the number.
pub proof fn lemma_two_digits_read_back(n: nat)
    requires
        n < 100,
    ensures
        two_digits(n).len() == 2,
        two_digits(n)[0] as int == '0' as int + n / 10,
        two_digits(n)[1] as int == '0' as int + n % 10,
        (two_digits(n)[0] as int - '0' as int) * 10 + (two_digits(n)[1] as int - '0' as int) == n,
{
    reveal_with_fuel(decimal, 2);
    if n < 10 {
        assert(decimal(n) == seq![crate::text::digit_char(n)]);
        assert(two_digits(n) =~= seq!['0', crate::text::digit_char(n)]);
    } else {
        assert(decimal(n / 10) == seq![crate::text::digit_char(n / 10)]);
        assert(decimal(n) =~= seq![crate::text::digit_char(n / 10), crate::text::digit_char(n % 10)]);
    }
}

/// Law: the `{month}` and `{day}` placeholders spell the month and the day of
/// the date as two digits that read back as them, and `{date}` ends with the
/// same digits, as `MM-DD`.
pub proof fn lemma_date_placeholders_read_back(path: Seq<char>, date: CalendarDate, counter: u32)
    requires
        valid_date(date),
    ensures
        placeholder_value(seq!['m', 'o', 'n', 't', 'h'], path, date, counter) matches Ok(m) && m.len() == 2
            && (m[0] as int - '0' as int) * 10 + (m[1] as int - '0' as int) == date.month,
        placeholder_value(seq!['d', 'a', 'y'], path, date, counter) matches Ok(d) && d.len() == 2
            && (d[0] as int - '0' as int) * 10 + (d[1] as int - '0' as int) == date.day,
        placeholder_value(seq!['d', 'a', 't', 'e'], path, date, counter) matches Ok(t) && t.len() >= 6 && t.subrange(
            t.len() - 6,
            t.len() as int,
        ) == seq!['-'] + two_digits(date.month as nat) + seq!['-'] + two_digits(date.day as nat),
{
    lemma_two_digits_read_back(date.month as nat);
    lemma_two_digits_read_back(date.day as nat);
    let t = date_text(date);
    let y = year_text(date.year as int);
    assert(t =~= y + (seq!['-'] + two_digits(date.month as nat) + seq!['-'] + two_digits(date.day as nat)));
    assert(t.subrange(t.len() - 6, t.len() as int) =~= seq!['-'] + two_digits(date.month as nat) + seq!['-'] + two_digits(date.day as nat));
}

/// Law: a year from 1000 to 9999 is written as its four decimal digits,
/// which read back as the year.
pub proof fn lemma_year_reads_back(y: int)
    requires
        1000 <= y <= 9999,
    ensures
        year_text(y).len() == 4,
        (year_text(y)[0] as int - '0' as int) * 1000 + (year_text(y)[1] as int - '0' as int) * 100
            + (year_text(y)[2] as int - '0' as int) * 10 + (year_text(y)[3] as int - '0' as int) == y,
{
    reveal_with_fuel(decimal, 4);
    let n = y as nat;
    assert(decimal(n / 1000) == seq![crate::text::digit_char(n / 1000)]);
    assert(decimal(n / 100) =~= seq![crate::text::digit_char(n / 1000), crate::text::digit_char((n / 100) % 10)]);
    assert(decimal(n / 10) =~= seq![crate::text::digit_char(n / 1000), crate::text::digit_char((n / 100) % 10), crate::text::digit_char((n / 10) % 10)]);
    assert(decimal(n) =~= seq![crate::text::digit_char(n / 1000), crate::text::digit_char((n / 100) % 10), crate::text::digit_char((n / 10) % 10), crate::text::digit_char(n % 10)]);
}

} // verus!
