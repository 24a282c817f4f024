//! Calendar dates with a time of day, interpreted as UTC.
//!
//! Due dates are written and read in one fixed grammar,
//! `DD.MM.YYYY HH:MM`; the display of a due date that is not overdue
//! uses the shorter `DD-MM-YYYY` form.

use vstd::prelude::*;
use crate::text::{
    is_digit, digit_val, digit_char, is_digit_x, digit_val_x, digit_char_x, push_char,
};

verus! {

/// A calendar date and time of day, interpreted as UTC.
#[derive(Clone, Copy, PartialEq, Eq, Structural, Debug)]
pub struct DueDate {
    pub year: u32,
    pub month: u32,
    pub day: u32,
    pub hour: u32,
    pub minute: u32,
}

/// The error reported when a user-supplied due date does not match the
/// `DD.MM.YYYY HH:MM` grammar or names no real calendar date.
#[derive(Clone, Copy, PartialEq, Eq, Structural, Debug)]
pub struct DueDateFormatError;

pub open spec fn spec_is_leap_year(y: u32) -> bool {
    y % 4 == 0 && (y % 100 != 0 || y % 400 == 0)
}

pub open spec fn spec_days_in_month(y: u32, m: u32) -> u32
    recommends
        1 <= m <= 12,
{
    if m == 2 {
        if spec_is_leap_year(y) { 29 } else { 28 }
    } else if m == 4 || m == 6 || m == 9 || m == 11 {
        30
    } else {
        31
    }
}

/// A real calendar date (proleptic Gregorian, four-digit year) with a
/// real time of day.
pub open spec fn date_valid(d: DueDate) -> bool {
    &&& d.year <= 9999
    &&& 1 <= d.month <= 12
    &&& 1 <= d.day <= spec_days_in_month(d.year, d.month)
    &&& d.hour <= 23
    &&& d.minute <= 59
}

/// `a` is strictly earlier than `b`: lexicographic on
/// (year, month, day, hour, minute), which for UTC dates agrees with
/// the order of the instants they name.
pub open spec fn date_lt(a: DueDate, b: DueDate) -> bool {
    if a.year != b.year { a.year < b.year }
    else if a.month != b.month { a.month < b.month }
    else if a.day != b.day { a.day < b.day }
    else if a.hour != b.hour { a.hour < b.hour }
    else { a.minute < b.minute }
}

pub fn is_leap_year(y: u32) -> (r: bool)
    ensures
        r == spec_is_leap_year(y),
{
    y % 4 == 0 && (y % 100 != 0 || y % 400 == 0)
}

pub fn days_in_month(y: u32, m: u32) -> (r: u32)
    ensures
        r == spec_days_in_month(y, m),
{
    if m == 2 {
        if is_leap_year(y) { 29 } else { 28 }
    } else if m == 4 || m == 6 || m == 9 || m == 11 {
        30
    } else {
        31
    }
}

pub fn date_valid_x(d: &DueDate) -> (r: bool)
    ensures
        r == date_valid(*d),
{
    d.year <= 9999 && 1 <= d.month && d.month <= 12 && 1 <= d.day
        && d.day <= days_in_month(d.year, d.month) && d.hour <= 23 && d.minute <= 59
}

/// Whether `a` names an earlier instant than `b`.
pub fn is_before(a: &DueDate, b: &DueDate) -> (r: bool)
    ensures
        r == date_lt(*a, *b),
{
    if a.year != b.year { a.year < b.year }
    else if a.month != b.month { a.month < b.month }
    else if a.day != b.day { a.day < b.day }
    else if a.hour != b.hour { a.hour < b.hour }
    else { a.minute < b.minute }
}

/// Two decimal digits, zero padded.
pub open spec fn pad2(n: nat) -> Seq<char>
    recommends
        n <= 99,
{
    seq![digit_char(n / 10), digit_char(n % 10)]
}

/// Four decimal digits, zero padded.
pub open spec fn pad4(n: nat) -> Seq<char>
    recommends
        n <= 9999,
{
    seq![
        digit_char(n / 1000),
        digit_char((n / 100) % 10),
        digit_char((n / 10) % 10),
        digit_char(n % 10),
    ]
}

/// The sixteen-character form `DD.MM.YYYY HH:MM`.
pub open spec fn render_due(d: DueDate) -> Seq<char> {
    pad2(d.day as nat) + seq!['.'] + pad2(d.month as nat) + seq!['.'] + pad4(d.year as nat)
        + seq![' '] + pad2(d.hour as nat) + seq![':'] + pad2(d.minute as nat)
}

/// The ten-character date-only display form `DD-MM-YYYY`.
pub open spec fn render_due_short(d: DueDate) -> Seq<char> {
    pad2(d.day as nat) + seq!['-'] + pad2(d.month as nat) + seq!['-'] + pad4(d.year as nat)
}

pub fn append_pad2(out: &mut String, n: u32)
    requires
        n <= 99,
    ensures
        final(out)@ == old(out)@ + pad2(n as nat),
{
    let hi = digit_char_x(n / 10);
    let lo = digit_char_x(n % 10);
    push_char(out, hi);
    push_char(out, lo);
    assert((n / 10) as nat == (n as nat) / 10);
    assert((n % 10) as nat == (n as nat) % 10);
    assert(old(out)@.push(hi).push(lo) =~= old(out)@ + pad2(n as nat));
}

pub fn append_pad4(out: &mut String, n: u32)
    requires
        n <= 9999,
    ensures
        final(out)@ == old(out)@ + pad4(n as nat),
{
    let c0 = digit_char_x(n / 1000);
    let c1 = digit_char_x((n / 100) % 10);
    let c2 = digit_char_x((n / 10) % 10);
    let c3 = digit_char_x(n % 10);
    push_char(out, c0);
    push_char(out, c1);
    push_char(out, c2);
    push_char(out, c3);
    assert((n / 1000) as nat == (n as nat) / 1000);
    assert(((n / 100) % 10) as nat == ((n as nat) / 100) % 10);
    assert(((n / 10) % 10) as nat == ((n as nat) / 10) % 10);
    assert((n % 10) as nat == (n as nat) % 10);
    assert(old(out)@.push(c0).push(c1).push(c2).push(c3) =~= old(out)@ + pad4(n as nat));
}

/// Appends the full `DD.MM.YYYY HH:MM` form.
pub fn append_due(out: &mut String, d: &DueDate)
    requires
        date_valid(*d),
    ensures
        final(out)@ == old(out)@ + render_due(*d),
{
    append_pad2(out, d.day);
    push_char(out, '.');
    append_pad2(out, d.month);
    push_char(out, '.');
    append_pad4(out, d.year);
    push_char(out, ' ');
    append_pad2(out, d.hour);
    push_char(out, ':');
    append_pad2(out, d.minute);
    assert(final(out)@ =~= old(out)@ + render_due(*d));
}

/// Appends the date-only `DD-MM-YYYY` form.
pub fn append_due_short(out: &mut String, d: &DueDate)
    requires
        date_valid(*d),
    ensures
        final(out)@ == old(out)@ + render_due_short(*d),
{
    append_pad2(out, d.day);
    push_char(out, '-');
    append_pad2(out, d.month);
    push_char(out, '-');
    append_pad4(out, d.year);
    assert(final(out)@ =~= old(out)@ + render_due_short(*d));
}

/// What a sixteen-character text means as a due date: the fixed
/// grammar `DD.MM.YYYY HH:MM`, accepted only when it names a real
/// calendar date and time.
pub open spec fn spec_parse_due(t: Seq<char>) -> Option<DueDate> {
    if t.len() == 16 && t[2] == '.' && t[5] == '.' && t[10] == ' ' && t[13] == ':'
        && is_digit(t[0]) && is_digit(t[1]) && is_digit(t[3]) && is_digit(t[4]) && is_digit(t[6])
        && is_digit(t[7]) && is_digit(t[8]) && is_digit(t[9]) && is_digit(t[11]) && is_digit(t[12])
        && is_digit(t[14]) && is_digit(t[15]) {
        let d = DueDate {
            day: (digit_val(t[0]) * 10 + digit_val(t[1])) as u32,
            month: (digit_val(t[3]) * 10 + digit_val(t[4])) as u32,
            year: (digit_val(t[6]) * 1000 + digit_val(t[7]) * 100 + digit_val(t[8]) * 10
                + digit_val(t[9])) as u32,
            hour: (digit_val(t[11]) * 10 + digit_val(t[12])) as u32,
            minute: (digit_val(t[14]) * 10 + digit_val(t[15])) as u32,
        };
        if date_valid(d) {
            Some(d)
        } else {
            None
        }
    } else {
        None
    }
}

/// Parses a user-supplied due date against the fixed grammar
/// `DD.MM.YYYY HH:MM`; succeeds exactly on texts that grammar accepts.
pub fn parse_due(s: &str) -> (r: Result<DueDate, DueDateFormatError>)
    ensures
        match r {
            Ok(d) => spec_parse_due(s@) == Some(d),
            Err(_) => spec_parse_due(s@) is None,
        },
{
    let len = s.unicode_len();
    if len != 16 {
        return Err(DueDateFormatError);
    }
    let c0 = s.get_char(0);
    let c1 = s.get_char(1);
    let c2 = s.get_char(2);
    let c3 = s.get_char(3);
    let c4 = s.get_char(4);
    let c5 = s.get_char(5);
    let c6 = s.get_char(6);
    let c7 = s.get_char(7);
    let c8 = s.get_char(8);
    let c9 = s.get_char(9);
    let c10 = s.get_char(10);
    let c11 = s.get_char(11);
    let c12 = s.get_char(12);
    let c13 = s.get_char(13);
    let c14 = s.get_char(14);
    let c15 = s.get_char(15);
    if !(c2 == '.' && c5 == '.' && c10 == ' ' && c13 == ':') {
        return Err(DueDateFormatError);
    }
    if !(is_digit_x(c0) && is_digit_x(c1) && is_digit_x(c3) && is_digit_x(c4) && is_digit_x(c6)
        && is_digit_x(c7) && is_digit_x(c8) && is_digit_x(c9) && is_digit_x(c11)
        && is_digit_x(c12) && is_digit_x(c14) && is_digit_x(c15)) {
        return Err(DueDateFormatError);
    }
    let d = DueDate {
        day: digit_val_x(c0) * 10 + digit_val_x(c1),
        month: digit_val_x(c3) * 10 + digit_val_x(c4),
        year: digit_val_x(c6) * 1000 + digit_val_x(c7) * 100 + digit_val_x(c8) * 10
            + digit_val_x(c9),
        hour: digit_val_x(c11) * 10 + digit_val_x(c12),
        minute: digit_val_x(c14) * 10 + digit_val_x(c15),
    };
    if date_valid_x(&d) {
        Ok(d)
    } else {
        Err(DueDateFormatError)
    }
}

/// Rendering a valid due date and reading the text back yields the
/// same due date.
pub proof fn lemma_due_roundtrip(d: DueDate)
    requires
        date_valid(d),
    ensures
        render_due(d).len() == 16,
        spec_parse_due(render_due(d)) == Some(d),
{
    let t = render_due(d);
    let day = d.day as nat;
    let month = d.month as nat;
    let year = d.year as nat;
    let hour = d.hour as nat;
    let minute = d.minute as nat;
    assert(t =~= seq![
        digit_char(day / 10), digit_char(day % 10), '.',
        digit_char(month / 10), digit_char(month % 10), '.',
        digit_char(year / 1000), digit_char((year / 100) % 10), digit_char((year / 10) % 10),
        digit_char(year % 10), ' ',
        digit_char(hour / 10), digit_char(hour % 10), ':',
        digit_char(minute / 10), digit_char(minute % 10),
    ]);
    crate::text::lemma_digit_roundtrip(day / 10);
    crate::text::lemma_digit_roundtrip(day % 10);
    crate::text::lemma_digit_roundtrip(month / 10);
    crate::text::lemma_digit_roundtrip(month % 10);
    crate::text::lemma_digit_roundtrip(year / 1000);
    crate::text::lemma_digit_roundtrip((year / 100) % 10);
    crate::text::lemma_digit_roundtrip((year / 10) % 10);
    crate::text::lemma_digit_roundtrip(year % 10);
    crate::text::lemma_digit_roundtrip(hour / 10);
    crate::text::lemma_digit_roundtrip(hour % 10);
    crate::text::lemma_digit_roundtrip(minute / 10);
    crate::text::lemma_digit_roundtrip(minute % 10);
    assert((day / 10) * 10 + day % 10 == day) by (nonlinear_arith)
        requires
            day >= 0,
    ;
    assert((month / 10) * 10 + month % 10 == month) by (nonlinear_arith)
        requires
            month >= 0,
    ;
    assert((hour / 10) * 10 + hour % 10 == hour) by (nonlinear_arith)
        requires
            hour >= 0,
    ;
    assert((minute / 10) * 10 + minute % 10 == minute) by (nonlinear_arith)
        requires
            minute >= 0,
    ;
    assert((year / 1000) * 1000 + ((year / 100) % 10) * 100 + ((year / 10) % 10) * 10 + year % 10
        == year) by (nonlinear_arith)
        requires
            0 <= year <= 9999,
    ;
}

} // verus!
