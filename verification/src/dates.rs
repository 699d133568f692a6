//! Calendar dates as three integers, and what the calendar says of them.

use vstd::prelude::*;
use chrono::{Datelike, Month, NaiveDate};
use crate::edit::append_chars;
use crate::numbers::{zero_padded, zero_padded_chars};
use crate::text::string_of;

verus! {

/// The first year that a date can have.
pub const MIN_YEAR: i32 = -262143;

/// The last year that a date can have.
pub const MAX_YEAR: i32 = 262142;

/// `year` is a leap year of the proleptic Gregorian calendar.
pub open spec fn is_leap_year(year: int) -> bool {
    year % 4 == 0 && (year % 100 != 0 || year % 400 == 0)
}

/// The number of days of a month; 31 where `month` is no month.
pub open spec fn days_in_month(year: int, month: int) -> int {
    if month == 2 {
        if is_leap_year(year) {
            29
        } else {
            28
        }
    } else if month == 4 || month == 6 || month == 9 || month == 11 {
        30
    } else {
        31
    }
}

/// `month` of `year` is a month of the calendar, in the years that dates can have.
pub open spec fn is_month(year: int, month: int) -> bool {
    MIN_YEAR <= year <= MAX_YEAR && 1 <= month <= 12
}

/// The three numbers name a day of the calendar.
pub open spec fn is_date(year: int, month: int, day: int) -> bool {
    is_month(year, month) && 1 <= day <= days_in_month(year, month)
}

/// The number of days of the calendar before the first day of `year`,
/// counted from the first day of the year 1.
pub open spec fn days_before_year(year: int) -> int {
    let y = year - 1;
    365 * y + y / 4 - y / 100 + y / 400
}

/// The number of days of `year` before the first day of `month`.
pub open spec fn days_before_month(year: int, month: int) -> int
    decreases month,
{
    if month <= 1 {
        0
    } else {
        days_before_month(year, month - 1) + days_in_month(year, month - 1)
    }
}

/// The number of a day in the proleptic Gregorian calendar, the first of
/// January of the year 1 being day 1.
pub open spec fn day_number(year: int, month: int, day: int) -> int {
    days_before_year(year) + days_before_month(year, month) + day
}

/// The day of the week of a date, counted in days since Monday. Day 1 of
/// the calendar is a Monday.
pub open spec fn weekday_of(year: int, month: int, day: int) -> int {
    (day_number(year, month, day) - 1) % 7
}

/// The English name of a month; that of January where `month` is no month.
pub open spec fn month_name(month: int) -> Seq<char> {
    if month == 2 {
        "February"@
    } else if month == 3 {
        "March"@
    } else if month == 4 {
        "April"@
    } else if month == 5 {
        "May"@
    } else if month == 6 {
        "June"@
    } else if month == 7 {
        "July"@
    } else if month == 8 {
        "August"@
    } else if month == 9 {
        "September"@
    } else if month == 10 {
        "October"@
    } else if month == 11 {
        "November"@
    } else if month == 12 {
        "December"@
    } else {
        "January"@
    }
}

/// Trusted: `NaiveDate::from_ymd_opt`, then `Datelike::weekday` and
/// `Weekday::num_days_from_monday`. A date is made exactly of the numbers
/// that name an existing day within the years that `chrono` admits; its
/// weekday is that of the proleptic Gregorian calendar, from 0 (Monday) to
/// 6 (Sunday).
#[verifier::external_body]
pub(crate) fn weekday_from_monday(year: i32, month: u32, day: u32) -> (weekday: Option<u32>)
    ensures
        weekday is Some <==> is_date(year as int, month as int, day as int),
        weekday is Some ==> weekday->0 == weekday_of(year as int, month as int, day as int)
            && weekday->0 < 7,
{
    match NaiveDate::from_ymd_opt(year, month, day) {
        Some(date) => Some(date.weekday().num_days_from_monday()),
        None => None,
    }
}

/// Trusted: `Month::try_from` and `Month::num_days`. A month from 1 to 12 of
/// a year that `chrono` admits has a length, and a length that is given is
/// that of a month from 1 to 12 as the Gregorian calendar has it. For a
/// year outside that range `chrono` gives no length to February but still
/// gives one to the other months, so nothing more is claimed there.
#[verifier::external_body]
pub(crate) fn month_length(year: i32, month: u8) -> (days: Option<u8>)
    ensures
        is_month(year as int, month as int) ==> days is Some,
        days is Some ==> 1 <= month <= 12 && days->0 == days_in_month(year as int, month as int),
{
    match Month::try_from(month) {
        Ok(m) => m.num_days(year),
        Err(_) => None,
    }
}

/// Trusted: `Month::try_from` and `Month::name`. The numbers from 1 to 12
/// have the English names of the months; no other number has a name.
#[verifier::external_body]
pub(crate) fn name_of_month(month: u8) -> (name: Option<String>)
    ensures
        name is Some <==> 1 <= month <= 12,
        name is Some ==> name->0@ == month_name(month as int),
{
    match Month::try_from(month) {
        Ok(m) => Some(m.name().to_string()),
        Err(_) => None,
    }
}

/// Whether the three numbers name a day of the calendar.
pub fn date_exists(year: i32, month: u32, day: u32) -> (b: bool)
    ensures
        b == is_date(year as int, month as int, day as int),
{
    weekday_from_monday(year, month, day).is_some()
}

/// The name of a month, for printing. A number that is no month gets the
/// name of January.
pub fn month_no_to_name(month_num: u32) -> (name: String)
    ensures
        name@ == month_name(month_num as int),
{
    let month: u8 = if 1 <= month_num && month_num <= 12 {
        month_num as u8
    } else {
        1
    };
    match name_of_month(month) {
        Some(name) => name,
        None => String::new(),
    }
}

/// A day of the calendar, named by its three numbers.
#[derive(Clone, Copy, Debug, PartialEq, Eq, Structural)]
pub struct EntryDate {
    /// The year; negative before the year 1.
    pub year: i32,
    /// The month, from 1.
    pub month: u32,
    /// The day of the month, from 1.
    pub day: u32,
}

impl EntryDate {
    /// The three numbers name a day that exists.
    pub open spec fn is_valid(self) -> bool {
        is_date(self.year as int, self.month as int, self.day as int)
    }
}

/// A year as it is written in a date: four digits from 0 to 9999, a sign
/// and at least four digits outside that range.
pub open spec fn year_text(year: int) -> Seq<char> {
    if 0 <= year <= 9999 {
        zero_padded(year as nat, 4)
    } else if year < 0 {
        seq!['-'] + zero_padded((-year) as nat, 4)
    } else {
        seq!['+'] + zero_padded(year as nat, 4)
    }
}

/// A date as the journal writes it: `YYYY-MM-DD`.
pub open spec fn date_text(year: int, month: nat, day: nat) -> Seq<char> {
    year_text(year) + seq!['-'] + zero_padded(month, 2) + seq!['-'] + zero_padded(day, 2)
}

/// The name of a weekday as the journal writes it above an entry. Days are
/// counted from Monday as 0.
pub open spec fn weekday_label(weekday: int) -> Seq<char> {
    if weekday == 0 {
        seq!['M', 'O', 'N']
    } else if weekday == 1 {
        seq!['T', 'U', 'E']
    } else if weekday == 2 {
        seq!['W', 'E', 'D']
    } else if weekday == 3 {
        seq!['T', 'H', 'U']
    } else if weekday == 4 {
        seq!['F', 'R', 'I']
    } else if weekday == 5 {
        seq!['S', 'A', 'T']
    } else {
        seq!['S', 'U', 'N']
    }
}

/// The date that `text` spells in the form `%Y-%m-%d`, as
/// `NaiveDate::parse_from_str` reads it, if it spells one.
pub uninterp spec fn parsed_date(text: Seq<char>) -> Option<(int, int, int)>;

/// Trusted: `NaiveDate::parse_from_str` with the format `%Y-%m-%d`, then
/// `Datelike::year`, `month` and `day`. What is read depends on the text
/// alone, and a date that was read exists.
#[verifier::external_body]
pub(crate) fn parse_ymd(text: &str) -> (date: Option<EntryDate>)
    ensures
        match date {
            Some(d) => parsed_date(text@) == Some((d.year as int, d.month as int, d.day as int))
                && d.is_valid(),
            None => parsed_date(text@) is None,
        },
{
    match NaiveDate::parse_from_str(text, "%Y-%m-%d") {
        Ok(d) => Some(EntryDate { year: d.year(), month: d.month(), day: d.day() }),
        Err(_) => None,
    }
}

/// Writes a date as the journal writes it.
pub fn format_date(date: EntryDate) -> (text: String)
    ensures
        text@ == date_text(date.year as int, date.month as nat, date.day as nat),
{
    let mut out: Vec<char> = Vec::new();
    if date.year < 0 {
        out.push('-');
        append_chars(&mut out, &zero_padded_chars((-(date.year as i64)) as u64, 4));
    } else if date.year > 9999 {
        out.push('+');
        append_chars(&mut out, &zero_padded_chars(date.year as u64, 4));
    } else {
        append_chars(&mut out, &zero_padded_chars(date.year as u64, 4));
    }
    assert(out@ =~= year_text(date.year as int));
    out.push('-');
    append_chars(&mut out, &zero_padded_chars(date.month as u64, 2));
    out.push('-');
    append_chars(&mut out, &zero_padded_chars(date.day as u64, 2));
    assert(out@ =~= date_text(date.year as int, date.month as nat, date.day as nat));
    string_of(&out)
}

/// The name of the weekday of a date that exists.
pub fn weekday_name(date: EntryDate) -> (name: String)
    requires
        date.is_valid(),
    ensures
        name@ == weekday_label(weekday_of(date.year as int, date.month as int, date.day as int)),
{
    let weekday = weekday_from_monday(date.year, date.month, date.day).unwrap();
    let label: Vec<char> = if weekday == 0 {
        vec!['M', 'O', 'N']
    } else if weekday == 1 {
        vec!['T', 'U', 'E']
    } else if weekday == 2 {
        vec!['W', 'E', 'D']
    } else if weekday == 3 {
        vec!['T', 'H', 'U']
    } else if weekday == 4 {
        vec!['F', 'R', 'I']
    } else if weekday == 5 {
        vec!['S', 'A', 'T']
    } else {
        vec!['S', 'U', 'N']
    };
    assert(label@ =~= weekday_label(weekday as int));
    string_of(&label)
}

/// Reads a date given as `YYYY-MM-DD`. Where the text is no such date, the
/// caller has to ask for one.
pub fn parse_entry_args(args: &str) -> (date: Option<EntryDate>)
    ensures
        match date {
            Some(d) => parsed_date(args@) == Some((d.year as int, d.month as int, d.day as int))
                && d.is_valid(),
            None => parsed_date(args@) is None,
        },
{
    parse_ymd(args)
}

/// The month that a lookup is made in: the month asked for where it exists,
/// else the month of today.
pub open spec fn scope_of(year: i32, month: u32, today: EntryDate) -> (i32, u32) {
    if is_month(year as int, month as int) {
        (year, month)
    } else {
        (today.year, today.month)
    }
}

/// The month that a lookup is made in, and whether today stepped in for a
/// month that does not exist.
pub fn month_in_scope(year: i32, month: u32, today: EntryDate) -> (scope: (i32, u32, bool))
    ensures
        (scope.0, scope.1) == scope_of(year, month, today),
        scope.2 == !is_month(year as int, month as int),
{
    if date_exists(year, month, 1) {
        (year, month, false)
    } else {
        (today.year, today.month, true)
    }
}

} // verus!
