//! Events: the dated reminders of the events file, and how far each lies
//! from today.

use vstd::prelude::*;
use chrono::NaiveDate;
use crate::days::{date_part, part_of_date};
use crate::dates::{date_exists, day_number, is_date, EntryDate};
use crate::edit::{split, split_chars, trim, trim_chars};
use crate::text::{chars_of, lines_of, string_of, views_of};

verus! {

/// The characters at which an event line is cut into its parts.
pub open spec fn event_delims() -> Seq<char> {
    seq!['[', ']']
}

/// `line` is an event line: it begins with `-` and its brackets cut it into
/// three parts, of which the second is the date and the third the text.
pub open spec fn is_event_line(line: Seq<char>) -> bool {
    line.len() > 0 && line[0] == '-' && split(line, event_delims()).len() == 3
}

/// The month that an event line names, written first in its brackets.
pub open spec fn event_month(line: Seq<char>) -> u32 {
    date_part(split(line, event_delims())[1], 0)
}

/// The day that an event line names, written second in its brackets.
pub open spec fn event_day(line: Seq<char>) -> u32 {
    date_part(split(line, event_delims())[1], 1)
}

/// The text of an event line, trimmed.
pub open spec fn event_text(line: Seq<char>) -> Seq<char> {
    trim(split(line, event_delims())[2])
}

/// `line` is an event line whose date does not exist in `year`.
pub open spec fn is_bad_event(line: Seq<char>, year: int) -> bool {
    is_event_line(line) && !is_date(year, event_month(line) as int, event_day(line) as int)
}

/// The positions of the event lines among the first `n` lines.
pub open spec fn event_lines(lines: Seq<Seq<char>>, n: int) -> Seq<int>
    decreases n,
{
    if n <= 0 || n > lines.len() {
        Seq::empty()
    } else if is_event_line(lines[n - 1]) {
        event_lines(lines, n - 1).push(n - 1)
    } else {
        event_lines(lines, n - 1)
    }
}

/// `events` are the events of the first `n` lines, in file order, each in
/// `year`.
pub open spec fn are_events(events: Seq<(EntryDate, String)>, lines: Seq<Seq<char>>, year: i32, n: int)
    -> bool {
    let at = event_lines(lines, n);
    &&& events.len() == at.len()
    &&& forall|k: int|
        0 <= k < events.len() ==> {
            &&& (#[trigger] events[k]).0 == (EntryDate {
                year,
                month: event_month(lines[at[k]]),
                day: event_day(lines[at[k]]),
            })
            &&& events[k].0.is_valid()
            &&& events[k].1@ == event_text(lines[at[k]])
        }
}

/// The events of the events file, each with its date in `year`.
///
/// A line of the form `- [MM-DD] text` is an event; every other line is
/// passed over. An event whose date does not exist stops the reading: the
/// error is the number of its line, counted from 1.
pub fn read_events(lines: &Vec<String>, year: i32) -> (outcome: Result<
    Vec<(EntryDate, String)>,
    usize,
>)
    ensures
        match outcome {
            Err(number) => {
                &&& 1 <= number <= lines.len()
                &&& is_bad_event(lines[number - 1]@, year as int)
                &&& forall|i: int|
                    0 <= i < number - 1 ==> !is_bad_event(#[trigger] lines[i]@, year as int)
            },
            Ok(events) => {
                &&& forall|i: int|
                    0 <= i < lines.len() ==> !is_bad_event(#[trigger] lines[i]@, year as int)
                &&& are_events(events@, lines_of(lines@), year, lines.len() as int)
            },
        },
{
    let ghost ls = lines_of(lines@);
    let delims: Vec<char> = vec!['[', ']'];
    assert(delims@ =~= event_delims());
    let mut events: Vec<(EntryDate, String)> = Vec::new();
    let mut i: usize = 0;
    while i < lines.len()
        invariant
            i <= lines.len(),
            ls == lines_of(lines@),
            delims@ == event_delims(),
            forall|j: int| 0 <= j < i ==> !is_bad_event(#[trigger] lines[j]@, year as int),
            are_events(events@, ls, year, i as int),
        decreases lines.len() - i,
    {
        let line = chars_of(lines[i].as_str());
        assert(line@ == ls[i as int]);
        let ghost before = events@;
        let ghost at = event_lines(ls, i as int);
        if line.len() > 0 && line[0] == '-' {
            let parts = split_chars(&line, &delims);
            if parts.len() == 3 {
                assert(views_of(parts@)[1] == parts[1]@);
                assert(views_of(parts@)[2] == parts[2]@);
                let date = string_of(&parts[1]);
                let month = part_of_date(date.as_str(), 0);
                let day = part_of_date(date.as_str(), 1);
                if !date_exists(year, month, day) {
                    return Err(i + 1);
                }
                let text = string_of(&trim_chars(&parts[2]));
                events.push((EntryDate { year, month, day }, text));
                assert forall|k: int| 0 <= k < events.len() implies {
                    &&& (#[trigger] events[k]).0 == (EntryDate {
                        year,
                        month: event_month(ls[at.push(i as int)[k]]),
                        day: event_day(ls[at.push(i as int)[k]]),
                    })
                    &&& events[k].0.is_valid()
                    &&& events[k].1@ == event_text(ls[at.push(i as int)[k]])
                } by {
                    if k < before.len() {
                        assert(events[k] == before[k]);
                    }
                }
            }
        }
        i += 1;
    }
    Ok(events)
}

/// The number of days from the first date to the second: negative where
/// the second date is the earlier one.
pub open spec fn days_from_to(from: (int, int, int), to: (int, int, int)) -> int {
    day_number(to.0, to.1, to.2) - day_number(from.0, from.1, from.2)
}

/// Trusted: `NaiveDate::from_ymd_opt`, the difference of two dates and
/// `TimeDelta::num_days`. Two dates that exist lie as many days apart as
/// their day numbers in the proleptic Gregorian calendar differ; where one
/// does not exist there is no difference.
#[verifier::external_body]
pub(crate) fn days_between(from: EntryDate, to: EntryDate) -> (days: Option<i64>)
    ensures
        days is Some <==> (from.is_valid() && to.is_valid()),
        days is Some ==> days->0 == days_from_to(
            (from.year as int, from.month as int, from.day as int),
            (to.year as int, to.month as int, to.day as int),
        ),
{
    match (
        NaiveDate::from_ymd_opt(from.year, from.month, from.day),
        NaiveDate::from_ymd_opt(to.year, to.month, to.day),
    ) {
        (Some(a), Some(b)) => Some((b - a).num_days()),
        _ => None,
    }
}

/// Where an event lies in time, seen from today.
#[derive(Clone, Copy, Debug, PartialEq, Eq, Structural)]
pub enum EventTiming {
    /// Today.
    Today,
    /// Tomorrow.
    Tomorrow,
    /// Two to seven days from now.
    ThisWeek,
    /// Nine to thirty days from now.
    ThisMonth,
    /// Yesterday.
    Yesterday,
    /// Two to thirty days ago.
    Recent,
    /// Too far off to be listed.
    Unlisted,
}

/// Where an event lies whose date is `days` days from today.
pub open spec fn timing_of(days: int) -> EventTiming {
    if days == 0 {
        EventTiming::Today
    } else if days == 1 {
        EventTiming::Tomorrow
    } else if 1 < days <= 7 {
        EventTiming::ThisWeek
    } else if 8 < days <= 30 {
        EventTiming::ThisMonth
    } else if days == -1 {
        EventTiming::Yesterday
    } else if -30 <= days < -1 {
        EventTiming::Recent
    } else {
        EventTiming::Unlisted
    }
}

/// Where an event lies whose date is `days` days from today.
pub fn classify_event(days: i64) -> (timing: EventTiming)
    ensures
        timing == timing_of(days as int),
{
    if days == 0 {
        EventTiming::Today
    } else if days == 1 {
        EventTiming::Tomorrow
    } else if 1 < days && days <= 7 {
        EventTiming::ThisWeek
    } else if 8 < days && days <= 30 {
        EventTiming::ThisMonth
    } else if days == -1 {
        EventTiming::Yesterday
    } else if -30 <= days && days < -1 {
        EventTiming::Recent
    } else {
        EventTiming::Unlisted
    }
}

/// For each event the number of days from `today` to it, and where it lies.
pub fn event_timings(events: &Vec<(EntryDate, String)>, today: EntryDate) -> (timings: Vec<
    (i64, EventTiming),
>)
    requires
        today.is_valid(),
        forall|k: int| 0 <= k < events.len() ==> (#[trigger] events[k]).0.is_valid(),
    ensures
        timings.len() == events.len(),
        forall|k: int|
            0 <= k < events.len() ==> {
                &&& (#[trigger] timings[k]).0 == days_from_to(
                    (today.year as int, today.month as int, today.day as int),
                    (
                        events[k].0.year as int,
                        events[k].0.month as int,
                        events[k].0.day as int,
                    ),
                )
                &&& timings[k].1 == timing_of(timings[k].0 as int)
            },
{
    let mut timings: Vec<(i64, EventTiming)> = Vec::new();
    let mut k: usize = 0;
    while k < events.len()
        invariant
            k <= events.len(),
            today.is_valid(),
            forall|j: int| 0 <= j < events.len() ==> (#[trigger] events[j]).0.is_valid(),
            timings.len() == k,
            forall|j: int|
                0 <= j < k ==> {
                    &&& (#[trigger] timings[j]).0 == days_from_to(
                        (today.year as int, today.month as int, today.day as int),
                        (
                            events[j].0.year as int,
                            events[j].0.month as int,
                            events[j].0.day as int,
                        ),
                    )
                    &&& timings[j].1 == timing_of(timings[j].0 as int)
                },
        decreases events.len() - k,
    {
        let days = days_between(today, events[k].0).unwrap();
        timings.push((days, classify_event(days)));
        k += 1;
    }
    timings
}

} // verus!
