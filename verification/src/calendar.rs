//! The month grid: seven columns from Monday to Sunday, one cell for each day.

use vstd::prelude::*;
use crate::dates::{
    days_in_month, is_month, month_length, month_name, month_no_to_name, weekday_from_monday,
    weekday_of,
};
use crate::edit::append_chars;
use crate::numbers::{decimal, decimal_chars};
use crate::paint::{
    bright_yellow, cyan_bold_underline, day_style, green_bold, header_style, is_painted,
    month_style,
};
use crate::text::{chars_of, lines_of, string_of};

verus! {

/// A number as text, with a minus sign in front where it is negative.
pub open spec fn signed_decimal(n: int) -> Seq<char> {
    if n < 0 {
        seq!['-'] + decimal((-n) as nat)
    } else {
        decimal(n as nat)
    }
}

/// The number of a day as it fills a cell: two characters wide, the digits
/// on the right.
pub open spec fn plain_cell(day: nat) -> Seq<char> {
    if decimal(day).len() >= 2 {
        decimal(day)
    } else {
        seq![' '] + decimal(day)
    }
}

/// The empty cells before the first day: three spaces for each.
pub open spec fn blank_cells(n: nat) -> Seq<char>
    decreases n,
{
    if n == 0 {
        Seq::empty()
    } else {
        blank_cells((n - 1) as nat) + seq![' ', ' ', ' ']
    }
}

/// The first `n` day cells, each followed by a space, with a line break after
/// every cell that stands in the Sunday column. `first` is the column of the
/// first day, counted from Monday as 0.
pub open spec fn day_cells(cells: Seq<Seq<char>>, first: int, n: int) -> Seq<char>
    decreases n,
{
    if n <= 0 || n > cells.len() {
        Seq::empty()
    } else {
        let cell = cells[n - 1] + seq![' '];
        let end = if (first + n) % 7 == 0 {
            seq!['\n']
        } else {
            Seq::empty()
        };
        day_cells(cells, first, n - 1) + cell + end
    }
}

/// A month as text: the title line, the line of weekday names, then the days
/// in rows of seven, and a line break at the end.
pub open spec fn month_grid(title: Seq<char>, header: Seq<char>, first: int, cells: Seq<Seq<char>>)
    -> Seq<char> {
    title + header + blank_cells(first as nat) + day_cells(cells, first, cells.len() as int)
        + seq!['\n']
}

/// The title line of a month: five spaces, the month, a space, the year.
pub open spec fn title_line(month: Seq<char>, year: Seq<char>) -> Seq<char> {
    seq![' ', ' ', ' ', ' ', ' '] + month + seq![' '] + year + seq!['\n']
}

/// The names of the weekdays as they stand above the columns.
pub open spec fn weekday_names() -> Seq<char> {
    "Mo Tu We Th Fr Sa Su\n"@
}

/// Writes `n` with a minus sign in front where it is negative.
pub fn signed_decimal_chars(n: i32) -> (out: Vec<char>)
    ensures
        out@ == signed_decimal(n as int),
{
    if n < 0 {
        let mut out: Vec<char> = Vec::new();
        out.push('-');
        let digits = decimal_chars((-(n as i64)) as u64);
        append_chars(&mut out, &digits);
        out
    } else {
        decimal_chars(n as u64)
    }
}

/// Writes the number of a day as it fills a cell.
pub fn plain_cell_chars(day: u32) -> (out: Vec<char>)
    ensures
        out@ == plain_cell(day as nat),
{
    let digits = decimal_chars(day as u64);
    if digits.len() >= 2 {
        digits
    } else {
        let mut out: Vec<char> = Vec::new();
        out.push(' ');
        append_chars(&mut out, &digits);
        out
    }
}

/// Lays a month out as text. `first_weekday` is the column of the first day,
/// counted from Monday as 0; `cells` holds the text of each day's cell.
pub fn lay_out_month(title: &str, header: &str, first_weekday: u32, cells: &Vec<String>) -> (text:
    String)
    requires
        first_weekday < 7,
    ensures
        text@ == month_grid(title@, header@, first_weekday as int, lines_of(cells@)),
{
    let mut out = chars_of(title);
    append_chars(&mut out, &chars_of(header));
    let mut b: u32 = 0;
    while b < first_weekday
        invariant
            b <= first_weekday,
            out@ == title@ + header@ + blank_cells(b as nat),
        decreases first_weekday - b,
    {
        let ghost before = out@;
        out.push(' ');
        out.push(' ');
        out.push(' ');
        assert(out@ =~= before + seq![' ', ' ', ' ']);
        assert(out@ =~= title@ + header@ + blank_cells((b + 1) as nat));
        b += 1;
    }
    let ghost head = out@;
    let ghost cs = lines_of(cells@);
    let mut column: u32 = first_weekday;
    let mut n: usize = 0;
    assert(out@ =~= head + day_cells(cs, first_weekday as int, 0));
    while n < cells.len()
        invariant
            n <= cells.len(),
            first_weekday < 7,
            cs == lines_of(cells@),
            column == (first_weekday + n) % 7,
            out@ == head + day_cells(cs, first_weekday as int, n as int),
        decreases cells.len() - n,
    {
        let ghost before = out@;
        let cell = chars_of(cells[n].as_str());
        assert(cell@ == cs[n as int]);
        append_chars(&mut out, &cell);
        out.push(' ');
        column = (column + 1) % 7;
        if column == 0 {
            out.push('\n');
        }
        assert(out@ =~= head + day_cells(cs, first_weekday as int, n + 1));
        n += 1;
    }
    out.push('\n');
    assert(out@ =~= month_grid(title@, header@, first_weekday as int, cs));
    string_of(&out)
}

/// Whether `days` holds `day`.
pub fn has_day(days: &Vec<u32>, day: u32) -> (b: bool)
    ensures
        b == days@.contains(day),
{
    let mut k: usize = 0;
    while k < days.len()
        invariant
            k <= days.len(),
            forall|j: int| 0 <= j < k ==> days@[j] != day,
        decreases days.len() - k,
    {
        if days[k] == day {
            return true;
        }
        k += 1;
    }
    false
}

/// `cells` are the day cells of a month of `days` days in which the days of
/// `marked` are painted: each of those is the plain cell painted in the style
/// of a highlighted day, and every other day stands there as plain text.
pub open spec fn are_day_cells(cells: Seq<Seq<char>>, days: int, marked: Seq<u32>) -> bool {
    &&& cells.len() == days
    &&& forall|d: int|
        1 <= d <= days ==> if marked.contains(d as u32) {
            is_painted(#[trigger] cells[d - 1], plain_cell(d as nat), day_style())
        } else {
            cells[d - 1] == plain_cell(d as nat)
        }
}

/// `text` is the calendar of a month with the days of `marked` painted: the
/// grid of that month, with the painted name of the month and the painted
/// year in its title, the painted line of weekday names below it, and each
/// day in its cell.
pub open spec fn is_calendar(text: Seq<char>, year: int, month: int, marked: Seq<u32>) -> bool {
    exists|name: Seq<char>, number: Seq<char>, header: Seq<char>, cells: Seq<Seq<char>>|
        is_painted(name, month_name(month), month_style()) && is_painted(
            number,
            signed_decimal(year),
            month_style(),
        ) && is_painted(header, weekday_names(), header_style()) && text == #[trigger] month_grid(
            title_line(name, number),
            header,
            weekday_of(year, month, 1),
            cells,
        ) && are_day_cells(cells, days_in_month(year, month), marked)
}

/// The calendar of a month, with the days of `highlight_day` painted.
pub fn print_calendar(year: i32, month: u32, highlight_day: Vec<u32>) -> (text: String)
    requires
        is_month(year as int, month as int),
    ensures
        is_calendar(text@, year as int, month as int, highlight_day@),
{
    let first_weekday = weekday_from_monday(year, month, 1).unwrap();
    let last_day = month_length(year, month as u8).unwrap();
    let name = cyan_bold_underline(month_no_to_name(month).as_str());
    let number = cyan_bold_underline(string_of(&signed_decimal_chars(year)).as_str());
    let mut title: Vec<char> = vec![' ', ' ', ' ', ' ', ' '];
    append_chars(&mut title, &chars_of(name.as_str()));
    title.push(' ');
    append_chars(&mut title, &chars_of(number.as_str()));
    title.push('\n');
    assert(title@ =~= title_line(name@, number@));
    let header = bright_yellow("Mo Tu We Th Fr Sa Su\n");
    assert(is_painted(header@, weekday_names(), header_style()));
    let mut cells: Vec<String> = Vec::new();
    let mut day: u8 = 1;
    while day <= last_day
        invariant
            1 <= day <= last_day + 1,
            last_day <= 31,
            cells.len() == day - 1,
            are_day_cells(lines_of(cells@), day - 1, highlight_day@),
        decreases last_day + 1 - day,
    {
        let plain = string_of(&plain_cell_chars(day as u32));
        let ghost before = lines_of(cells@);
        if has_day(&highlight_day, day as u32) {
            cells.push(green_bold(plain.as_str()));
        } else {
            cells.push(plain);
        }
        assert forall|d: int| 1 <= d <= day implies if highlight_day@.contains(d as u32) {
            is_painted(#[trigger] lines_of(cells@)[d - 1], plain_cell(d as nat), day_style())
        } else {
            lines_of(cells@)[d - 1] == plain_cell(d as nat)
        } by {
            if d < day {
                assert(lines_of(cells@)[d - 1] == before[d - 1]);
            }
        }
        day += 1;
    }
    let text = lay_out_month(string_of(&title).as_str(), header.as_str(), first_weekday, &cells);
    assert(are_day_cells(
        lines_of(cells@),
        days_in_month(year as int, month as int),
        highlight_day@,
    ));
    text
}

} // verus!
