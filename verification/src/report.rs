//! Reports: how many entries a month or a year has, on which days, and which
//! tags are used most.

use vstd::prelude::*;
use crate::calendar::{is_calendar, print_calendar};
use crate::dates::{date_exists, is_month};
use crate::days::{day_of, part_of_date};
use crate::headings::{heading_lines, headings_of};
use crate::order::{is_ranking, ranked_indices};
use crate::paths::MonthFile;
use crate::tags::{file_tags, get_tags_from_file, is_tag_table, tag_frequencies};
use crate::text::lines_of;

verus! {

/// The day that each heading names; zero for a heading that names none.
pub open spec fn entry_days(headings: Seq<Seq<char>>) -> Seq<u32> {
    headings.map_values(|heading: Seq<char>| day_of(heading))
}

/// The days on which a month-file has an entry, in file order.
pub fn days_with_entries(lines: &Vec<String>) -> (days: Vec<u32>)
    ensures
        days@ == entry_days(headings_of(lines_of(lines@))),
{
    let headings = heading_lines(lines);
    let mut days: Vec<u32> = Vec::new();
    let mut k: usize = 0;
    while k < headings.len()
        invariant
            k <= headings.len(),
            days.len() == k,
            forall|j: int| 0 <= j < k ==> days[j] == day_of(#[trigger] headings[j]@),
        decreases headings.len() - k,
    {
        days.push(part_of_date(headings[k].as_str(), 2));
        k += 1;
    }
    assert(days@ =~= entry_days(lines_of(headings@)));
    days
}

/// The report on one month.
#[derive(Debug)]
pub struct MonthReport {
    /// The number of entries of the month.
    pub entries: usize,
    /// The calendar of the month, the days with an entry painted.
    pub calendar: String,
    /// The most used tags with their frequencies.
    pub tags: Vec<(String, usize)>,
}

/// The report on one month: the number of its entries, its calendar with the
/// days that have an entry painted, and its most used tags, at most
/// `max_rows` of them.
pub fn gen_report(lines: &Vec<String>, year: i32, month: u32, max_rows: u32) -> (report:
    MonthReport)
    requires
        is_month(year as int, month as int),
    ensures
        report.entries == headings_of(lines_of(lines@)).len(),
        is_calendar(
            report.calendar@,
            year as int,
            month as int,
            entry_days(headings_of(lines_of(lines@))),
        ),
        is_tag_table(
            report.tags@,
            file_tags(lines_of(lines@), lines.len() as int),
            max_rows as int,
        ),
{
    let days = days_with_entries(lines);
    let entries = days.len();
    let calendar = print_calendar(year, month, days);
    let tags = tag_frequencies(&get_tags_from_file(lines), max_rows);
    MonthReport { entries, calendar, tags }
}

/// The report on one year.
#[derive(Debug)]
pub struct YearReport {
    /// The number of entries of the year.
    pub entries: usize,
    /// The number of entries of each month-file, with its month, the months
    /// in rising order.
    pub monthly: Vec<(u32, usize)>,
    /// The calendar of each month, with its month, in the same order; none
    /// for a file whose month does not exist.
    pub calendars: Vec<(u32, String)>,
    /// The most used tags of the year with their frequencies.
    pub tags: Vec<(String, usize)>,
}

/// The number of entries in the first `n` files together.
pub open spec fn entries_in(files: Seq<MonthFile>, n: int) -> nat
    decreases n,
{
    if n <= 0 || n > files.len() {
        0
    } else {
        entries_in(files, n - 1) + headings_of(lines_of(files[n - 1].lines@)).len()
    }
}

/// The months of the files, as keys to put them in order.
pub open spec fn month_keys(files: Seq<MonthFile>) -> Seq<u64> {
    files.map_values(|file: MonthFile| file.month as u64)
}

/// The tags of the first `n` files taken in the order `order`.
pub open spec fn year_tags(files: Seq<MonthFile>, order: Seq<usize>, n: int) -> Seq<Seq<char>>
    decreases n,
{
    if n <= 0 || n > order.len() {
        Seq::empty()
    } else {
        let file = lines_of(files[order[n - 1] as int].lines@);
        year_tags(files, order, n - 1) + file_tags(file, file.len() as int)
    }
}

/// The positions among the first `n` of `order` whose file names a month
/// that exists.
pub open spec fn shown_months(files: Seq<MonthFile>, order: Seq<usize>, n: int) -> Seq<int>
    decreases n,
{
    if n <= 0 || n > order.len() {
        Seq::empty()
    } else {
        let file = files[order[n - 1] as int];
        if is_month(file.year as int, file.month as int) {
            shown_months(files, order, n - 1).push(n - 1)
        } else {
            shown_months(files, order, n - 1)
        }
    }
}

/// `report` is the report on the files taken in the order `order`.
pub open spec fn is_year_report(
    report: YearReport,
    files: Seq<MonthFile>,
    order: Seq<usize>,
    max_rows: int,
) -> bool {
    let shown = shown_months(files, order, order.len() as int);
    &&& report.entries == entries_in(files, files.len() as int)
    &&& report.monthly.len() == order.len()
    &&& forall|k: int|
        0 <= k < order.len() ==> (#[trigger] report.monthly[k]) == (
            files[order[k] as int].month,
            headings_of(lines_of(files[order[k] as int].lines@)).len() as usize,
        )
    &&& report.calendars.len() == shown.len()
    &&& forall|k: int|
        0 <= k < shown.len() ==> {
            let file = files[order[shown[k]] as int];
            &&& (#[trigger] report.calendars[k]).0 == file.month
            &&& is_calendar(
                report.calendars[k].1@,
                file.year as int,
                file.month as int,
                entry_days(headings_of(lines_of(file.lines@))),
            )
        }
    &&& is_tag_table(report.tags@, year_tags(files, order, order.len() as int), max_rows)
}

/// The report on one year: the number of its entries, in all and month by
/// month; the calendar of each month with the days that have an entry
/// painted; and the most used tags of the year.
///
/// The files may come in any order: they are taken by rising month, files
/// of the same month in the order in which they come.
pub fn gen_report_year(files: &Vec<MonthFile>, max_rows: u32) -> (report: YearReport)
    requires
        entries_in(files@, files.len() as int) <= usize::MAX,
    ensures
        exists|order: Seq<usize>|
            #[trigger] is_ranking(order, month_keys(files@), files.len() as int) && is_year_report(
                report,
                files@,
                order,
                max_rows as int,
            ),
{
    let mut keys: Vec<u64> = Vec::new();
    let mut entries: usize = 0;
    let mut i: usize = 0;
    while i < files.len()
        invariant
            i <= files.len(),
            keys.len() == i,
            forall|j: int| 0 <= j < i ==> keys[j] == (#[trigger] files[j]).month as u64,
            entries == entries_in(files@, i as int),
            entries_in(files@, files.len() as int) <= usize::MAX,
        decreases files.len() - i,
    {
        keys.push(files[i].month as u64);
        let count = heading_lines(&files[i].lines).len();
        proof {
            lemma_entries_grow(files@, i + 1, files.len() as int);
        }
        entries = entries + count;
        i += 1;
    }
    assert(keys@ =~= month_keys(files@));
    let order = ranked_indices(&keys, files.len());
    let mut monthly: Vec<(u32, usize)> = Vec::new();
    let mut calendars: Vec<(u32, String)> = Vec::new();
    let mut all_tags: Vec<String> = Vec::new();
    let mut k: usize = 0;
    assert(lines_of(all_tags@) =~= year_tags(files@, order@, 0));
    while k < order.len()
        invariant
            k <= order.len(),
            is_ranking(order@, month_keys(files@), files.len() as int),
            month_keys(files@).len() == files.len(),
            monthly.len() == k,
            forall|j: int|
                0 <= j < k ==> (#[trigger] monthly[j]) == (
                    files[order[j] as int].month,
                    headings_of(lines_of(files[order[j] as int].lines@)).len() as usize,
                ),
            calendars.len() == shown_months(files@, order@, k as int).len(),
            forall|j: int|
                0 <= j < calendars.len() ==> {
                    let file = files[order[shown_months(files@, order@, k as int)[j]] as int];
                    &&& (#[trigger] calendars[j]).0 == file.month
                    &&& is_calendar(
                        calendars[j].1@,
                        file.year as int,
                        file.month as int,
                        entry_days(headings_of(lines_of(file.lines@))),
                    )
                },
            lines_of(all_tags@) == year_tags(files@, order@, k as int),
        decreases order.len() - k,
    {
        assert(order[k as int] < files.len());
        let file = &files[order[k]];
        let days = days_with_entries(&file.lines);
        monthly.push((file.month, days.len()));
        let ghost old_calendars = calendars@;
        let ghost shown = shown_months(files@, order@, k as int);
        if date_exists(file.year, file.month, 1) {
            let text = print_calendar(file.year, file.month, days);
            calendars.push((file.month, text));
            assert forall|j: int| 0 <= j < calendars.len() implies {
                let f = files[order[shown.push(k as int)[j]] as int];
                &&& (#[trigger] calendars[j]).0 == f.month
                &&& is_calendar(
                    calendars[j].1@,
                    f.year as int,
                    f.month as int,
                    entry_days(headings_of(lines_of(f.lines@))),
                )
            } by {
                if j < old_calendars.len() {
                    assert(calendars[j] == old_calendars[j]);
                }
            }
        }
        let mut more = get_tags_from_file(&file.lines);
        let ghost old_tags = lines_of(all_tags@);
        let ghost new_tags = lines_of(more@);
        all_tags.append(&mut more);
        assert(lines_of(all_tags@) =~= old_tags + new_tags);
        k += 1;
    }
    let tags = tag_frequencies(&all_tags, max_rows);
    let report = YearReport { entries, monthly, calendars, tags };
    assert(is_year_report(report, files@, order@, max_rows as int));
    report
}

/// The count of entries over more files is no smaller.
pub proof fn lemma_entries_grow(files: Seq<MonthFile>, k: int, n: int)
    requires
        0 <= k <= n <= files.len(),
    ensures
        entries_in(files, k) <= entries_in(files, n),
    decreases n - k,
{
    if k < n {
        lemma_entries_grow(files, k, n - 1);
    }
}

} // verus!
