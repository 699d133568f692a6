//! Folding the matches of one month or of a whole year into what is shown:
//! the records, in file order for one month and in order of month and day
//! over a year, and the calendars with their highlighted days.

use vstd::prelude::*;
use crate::calendar::{is_calendar, print_calendar};
use crate::config::{use_pager, wants_pager};
use crate::dates::{date_exists, is_month, month_in_scope, scope_of, EntryDate};
use crate::days::{
    day_of, days_of, days_of_month, group_by_month, highlight_days, is_grouping,
    lemma_file_order_is_irrelevant, lemma_grouping_is_determined,
    lemma_month_days_come_from_dates, lemma_month_days_joined, month_day_pairs, month_days,
    month_of, part_of_date,
};
use crate::headings::date_at;
use crate::order::{is_ranking, ranked_indices};
use crate::paths::MonthFile;
use crate::search::{
    collides, food, hit_lines, is_search_result, is_shown, lemma_hit_lines_rise, search_error,
    search_for_stuff, SearchError,
};
use crate::tags::{food_fields, food_fields_of};
use crate::text::{chars_of, lines_of, same_chars};

verus! {

/// The dates under which a search finds its matches in one file, in file order.
pub open spec fn matched_dates(
    lines: Seq<Seq<char>>,
    word: Seq<char>,
    search: bool,
    tolerance: nat,
) -> Seq<Seq<char>> {
    let at = hit_lines(lines, word, search, tolerance, lines.len() as int);
    Seq::new(at.len(), |k: int| date_at(lines, at[k]))
}

/// The lines that a search matches in one file, as they stand in the file.
pub open spec fn matched_lines(
    lines: Seq<Seq<char>>,
    word: Seq<char>,
    search: bool,
    tolerance: nat,
) -> Seq<Seq<char>> {
    let at = hit_lines(lines, word, search, tolerance, lines.len() as int);
    Seq::new(at.len(), |k: int| lines[at[k]])
}

/// The dates of the matches in the first `n` files, file after file.
pub open spec fn year_dates(
    files: Seq<Seq<Seq<char>>>,
    word: Seq<char>,
    search: bool,
    tolerance: nat,
    n: int,
) -> Seq<Seq<char>>
    decreases n,
{
    if n <= 0 || n > files.len() {
        Seq::empty()
    } else {
        year_dates(files, word, search, tolerance, n - 1) + matched_dates(
            files[n - 1],
            word,
            search,
            tolerance,
        )
    }
}

/// The matching lines of the first `n` files, file after file.
pub open spec fn year_lines(
    files: Seq<Seq<Seq<char>>>,
    word: Seq<char>,
    search: bool,
    tolerance: nat,
    n: int,
) -> Seq<Seq<char>>
    decreases n,
{
    if n <= 0 || n > files.len() {
        Seq::empty()
    } else {
        year_lines(files, word, search, tolerance, n - 1) + matched_lines(
            files[n - 1],
            word,
            search,
            tolerance,
        )
    }
}

/// The dates and the lines of the matches run in step.
pub proof fn lemma_year_lists_run_in_step(
    files: Seq<Seq<Seq<char>>>,
    word: Seq<char>,
    search: bool,
    tolerance: nat,
    n: int,
)
    ensures
        year_lines(files, word, search, tolerance, n).len() == year_dates(
            files,
            word,
            search,
            tolerance,
            n,
        ).len(),
    decreases n,
{
    if 0 < n <= files.len() {
        lemma_year_lists_run_in_step(files, word, search, tolerance, n - 1);
    }
}

/// What is found in the first `n` files depends on those files alone.
pub proof fn lemma_year_lists_of_prefix(
    a: Seq<Seq<Seq<char>>>,
    b: Seq<Seq<Seq<char>>>,
    word: Seq<char>,
    search: bool,
    tolerance: nat,
    n: int,
)
    requires
        0 <= n <= a.len(),
        n <= b.len(),
        forall|j: int| 0 <= j < n ==> a[j] == b[j],
    ensures
        year_dates(a, word, search, tolerance, n) == year_dates(b, word, search, tolerance, n),
        year_lines(a, word, search, tolerance, n) == year_lines(b, word, search, tolerance, n),
    decreases n,
{
    if n > 0 {
        lemma_year_lists_of_prefix(a, b, word, search, tolerance, n - 1);
    }
}

/// `file` is read by a lookup: every file where the lookup is year-wide,
/// else the files of the month `month` of `year`.
pub open spec fn is_in_scope(file: MonthFile, year_wide: bool, year: i32, month: u32) -> bool {
    year_wide || (file.year == year && file.month == month)
}

/// The lines of the files among the first `n` that a lookup reads, file
/// after file.
pub open spec fn files_in_scope(
    files: Seq<MonthFile>,
    year_wide: bool,
    year: i32,
    month: u32,
    n: int,
) -> Seq<Seq<Seq<char>>>
    decreases n,
{
    if n <= 0 || n > files.len() {
        Seq::empty()
    } else if is_in_scope(files[n - 1], year_wide, year, month) {
        files_in_scope(files, year_wide, year, month, n - 1).push(lines_of(files[n - 1].lines@))
    } else {
        files_in_scope(files, year_wide, year, month, n - 1)
    }
}

/// The files read among the first `k` are the first of those read among the
/// first `n`.
pub proof fn lemma_scope_grows(
    files: Seq<MonthFile>,
    year_wide: bool,
    year: i32,
    month: u32,
    k: int,
    n: int,
)
    requires
        0 <= k <= n <= files.len(),
    ensures
        files_in_scope(files, year_wide, year, month, k).len() <= files_in_scope(
            files,
            year_wide,
            year,
            month,
            n,
        ).len(),
        forall|j: int|
            0 <= j < files_in_scope(files, year_wide, year, month, k).len() ==> files_in_scope(
                files,
                year_wide,
                year,
                month,
                n,
            )[j] == #[trigger] files_in_scope(files, year_wide, year, month, k)[j],
    decreases n - k,
{
    if k < n {
        lemma_scope_grows(files, year_wide, year, month, k, n - 1);
    }
}

/// Why a search over several files is refused, if it is: a free-text search
/// for `food` always, any other free-text search when its word is a tag of
/// one of the files.
pub open spec fn year_error(files: Seq<Seq<Seq<char>>>, word: Seq<char>, search: bool) -> Option<
    SearchError,
> {
    if search && word == food() {
        Some(SearchError::FoodInFreeText)
    } else if search && exists|i: int| 0 <= i < files.len() && collides(#[trigger] files[i], word) {
        Some(SearchError::TagCollision)
    } else {
        None
    }
}

/// `records` show the matching lines `lines`, one for one.
pub open spec fn are_shown(
    records: Seq<String>,
    lines: Seq<Seq<char>>,
    word: Seq<char>,
    search: bool,
    tolerance: nat,
) -> bool {
    &&& records.len() == lines.len()
    &&& forall|k: int|
        0 <= k < records.len() ==> is_shown(
            (#[trigger] records[k])@,
            lines[k],
            word,
            search,
            tolerance,
        )
}

/// `outcome` is what the search of the files `read` gives: a refusal for
/// the reason that holds, or the dates and the shown records of all files,
/// file after file.
pub open spec fn is_year_result(
    outcome: Result<(Vec<String>, Vec<String>), SearchError>,
    read: Seq<Seq<Seq<char>>>,
    word: Seq<char>,
    search: bool,
    tolerance: nat,
) -> bool {
    match outcome {
        Err(e) => year_error(read, word, search) == Some(e),
        Ok(found) => {
            &&& year_error(read, word, search) is None
            &&& lines_of(found.0@) == year_dates(read, word, search, tolerance, read.len() as int)
            &&& are_shown(
                found.1@,
                year_lines(read, word, search, tolerance, read.len() as int),
                word,
                search,
                tolerance,
            )
        },
    }
}

/// Searches the files that a lookup reads and joins what is found, file
/// after file: every file where the lookup is year-wide, else only the
/// files of the month `month` of `year`.
pub fn search_year(
    files: &Vec<MonthFile>,
    year_wide: bool,
    year: i32,
    month: u32,
    word: &str,
    search: bool,
    approx: u32,
) -> (outcome: Result<(Vec<String>, Vec<String>), SearchError>)
    ensures
        is_year_result(
            outcome,
            files_in_scope(files@, year_wide, year, month, files.len() as int),
            word@,
            search,
            approx as nat,
        ),
{
    proof {
        reveal_strlit("food");
        assert("food"@ =~= food());
    }
    if search && same_chars(&chars_of(word), &chars_of("food")) {
        return Err(SearchError::FoodInFreeText);
    }
    let ghost all = files_in_scope(files@, year_wide, year, month, files.len() as int);
    let ghost tol = approx as nat;
    let mut dates: Vec<String> = Vec::new();
    let mut records: Vec<String> = Vec::new();
    let mut i: usize = 0;
    assert(lines_of(dates@) =~= year_dates(Seq::empty(), word@, search, tol, 0));
    while i < files.len()
        invariant
            i <= files.len(),
            tol == approx as nat,
            all == files_in_scope(files@, year_wide, year, month, files.len() as int),
            !(search && word@ == food()),
            forall|m: int|
                0 <= m < files_in_scope(files@, year_wide, year, month, i as int).len() ==> !(
                search && collides(
                    #[trigger] files_in_scope(files@, year_wide, year, month, i as int)[m],
                    word@,
                )),
            lines_of(dates@) == year_dates(
                files_in_scope(files@, year_wide, year, month, i as int),
                word@,
                search,
                tol,
                files_in_scope(files@, year_wide, year, month, i as int).len() as int,
            ),
            are_shown(
                records@,
                year_lines(
                    files_in_scope(files@, year_wide, year, month, i as int),
                    word@,
                    search,
                    tol,
                    files_in_scope(files@, year_wide, year, month, i as int).len() as int,
                ),
                word@,
                search,
                tol,
            ),
        decreases files.len() - i,
    {
        let ghost read = files_in_scope(files@, year_wide, year, month, i as int);
        let ghost next = files_in_scope(files@, year_wide, year, month, i + 1);
        if year_wide || (files[i].year == year && files[i].month == month) {
            let ghost file = lines_of(files[i as int].lines@);
            assert(next == read.push(file));
            proof {
                lemma_year_lists_of_prefix(next, read, word@, search, tol, read.len() as int);
            }
            let (mut more_dates, mut more_records) = match search_for_stuff(
                &files[i].lines,
                word,
                search,
                approx,
            ) {
                Err(e) => {
                    proof {
                        lemma_scope_grows(
                            files@,
                            year_wide,
                            year,
                            month,
                            i + 1,
                            files.len() as int,
                        );
                        assert(next[read.len() as int] == file);
                        assert(all[read.len() as int] == file);
                        assert(collides(all[read.len() as int], word@));
                    }
                    return Err(e);
                },
                Ok(found) => found,
            };
            let ghost old_dates = lines_of(dates@);
            let ghost old_records = records@;
            let ghost new_dates = lines_of(more_dates@);
            let ghost new_records = more_records@;
            let ghost old_lines = year_lines(read, word@, search, tol, read.len() as int);
            let ghost new_lines = matched_lines(file, word@, search, tol);
            assert(new_dates =~= matched_dates(file, word@, search, tol));
            dates.append(&mut more_dates);
            records.append(&mut more_records);
            assert(lines_of(dates@) =~= old_dates + new_dates);
            assert forall|k: int| 0 <= k < records.len() implies is_shown(
                (#[trigger] records[k])@,
                (old_lines + new_lines)[k],
                word@,
                search,
                tol,
            ) by {
                if k < old_records.len() {
                    assert(records[k] == old_records[k]);
                } else {
                    assert(records[k] == new_records[k - old_records.len()]);
                }
            }
            assert forall|m: int| 0 <= m < next.len() implies !(search && collides(
                #[trigger] next[m],
                word@,
            )) by {
                if m < read.len() {
                    assert(next[m] == read[m]);
                }
            }
        } else {
            assert(next == read);
        }
        i += 1;
    }
    Ok((dates, records))
}

/// The key by which matches are put in order: the month first, then the day.
pub open spec fn date_key(date: Seq<char>) -> u64 {
    (month_of(date) as int * 0x1_0000_0000 + day_of(date) as int) as u64
}

/// The keys of a list of dates.
pub open spec fn date_keys(dates: Seq<Seq<char>>) -> Seq<u64> {
    dates.map_values(|date: Seq<char>| date_key(date))
}

/// The order of the dates by month and day; dates of the same day keep the
/// order in which they stand.
pub fn date_order(dates: &Vec<String>) -> (order: Vec<usize>)
    ensures
        is_ranking(order@, date_keys(lines_of(dates@)), dates.len() as int),
{
    let mut keys: Vec<u64> = Vec::new();
    let mut i: usize = 0;
    while i < dates.len()
        invariant
            i <= dates.len(),
            keys.len() == i,
            forall|j: int| 0 <= j < i ==> keys[j] == date_key(#[trigger] dates[j]@),
        decreases dates.len() - i,
    {
        let date = dates[i].as_str();
        let month = part_of_date(date, 1) as u64;
        let day = part_of_date(date, 2) as u64;
        keys.push(month * 0x1_0000_0000 + day);
        i += 1;
    }
    assert(keys@ =~= date_keys(lines_of(dates@)));
    ranked_indices(&keys, dates.len())
}

/// The items at the positions that `order` lists, in that order.
pub fn pick(items: &Vec<String>, order: &Vec<usize>) -> (picked: Vec<String>)
    requires
        forall|k: int| 0 <= k < order.len() ==> #[trigger] order[k] < items.len(),
    ensures
        picked.len() == order.len(),
        forall|k: int| 0 <= k < picked.len() ==> #[trigger] picked[k] == items[order[k] as int],
{
    let mut picked: Vec<String> = Vec::new();
    let mut k: usize = 0;
    while k < order.len()
        invariant
            k <= order.len(),
            picked.len() == k,
            forall|j: int| 0 <= j < order.len() ==> #[trigger] order[j] < items.len(),
            forall|j: int| 0 <= j < k ==> #[trigger] picked[j] == items[order[j] as int],
        decreases order.len() - k,
    {
        picked.push(items[order[k]].clone());
        k += 1;
    }
    picked
}

/// The positions among the first `n` groups whose month is a month of the
/// calendar in `year`.
pub open spec fn shown_groups(groups: Seq<(u32, Vec<u32>)>, year: int, n: int) -> Seq<int>
    decreases n,
{
    if n <= 0 || n > groups.len() {
        Seq::empty()
    } else if is_month(year, groups[n - 1].0 as int) {
        shown_groups(groups, year, n - 1).push(n - 1)
    } else {
        shown_groups(groups, year, n - 1)
    }
}

/// `calendars` are the calendars of the first `n` groups: one for each group
/// whose month exists, in the order of the groups, with the group's days
/// painted.
pub open spec fn are_calendars(
    calendars: Seq<(u32, String)>,
    year: int,
    groups: Seq<(u32, Vec<u32>)>,
    n: int,
) -> bool {
    let shown = shown_groups(groups, year, n);
    &&& calendars.len() == shown.len()
    &&& forall|k: int|
        0 <= k < calendars.len() ==> {
            &&& (#[trigger] calendars[k]).0 == groups[shown[k]].0
            &&& is_calendar(
                calendars[k].1@,
                year,
                groups[shown[k]].0 as int,
                groups[shown[k]].1@,
            )
        }
}

/// A copy of a list of days.
pub fn copy_days(days: &Vec<u32>) -> (copy: Vec<u32>)
    ensures
        copy@ == days@,
{
    let mut copy: Vec<u32> = Vec::new();
    let mut k: usize = 0;
    while k < days.len()
        invariant
            k <= days.len(),
            copy@ == days@.take(k as int),
        decreases days.len() - k,
    {
        copy.push(days[k]);
        k += 1;
    }
    assert(days@.take(days.len() as int) =~= days@);
    copy
}

/// The calendar of each month that has a group, keyed by the month. A group
/// whose month does not exist, as that of a malformed date, gets none.
pub fn render_calendars(year: i32, groups: &Vec<(u32, Vec<u32>)>) -> (calendars: Vec<
    (u32, String),
>)
    ensures
        are_calendars(calendars@, year as int, groups@, groups.len() as int),
{
    let mut calendars: Vec<(u32, String)> = Vec::new();
    let mut i: usize = 0;
    while i < groups.len()
        invariant
            i <= groups.len(),
            are_calendars(calendars@, year as int, groups@, i as int),
        decreases groups.len() - i,
    {
        let month = groups[i].0;
        let ghost before = calendars@;
        let ghost shown = shown_groups(groups@, year as int, i as int);
        if date_exists(year, month, 1) {
            let text = print_calendar(year, month, copy_days(&groups[i].1));
            calendars.push((month, text));
            assert forall|k: int| 0 <= k < calendars.len() implies {
                &&& (#[trigger] calendars[k]).0 == groups[shown.push(i as int)[k]].0
                &&& is_calendar(
                    calendars[k].1@,
                    year as int,
                    groups[shown.push(i as int)[k]].0 as int,
                    groups[shown.push(i as int)[k]].1@,
                )
            } by {
                if k < before.len() {
                    assert(calendars[k] == before[k]);
                }
            }
        }
        i += 1;
    }
    calendars
}

/// The order in which a list of `n` items stands.
pub fn file_order(n: usize) -> (order: Vec<usize>)
    ensures
        order@ == Seq::new(n as nat, |k: int| k as usize),
{
    let mut order: Vec<usize> = Vec::new();
    let mut k: usize = 0;
    while k < n
        invariant
            k <= n,
            order@ == Seq::new(k as nat, |j: int| j as usize),
        decreases n - k,
    {
        order.push(k);
        assert(order@ =~= Seq::new((k + 1) as nat, |j: int| j as usize));
        k += 1;
    }
    order
}

/// Why a tag lookup or a search gives no report.
#[derive(Clone, Copy, Debug, PartialEq, Eq)]
pub enum TagError {
    /// The search itself was refused.
    Search(SearchError),
    /// The meals of a whole year were asked for: they are shown month by month.
    FoodOverYear,
}

/// What a tag lookup or a search shows. Where nothing matched, every list
/// is empty.
#[derive(Debug)]
pub struct TagReport {
    /// The dates of the matches: in file order for one month, in order of
    /// month and day over a year.
    pub dates: Vec<String>,
    /// The matching records, in step with `dates`; empty where the meals were
    /// asked for.
    pub records: Vec<String>,
    /// The fields of each food line, in step with `dates`; empty unless the
    /// meals were asked for.
    pub food: Vec<Vec<String>>,
    /// Whether the table goes through the pager.
    pub paged: bool,
    /// The days that the calendars highlight, month by month, the months in
    /// rising order.
    pub highlights: Vec<(u32, Vec<u32>)>,
    /// The calendars to show, each with its month, the months in rising order.
    pub calendars: Vec<(u32, String)>,
}

/// Why a lookup gives no report, if it gives none: the search is refused,
/// or the meals of a whole year are asked for and there are some.
pub open spec fn tag_error(
    read: Seq<Seq<Seq<char>>>,
    word: Seq<char>,
    year_wide: bool,
    search: bool,
    tolerance: nat,
) -> Option<TagError> {
    match year_error(read, word, search) {
        Some(e) => Some(TagError::Search(e)),
        None => if year_dates(read, word, search, tolerance, read.len() as int).len() > 0 && word
            == food() && year_wide {
            Some(TagError::FoodOverYear)
        } else {
            None
        },
    }
}

/// The items of `items` at the positions that `order` lists.
pub open spec fn picked_by(items: Seq<Seq<char>>, order: Seq<usize>) -> Seq<Seq<char>> {
    Seq::new(order.len(), |k: int| items[order[k] as int])
}

/// `order` is the order in which a lookup lists its matches: over a year by
/// month and day, matches of the same day as they were found; in one month
/// as they were found, which is the order of the file.
pub open spec fn is_listing_order(order: Seq<usize>, dates: Seq<Seq<char>>, year_wide: bool)
    -> bool {
    if year_wide {
        is_ranking(order, date_keys(dates), dates.len() as int)
    } else {
        order == Seq::new(dates.len(), |k: int| k as usize)
    }
}

/// `report` lists the matches in the order `order`: the dates, and either
/// the records as they are shown or, for the meals, the fields of each line.
pub open spec fn lists_matches(
    report: TagReport,
    order: Seq<usize>,
    dates: Seq<Seq<char>>,
    lines: Seq<Seq<char>>,
    word: Seq<char>,
    search: bool,
    tolerance: nat,
) -> bool {
    &&& lines_of(report.dates@) == picked_by(dates, order)
    &&& if word == food() {
        &&& report.records.len() == 0
        &&& report.food.len() == order.len()
        &&& forall|k: int|
            0 <= k < order.len() ==> lines_of((#[trigger] report.food[k])@) == food_fields_of(
                lines[order[k] as int],
            )
    } else {
        &&& report.food.len() == 0
        &&& are_shown(report.records@, picked_by(lines, order), word, search, tolerance)
    }
}

/// `report` highlights the days of the matches found under `dates`, and
/// shows the calendars that go with them. Over a year there is one group of
/// days and one calendar for each month that has a match, the months in
/// rising order, the days of a month as they were found. For one month all
/// days stand under that month, on its one calendar. Where nothing matched
/// there is neither.
pub open spec fn shows_highlights(
    report: TagReport,
    dates: Seq<Seq<char>>,
    year: i32,
    month: u32,
    year_wide: bool,
) -> bool {
    let pairs = month_days(dates, dates.len() as int);
    if dates.len() == 0 {
        report.highlights.len() == 0 && report.calendars.len() == 0
    } else if year_wide {
        &&& is_grouping(report.highlights@, pairs, pairs.len() as int)
        &&& are_calendars(
            report.calendars@,
            year as int,
            report.highlights@,
            report.highlights.len() as int,
        )
    } else {
        &&& report.highlights.len() == 1
        &&& report.highlights[0].0 == month
        &&& report.highlights[0].1@ == days_of(pairs)
        &&& report.calendars.len() == 1
        &&& report.calendars[0].0 == month
        &&& is_calendar(report.calendars[0].1@, year as int, month as int, days_of(pairs))
    }
}

/// `report` is what a lookup in the files `read` shows: the matches in the
/// order of the lookup, the decision on the pager, the highlighted days
/// and the calendars of `year`.
pub open spec fn is_tag_report(
    report: TagReport,
    read: Seq<Seq<Seq<char>>>,
    word: Seq<char>,
    year: i32,
    month: u32,
    year_wide: bool,
    search: bool,
    tolerance: nat,
    when_pager: Seq<char>,
) -> bool {
    let dates = year_dates(read, word, search, tolerance, read.len() as int);
    let lines = year_lines(read, word, search, tolerance, read.len() as int);
    &&& exists|order: Seq<usize>|
        #[trigger] is_listing_order(order, dates, year_wide) && lists_matches(
            report,
            order,
            dates,
            lines,
            word,
            search,
            tolerance,
        )
    &&& report.paged == wants_pager(when_pager, dates.len())
    &&& shows_highlights(report, dates, year, month, year_wide)
}

/// `outcome` is what a lookup gives. With a year and no month the lookup is
/// year-wide: every file is read and the calendars are those of the year
/// asked for. Otherwise the lookup is made in one month, the month asked
/// for or, where that does not exist, the month of `today`: only the files
/// of that month are read, and the calendar is that of the same month.
pub open spec fn is_lookup_outcome(
    outcome: Result<TagReport, TagError>,
    files: Seq<MonthFile>,
    word: Seq<char>,
    year: i32,
    month: u32,
    year_wide: bool,
    search: bool,
    tolerance: nat,
    when_pager: Seq<char>,
    today: EntryDate,
) -> bool {
    let scope = scope_of(year, month, today);
    let shown_year = if year_wide {
        year
    } else {
        scope.0
    };
    let read = files_in_scope(files, year_wide, scope.0, scope.1, files.len() as int);
    match outcome {
        Err(e) => tag_error(read, word, year_wide, search, tolerance) == Some(e),
        Ok(report) => tag_error(read, word, year_wide, search, tolerance) is None
            && is_tag_report(
            report,
            read,
            word,
            shown_year,
            scope.1,
            year_wide,
            search,
            tolerance,
            when_pager,
        ),
    }
}

/// Looks a tag up (`search` false) or searches for a word (`search` true)
/// in the month-files `files`, and puts together what is to be shown.
///
/// With a year and no month the lookup is year-wide and reads every file,
/// in any order. Otherwise it reads the files of one month, the month asked
/// for or that of `today` where the month asked for does not exist, and
/// hands the matches on in the order of the file.
pub fn handle_tags(
    files: &Vec<MonthFile>,
    args_tag: &str,
    args_tag_year: i32,
    args_tag_month: u32,
    year_provided: bool,
    month_provided: bool,
    search: bool,
    approx: u32,
    when_pager: &str,
    today: EntryDate,
) -> (outcome: Result<TagReport, TagError>)
    requires
        today.is_valid(),
    ensures
        is_lookup_outcome(
            outcome,
            files@,
            args_tag@,
            args_tag_year,
            args_tag_month,
            year_provided && !month_provided,
            search,
            approx as nat,
            when_pager@,
            today,
        ),
{
    let year_wide = year_provided && !month_provided;
    let scope = month_in_scope(args_tag_year, args_tag_month, today);
    let shown_year = if year_wide {
        args_tag_year
    } else {
        scope.0
    };
    let (found_dates, found_records) = match search_year(
        files,
        year_wide,
        scope.0,
        scope.1,
        args_tag,
        search,
        approx,
    ) {
        Err(e) => {
            return Err(TagError::Search(e));
        },
        Ok(found) => found,
    };
    let is_food = same_chars(&chars_of(args_tag), &chars_of("food"));
    proof {
        reveal_strlit("food");
        assert("food"@ =~= food());
    }
    if found_dates.len() > 0 && is_food && year_wide {
        return Err(TagError::FoodOverYear);
    }
    let ghost read = files_in_scope(files@, year_wide, scope.0, scope.1, files.len() as int);
    let ghost tol = approx as nat;
    let ghost all_dates = year_dates(read, args_tag@, search, tol, read.len() as int);
    let ghost all_lines = year_lines(read, args_tag@, search, tol, read.len() as int);
    proof {
        lemma_year_lists_run_in_step(read, args_tag@, search, tol, read.len() as int);
    }
    let order = if year_wide {
        date_order(&found_dates)
    } else {
        file_order(found_dates.len())
    };
    assert(date_keys(all_dates).len() == all_dates.len());
    assert(found_dates.len() == all_dates.len());
    assert(found_records.len() == all_dates.len());
    assert(is_listing_order(order@, all_dates, year_wide));
    assert forall|k: int| 0 <= k < order.len() implies #[trigger] order[k] < found_dates.len() by {}
    let dates = pick(&found_dates, &order);
    let sorted = pick(&found_records, &order);
    assert(lines_of(dates@) =~= picked_by(all_dates, order@));
    let mut records: Vec<String> = Vec::new();
    let mut meals: Vec<Vec<String>> = Vec::new();
    if is_food {
        let mut k: usize = 0;
        while k < sorted.len()
            invariant
                k <= sorted.len(),
                sorted.len() == order.len(),
                meals.len() == k,
                !search && args_tag@ == food(),
                forall|j: int| 0 <= j < order.len() ==> #[trigger] order[j] < all_dates.len(),
                are_shown(found_records@, all_lines, args_tag@, search, tol),
                all_lines.len() == all_dates.len(),
                forall|j: int|
                    0 <= j < sorted.len() ==> #[trigger] sorted[j] == found_records[order[j] as int],
                forall|j: int|
                    0 <= j < k ==> lines_of((#[trigger] meals[j])@) == food_fields_of(
                        all_lines[order[j] as int],
                    ),
            decreases sorted.len() - k,
        {
            assert(is_shown(
                found_records[order[k as int] as int]@,
                all_lines[order[k as int] as int],
                args_tag@,
                search,
                tol,
            ));
            meals.push(food_fields(sorted[k].as_str()));
            k += 1;
        }
    } else {
        records = sorted;
        assert forall|k: int| 0 <= k < records.len() implies is_shown(
            (#[trigger] records[k])@,
            picked_by(all_lines, order@)[k],
            args_tag@,
            search,
            tol,
        ) by {
            assert(is_shown(
                found_records[order[k] as int]@,
                all_lines[order[k] as int],
                args_tag@,
                search,
                tol,
            ));
        }
    }
    let paged = use_pager(when_pager, dates.len());
    let mut highlights: Vec<(u32, Vec<u32>)> = Vec::new();
    let mut calendars: Vec<(u32, String)> = Vec::new();
    if found_dates.len() == 0 {
    } else if year_wide {
        let pairs = month_day_pairs(&found_dates);
        highlights = group_by_month(&pairs);
        calendars = render_calendars(args_tag_year, &highlights);
    } else {
        let days = highlight_days(&found_dates);
        let text = print_calendar(scope.0, scope.1, copy_days(&days));
        highlights.push((scope.1, days));
        calendars.push((scope.1, text));
    }
    let report = TagReport { dates, records, food: meals, paged, highlights, calendars };
    assert(lists_matches(report, order@, all_dates, all_lines, args_tag@, search, tol));
    Ok(report)
}

/// No date of the one list lies in a month of the other.
pub open spec fn months_apart(one: Seq<Seq<char>>, other: Seq<Seq<char>>) -> bool {
    forall|i: int, j: int|
        0 <= i < one.len() && 0 <= j < other.len() ==> month_of(#[trigger] one[i]) != month_of(
            #[trigger] other[j],
        )
}

/// The order in which the files of a year are read does not change what is
/// highlighted: two year-wide lookups that read the same two files in
/// opposite order, where the matches of the two lie in different months,
/// highlight the same days under the same months.
pub proof fn lemma_highlights_ignore_file_order(
    first: TagReport,
    second: TagReport,
    a: MonthFile,
    b: MonthFile,
    word: Seq<char>,
    year: i32,
    month: u32,
    search: bool,
    tolerance: nat,
    when_pager: Seq<char>,
    today: EntryDate,
)
    requires
        is_lookup_outcome(
            Ok(first),
            seq![a, b],
            word,
            year,
            month,
            true,
            search,
            tolerance,
            when_pager,
            today,
        ),
        is_lookup_outcome(
            Ok(second),
            seq![b, a],
            word,
            year,
            month,
            true,
            search,
            tolerance,
            when_pager,
            today,
        ),
        months_apart(
            matched_dates(lines_of(a.lines@), word, search, tolerance),
            matched_dates(lines_of(b.lines@), word, search, tolerance),
        ),
    ensures
        first.highlights.len() == second.highlights.len(),
        forall|k: int|
            0 <= k < first.highlights.len() ==> (#[trigger] first.highlights[k]).0
                == second.highlights[k].0 && first.highlights[k].1@ == second.highlights[k].1@,
{
    let scope = scope_of(year, month, today);
    let la = lines_of(a.lines@);
    let lb = lines_of(b.lines@);
    let da = matched_dates(la, word, search, tolerance);
    let db = matched_dates(lb, word, search, tolerance);
    let read1 = files_in_scope(seq![a, b], true, scope.0, scope.1, 2);
    let read2 = files_in_scope(seq![b, a], true, scope.0, scope.1, 2);
    assert(files_in_scope(seq![a, b], true, scope.0, scope.1, 0) =~= Seq::empty());
    assert(files_in_scope(seq![b, a], true, scope.0, scope.1, 0) =~= Seq::empty());
    assert(seq![a, b][0] == a && seq![a, b][1] == b);
    assert(seq![b, a][0] == b && seq![b, a][1] == a);
    assert(files_in_scope(seq![a, b], true, scope.0, scope.1, 1) =~= seq![la]);
    assert(files_in_scope(seq![b, a], true, scope.0, scope.1, 1) =~= seq![lb]);
    assert(read1 =~= seq![la, lb]);
    assert(read2 =~= seq![lb, la]);
    let dates1 = year_dates(read1, word, search, tolerance, 2);
    let dates2 = year_dates(read2, word, search, tolerance, 2);
    assert(year_dates(read1, word, search, tolerance, 0) =~= Seq::empty());
    assert(year_dates(read2, word, search, tolerance, 0) =~= Seq::empty());
    assert(year_dates(read1, word, search, tolerance, 1) =~= da);
    assert(year_dates(read2, word, search, tolerance, 1) =~= db);
    assert(dates1 =~= da + db);
    assert(dates2 =~= db + da);
    let pa = month_days(da, da.len() as int);
    let pb = month_days(db, db.len() as int);
    lemma_month_days_joined(da, db, db.len() as int);
    lemma_month_days_joined(db, da, da.len() as int);
    let pairs1 = month_days(dates1, dates1.len() as int);
    let pairs2 = month_days(dates2, dates2.len() as int);
    assert(pairs1 == pa + pb);
    assert(pairs2 == pb + pa);
    if dates1.len() > 0 {
        assert forall|i: int, j: int| 0 <= i < pa.len() && 0 <= j < pb.len() implies (
        #[trigger] pa[i]).0 != (#[trigger] pb[j]).0 by {
            lemma_month_days_come_from_dates(da, da.len() as int, i);
            lemma_month_days_come_from_dates(db, db.len() as int, j);
            let x = choose|x: int| 0 <= x < da.len() && pa[i].0 == month_of(#[trigger] da[x]);
            let y = choose|y: int| 0 <= y < db.len() && pb[j].0 == month_of(#[trigger] db[y]);
            assert(month_of(da[x]) != month_of(db[y]));
        }
        assert forall|m: u32| #[trigger]
            days_of_month(pairs1, m, pairs1.len() as int) == days_of_month(
                pairs2,
                m,
                pairs2.len() as int,
            ) by {
            lemma_file_order_is_irrelevant(pa, pb, m);
        }
        lemma_grouping_is_determined(first.highlights@, second.highlights@, pairs1, pairs2);
    }
}

/// A lookup in one month hands on what the search of that month's file
/// gives: where one file of the month is read and the meals are not asked
/// for, the dates and the records of the report are those of the search, in
/// the same order.
pub proof fn lemma_month_lookup_hands_the_search_on(
    report: TagReport,
    file: MonthFile,
    word: Seq<char>,
    year: i32,
    month: u32,
    search: bool,
    tolerance: nat,
    when_pager: Seq<char>,
    today: EntryDate,
)
    requires
        is_lookup_outcome(
            Ok(report),
            seq![file],
            word,
            year,
            month,
            false,
            search,
            tolerance,
            when_pager,
            today,
        ),
        (file.year, file.month) == scope_of(year, month, today),
        word != food(),
    ensures
        is_search_result(
            Ok((report.dates, report.records)),
            lines_of(file.lines@),
            word,
            search,
            tolerance,
        ),
{
    let scope = scope_of(year, month, today);
    let lines = lines_of(file.lines@);
    assert(seq![file][0] == file);
    assert(files_in_scope(seq![file], false, scope.0, scope.1, 0) =~= Seq::empty());
    let read = files_in_scope(seq![file], false, scope.0, scope.1, 1);
    assert(read =~= seq![lines]);
    assert(year_dates(read, word, search, tolerance, 0) =~= Seq::empty());
    assert(year_lines(read, word, search, tolerance, 0) =~= Seq::empty());
    let dates = year_dates(read, word, search, tolerance, 1);
    let found = year_lines(read, word, search, tolerance, 1);
    assert(dates =~= matched_dates(lines, word, search, tolerance));
    assert(found =~= matched_lines(lines, word, search, tolerance));
    let at = hit_lines(lines, word, search, tolerance, lines.len() as int);
    lemma_hit_lines_rise(lines, word, search, tolerance, lines.len() as int);
    let order = choose|order: Seq<usize>|
        #[trigger] is_listing_order(order, dates, false) && lists_matches(
            report,
            order,
            dates,
            found,
            word,
            search,
            tolerance,
        );
    assert(year_error(read, word, search) is None);
    if search && collides(lines, word) {
        assert(collides(read[0], word));
    }
    assert(search_error(lines, word, search) is None);
    assert(report.dates.len() == at.len()) by {
        assert(lines_of(report.dates@).len() == picked_by(dates, order).len());
    }
    assert forall|k: int| 0 <= k < at.len() implies {
        &&& 0 <= #[trigger] at[k] < lines.len()
        &&& report.dates[k]@ == date_at(lines, at[k])
        &&& is_shown(report.records[k]@, lines[at[k]], word, search, tolerance)
    } by {
        assert(order[k] == k);
        assert(lines_of(report.dates@)[k] == picked_by(dates, order)[k]);
        assert(picked_by(found, order)[k] == found[k]);
    }
}

} // verus!
