use jrnl::aggregate::{date_order, handle_tags, pick, render_calendars, search_year, TagError};
use jrnl::calendar::print_calendar;
use jrnl::dates::EntryDate;
use jrnl::paths::MonthFile;
use jrnl::search::{search_for_stuff, SearchError};

fn lines(text: &[&str]) -> Vec<String> {
    text.iter().map(|s| s.to_string()).collect()
}

fn march() -> MonthFile {
    MonthFile {
        year: 2025,
        month: 3,
        lines: lines(&["# 2025-03-05", "- [run] 5k", "- rest", "# 2025-03-12", "- [run] 10k"]),
    }
}

fn april() -> MonthFile {
    MonthFile {
        year: 2025,
        month: 4,
        lines: lines(&["# 2025-04-01", "- [run] rest day", "- [food] | toast | soup | pasta | "]),
    }
}

fn out_of_order() -> MonthFile {
    MonthFile {
        year: 2025,
        month: 3,
        lines: lines(&[
            "# 2025-03-12",
            "- [run] 10k",
            "# 2025-03-05",
            "- [run] 5k",
            "# 2025-03-09",
            "- [run] 7k",
        ]),
    }
}

fn today() -> EntryDate {
    EntryDate { year: 2025, month: 4, day: 14 }
}

#[test]
fn a_year_is_searched_file_after_file() {
    colored::control::set_override(false);
    let files = vec![april(), march()];
    let (dates, records) = search_year(&files, true, 2025, 1, "run", false, 0).unwrap();
    assert_eq!(dates, lines(&["2025-04-01", "2025-03-05", "2025-03-12"]));
    assert_eq!(records, lines(&["[run] rest day", "[run] 5k", "[run] 10k"]));
    assert_eq!(
        search_year(&files, true, 2025, 1, "run", true, 0),
        Err(SearchError::TagCollision)
    );
    assert_eq!(
        search_year(&Vec::new(), true, 2025, 1, "food", true, 0),
        Err(SearchError::FoodInFreeText)
    );
    let (dates, records) = search_year(&Vec::new(), true, 2025, 1, "run", false, 0).unwrap();
    assert!(dates.is_empty());
    assert!(records.is_empty());
}

#[test]
fn in_one_month_only_the_files_of_that_month_are_searched() {
    colored::control::set_override(false);
    let files = vec![april(), march()];
    let (dates, records) = search_year(&files, false, 2025, 3, "run", false, 0).unwrap();
    assert_eq!(dates, lines(&["2025-03-05", "2025-03-12"]));
    assert_eq!(records, lines(&["[run] 5k", "[run] 10k"]));
    let (dates, _) = search_year(&files, false, 2024, 3, "run", false, 0).unwrap();
    assert!(dates.is_empty());
    let (dates, _) = search_year(&files, false, 2025, 5, "run", false, 0).unwrap();
    assert!(dates.is_empty());
    assert!(search_year(&files, false, 2025, 5, "run", true, 0).is_ok());
}

#[test]
fn dates_are_put_in_order_of_month_and_day() {
    let dates = lines(&["2025-04-01", "2025-03-12", "2025-03-05", "2025-04-01", ""]);
    let order = date_order(&dates);
    assert_eq!(order, vec![4, 2, 1, 0, 3]);
    assert_eq!(
        pick(&dates, &order),
        lines(&["", "2025-03-05", "2025-03-12", "2025-04-01", "2025-04-01"])
    );
}

#[test]
fn a_year_wide_lookup_highlights_each_month() {
    colored::control::set_override(false);
    for files in [vec![march(), april()], vec![april(), march()]] {
        let report =
            handle_tags(&files, "run", 2025, 7, true, false, false, 0, "default", today())
                .unwrap();
        assert_eq!(report.dates, lines(&["2025-03-05", "2025-03-12", "2025-04-01"]));
        assert_eq!(report.records, lines(&["[run] 5k", "[run] 10k", "[run] rest day"]));
        assert!(report.food.is_empty());
        assert!(!report.paged);
        assert_eq!(report.highlights, vec![(3, vec![5, 12]), (4, vec![1])]);
        assert_eq!(report.calendars.len(), 2);
        assert_eq!(report.calendars[0], (3, print_calendar(2025, 3, vec![5, 12])));
        assert_eq!(report.calendars[1], (4, print_calendar(2025, 4, vec![1])));
    }
}

#[test]
fn a_lookup_in_one_month_hands_the_matches_on_in_file_order() {
    colored::control::set_override(false);
    let files = vec![out_of_order()];
    let report =
        handle_tags(&files, "run", 2025, 3, true, true, false, 0, "never", today()).unwrap();
    let (dates, records) = search_for_stuff(&files[0].lines, "run", false, 0).unwrap();
    assert_eq!(report.dates, dates);
    assert_eq!(report.records, records);
    assert_eq!(report.dates, lines(&["2025-03-12", "2025-03-05", "2025-03-09"]));
    assert_eq!(report.records, lines(&["[run] 10k", "[run] 5k", "[run] 7k"]));
    assert_eq!(report.highlights, vec![(3, vec![12, 5, 9])]);
    assert_eq!(report.calendars, vec![(3, print_calendar(2025, 3, vec![12, 5, 9]))]);
}

#[test]
fn a_year_wide_lookup_puts_the_matches_in_order_of_month_and_day() {
    colored::control::set_override(false);
    let files = vec![april(), out_of_order()];
    let report =
        handle_tags(&files, "run", 2025, 3, true, false, false, 0, "never", today()).unwrap();
    assert_eq!(
        report.dates,
        lines(&["2025-03-05", "2025-03-09", "2025-03-12", "2025-04-01"])
    );
    assert_eq!(report.records, lines(&["[run] 5k", "[run] 7k", "[run] 10k", "[run] rest day"]));
    assert_eq!(report.highlights, vec![(3, vec![12, 5, 9]), (4, vec![1])]);
}

#[test]
fn a_lookup_in_one_month_shows_the_calendar_of_that_month() {
    colored::control::set_override(false);
    let files = vec![march(), april()];
    let report =
        handle_tags(&files, "run", 2025, 3, true, true, false, 0, "always", today()).unwrap();
    assert_eq!(report.dates, lines(&["2025-03-05", "2025-03-12"]));
    assert_eq!(report.records, lines(&["[run] 5k", "[run] 10k"]));
    assert!(report.paged);
    assert_eq!(report.highlights, vec![(3, vec![5, 12])]);
    assert_eq!(report.calendars, vec![(3, print_calendar(2025, 3, vec![5, 12]))]);
    let report =
        handle_tags(&files, "rest", 2025, 3, false, true, true, 0, "never", today()).unwrap();
    assert_eq!(report.dates, lines(&["2025-03-05"]));
    assert_eq!(report.records, lines(&["rest"]));
    assert!(!report.paged);
}

#[test]
fn a_month_that_does_not_exist_gives_way_to_the_month_of_today() {
    colored::control::set_override(false);
    let files = vec![march(), april()];
    let report =
        handle_tags(&files, "run", 2025, 13, true, true, false, 0, "never", today()).unwrap();
    assert_eq!(report.dates, lines(&["2025-04-01"]));
    assert_eq!(report.records, lines(&["[run] rest day"]));
    assert_eq!(report.highlights, vec![(4, vec![1])]);
    assert_eq!(report.calendars, vec![(4, print_calendar(2025, 4, vec![1]))]);
    let report =
        handle_tags(&files, "run", 400000, 3, false, false, false, 0, "never", today()).unwrap();
    assert_eq!(report.dates, lines(&["2025-04-01"]));
    assert_eq!(report.calendars, vec![(4, print_calendar(2025, 4, vec![1]))]);
}

#[test]
fn groups_of_months_that_do_not_exist_have_no_calendar() {
    colored::control::set_override(false);
    let groups = vec![(0, vec![0]), (3, vec![5]), (13, vec![1])];
    assert_eq!(render_calendars(2025, &groups), vec![(3, print_calendar(2025, 3, vec![5]))]);
    assert!(render_calendars(400000, &groups).is_empty());
}

#[test]
fn the_meals_are_taken_apart_into_fields() {
    colored::control::set_override(false);
    let files = vec![april()];
    let report =
        handle_tags(&files, "food", 2025, 4, true, true, false, 0, "default", today()).unwrap();
    assert_eq!(report.dates, lines(&["2025-04-01"]));
    assert!(report.records.is_empty());
    assert_eq!(report.food, vec![lines(&["toast", "soup", "pasta", ""])]);
    assert_eq!(report.calendars, vec![(4, print_calendar(2025, 4, vec![1]))]);
}

#[test]
fn no_match_gives_an_empty_report() {
    colored::control::set_override(false);
    let files = vec![march(), april()];
    for (year_provided, month_provided) in [(true, false), (true, true), (false, false)] {
        let report = handle_tags(
            &files,
            "swim",
            2025,
            4,
            year_provided,
            month_provided,
            false,
            0,
            "default",
            today(),
        )
        .unwrap();
        assert!(report.dates.is_empty());
        assert!(report.records.is_empty());
        assert!(report.food.is_empty());
        assert!(report.highlights.is_empty());
        assert!(report.calendars.is_empty());
        assert!(!report.paged);
    }
    let report =
        handle_tags(&Vec::new(), "food", 2025, 4, true, false, false, 0, "default", today())
            .unwrap();
    assert!(report.dates.is_empty());
    let report =
        handle_tags(&files, "run", 2025, 5, true, true, false, 0, "default", today()).unwrap();
    assert!(report.dates.is_empty());
}

#[test]
fn lookups_that_give_no_report() {
    colored::control::set_override(false);
    let files = vec![march(), april()];
    assert_eq!(
        handle_tags(&files, "food", 2025, 4, true, false, false, 0, "default", today()).err(),
        Some(TagError::FoodOverYear)
    );
    assert_eq!(
        handle_tags(&files, "food", 2025, 4, true, true, true, 0, "default", today()).err(),
        Some(TagError::Search(SearchError::FoodInFreeText))
    );
    assert_eq!(
        handle_tags(&files, "run", 2025, 4, true, true, true, 1, "default", today()).err(),
        Some(TagError::Search(SearchError::TagCollision))
    );
    assert!(handle_tags(&files, "food", 2025, 3, true, true, true, 1, "default", today()).is_err());
}

#[test]
fn five_rows_go_through_the_pager_by_default() {
    colored::control::set_override(false);
    let four = MonthFile {
        year: 2025,
        month: 3,
        lines: lines(&["# 2025-03-01", "- [a] 1", "- [a] 2", "- [a] 3", "- [a] 4"]),
    };
    let report =
        handle_tags(&vec![four], "a", 2025, 3, true, true, false, 0, "default", today()).unwrap();
    assert!(!report.paged);
    let five = MonthFile {
        year: 2025,
        month: 3,
        lines: lines(&["# 2025-03-01", "- [a] 1", "- [a] 2", "- [a] 3", "- [a] 4", "- [a] 5"]),
    };
    let report =
        handle_tags(&vec![five], "a", 2025, 3, true, true, false, 0, "default", today()).unwrap();
    assert!(report.paged);
    assert_eq!(report.dates.len(), 5);
}
