use jrnl::calendar::print_calendar;
use jrnl::headings::heading_lines;
use jrnl::paths::MonthFile;
use jrnl::report::{days_with_entries, gen_report, gen_report_year};

fn lines(text: &[&str]) -> Vec<String> {
    text.iter().map(|s| s.to_string()).collect()
}

fn april() -> Vec<String> {
    lines(&[
        "### TUESDAY",
        "# 2025-04-01",
        "- [food] | toast | soup | pasta | ",
        "- [chore] cleaned the house",
        "# 2025-04-15",
        "- [chore] [walk] around",
        "# notes without a date",
    ])
}

fn march() -> Vec<String> {
    lines(&["# 2025-03-05", "- [walk] far", "- [walk] further", "- [swim] a bit"])
}

#[test]
fn headings_and_their_days() {
    assert_eq!(
        heading_lines(&april()),
        lines(&["# 2025-04-01", "# 2025-04-15", "# notes without a date"])
    );
    assert_eq!(days_with_entries(&april()), vec![1, 15, 0]);
    assert!(days_with_entries(&Vec::new()).is_empty());
}

#[test]
fn the_report_on_a_month() {
    colored::control::set_override(false);
    let report = gen_report(&april(), 2025, 4, 5);
    assert_eq!(report.entries, 3);
    assert_eq!(report.calendar, print_calendar(2025, 4, vec![1, 15, 0]));
    assert_eq!(
        report.tags,
        vec![("chore".to_string(), 2), ("food".to_string(), 1), ("walk".to_string(), 1)]
    );
    let report = gen_report(&april(), 2025, 4, 1);
    assert_eq!(report.tags, vec![("chore".to_string(), 2)]);
    let report = gen_report(&Vec::new(), 2025, 4, 5);
    assert_eq!(report.entries, 0);
    assert!(report.tags.is_empty());
}

#[test]
fn the_report_on_a_year_takes_the_months_in_order() {
    colored::control::set_override(false);
    let files = vec![
        MonthFile { year: 2025, month: 4, lines: april() },
        MonthFile { year: 2025, month: 3, lines: march() },
        MonthFile { year: 2025, month: 5, lines: Vec::new() },
    ];
    let report = gen_report_year(&files, 3);
    assert_eq!(report.entries, 4);
    assert_eq!(report.monthly, vec![(3, 1), (4, 3), (5, 0)]);
    assert_eq!(
        report.calendars,
        vec![
            (3, print_calendar(2025, 3, vec![5])),
            (4, print_calendar(2025, 4, vec![1, 15, 0])),
            (5, print_calendar(2025, 5, Vec::new())),
        ]
    );
    assert_eq!(
        report.tags,
        vec![("walk".to_string(), 3), ("chore".to_string(), 2), ("swim".to_string(), 1)]
    );
}

#[test]
fn a_file_of_a_month_that_does_not_exist_has_no_calendar() {
    colored::control::set_override(false);
    let files = vec![
        MonthFile { year: 2025, month: 0, lines: march() },
        MonthFile { year: 2025, month: 4, lines: april() },
    ];
    let report = gen_report_year(&files, 0);
    assert_eq!(report.entries, 4);
    assert_eq!(report.monthly, vec![(0, 1), (4, 3)]);
    assert_eq!(report.calendars, vec![(4, print_calendar(2025, 4, vec![1, 15, 0]))]);
    assert!(report.tags.is_empty());
    let report = gen_report_year(&Vec::new(), 5);
    assert_eq!(report.entries, 0);
    assert!(report.monthly.is_empty());
    assert!(report.calendars.is_empty());
}
