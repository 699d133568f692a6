use jrnl::dates::{
    date_exists, format_date, month_in_scope, month_no_to_name, parse_entry_args, weekday_name,
    EntryDate,
};

#[test]
fn months_have_their_english_names() {
    let names = [
        "January", "February", "March", "April", "May", "June", "July", "August", "September",
        "October", "November", "December",
    ];
    for (index, name) in names.iter().enumerate() {
        assert_eq!(month_no_to_name(index as u32 + 1), *name);
    }
}

#[test]
fn a_number_that_is_no_month_is_named_january() {
    assert_eq!(month_no_to_name(0), "January");
    assert_eq!(month_no_to_name(13), "January");
    assert_eq!(month_no_to_name(20), "January");
    assert_eq!(month_no_to_name(300), "January");
    assert_eq!(month_no_to_name(u32::MAX), "January");
}

#[test]
fn only_days_of_the_calendar_exist() {
    assert!(date_exists(2025, 4, 30));
    assert!(!date_exists(2025, 4, 31));
    assert!(date_exists(2024, 2, 29));
    assert!(!date_exists(2025, 2, 29));
    assert!(!date_exists(1900, 2, 29));
    assert!(date_exists(2000, 2, 29));
    assert!(date_exists(-4, 2, 29));
    assert!(!date_exists(2025, 0, 1));
    assert!(!date_exists(2025, 13, 1));
    assert!(!date_exists(2025, 1, 0));
    assert!(date_exists(262142, 12, 31));
    assert!(!date_exists(262143, 1, 1));
    assert!(date_exists(-262143, 1, 1));
    assert!(!date_exists(-262144, 12, 31));
}

#[test]
fn dates_are_written_with_padded_numbers() {
    assert_eq!(format_date(EntryDate { year: 2025, month: 4, day: 1 }), "2025-04-01");
    assert_eq!(format_date(EntryDate { year: 2025, month: 12, day: 31 }), "2025-12-31");
    assert_eq!(format_date(EntryDate { year: 33, month: 1, day: 2 }), "0033-01-02");
    assert_eq!(format_date(EntryDate { year: 0, month: 1, day: 2 }), "0000-01-02");
    assert_eq!(format_date(EntryDate { year: -5, month: 1, day: 2 }), "-0005-01-02");
    assert_eq!(format_date(EntryDate { year: 12345, month: 1, day: 2 }), "+12345-01-02");
}

#[test]
fn weekdays_are_named_in_capitals() {
    assert_eq!(weekday_name(EntryDate { year: 2025, month: 4, day: 1 }), "TUE");
    assert_eq!(weekday_name(EntryDate { year: 2025, month: 4, day: 6 }), "SUN");
    assert_eq!(weekday_name(EntryDate { year: 2025, month: 4, day: 7 }), "MON");
    assert_eq!(weekday_name(EntryDate { year: 2024, month: 2, day: 29 }), "THU");
    assert_eq!(weekday_name(EntryDate { year: 2025, month: 12, day: 24 }), "WED");
    assert_eq!(weekday_name(EntryDate { year: 2025, month: 12, day: 26 }), "FRI");
    assert_eq!(weekday_name(EntryDate { year: 2025, month: 12, day: 27 }), "SAT");
}

#[test]
fn a_date_is_read_from_text() {
    assert_eq!(parse_entry_args("2025-04-01"), Some(EntryDate { year: 2025, month: 4, day: 1 }));
    assert_eq!(parse_entry_args("2024-02-29"), Some(EntryDate { year: 2024, month: 2, day: 29 }));
}

#[test]
fn text_that_is_no_date_is_not_read() {
    assert_eq!(parse_entry_args("2025-02-30"), None);
    assert_eq!(parse_entry_args("2025-13-01"), None);
    assert_eq!(parse_entry_args("yesterday"), None);
    assert_eq!(parse_entry_args(""), None);
    assert_eq!(parse_entry_args("2025-04"), None);
    assert_eq!(parse_entry_args("2025-04-01 and more"), None);
}

#[test]
fn a_month_that_does_not_exist_gives_way_to_today() {
    let today = EntryDate { year: 2025, month: 4, day: 14 };
    assert_eq!(month_in_scope(2024, 11, today), (2024, 11, false));
    assert_eq!(month_in_scope(2024, 13, today), (2025, 4, true));
    assert_eq!(month_in_scope(2024, 0, today), (2025, 4, true));
    assert_eq!(month_in_scope(400000, 1, today), (2025, 4, true));
}

fn leap(year: i64) -> bool {
    year.rem_euclid(4) == 0 && (year.rem_euclid(100) != 0 || year.rem_euclid(400) == 0)
}

fn month_days(year: i64, month: u32) -> u32 {
    match month {
        2 => {
            if leap(year) {
                29
            } else {
                28
            }
        }
        4 | 6 | 9 | 11 => 30,
        _ => 31,
    }
}

fn day_number(year: i64, month: u32, day: u32) -> i64 {
    let y = year - 1;
    let mut days = 365 * y + y.div_euclid(4) - y.div_euclid(100) + y.div_euclid(400);
    for m in 1..month {
        days += month_days(year, m) as i64;
    }
    days + day as i64
}

fn years_to_try() -> Vec<i32> {
    let mut years: Vec<i32> = (-8..=8).collect();
    years.extend([-262143, -100000, -401, -400, -399, -101, -100, -99, 99, 100, 101, 399, 400, 401]);
    years.extend([1582, 1600, 1700, 1899, 1900, 1901, 1999, 2000, 2001, 2023, 2024, 2025, 2026]);
    years.extend([2100, 9999, 10000, 100000, 262142]);
    years
}

#[test]
fn the_weekday_is_that_of_the_day_number() {
    let labels = ["MON", "TUE", "WED", "THU", "FRI", "SAT", "SUN"];
    for year in years_to_try() {
        for month in 1..=12u32 {
            let last = month_days(year as i64, month);
            assert!(date_exists(year, month, last));
            assert!(!date_exists(year, month, last + 1));
            for day in 1..=last {
                let index = (day_number(year as i64, month, day) - 1).rem_euclid(7) as usize;
                assert_eq!(
                    weekday_name(EntryDate { year, month, day }),
                    labels[index],
                    "{}-{}-{}",
                    year,
                    month,
                    day
                );
            }
        }
    }
}
