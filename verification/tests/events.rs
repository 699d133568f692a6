use jrnl::dates::EntryDate;
use jrnl::events::{classify_event, event_timings, read_events, EventTiming};

fn lines(text: &[&str]) -> Vec<String> {
    text.iter().map(|s| s.to_string()).collect()
}

fn day(month: u32, day: u32) -> EntryDate {
    EntryDate { year: 2025, month, day }
}

#[test]
fn events_are_read_from_their_lines() {
    let file = lines(&[
        "# Events",
        "- [04-15] Birthday ",
        "- not an event",
        "",
        "* [01-01] no dash",
        "- [12-25]   Christmas dinner",
        "- [2-29] [too] many brackets",
    ]);
    assert_eq!(
        read_events(&file, 2025),
        Ok(vec![
            (day(4, 15), "Birthday".to_string()),
            (day(12, 25), "Christmas dinner".to_string())
        ])
    );
    assert_eq!(read_events(&Vec::new(), 2025), Ok(Vec::new()));
}

#[test]
fn an_event_on_a_day_that_does_not_exist_stops_the_reading() {
    let file = lines(&["- [04-15] fine", "- [02-29] leap day", "- [13-01] never read"]);
    assert_eq!(read_events(&file, 2025), Err(2));
    assert_eq!(read_events(&file, 2024), Err(3));
    assert_eq!(read_events(&lines(&["- [soon] party"]), 2025), Err(1));
    assert_eq!(read_events(&lines(&["", "- [04] party"]), 2025), Err(2));
    assert_eq!(read_events(&lines(&["- [] party"]), 2025), Err(1));
}

#[test]
fn events_are_placed_by_their_distance() {
    assert_eq!(classify_event(0), EventTiming::Today);
    assert_eq!(classify_event(1), EventTiming::Tomorrow);
    assert_eq!(classify_event(2), EventTiming::ThisWeek);
    assert_eq!(classify_event(7), EventTiming::ThisWeek);
    assert_eq!(classify_event(8), EventTiming::Unlisted);
    assert_eq!(classify_event(9), EventTiming::ThisMonth);
    assert_eq!(classify_event(30), EventTiming::ThisMonth);
    assert_eq!(classify_event(31), EventTiming::Unlisted);
    assert_eq!(classify_event(-1), EventTiming::Yesterday);
    assert_eq!(classify_event(-2), EventTiming::Recent);
    assert_eq!(classify_event(-30), EventTiming::Recent);
    assert_eq!(classify_event(-31), EventTiming::Unlisted);
    assert_eq!(classify_event(i64::MAX), EventTiming::Unlisted);
    assert_eq!(classify_event(i64::MIN), EventTiming::Unlisted);
}

#[test]
fn the_days_to_each_event_are_counted_from_today() {
    let events = vec![
        (day(4, 15), "a".to_string()),
        (day(4, 14), "b".to_string()),
        (day(4, 23), "c".to_string()),
        (day(4, 13), "d".to_string()),
        (day(3, 20), "e".to_string()),
        (day(12, 25), "f".to_string()),
        (day(5, 1), "g".to_string()),
    ];
    assert_eq!(
        event_timings(&events, day(4, 14)),
        vec![
            (1, EventTiming::Tomorrow),
            (0, EventTiming::Today),
            (9, EventTiming::ThisMonth),
            (-1, EventTiming::Yesterday),
            (-25, EventTiming::Recent),
            (255, EventTiming::Unlisted),
            (17, EventTiming::ThisMonth),
        ]
    );
    assert!(event_timings(&Vec::new(), day(4, 14)).is_empty());
}

fn count_of_days(year: i64, month: u32, day: u32) -> i64 {
    let leap = year.rem_euclid(4) == 0 && (year.rem_euclid(100) != 0 || year.rem_euclid(400) == 0);
    let lengths = [31, if leap { 29 } else { 28 }, 31, 30, 31, 30, 31, 31, 30, 31, 30, 31];
    let y = year - 1;
    let mut days = 365 * y + y.div_euclid(4) - y.div_euclid(100) + y.div_euclid(400);
    for m in 1..month {
        days += lengths[m as usize - 1];
    }
    days + day as i64
}

#[test]
fn the_days_between_two_dates_are_the_difference_of_their_day_numbers() {
    let dates = [
        (2025, 4, 14),
        (2025, 1, 1),
        (2024, 12, 31),
        (2024, 2, 29),
        (2000, 2, 29),
        (1900, 3, 1),
        (1, 1, 1),
        (0, 12, 31),
        (-1, 1, 1),
        (-400, 2, 29),
        (-262143, 1, 1),
        (262142, 12, 31),
        (1970, 1, 1),
    ];
    for from in dates {
        let today = EntryDate { year: from.0, month: from.1, day: from.2 };
        let events: Vec<(EntryDate, String)> = dates
            .iter()
            .map(|d| (EntryDate { year: d.0, month: d.1, day: d.2 }, String::new()))
            .collect();
        let timings = event_timings(&events, today);
        for (to, timing) in dates.iter().zip(timings) {
            let expected = count_of_days(to.0 as i64, to.1, to.2)
                - count_of_days(from.0 as i64, from.1, from.2);
            assert_eq!(timing.0, expected, "{:?} {:?}", from, to);
        }
    }
}
