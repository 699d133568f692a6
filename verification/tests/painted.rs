use jrnl::calendar::print_calendar;
use jrnl::dates::EntryDate;
use jrnl::entry::get_entry;
use jrnl::search::search_for_stuff;

fn lines(text: &[&str]) -> Vec<String> {
    text.iter().map(|s| s.to_string()).collect()
}

#[test]
fn a_found_tag_is_painted_cyan() {
    colored::control::set_override(true);
    let file = lines(&["# 2025-04-01", "- [chore] cleaned the house"]);
    let (dates, matches) = search_for_stuff(&file, "chore", false, 0).unwrap();
    assert_eq!(dates, lines(&["2025-04-01"]));
    assert_eq!(matches, lines(&["[\u{1b}[36mchore\u{1b}[0m] cleaned the house"]));
}

#[test]
fn a_found_word_is_painted_purple() {
    colored::control::set_override(true);
    let file = lines(&["# 2025-04-01", "- Walked home"]);
    let (_, matches) = search_for_stuff(&file, "walk", true, 0).unwrap();
    assert_eq!(matches, lines(&["\u{1b}[35mWalked\u{1b}[0m home"]));
}

#[test]
fn a_food_line_is_never_painted() {
    colored::control::set_override(true);
    let file = lines(&["# 2025-04-01", "- [food] | toast | soup | pasta | "]);
    let (_, matches) = search_for_stuff(&file, "food", false, 0).unwrap();
    assert_eq!(matches, lines(&["- [food] | toast | soup | pasta | "]));
}

#[test]
fn only_the_highlighted_day_is_painted() {
    colored::control::set_override(true);
    let text = print_calendar(2025, 4, vec![15]);
    assert!(text.contains("14 \u{1b}[1;32m15\u{1b}[0m 16 "));
    assert_eq!(text.matches("\u{1b}[1;32m").count(), 1);
    assert!(text.contains("    1  2  3  4  5  6 \n"));
    assert!(text.contains("28 29 30 \n"));
}

#[test]
fn a_painted_calendar_in_full() {
    colored::control::set_override(true);
    let expected = "     \u{1b}[1;4;36mApril\u{1b}[0m \u{1b}[1;4;36m2025\u{1b}[0m\n\
                    \u{1b}[93mMo Tu We Th Fr Sa Su\n\u{1b}[0m\
                    \x20   1  2  3  4  5  6 \n\
                    \x207  8 \u{1b}[1;32m 9\u{1b}[0m 10 11 12 13 \n\
                    14 15 16 17 18 19 20 \n\
                    21 22 23 24 25 26 27 \n\
                    28 29 \u{1b}[1;32m30\u{1b}[0m \n";
    assert_eq!(print_calendar(2025, 4, vec![30, 9, 31]), expected);
}

#[test]
fn the_tags_of_an_entry_are_painted() {
    colored::control::set_override(true);
    let file = lines(&["# 2025-04-01", "- [chore] cleaned [house]", "plain"]);
    let date = EntryDate { year: 2025, month: 4, day: 1 };
    assert_eq!(
        get_entry(&file, date, false),
        Some(
            "\u{1b}[1;4;33m2025-04-01\u{1b}[0m\n\
             - [\u{1b}[36mchore\u{1b}[0m] cleaned [\u{1b}[36mhouse\u{1b}[0m]\nplain\n"
                .to_string()
        )
    );
}

#[test]
fn the_weekday_of_an_entry_is_painted() {
    colored::control::set_override(true);
    let file = lines(&["# 2025-04-01", "- rest"]);
    let date = EntryDate { year: 2025, month: 4, day: 1 };
    assert_eq!(
        get_entry(&file, date, true),
        Some(
            "\u{1b}[1;4;33m2025-04-01\u{1b}[0m (\u{1b}[35mTUE\u{1b}[0m)\n- rest\n".to_string()
        )
    );
}
