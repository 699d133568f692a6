use jrnl::config::default_conf;
use jrnl::dates::EntryDate;
use jrnl::entry::{add_info_to_file, editor_argument, get_entry, paint_tags};

fn lines(text: &[&str]) -> Vec<String> {
    text.iter().map(|s| s.to_string()).collect()
}

fn month() -> Vec<String> {
    lines(&[
        "### TUESDAY (10:00:00)",
        "# 2025-04-01",
        "- [chore] cleaned the house",
        "",
        "plain text",
        "### WEDNESDAY",
        "# 2025-04-02",
        "- next day",
    ])
}

#[test]
fn an_entry_runs_from_its_heading_to_the_next() {
    colored::control::set_override(false);
    let date = EntryDate { year: 2025, month: 4, day: 1 };
    assert_eq!(
        get_entry(&month(), date, true),
        Some("2025-04-01 (TUE)\n- [chore] cleaned the house\n\nplain text\n".to_string())
    );
    assert_eq!(
        get_entry(&month(), date, false),
        Some("2025-04-01\n- [chore] cleaned the house\n\nplain text\n".to_string())
    );
}

#[test]
fn the_last_entry_runs_to_the_end_of_the_file() {
    colored::control::set_override(false);
    let date = EntryDate { year: 2025, month: 4, day: 2 };
    assert_eq!(get_entry(&month(), date, true), Some("2025-04-02 (WED)\n- next day\n".to_string()));
    let bare = lines(&["# 2025-04-02"]);
    assert_eq!(get_entry(&bare, date, false), Some("2025-04-02\n".to_string()));
}

#[test]
fn a_date_without_a_heading_has_no_entry() {
    let date = EntryDate { year: 2025, month: 4, day: 3 };
    assert_eq!(get_entry(&month(), date, true), None);
    assert_eq!(get_entry(&Vec::new(), date, true), None);
    let near = lines(&["## 2025-04-03", "#2025-04-03", "- # 2025-04-03", "# 2025-04-30"]);
    assert_eq!(get_entry(&near, date, true), None);
}

#[test]
fn tags_give_way_to_their_painted_forms() {
    let painted = lines(&["<a>", "<b>"]);
    assert_eq!(paint_tags("- [a] did [b] now", &painted), "- [<a>] did [<b>] now");
    assert_eq!(paint_tags("no tags here", &painted), "no tags here");
    assert_eq!(paint_tags("closing ] only", &painted), "closing ] only");
    assert_eq!(paint_tags("[a] [b] [c]", &painted), "[<a>] [<b>] [c]");
    assert_eq!(paint_tags("[a[b]", &painted), "[a[<a>]");
    assert_eq!(paint_tags("[open", &painted), "[open");
}

#[test]
fn a_new_entry_begins_with_its_heading() {
    let date = EntryDate { year: 2025, month: 4, day: 1 };
    let headings = lines(&["# 2025-03-31"]);
    let mut config = default_conf();
    assert_eq!(
        add_info_to_file(&headings, date, "10:11:12", &config),
        Some("\n### TUE\n# 2025-04-01".to_string())
    );
    config.add_timestamp = true;
    assert_eq!(
        add_info_to_file(&headings, date, "10:11:12", &config),
        Some("\n### TUE (10:11:12)\n# 2025-04-01".to_string())
    );
    config.add_weekday = false;
    assert_eq!(
        add_info_to_file(&headings, date, "10:11:12", &config),
        Some("\n### (10:11:12)\n# 2025-04-01".to_string())
    );
    config.add_timestamp = false;
    config.add_food_column = true;
    assert_eq!(
        add_info_to_file(&Vec::new(), date, "10:11:12", &config),
        Some("\n# 2025-04-01\n- [food] | | | ".to_string())
    );
}

#[test]
fn an_entry_that_exists_is_not_begun_again() {
    let date = EntryDate { year: 2025, month: 4, day: 1 };
    let headings = lines(&["# 2025-03-31", "# 2025-04-01"]);
    assert_eq!(add_info_to_file(&headings, date, "10:11:12", &default_conf()), None);
}

#[test]
fn the_editor_is_started_at_the_entry() {
    let headings = lines(&["# 2025-04-01", "# 2025-04-02"]);
    let numbers = vec![2, 7];
    assert_eq!(
        editor_argument("hx", "2025_04.md", &headings, &numbers, "2025-04-02"),
        Some("2025_04.md:7".to_string())
    );
    assert_eq!(
        editor_argument("nano", "2025_04.md", &headings, &numbers, "2025-04-02"),
        Some("2025_04.md".to_string())
    );
    assert_eq!(editor_argument("hx", "2025_04.md", &headings, &numbers, "2025-04-03"), None);
}
