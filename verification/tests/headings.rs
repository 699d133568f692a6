use jrnl::headings::{get_headings, heading_line};

fn lines(text: &[&str]) -> Vec<String> {
    text.iter().map(|s| s.to_string()).collect()
}

#[test]
fn headings_come_with_their_line_numbers() {
    let file = lines(&[
        "### TUESDAY (10:00:00)",
        "# 2025-04-01",
        "- [chore] cleaned the house",
        "",
        "## not a date heading",
        "### WEDNESDAY",
        "# 2025-04-02",
        "#2025-04-03",
        "- more",
    ]);
    let (headings, numbers) = get_headings(&file);
    assert_eq!(headings, vec!["# 2025-04-01".to_string(), "# 2025-04-02".to_string()]);
    assert_eq!(numbers, vec![2, 7]);
}

#[test]
fn every_line_number_points_at_its_heading() {
    let file = lines(&["x", "# a", "# b", "y", "", "# c"]);
    let (headings, numbers) = get_headings(&file);
    assert_eq!(headings.len(), numbers.len());
    for k in 0..numbers.len() {
        assert_eq!(file[numbers[k] as usize - 1], headings[k]);
    }
    assert_eq!(numbers, vec![2, 3, 6]);
}

#[test]
fn a_file_without_headings_has_none() {
    let (headings, numbers) = get_headings(&lines(&["- a", "##", "###", "#"]));
    assert!(headings.is_empty());
    assert!(numbers.is_empty());
    let (headings, numbers) = get_headings(&Vec::new());
    assert!(headings.is_empty());
    assert!(numbers.is_empty());
}

#[test]
fn the_line_of_a_date_is_found() {
    let headings = lines(&["# 2025-04-01", "#  2025-04-02  ", "# 2025-04-01"]);
    let numbers = vec![2, 7, 11];
    assert_eq!(heading_line(&headings, &numbers, "2025-04-01"), Some(2));
    assert_eq!(heading_line(&headings, &numbers, "2025-04-02"), Some(7));
    assert_eq!(heading_line(&headings, &numbers, "2025-04-03"), None);
    assert_eq!(heading_line(&Vec::new(), &Vec::new(), "2025-04-03"), None);
}
