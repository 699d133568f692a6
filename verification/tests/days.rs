use jrnl::days::{group_by_month, highlight_days, month_day_pairs, part_of_date};

fn lines(text: &[&str]) -> Vec<String> {
    text.iter().map(|s| s.to_string()).collect()
}

#[test]
fn the_parts_of_a_date_are_read_as_numbers() {
    assert_eq!(part_of_date("2025-04-01", 0), 2025);
    assert_eq!(part_of_date("2025-04-01", 1), 4);
    assert_eq!(part_of_date("2025-04-01", 2), 1);
    assert_eq!(part_of_date("# 2025-04-17", 2), 17);
}

#[test]
fn a_malformed_date_gives_zero() {
    assert_eq!(part_of_date("2025-04", 2), 0);
    assert_eq!(part_of_date("2025-04-xx", 2), 0);
    assert_eq!(part_of_date("2025-04- 1", 2), 0);
    assert_eq!(part_of_date("", 1), 0);
    assert_eq!(part_of_date("nonsense", 2), 0);
    assert_eq!(month_day_pairs(&lines(&["2025-04", "garbage", "2025-xx-09"])), vec![(4, 0), (0, 0), (0, 9)]);
}

#[test]
fn empty_dates_are_passed_over() {
    let dates = lines(&["", "2025-03-05", "", "2025-03-12"]);
    assert_eq!(month_day_pairs(&dates), vec![(3, 5), (3, 12)]);
    assert_eq!(highlight_days(&dates), vec![5, 12]);
    assert!(highlight_days(&Vec::new()).is_empty());
}

#[test]
fn days_are_grouped_by_month_whatever_the_order_of_the_files() {
    let march_first = vec![(3, 5), (3, 12), (4, 1)];
    let april_first = vec![(4, 1), (3, 5), (3, 12)];
    let expected = vec![(3, vec![5, 12]), (4, vec![1])];
    assert_eq!(group_by_month(&march_first), expected);
    assert_eq!(group_by_month(&april_first), expected);
}

#[test]
fn grouping_keeps_the_days_of_a_month_in_order() {
    let pairs = vec![(12, 31), (1, 9), (12, 1), (1, 2), (0, 0), (1, 9)];
    assert_eq!(
        group_by_month(&pairs),
        vec![(0, vec![0]), (1, vec![9, 2, 9]), (12, vec![31, 1])]
    );
    assert!(group_by_month(&Vec::new()).is_empty());
}
