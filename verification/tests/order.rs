use jrnl::order::ranked_indices;

#[test]
fn positions_are_ranked_by_rising_key() {
    assert_eq!(ranked_indices(&vec![30, 10, 20], 3), vec![1, 2, 0]);
    assert_eq!(ranked_indices(&vec![1, 2, 3], 10), vec![0, 1, 2]);
    assert_eq!(ranked_indices(&vec![u64::MAX, 0], 2), vec![1, 0]);
}

#[test]
fn equal_keys_keep_their_order() {
    assert_eq!(ranked_indices(&vec![5, 1, 5, 1, 5], 5), vec![1, 3, 0, 2, 4]);
}

#[test]
fn the_ranking_stops_at_the_limit() {
    assert_eq!(ranked_indices(&vec![30, 10, 20, 10], 2), vec![1, 3]);
    assert!(ranked_indices(&vec![30, 10, 20], 0).is_empty());
    assert!(ranked_indices(&Vec::new(), 4).is_empty());
}
