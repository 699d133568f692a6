use jrnl::search::{
    distance, emphasize, find_hits, lowered, search_for_stuff, word_stands_alone, SearchError,
};
use jrnl::tags::food_fields;

fn lines(text: &[&str]) -> Vec<String> {
    text.iter().map(|s| s.to_string()).collect()
}

fn april() -> Vec<String> {
    lines(&[
        "# 2025-04-01",
        "- [food] | toast | soup | pasta | ",
        "- [chore] cleaned the house",
    ])
}

#[test]
fn a_tag_lookup_finds_the_tagged_record() {
    colored::control::set_override(false);
    let (dates, matches) = search_for_stuff(&april(), "chore", false, 0).unwrap();
    assert_eq!(dates, lines(&["2025-04-01"]));
    assert_eq!(matches, lines(&["[chore] cleaned the house"]));
}

#[test]
fn a_food_lookup_hands_out_the_line_as_it_stands() {
    colored::control::set_override(false);
    let (dates, matches) = search_for_stuff(&april(), "food", false, 0).unwrap();
    assert_eq!(dates, lines(&["2025-04-01"]));
    assert_eq!(matches, lines(&["- [food] | toast | soup | pasta | "]));
    assert_eq!(food_fields(&matches[0]), lines(&["toast", "soup", "pasta", ""]));
}

#[test]
fn a_free_text_search_for_food_is_refused() {
    assert_eq!(search_for_stuff(&april(), "food", true, 0), Err(SearchError::FoodInFreeText));
    assert_eq!(search_for_stuff(&Vec::new(), "food", true, 2), Err(SearchError::FoodInFreeText));
}

#[test]
fn a_free_text_search_for_a_tag_is_refused() {
    assert_eq!(search_for_stuff(&april(), "chore", true, 0), Err(SearchError::TagCollision));
    assert_eq!(search_for_stuff(&april(), "chore", true, 3), Err(SearchError::TagCollision));
    let marked = lines(&["### [chore] in a marker", "# 2025-04-01", "- did a chore"]);
    assert!(search_for_stuff(&marked, "chore", true, 0).is_ok());
}

#[test]
fn no_match_is_no_error() {
    colored::control::set_override(false);
    let (dates, matches) = search_for_stuff(&april(), "garden", false, 0).unwrap();
    assert!(dates.is_empty());
    assert!(matches.is_empty());
    let (dates, matches) = search_for_stuff(&april(), "garden", true, 1).unwrap();
    assert!(dates.is_empty());
    assert!(matches.is_empty());
    let (dates, matches) = search_for_stuff(&Vec::new(), "garden", true, 1).unwrap();
    assert!(dates.is_empty());
    assert!(matches.is_empty());
}

#[test]
fn a_word_inside_a_longer_word_does_not_match() {
    colored::control::set_override(false);
    let file = lines(&["# 2025-04-01", "category", "concatcat", "- concat"]);
    let (dates, matches) = search_for_stuff(&file, "cat", true, 0).unwrap();
    assert!(dates.is_empty());
    assert!(matches.is_empty());
}

#[test]
fn a_word_that_stands_free_matches_as_a_substring() {
    colored::control::set_override(false);
    let file = lines(&["# 2025-04-01", "- fed the cat!", "_cat_", "cat", "the cat5 model"]);
    let (dates, matches) = search_for_stuff(&file, "cat", true, 0).unwrap();
    assert_eq!(dates, lines(&["2025-04-01", "2025-04-01", "2025-04-01"]));
    assert_eq!(matches, lines(&["fed the cat!", "_cat_", "cat"]));
}

#[test]
fn the_last_occurrence_decides_the_substring_check() {
    colored::control::set_override(false);
    let file = lines(&["# 2025-04-01", "cat! and a tomcat5"]);
    let (dates, _) = search_for_stuff(&file, "cat", true, 0).unwrap();
    assert!(dates.is_empty());
    let file = lines(&["# 2025-04-01", "tomcat5 and a cat!"]);
    let (dates, _) = search_for_stuff(&file, "cat", true, 0).unwrap();
    assert_eq!(dates.len(), 1);
}

#[test]
fn whole_words_match_in_any_letter_case_and_inflected() {
    colored::control::set_override(false);
    let file = lines(&[
        "# 2025-04-01",
        "- Walk home",
        "- walked home",
        "- she walks",
        "- the walk's end",
        "- WALKED",
        "- walking home",
        "- sidewalk",
    ]);
    let (dates, matches) = search_for_stuff(&file, "walk", true, 0).unwrap();
    assert_eq!(dates.len(), 5);
    assert_eq!(
        matches,
        lines(&["Walk home", "walked home", "she walks", "the walk's end", "WALKED"])
    );
}

#[test]
fn inflected_forms_of_words_ending_in_e() {
    colored::control::set_override(false);
    let file = lines(&["# 2025-04-01", "- baked bread", "- bakes", "- bakery"]);
    let (_, matches) = search_for_stuff(&file, "bake", true, 0).unwrap();
    assert_eq!(matches, lines(&["baked bread", "bakes"]));
}

#[test]
fn a_tolerance_admits_words_within_that_distance() {
    colored::control::set_override(false);
    let file = lines(&["# 2025-04-01", "- went for a walk"]);
    let (dates, matches) = search_for_stuff(&file, "wolk", true, 1).unwrap();
    assert_eq!(dates, lines(&["2025-04-01"]));
    assert_eq!(matches, lines(&["went for a walk"]));
    let (dates, _) = search_for_stuff(&file, "wolk", true, 0).unwrap();
    assert!(dates.is_empty());
}

#[test]
fn swapped_letters_count_as_two_edits() {
    colored::control::set_override(false);
    let file = lines(&["# 2025-04-01", "- went for a walk"]);
    let (dates, _) = search_for_stuff(&file, "wlak", true, 0).unwrap();
    assert!(dates.is_empty());
    let (dates, _) = search_for_stuff(&file, "wlak", true, 1).unwrap();
    assert!(dates.is_empty());
    let (dates, matches) = search_for_stuff(&file, "wlak", true, 2).unwrap();
    assert_eq!(dates, lines(&["2025-04-01"]));
    assert_eq!(matches, lines(&["went for a walk"]));
}

#[test]
fn the_tolerance_is_case_insensitive() {
    colored::control::set_override(false);
    let file = lines(&["# 2025-04-01", "- a long WALK"]);
    let (dates, _) = search_for_stuff(&file, "wolk", true, 1).unwrap();
    assert_eq!(dates.len(), 1);
}

#[test]
fn searching_twice_gives_the_same() {
    colored::control::set_override(false);
    let file = lines(&[
        "# 2025-04-01",
        "- a walk in the park",
        "# 2025-04-02",
        "- walked again",
        "- rested",
    ]);
    let first = search_for_stuff(&file, "walk", true, 1);
    let second = search_for_stuff(&file, "walk", true, 1);
    assert_eq!(first, second);
    let (dates, matches) = first.unwrap();
    assert_eq!(dates, lines(&["2025-04-01", "2025-04-02"]));
    assert_eq!(matches, lines(&["a walk in the park", "walked again"]));
}

#[test]
fn weekday_markers_and_headings_never_match() {
    colored::control::set_override(false);
    let file = lines(&[
        "### TUESDAY (10:00:00)",
        "# 2025-04-01",
        "- nothing on tuesday",
        "### [tag] in a marker",
        "# [tag] in a heading",
        "- [tag] in a record",
    ]);
    let (dates, matches) = search_for_stuff(&file, "tuesday", true, 0).unwrap();
    assert_eq!(dates, lines(&["2025-04-01"]));
    assert_eq!(matches, lines(&["nothing on tuesday"]));
    let (dates, _) = search_for_stuff(&file, "2025", true, 0).unwrap();
    assert!(dates.is_empty());
    let (dates, matches) = search_for_stuff(&file, "tag", false, 0).unwrap();
    assert_eq!(dates, lines(&["[tag] in a heading"]));
    assert_eq!(matches, lines(&["[tag] in a record"]));
}

#[test]
fn every_match_stands_under_the_date_of_its_entry() {
    colored::control::set_override(false);
    let file = lines(&[
        "- [run] before any heading",
        "# 2025-04-01",
        "- [run] 5k",
        "- [swim] 1k",
        "#   2025-04-03  ",
        "- [run] 10k",
        "- [run] and [run] again",
    ]);
    let (dates, matches) = search_for_stuff(&file, "run", false, 0).unwrap();
    assert_eq!(dates, lines(&["", "2025-04-01", "2025-04-03", "2025-04-03"]));
    assert_eq!(
        matches,
        lines(&["[run] before any heading", "[run] 5k", "[run] 10k", "[run] and [run] again"])
    );
}

#[test]
fn hits_name_the_line_the_date_and_what_matched() {
    let file = lines(&["# 2025-04-01", "- rest", "- Walked far", "# 2025-04-02", "- [walk] far"]);
    let hits = find_hits(&file, "walk", true, 0);
    assert!(hits.is_err());
    let file = lines(&["# 2025-04-01", "- rest", "- Walked far", "# 2025-04-02", "- a walk."]);
    let hits = find_hits(&file, "walk", true, 0).unwrap();
    assert_eq!(hits.len(), 2);
    assert_eq!(hits[0].line, 2);
    assert_eq!(hits[0].date, "2025-04-01");
    assert_eq!(hits[0].target, "Walked");
    assert_eq!(hits[1].line, 4);
    assert_eq!(hits[1].date, "2025-04-02");
    assert_eq!(hits[1].target, "walk");
    let hits = find_hits(&file, "rest", false, 0).unwrap();
    assert!(hits.is_empty());
}

#[test]
fn a_match_is_shown_with_the_painted_text_in_place() {
    assert_eq!(
        emphasize("- [chore] cleaned the house", "chore", "<chore>", true),
        "[<chore>] cleaned the house"
    );
    assert_eq!(emphasize("- chore [chore]", "chore", "<chore>", true), "chore [<chore>]");
    assert_eq!(emphasize("- walked and walked", "walked", "*walked*", false), "*walked* and *walked*");
    assert_eq!(emphasize("   plain   ", "absent", "x", false), "plain");
    assert_eq!(emphasize("- a - b", "a", "A", false), "A - b");
}

fn levenshtein_of_bytes(a: &[u8], b: &[u8]) -> u32 {
    let mut row: Vec<u32> = (0..=b.len() as u32).collect();
    for i in 1..=a.len() {
        let mut diagonal = row[0];
        row[0] = i as u32;
        for j in 1..=b.len() {
            let change = if a[i - 1] == b[j - 1] { 0 } else { 1 };
            let next = (row[j] + 1).min(row[j - 1] + 1).min(diagonal + change);
            diagonal = row[j];
            row[j] = next;
        }
    }
    row[b.len()]
}

#[test]
fn the_distance_is_that_of_levenshtein_on_bytes() {
    assert_eq!(distance("wlak", "walk"), Some(2));
    assert_eq!(distance("wolk", "walk"), Some(1));
    assert_eq!(distance("kitten", "sitting"), Some(3));
    assert_eq!(distance("this is a book", "i am a cook"), Some(6));
    assert_eq!(distance("", ""), Some(0));
    assert_eq!(distance("", "abc"), Some(3));
    assert_eq!(distance("abc", ""), Some(3));
    assert_eq!(distance("same", "same"), Some(0));
    assert_eq!(distance("\u{e9}", "e"), Some(2));
    let words = [
        "", "a", "ab", "ba", "abc", "walk", "wlak", "walked", "talk", "flaw", "lawn", "kitten",
        "sitting", "saturday", "sunday", "\u{e9}t\u{e9}", "ete", "na\u{ef}ve", "naive", "xyz",
        "aaaa", "aaab", "baaa", "abab", "baba",
    ];
    for a in words {
        for b in words {
            assert_eq!(
                distance(a, b),
                Some(levenshtein_of_bytes(a.as_bytes(), b.as_bytes())),
                "{:?} {:?}",
                a,
                b
            );
        }
    }
}

#[test]
fn ascii_letters_are_lowered_one_by_one() {
    let mut all = String::new();
    for code in 0..128u8 {
        let c = code as char;
        all.push(c);
        let one: Vec<char> = vec![c];
        assert_eq!(lowered(&one), c.to_ascii_lowercase().to_string());
    }
    let chars: Vec<char> = all.chars().collect();
    assert_eq!(lowered(&chars), all.to_ascii_lowercase());
    let mixed: Vec<char> = "Walk THE Dog, 42!".chars().collect();
    assert_eq!(lowered(&mixed), "walk the dog, 42!");
    let greek: Vec<char> = "\u{391}\u{392}".chars().collect();
    assert_eq!(lowered(&greek), "\u{3b1}\u{3b2}");
}

#[test]
fn in_ascii_only_digits_and_letters_are_alphanumeric() {
    let word: Vec<char> = vec!['#'];
    for code in 0..128u8 {
        let c = code as char;
        if c == '#' {
            continue;
        }
        let before: Vec<char> = vec![c, '#'];
        let after: Vec<char> = vec!['#', c];
        assert_eq!(word_stands_alone(&before, &word), !c.is_ascii_alphanumeric(), "{:?}", c);
        assert_eq!(word_stands_alone(&after, &word), !c.is_ascii_alphanumeric(), "{:?}", c);
    }
    let accented: Vec<char> = vec!['\u{e9}', '#'];
    assert!(!word_stands_alone(&accented, &word));
}
