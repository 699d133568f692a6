use jrnl::edit::{replace_chars, split_chars, strip_marker_chars, tidy_chars, trim_chars};
use jrnl::numbers::{decimal_chars, parse_i32, parse_u32, zero_padded_chars};
use jrnl::text::{
    char_is_whitespace, chars_of, find_from, find_last, has_substring, same_chars, string_of,
};

fn cs(s: &str) -> Vec<char> {
    s.chars().collect()
}

fn text(v: &Vec<char>) -> String {
    v.iter().collect()
}

#[test]
fn characters_and_strings_round_trip() {
    assert_eq!(chars_of("héllo wörld"), cs("héllo wörld"));
    assert_eq!(string_of(&cs("héllo wörld")), "héllo wörld");
    assert_eq!(string_of(&chars_of("")), "");
    assert!(same_chars(&cs("abc"), &cs("abc")));
    assert!(!same_chars(&cs("abc"), &cs("abd")));
    assert!(!same_chars(&cs("abc"), &cs("ab")));
}

#[test]
fn substrings_are_found_first_and_last() {
    let s = cs("hello hello");
    assert_eq!(find_from(&s, &cs("llo"), 0), Some(2));
    assert_eq!(find_from(&s, &cs("llo"), 3), Some(8));
    assert_eq!(find_from(&s, &cs("llo"), 9), None);
    assert_eq!(find_from(&s, &cs("llo"), 40), None);
    assert_eq!(find_last(&s, &cs("llo")), Some(8));
    assert_eq!(find_last(&s, &cs("xyz")), None);
    assert_eq!(find_last(&cs("abc"), &cs("")), Some(3));
    assert!(has_substring(&s, &cs("o h")));
    assert!(!has_substring(&s, &cs("oh")));
    assert!(!has_substring(&cs("ab"), &cs("abc")));
}

#[test]
fn every_occurrence_is_replaced_from_the_left() {
    assert_eq!(text(&replace_chars(&cs("a-b-c"), &cs("-"), &cs("+"))), "a+b+c");
    assert_eq!(text(&replace_chars(&cs("aaa"), &cs("aa"), &cs("b"))), "ba");
    assert_eq!(text(&replace_chars(&cs("abcabc"), &cs("bc"), &cs(""))), "aa");
    assert_eq!(text(&replace_chars(&cs("abc"), &cs("x"), &cs("y"))), "abc");
    assert_eq!(text(&replace_chars(&cs("abc"), &cs("abc"), &cs("abcabc"))), "abcabc");
}

#[test]
fn an_empty_pattern_replaces_nothing() {
    assert_eq!(text(&replace_chars(&cs("abc"), &cs(""), &cs("+"))), "abc");
    assert_eq!(text(&replace_chars(&cs(""), &cs(""), &cs("+"))), "");
}

#[test]
fn splitting_keeps_empty_pieces() {
    let delims = cs(",;");
    let pieces = split_chars(&cs("a,b;;c"), &delims);
    assert_eq!(pieces, vec![cs("a"), cs("b"), cs(""), cs("c")]);
    assert_eq!(split_chars(&cs(""), &delims), vec![cs("")]);
    assert_eq!(split_chars(&cs(","), &delims), vec![cs(""), cs("")]);
    assert_eq!(split_chars(&cs("abc"), &delims), vec![cs("abc")]);
}

#[test]
fn trimming_drops_whitespace_at_both_ends() {
    assert_eq!(text(&trim_chars(&cs("  hi there \t\n"))), "hi there");
    assert_eq!(text(&trim_chars(&cs(" \t "))), "");
    assert_eq!(text(&trim_chars(&cs(""))), "");
    assert_eq!(text(&trim_chars(&cs("x"))), "x");
    assert_eq!(text(&trim_chars(&cs("\u{a0}x\u{2003}"))), "x");
}

#[test]
fn one_leading_list_marker_is_stripped() {
    assert_eq!(text(&strip_marker_chars(&cs("- item"))), "item");
    assert_eq!(text(&strip_marker_chars(&cs("- - item"))), "- item");
    assert_eq!(text(&strip_marker_chars(&cs("-item"))), "-item");
    assert_eq!(text(&strip_marker_chars(&cs("item - more"))), "item - more");
    assert_eq!(text(&strip_marker_chars(&cs("-"))), "-");
}

#[test]
fn a_line_is_tidied_for_showing() {
    assert_eq!(text(&tidy_chars(&cs("  - [x] done  "))), "[x] done");
    assert_eq!(text(&tidy_chars(&cs("-   spaced"))), "spaced");
    assert_eq!(text(&tidy_chars(&cs("plain - text"))), "plain - text");
    assert_eq!(text(&tidy_chars(&cs("- "))), "-");
}

#[test]
fn numbers_are_written_in_decimal() {
    assert_eq!(text(&decimal_chars(0)), "0");
    assert_eq!(text(&decimal_chars(7)), "7");
    assert_eq!(text(&decimal_chars(120)), "120");
    assert_eq!(text(&decimal_chars(u64::MAX)), "18446744073709551615");
    assert_eq!(text(&zero_padded_chars(7, 2)), "07");
    assert_eq!(text(&zero_padded_chars(12, 2)), "12");
    assert_eq!(text(&zero_padded_chars(123, 2)), "123");
    assert_eq!(text(&zero_padded_chars(5, 4)), "0005");
    assert_eq!(text(&zero_padded_chars(5, 0)), "5");
}

#[test]
fn unsigned_numbers_are_read() {
    assert_eq!(parse_u32(&cs("042")), Some(42));
    assert_eq!(parse_u32(&cs("+7")), Some(7));
    assert_eq!(parse_u32(&cs("0")), Some(0));
    assert_eq!(parse_u32(&cs("4294967295")), Some(u32::MAX));
    assert_eq!(parse_u32(&cs("4294967296")), None);
    assert_eq!(parse_u32(&cs("99999999999999999999999999")), None);
    assert_eq!(parse_u32(&cs("")), None);
    assert_eq!(parse_u32(&cs("+")), None);
    assert_eq!(parse_u32(&cs("-1")), None);
    assert_eq!(parse_u32(&cs("1a")), None);
    assert_eq!(parse_u32(&cs(" 1")), None);
}

#[test]
fn signed_numbers_are_read() {
    assert_eq!(parse_i32(&cs("2025")), Some(2025));
    assert_eq!(parse_i32(&cs("-17")), Some(-17));
    assert_eq!(parse_i32(&cs("+17")), Some(17));
    assert_eq!(parse_i32(&cs("2147483647")), Some(i32::MAX));
    assert_eq!(parse_i32(&cs("2147483648")), None);
    assert_eq!(parse_i32(&cs("-2147483648")), Some(i32::MIN));
    assert_eq!(parse_i32(&cs("-2147483649")), None);
    assert_eq!(parse_i32(&cs("-")), None);
    assert_eq!(parse_i32(&cs("")), None);
    assert_eq!(parse_i32(&cs("--1")), None);
}

#[test]
fn whitespace_is_what_the_standard_library_takes_for_it() {
    for code in 0..=0x10FFFFu32 {
        if let Some(c) = char::from_u32(code) {
            assert_eq!(char_is_whitespace(c), c.is_whitespace(), "U+{:04X}", code);
        }
    }
}
