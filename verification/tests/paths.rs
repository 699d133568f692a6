use jrnl::paths::{correct_month_nums, month_file_path, month_of_file_name, year_folder_path};

#[test]
fn months_are_written_with_two_digits() {
    assert_eq!(correct_month_nums(3), String::from("03"));
    assert_eq!(correct_month_nums(9), String::from("09"));
    assert_eq!(correct_month_nums(10), String::from("10"));
    assert_eq!(correct_month_nums(12), String::from("12"));
}

#[test]
fn numbers_that_are_no_month_are_written_as_zeros() {
    assert_eq!(correct_month_nums(0), String::from("00"));
    assert_eq!(correct_month_nums(13), String::from("00"));
    assert_eq!(correct_month_nums(20), String::from("00"));
}

#[test]
fn month_file_lies_in_the_folder_of_its_year() {
    assert_eq!(month_file_path("/home/me/jrnl_folder", 2025, 4), "/home/me/jrnl_folder/2025/2025_04.md");
    assert_eq!(year_folder_path("/home/me/jrnl_folder", 2025), "/home/me/jrnl_folder/2025/");
    assert_eq!(month_file_path(".", 2024, 11), "./2024/2024_11.md");
    assert_eq!(month_file_path(".", 2024, 40), "./2024/2024_00.md");
}

#[test]
fn file_name_gives_year_and_month() {
    assert_eq!(month_of_file_name("/home/me/jrnl_folder/2025/2025_04.md"), Some((2025, 4)));
    assert_eq!(month_of_file_name("2025_12.md"), Some((2025, 12)));
    assert_eq!(month_of_file_name("notes.md"), None);
    assert_eq!(month_of_file_name("/a/b/year_month.md"), None);
}
