//! Where the month-files lie: `<base>/<year>/<year>_<MM>.md`.

use vstd::prelude::*;
use crate::calendar::{signed_decimal, signed_decimal_chars};
use crate::edit::{
    append_chars, lemma_split_of_joined, lemma_split_of_one_piece, split, split_chars,
};
use crate::numbers::{
    all_digits, decimal, digit_value, lemma_decimal_reads_back, lemma_leading_zero,
    parse_i32, parse_i32_spec, parse_u32, parse_u32_spec, unsigned_digits, zero_padded,
    zero_padded_chars,
};
use crate::text::{chars_of, string_of, views_of};

verus! {

/// One month-file of a year.
#[derive(Debug)]
pub struct MonthFile {
    /// The year that the name of the file gives.
    pub year: i32,
    /// The month that the name of the file gives.
    pub month: u32,
    /// The lines of the file.
    pub lines: Vec<String>,
}

/// The two digits by which a month is written in a file name: `01` to `12`,
/// and `00` for a number that is no month.
pub open spec fn month_digits(num: u32) -> Seq<char> {
    if 1 <= num <= 12 {
        zero_padded(num as nat, 2)
    } else {
        seq!['0', '0']
    }
}

/// The folder of a year: `<base>/<year>/`.
pub open spec fn year_folder(base: Seq<char>, year: int) -> Seq<char> {
    base + seq!['/'] + signed_decimal(year) + seq!['/']
}

/// The file of a month: `<base>/<year>/<year>_<MM>.md`.
pub open spec fn month_file(base: Seq<char>, year: int, month: u32) -> Seq<char> {
    year_folder(base, year) + signed_decimal(year) + seq!['_'] + month_digits(month) + seq![
        '.',
        'm',
        'd',
    ]
}

/// The characters at which a path is cut to find the year and the month in
/// the name of a month-file.
pub open spec fn name_delims() -> Seq<char> {
    seq!['/', '_', '.']
}

/// The year and the month that the name of a month-file gives: the last but
/// two and the last but one of the parts between `/`, `_` and `.`, where both
/// are numbers.
pub open spec fn file_month(name: Seq<char>) -> Option<(i32, u32)> {
    let parts = split(name, name_delims());
    if parts.len() < 3 {
        None
    } else {
        match (parse_i32_spec(parts[parts.len() - 3]), parse_u32_spec(parts[parts.len() - 2])) {
            (Some(year), Some(month)) => Some((year, month)),
            _ => None,
        }
    }
}

/// The month as it is written in a file name.
pub fn correct_month_nums(num: u32) -> (digits: String)
    ensures
        digits@ == month_digits(num),
{
    if 1 <= num && num <= 12 {
        string_of(&zero_padded_chars(num as u64, 2))
    } else {
        let zeros: Vec<char> = vec!['0', '0'];
        assert(zeros@ =~= seq!['0', '0']);
        string_of(&zeros)
    }
}

/// The path of the folder of a year.
pub fn year_folder_path(base: &str, year: i32) -> (path: String)
    ensures
        path@ == year_folder(base@, year as int),
{
    let mut out = chars_of(base);
    out.push('/');
    append_chars(&mut out, &signed_decimal_chars(year));
    out.push('/');
    assert(out@ =~= year_folder(base@, year as int));
    string_of(&out)
}

/// The path of the file of a month.
pub fn month_file_path(base: &str, year: i32, month: u32) -> (path: String)
    ensures
        path@ == month_file(base@, year as int, month),
{
    let mut out = chars_of(year_folder_path(base, year).as_str());
    append_chars(&mut out, &signed_decimal_chars(year));
    out.push('_');
    append_chars(&mut out, &chars_of(correct_month_nums(month).as_str()));
    out.push('.');
    out.push('m');
    out.push('d');
    assert(out@ =~= month_file(base@, year as int, month));
    string_of(&out)
}

/// The year and the month of a month-file, read from its name.
pub fn month_of_file_name(name: &str) -> (found: Option<(i32, u32)>)
    ensures
        found == file_month(name@),
{
    let delims: Vec<char> = vec!['/', '_', '.'];
    assert(delims@ =~= name_delims());
    let parts = split_chars(&chars_of(name), &delims);
    let n = parts.len();
    if n < 3 {
        return None;
    }
    assert(views_of(parts@)[n - 3] == parts[n - 3]@);
    assert(views_of(parts@)[n - 2] == parts[n - 2]@);
    match (parse_i32(&parts[n - 3]), parse_u32(&parts[n - 2])) {
        (Some(year), Some(month)) => Some((year, month)),
        _ => None,
    }
}

/// A run of digits, with or without a minus sign in front, is one piece of
/// a file name.
proof fn lemma_number_is_one_piece(text: Seq<char>, digits: Seq<char>)
    requires
        all_digits(digits),
        text == digits || text == seq!['-'] + digits,
    ensures
        split(text, name_delims()) == seq![text],
{
    assert forall|j: int| 0 <= j < text.len() implies !name_delims().contains(
        #[trigger] text[j],
    ) by {
        if text == digits {
            assert(digit_value(digits[j]) is Some);
        } else if j > 0 {
            assert(text[j] == digits[j - 1]);
            assert(digit_value(digits[j - 1]) is Some);
        }
        let c = text[j];
        assert(c != '/' && c != '_' && c != '.');
        if name_delims().contains(c) {
            let i = choose|i: int| 0 <= i < name_delims().len() && name_delims()[i] == c;
            assert(i == 0 || i == 1 || i == 2);
        }
    }
    lemma_split_of_one_piece(text, name_delims(), 0, 0);
    assert(text.subrange(0, text.len() as int) =~= text);
}

/// A year as it is written in a path is read back as that year.
proof fn lemma_year_reads_back(year: i32)
    ensures
        parse_i32_spec(signed_decimal(year as int)) == Some(year),
        split(signed_decimal(year as int), name_delims()) == seq![signed_decimal(year as int)],
{
    let text = signed_decimal(year as int);
    if year < 0 {
        let digits = decimal((-year) as nat);
        lemma_decimal_reads_back((-year) as nat);
        assert(text.subrange(1, text.len() as int) =~= digits);
        assert(text[0] == '-');
        lemma_number_is_one_piece(text, digits);
    } else {
        let digits = decimal(year as nat);
        lemma_decimal_reads_back(year as nat);
        assert(digit_value(digits[0]) is Some);
        assert(unsigned_digits(text) == text);
        lemma_number_is_one_piece(text, digits);
    }
}

/// A month as it is written in a file name is read back as that month.
proof fn lemma_month_reads_back(month: u32)
    requires
        1 <= month <= 12,
    ensures
        parse_u32_spec(month_digits(month)) == Some(month),
        split(month_digits(month), name_delims()) == seq![month_digits(month)],
{
    let text = month_digits(month);
    let digits = decimal(month as nat);
    lemma_decimal_reads_back(month as nat);
    if month < 10 {
        assert(text =~= seq!['0'] + digits);
        lemma_leading_zero(digits);
        assert forall|i: int| 0 <= i < text.len() implies (#[trigger] digit_value(text[i])) is Some by {
            if i > 0 {
                assert(text[i] == digits[i - 1]);
            }
        }
    } else {
        assert(text == digits);
    }
    assert(digit_value(text[0]) is Some);
    assert(unsigned_digits(text) == text);
    lemma_number_is_one_piece(text, text);
}

/// The name of a month-file gives back the year and the month that it was
/// made of, whatever the folder that the file lies in.
pub proof fn lemma_file_name_gives_its_month(base: Seq<char>, year: i32, month: u32)
    requires
        1 <= month <= 12,
    ensures
        file_month(month_file(base, year as int, month)) == Some((year, month)),
{
    let delims = name_delims();
    let y = signed_decimal(year as int);
    let mm = month_digits(month);
    let md = seq!['m', 'd'];
    let head1 = base + seq!['/'] + y;
    let head2 = head1 + seq!['/'] + y;
    let head3 = head2 + seq!['_'] + mm;
    let name = month_file(base, year as int, month);
    assert(name =~= head3 + seq!['.'] + md);
    assert(delims.contains('/')) by {
        assert(delims[0] == '/');
    }
    assert(delims.contains('_')) by {
        assert(delims[1] == '_');
    }
    assert(delims.contains('.')) by {
        assert(delims[2] == '.');
    }
    lemma_year_reads_back(year);
    lemma_month_reads_back(month);
    assert(split(md, delims) == seq![md]) by {
        assert forall|j: int| 0 <= j < md.len() implies !delims.contains(#[trigger] md[j]) by {
            if delims.contains(md[j]) {
                let i = choose|i: int| 0 <= i < delims.len() && delims[i] == md[j];
                assert(i == 0 || i == 1 || i == 2);
            }
        }
        lemma_split_of_one_piece(md, delims, 0, 0);
        assert(md.subrange(0, md.len() as int) =~= md);
    }
    lemma_split_of_joined(head3, '.', md, delims, 0, 0);
    lemma_split_of_joined(head2, '_', mm, delims, 0, 0);
    lemma_split_of_joined(head1, '/', y, delims, 0, 0);
    let front = split(head1, delims);
    let parts = split(name, delims);
    assert(parts =~= front + seq![y] + seq![mm] + seq![md]);
    assert(parts[parts.len() - 3] == y);
    assert(parts[parts.len() - 2] == mm);
}

} // verus!
