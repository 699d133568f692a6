//! Date headings: the lines that open each entry of a month-file.

use vstd::prelude::*;
use crate::edit::{slice_chars, trim, trim_chars};
use crate::text::{chars_of, has_prefix, lines_of, starts_with};

verus! {

/// What a date heading begins with.
pub open spec fn heading_prefix() -> Seq<char> {
    seq!['#', ' ']
}

/// What a weekday or timestamp marker begins with.
pub open spec fn marker_prefix() -> Seq<char> {
    seq!['#', '#', '#', ' ']
}

/// `line` opens an entry.
pub open spec fn is_heading(line: Seq<char>) -> bool {
    starts_with(line, heading_prefix())
}

/// `line` is a weekday or timestamp marker: metadata, never content.
pub open spec fn is_marker(line: Seq<char>) -> bool {
    starts_with(line, marker_prefix())
}

/// The date that a heading names: the line without its `#`, trimmed.
pub open spec fn heading_date(line: Seq<char>) -> Seq<char> {
    trim(line.subrange(1, line.len() as int))
}

/// The date of the entry that line `i` belongs to: that of the last heading
/// at or before it, or nothing before the first heading.
pub open spec fn date_at(lines: Seq<Seq<char>>, i: int) -> Seq<char>
    decreases i,
{
    if i < 0 || i >= lines.len() {
        Seq::empty()
    } else if is_heading(lines[i]) {
        heading_date(lines[i])
    } else if i == 0 {
        Seq::empty()
    } else {
        date_at(lines, i - 1)
    }
}

/// The headings among the first `n` lines, in file order.
pub open spec fn headings_in(lines: Seq<Seq<char>>, n: int) -> Seq<Seq<char>>
    decreases n,
{
    if n <= 0 || n > lines.len() {
        Seq::empty()
    } else if is_heading(lines[n - 1]) {
        headings_in(lines, n - 1).push(lines[n - 1])
    } else {
        headings_in(lines, n - 1)
    }
}

/// The headings of a file.
pub open spec fn headings_of(lines: Seq<Seq<char>>) -> Seq<Seq<char>> {
    headings_in(lines, lines.len() as int)
}

/// Whether `line` opens an entry.
pub fn line_is_heading(line: &Vec<char>) -> (b: bool)
    ensures
        b == is_heading(line@),
{
    let prefix: Vec<char> = vec!['#', ' '];
    assert(prefix@ =~= heading_prefix());
    has_prefix(line, &prefix)
}

/// Whether `line` is a weekday or timestamp marker.
pub fn line_is_marker(line: &Vec<char>) -> (b: bool)
    ensures
        b == is_marker(line@),
{
    let prefix: Vec<char> = vec!['#', '#', '#', ' '];
    assert(prefix@ =~= marker_prefix());
    has_prefix(line, &prefix)
}

/// The date that a heading line names.
pub fn date_of_heading(line: &Vec<char>) -> (date: Vec<char>)
    requires
        is_heading(line@),
    ensures
        date@ == heading_date(line@),
{
    let rest = slice_chars(line, 1, line.len());
    trim_chars(&rest)
}

/// The headings of a month-file with their line numbers, counted from 1.
///
/// The two lists run in step: `numbers[k]` is the line on which `headings[k]`
/// stands. Every heading line is listed, in file order, and nothing else is.
pub fn get_headings(lines: &Vec<String>) -> (found: (Vec<String>, Vec<u32>))
    requires
        lines.len() <= u32::MAX,
    ensures
        found.0.len() == found.1.len(),
        lines_of(found.0@) == headings_of(lines_of(lines@)),
        forall|k: int|
            0 <= k < found.1.len() ==> {
                &&& 1 <= #[trigger] found.1[k] <= lines.len()
                &&& is_heading(lines[found.1[k] - 1]@)
                &&& found.0[k]@ == lines[found.1[k] - 1]@
            },
        forall|j: int, k: int| 0 <= j < k < found.1.len() ==> found.1[j] < found.1[k],
        forall|i: int|
            0 <= i < lines.len() && is_heading(#[trigger] lines[i]@) ==> exists|k: int|
                0 <= k < found.1.len() && found.1[k] == i + 1,
{
    let ghost ls = lines_of(lines@);
    let mut headings: Vec<String> = Vec::new();
    let mut numbers: Vec<u32> = Vec::new();
    let mut i: usize = 0;
    assert(lines_of(headings@) =~= headings_in(ls, 0));
    while i < lines.len()
        invariant
            i <= lines.len() <= u32::MAX,
            ls == lines_of(lines@),
            lines_of(headings@) == headings_in(ls, i as int),
            headings.len() == numbers.len(),
            forall|k: int|
                0 <= k < numbers.len() ==> {
                    &&& 1 <= #[trigger] numbers[k] <= i
                    &&& is_heading(lines[numbers[k] - 1]@)
                    &&& headings[k]@ == lines[numbers[k] - 1]@
                },
            forall|j: int, k: int| 0 <= j < k < numbers.len() ==> numbers[j] < numbers[k],
            forall|m: int|
                0 <= m < i && is_heading(#[trigger] lines[m]@) ==> exists|k: int|
                    0 <= k < numbers.len() && numbers[k] == m + 1,
        decreases lines.len() - i,
    {
        let line = chars_of(lines[i].as_str());
        assert(line@ == ls[i as int]);
        if line_is_heading(&line) {
            let ghost before = numbers@;
            let ghost heads = lines_of(headings@);
            headings.push(lines[i].clone());
            assert(lines_of(headings@) =~= heads.push(ls[i as int]));
            numbers.push((i + 1) as u32);
            assert forall|m: int| 0 <= m < i + 1 && is_heading(#[trigger] lines[m]@) implies exists|
                k: int,
            |
                0 <= k < numbers.len() && numbers[k] == m + 1 by {
                if m < i {
                    let k0 = choose|k: int| 0 <= k < before.len() && before[k] == m + 1;
                    assert(numbers[k0] == m + 1);
                } else {
                    assert(numbers[numbers.len() - 1] == m + 1);
                }
            }
        }
        i += 1;
    }
    assert forall|m: int| 0 <= m < lines.len() && is_heading(#[trigger] lines[m]@) implies exists|
        k: int,
    | 0 <= k < numbers.len() && numbers[k] == m + 1 by {
        let k0 = choose|k: int| 0 <= k < numbers.len() && numbers[k] == m + 1;
        assert(numbers[k0] == m + 1);
    }
    (headings, numbers)
}

/// The headings of a month-file, in file order.
pub fn heading_lines(lines: &Vec<String>) -> (headings: Vec<String>)
    ensures
        lines_of(headings@) == headings_of(lines_of(lines@)),
{
    let ghost ls = lines_of(lines@);
    let mut headings: Vec<String> = Vec::new();
    let mut i: usize = 0;
    assert(lines_of(headings@) =~= headings_in(ls, 0));
    while i < lines.len()
        invariant
            i <= lines.len(),
            ls == lines_of(lines@),
            lines_of(headings@) == headings_in(ls, i as int),
        decreases lines.len() - i,
    {
        let line = chars_of(lines[i].as_str());
        assert(line@ == ls[i as int]);
        if line_is_heading(&line) {
            let ghost before = lines_of(headings@);
            headings.push(lines[i].clone());
            assert(lines_of(headings@) =~= before.push(ls[i as int]));
        }
        i += 1;
    }
    headings
}

/// The line number of the heading for `date`, if the file has one.
///
/// `headings` and `numbers` are the two lists that `get_headings` returns. The
/// first heading whose date is `date` decides.
pub fn heading_line(headings: &Vec<String>, numbers: &Vec<u32>, date: &str) -> (line: Option<u32>)
    requires
        headings.len() == numbers.len(),
    ensures
        match line {
            Some(n) => exists|k: int|
                0 <= k < headings.len() && n == numbers[k] && names_date(headings[k]@, date@)
                    && forall|j: int| 0 <= j < k ==> !names_date(#[trigger] headings[j]@, date@),
            None => forall|k: int|
                0 <= k < headings.len() ==> !names_date(#[trigger] headings[k]@, date@),
        },
{
    let wanted = chars_of(date);
    let mut k: usize = 0;
    while k < headings.len()
        invariant
            k <= headings.len() == numbers.len(),
            wanted@ == date@,
            forall|j: int| 0 <= j < k ==> !names_date(#[trigger] headings[j]@, date@),
        decreases headings.len() - k,
    {
        let line = chars_of(headings[k].as_str());
        if line.len() >= 1 {
            let rest = slice_chars(&line, 1, line.len());
            let named = trim_chars(&rest);
            if crate::text::same_chars(&named, &wanted) {
                return Some(numbers[k]);
            }
        }
        k += 1;
    }
    None
}

/// The heading `heading` names `date`: without its first character and
/// trimmed, it is `date`.
pub open spec fn names_date(heading: Seq<char>, date: Seq<char>) -> bool {
    heading.len() >= 1 && heading_date(heading) == date
}

} // verus!
