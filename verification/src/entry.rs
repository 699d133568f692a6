//! One entry of the journal: showing it, and preparing the file for a new one.

use vstd::prelude::*;
use crate::config::Config;
use crate::dates::{date_text, format_date, weekday_label, weekday_name, weekday_of, EntryDate};
use crate::edit::{append_chars, slice_chars};
use crate::numbers::{decimal, decimal_chars};
use crate::headings::{
    date_of_heading, heading_date, heading_line, is_heading, is_marker, line_is_heading,
    line_is_marker, names_date,
};
use crate::paint::{
    bold_yellow_underline, cyan, is_painted, match_style, purple, tag_style, title_style,
};
use crate::tags::{line_tags, tags_in_line};
use crate::text::{chars_of, lines_of, same_chars, string_of, views_of};

verus! {

/// The painted form of the tag at position `k`, or the tag as it stands
/// where no painted form is given for it.
pub open spec fn paint_or_plain(paints: Seq<Seq<char>>, k: int, plain: Seq<char>) -> Seq<char> {
    if 0 <= k < paints.len() {
        paints[k]
    } else {
        plain
    }
}

/// What has been written of the first `n` characters of `s` when each tag
/// gives way to its painted form: the text written, the index after the last
/// bracket, and the number of tags met.
pub open spec fn paint_scan(s: Seq<char>, paints: Seq<Seq<char>>, n: int) -> (Seq<char>, int, int)
    decreases n,
{
    if n <= 0 || n > s.len() {
        (Seq::empty(), 0, 0)
    } else {
        let (out, start, used) = paint_scan(s, paints, n - 1);
        if s[n - 1] == ']' {
            (
                out + paint_or_plain(paints, used, s.subrange(start, n - 1)) + seq![']'],
                n,
                used + 1,
            )
        } else if s[n - 1] == '[' {
            (out + s.subrange(start, n), n, used)
        } else {
            (out, start, used)
        }
    }
}

/// `line` with each of its tags painted: the k-th tag gives way to
/// `paints[k]`, the brackets and everything else stay as they are. A line
/// without `[` stays as it is.
pub open spec fn with_painted_tags(line: Seq<char>, paints: Seq<Seq<char>>) -> Seq<char> {
    if line.contains('[') {
        let (out, start, used) = paint_scan(line, paints, line.len() as int);
        out + line.subrange(start, line.len() as int)
    } else {
        line
    }
}

/// Writes `line` with each of its tags painted.
pub fn paint_tags(line: &str, painted: &Vec<String>) -> (shown: String)
    ensures
        shown@ == with_painted_tags(line@, lines_of(painted@)),
{
    let s = chars_of(line);
    let mut opened = false;
    let mut k: usize = 0;
    while k < s.len()
        invariant
            k <= s.len(),
            opened <==> exists|j: int| 0 <= j < k && s@[j] == '[',
        decreases s.len() - k,
    {
        if s[k] == '[' {
            opened = true;
        }
        k += 1;
    }
    if !opened {
        return string_of(&s);
    }
    let ghost paints = lines_of(painted@);
    let mut out: Vec<char> = Vec::new();
    let mut start: usize = 0;
    let mut used: usize = 0;
    let mut i: usize = 0;
    while i < s.len()
        invariant
            start <= i <= s.len(),
            used <= i,
            paints == lines_of(painted@),
            (out@, start as int, used as int) == paint_scan(s@, paints, i as int),
        decreases s.len() - i,
    {
        let ghost before = out@;
        if s[i] == ']' {
            if used < painted.len() {
                assert(paints[used as int] == painted[used as int]@);
                append_chars(&mut out, &chars_of(painted[used].as_str()));
            } else {
                append_chars(&mut out, &slice_chars(&s, start, i));
            }
            out.push(']');
            assert(out@ =~= before + paint_or_plain(
                paints,
                used as int,
                s@.subrange(start as int, i as int),
            ) + seq![']']);
            used += 1;
            start = i + 1;
        } else if s[i] == '[' {
            append_chars(&mut out, &slice_chars(&s, start, i + 1));
            start = i + 1;
        }
        i += 1;
    }
    append_chars(&mut out, &slice_chars(&s, start, s.len()));
    string_of(&out)
}

/// `paints` are the painted forms of `tags`, one for one.
pub open spec fn are_painted_tags(paints: Seq<Seq<char>>, tags: Seq<Seq<char>>) -> bool {
    &&& paints.len() == tags.len()
    &&& forall|k: int| 0 <= k < paints.len() ==> is_painted(#[trigger] paints[k], tags[k], tag_style())
}

/// `shown` is `line` with each of its tags painted.
pub open spec fn is_entry_line(shown: Seq<char>, line: Seq<char>) -> bool {
    exists|paints: Seq<Seq<char>>|
        are_painted_tags(paints, line_tags(line)) && shown == #[trigger] with_painted_tags(
            line,
            paints,
        )
}

/// The index of the first heading from `i` on that names `date`.
pub open spec fn entry_start(lines: Seq<Seq<char>>, date: Seq<char>, i: int) -> Option<int>
    decreases lines.len() - i,
{
    if i < 0 || i >= lines.len() {
        None
    } else if is_heading(lines[i]) && heading_date(lines[i]) == date {
        Some(i)
    } else {
        entry_start(lines, date, i + 1)
    }
}

/// The index of the first heading from `i` on, or the number of lines.
pub open spec fn entry_end(lines: Seq<Seq<char>>, i: int) -> int
    decreases lines.len() - i,
{
    if i < 0 || i >= lines.len() {
        lines.len() as int
    } else if is_heading(lines[i]) {
        i
    } else {
        entry_end(lines, i + 1)
    }
}

/// The lines from `from` up to `to` that are no weekday markers.
pub open spec fn body_lines(lines: Seq<Seq<char>>, from: int, to: int) -> Seq<Seq<char>>
    decreases to - from,
{
    if to <= from || from < 0 || to > lines.len() {
        Seq::empty()
    } else if is_marker(lines[to - 1]) {
        body_lines(lines, from, to - 1)
    } else {
        body_lines(lines, from, to - 1).push(lines[to - 1])
    }
}

/// The title of an entry: the date as it is painted, with the weekday as it
/// is painted in brackets behind it where weekdays are shown.
pub open spec fn title_of(date: Seq<char>, weekday: Seq<char>, add_weekday: bool) -> Seq<char> {
    if add_weekday {
        date + seq![' ', '('] + weekday + seq![')', '\n']
    } else {
        date + seq!['\n']
    }
}

/// The first `n` lines, each closed by a line break.
pub open spec fn joined(lines: Seq<Seq<char>>, n: int) -> Seq<char>
    decreases n,
{
    if n <= 0 || n > lines.len() {
        Seq::empty()
    } else {
        joined(lines, n - 1) + lines[n - 1] + seq!['\n']
    }
}

/// `body` shows the lines `source`, one for one, each with its tags painted.
pub open spec fn shows_lines(body: Seq<Seq<char>>, source: Seq<Seq<char>>) -> bool {
    &&& body.len() == source.len()
    &&& forall|k: int| 0 <= k < body.len() ==> is_entry_line(#[trigger] body[k], source[k])
}

/// An entry as text: its title, then its lines.
pub open spec fn entry_text(
    date: Seq<char>,
    weekday: Seq<char>,
    add_weekday: bool,
    body: Seq<Seq<char>>,
) -> Seq<char> {
    title_of(date, weekday, add_weekday) + joined(body, body.len() as int)
}

/// `text` is the entry of `date` that begins at the heading on line `at`:
/// a title with the date painted, and the weekday painted behind it where
/// weekdays are shown; then every line up to the next heading, weekday
/// markers left out, each with its tags painted.
pub open spec fn is_entry(
    text: Seq<char>,
    lines: Seq<Seq<char>>,
    at: int,
    date: Seq<char>,
    weekday: Seq<char>,
    add_weekday: bool,
) -> bool {
    exists|shown_date: Seq<char>, shown_weekday: Seq<char>, body: Seq<Seq<char>>|
        is_painted(shown_date, date, title_style()) && is_painted(
            shown_weekday,
            weekday,
            match_style(),
        ) && text == #[trigger] entry_text(shown_date, shown_weekday, add_weekday, body)
            && shows_lines(body, body_lines(lines, at + 1, entry_end(lines, at + 1)))
}

/// The entry of `date` in a month-file, as it is shown; nothing where the
/// file has no entry for that date.
pub fn get_entry(lines: &Vec<String>, date: EntryDate, add_weekday: bool) -> (entry: Option<String>)
    requires
        date.is_valid(),
    ensures
        match entry {
            None => entry_start(
                lines_of(lines@),
                date_text(date.year as int, date.month as nat, date.day as nat),
                0,
            ) is None,
            Some(text) => {
                let at = entry_start(
                    lines_of(lines@),
                    date_text(date.year as int, date.month as nat, date.day as nat),
                    0,
                );
                at is Some && is_entry(
                    text@,
                    lines_of(lines@),
                    at->0,
                    date_text(date.year as int, date.month as nat, date.day as nat),
                    weekday_label(weekday_of(date.year as int, date.month as int, date.day as int)),
                    add_weekday,
                )
            },
        },
{
    let ghost ls = lines_of(lines@);
    let wanted = chars_of(format_date(date).as_str());
    let mut at: usize = 0;
    let mut found = false;
    while at < lines.len() && !found
        invariant
            at <= lines.len(),
            ls == lines_of(lines@),
            found ==> at < lines.len() && is_heading(ls[at as int]) && heading_date(ls[at as int])
                == wanted@,
            entry_start(ls, wanted@, 0) == entry_start(ls, wanted@, at as int),
        decreases lines.len() - at + if found { 0int } else { 1int },
    {
        let line = chars_of(lines[at].as_str());
        assert(line@ == ls[at as int]);
        if line_is_heading(&line) && same_chars(&date_of_heading(&line), &wanted) {
            found = true;
        } else {
            at += 1;
        }
    }
    if !found {
        return None;
    }
    let shown_date = bold_yellow_underline(string_of(&wanted).as_str());
    let shown_weekday = purple(weekday_name(date).as_str());
    let mut out = chars_of(shown_date.as_str());
    if add_weekday {
        out.push(' ');
        out.push('(');
        append_chars(&mut out, &chars_of(shown_weekday.as_str()));
        out.push(')');
    }
    out.push('\n');
    let ghost title = title_of(shown_date@, shown_weekday@, add_weekday);
    assert(out@ =~= title);
    let ghost body: Seq<Seq<char>> = Seq::empty();
    let mut i: usize = at + 1;
    let mut ended = false;
    assert(out@ =~= title + joined(body, 0));
    while i < lines.len() && !ended
        invariant
            at < i <= lines.len(),
            ls == lines_of(lines@),
            entry_end(ls, at + 1) == entry_end(ls, i as int),
            ended ==> i < lines.len() && is_heading(ls[i as int]),
            out@ == title + joined(body, body.len() as int),
            shows_lines(body, body_lines(ls, at + 1, i as int)),
        decreases lines.len() - i + if ended { 0int } else { 1int },
    {
        let line = chars_of(lines[i].as_str());
        assert(line@ == ls[i as int]);
        if line_is_heading(&line) {
            ended = true;
        } else {
            if !line_is_marker(&line) {
                let tags = tags_in_line(&line);
                let mut painted: Vec<String> = Vec::new();
                let mut k: usize = 0;
                while k < tags.len()
                    invariant
                        k <= tags.len(),
                        painted.len() == k,
                        forall|j: int|
                            0 <= j < k ==> is_painted(
                                (#[trigger] painted[j])@,
                                tags[j]@,
                                tag_style(),
                            ),
                    decreases tags.len() - k,
                {
                    painted.push(cyan(string_of(&tags[k]).as_str()));
                    k += 1;
                }
                assert(views_of(tags@).len() == tags.len());
                assert forall|j: int| 0 <= j < painted.len() implies is_painted(
                    #[trigger] lines_of(painted@)[j],
                    line_tags(line@)[j],
                    tag_style(),
                ) by {
                    assert(lines_of(painted@)[j] == painted[j]@);
                    assert(views_of(tags@)[j] == tags[j]@);
                }
                assert(are_painted_tags(lines_of(painted@), line_tags(line@)));
                let shown = paint_tags(lines[i].as_str(), &painted);
                assert(is_entry_line(shown@, line@));
                let ghost old_body = body;
                proof {
                    body = body.push(shown@);
                    assert(joined(body, body.len() as int) =~= joined(old_body, old_body.len() as int)
                        + shown@ + seq!['\n']) by {
                        lemma_joined_of_prefix(body, old_body, old_body.len() as int);
                    }
                }
                let ghost before = out@;
                append_chars(&mut out, &chars_of(shown.as_str()));
                out.push('\n');
                assert(out@ =~= title + joined(body, body.len() as int));
                assert forall|j: int| 0 <= j < body.len() implies is_entry_line(
                    #[trigger] body[j],
                    body_lines(ls, at + 1, i + 1)[j],
                ) by {
                    if j < old_body.len() {
                        assert(body[j] == old_body[j]);
                    }
                }
            }
            i += 1;
        }
    }
    assert(entry_end(ls, at + 1) == i);
    assert(out@ == entry_text(shown_date@, shown_weekday@, add_weekday, body));
    Some(string_of(&out))
}

/// What is joined of the first `n` lines depends on those lines alone.
pub proof fn lemma_joined_of_prefix(a: Seq<Seq<char>>, b: Seq<Seq<char>>, n: int)
    requires
        0 <= n <= a.len(),
        n <= b.len(),
        forall|i: int| 0 <= i < n ==> a[i] == b[i],
    ensures
        joined(a, n) == joined(b, n),
    decreases n,
{
    if n > 0 {
        lemma_joined_of_prefix(a, b, n - 1);
    }
}

/// The heading of a date as it stands in a month-file.
pub open spec fn heading_of(date: Seq<char>) -> Seq<char> {
    seq!['#', ' '] + date
}

/// What is written at the end of a month-file to begin a new entry: a marker
/// line with the weekday, the time or both, as the settings ask; the heading
/// of the date; and an empty food line where the settings ask for one.
pub open spec fn new_entry_text(
    date: Seq<char>,
    weekday: Seq<char>,
    timestamp: Seq<char>,
    add_weekday: bool,
    add_timestamp: bool,
    add_food_column: bool,
) -> Seq<char> {
    let day = if add_weekday {
        "\n### "@ + weekday
    } else {
        Seq::empty()
    };
    let time = if add_timestamp && add_weekday {
        seq![' ', '('] + timestamp + seq![')']
    } else if add_timestamp {
        "\n### ("@ + timestamp + seq![')']
    } else {
        Seq::empty()
    };
    let food = if add_food_column {
        "\n- [food] | | | "@
    } else {
        Seq::empty()
    };
    day + time + seq!['\n'] + heading_of(date) + food
}

/// What has to be written to the month-file before an entry for `date` can
/// be edited: the opening of a new entry, or nothing where the file has a
/// heading for that date already. `headings` are the headings of the file.
pub fn add_info_to_file(headings: &Vec<String>, date: EntryDate, timestamp: &str, config: &Config)
    -> (text: Option<String>)
    requires
        date.is_valid(),
    ensures
        match text {
            None => exists|k: int|
                0 <= k < headings.len() && (#[trigger] headings[k])@ == heading_of(
                    date_text(date.year as int, date.month as nat, date.day as nat),
                ),
            Some(t) => {
                &&& forall|k: int|
                    0 <= k < headings.len() ==> (#[trigger] headings[k])@ != heading_of(
                        date_text(date.year as int, date.month as nat, date.day as nat),
                    )
                &&& t@ == new_entry_text(
                    date_text(date.year as int, date.month as nat, date.day as nat),
                    weekday_label(weekday_of(date.year as int, date.month as int, date.day as int)),
                    timestamp@,
                    config.add_weekday,
                    config.add_timestamp,
                    config.add_food_column,
                )
            },
        },
{
    let day_text = chars_of(format_date(date).as_str());
    let mut heading: Vec<char> = vec!['#', ' '];
    append_chars(&mut heading, &day_text);
    assert(heading@ =~= heading_of(day_text@));
    let mut k: usize = 0;
    while k < headings.len()
        invariant
            k <= headings.len(),
            heading@ == heading_of(
                date_text(date.year as int, date.month as nat, date.day as nat),
            ),
            forall|j: int| 0 <= j < k ==> (#[trigger] headings[j])@ != heading@,
        decreases headings.len() - k,
    {
        if same_chars(&chars_of(headings[k].as_str()), &heading) {
            return None;
        }
        k += 1;
    }
    let weekday = chars_of(weekday_name(date).as_str());
    let time = chars_of(timestamp);
    let mut out: Vec<char> = Vec::new();
    if config.add_weekday {
        proof {
            reveal_strlit("\n### ");
        }
        append_chars(&mut out, &chars_of("\n### "));
        append_chars(&mut out, &weekday);
    }
    if config.add_timestamp && config.add_weekday {
        out.push(' ');
        out.push('(');
        append_chars(&mut out, &time);
        out.push(')');
    } else if config.add_timestamp {
        append_chars(&mut out, &chars_of("\n### ("));
        append_chars(&mut out, &time);
        out.push(')');
    }
    out.push('\n');
    append_chars(&mut out, &heading);
    if config.add_food_column {
        append_chars(&mut out, &chars_of("\n- [food] | | | "));
    }
    assert(out@ =~= new_entry_text(
        day_text@,
        weekday@,
        timestamp@,
        config.add_weekday,
        config.add_timestamp,
        config.add_food_column,
    ));
    Some(string_of(&out))
}

/// What the editor is started with: the file, and behind a colon the line
/// of the heading where the editor is `hx`, which opens a file at a line.
pub open spec fn editor_target(editor: Seq<char>, filename: Seq<char>, line: nat) -> Seq<char> {
    if editor == seq!['h', 'x'] {
        filename + seq![':'] + decimal(line)
    } else {
        filename
    }
}

/// The argument with which the editor opens the entry of `entry_date`, or
/// nothing where the file has no heading for that date. `headings` and
/// `numbers` are the headings of the file and their line numbers.
pub fn editor_argument(
    editor: &str,
    filename: &str,
    headings: &Vec<String>,
    numbers: &Vec<u32>,
    entry_date: &str,
) -> (argument: Option<String>)
    requires
        headings.len() == numbers.len(),
    ensures
        match argument {
            None => forall|k: int|
                0 <= k < headings.len() ==> !names_date(#[trigger] headings[k]@, entry_date@),
            Some(text) => exists|k: int|
                0 <= k < headings.len() && names_date(headings[k]@, entry_date@) && (forall|j: int|
                    0 <= j < k ==> !names_date(#[trigger] headings[j]@, entry_date@)) && text@
                    == editor_target(editor@, filename@, numbers[k] as nat),
        },
{
    match heading_line(headings, numbers, entry_date) {
        None => None,
        Some(line) => {
            let mut out = chars_of(filename);
            let hx: Vec<char> = vec!['h', 'x'];
            assert(hx@ =~= seq!['h', 'x']);
            if same_chars(&chars_of(editor), &hx) {
                out.push(':');
                append_chars(&mut out, &decimal_chars(line as u64));
            }
            Some(string_of(&out))
        },
    }
}

} // verus!
