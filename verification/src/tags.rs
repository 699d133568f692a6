//! Tags: the bracketed tokens of record lines.

use vstd::prelude::*;
use crate::edit::{
    replace_all, replace_chars, slice_chars, split, split_chars, tidy, tidy_chars, trim,
    trim_chars,
};
use crate::order::{is_ranking, ranked_indices};
use crate::search::{bracket, bracketed, food};
use crate::text::{chars_of, lines_of, string_of, views_of};

verus! {

/// The tags that close within the first `n` characters of `s`, and the index
/// after the last bracket seen so far. Every `]` closes a tag that began
/// after the bracket before it, whichever of the two brackets that was.
pub open spec fn scan_tags(s: Seq<char>, n: int) -> (Seq<Seq<char>>, int)
    decreases n,
{
    if n <= 0 || n > s.len() {
        (Seq::empty(), 0)
    } else {
        let (tags, start) = scan_tags(s, n - 1);
        if s[n - 1] == ']' {
            (tags.push(s.subrange(start, n - 1)), n)
        } else if s[n - 1] == '[' {
            (tags, n)
        } else {
            (tags, start)
        }
    }
}

/// Every tag that closes in `s`.
pub open spec fn closed_tags(s: Seq<char>) -> Seq<Seq<char>> {
    scan_tags(s, s.len() as int).0
}

/// The tags of one line, in order. A line without `[` has none.
pub open spec fn line_tags(line: Seq<char>) -> Seq<Seq<char>> {
    if line.contains('[') {
        closed_tags(line)
    } else {
        Seq::empty()
    }
}

/// The tags of the first `n` lines, in order, each as often as it stands there.
pub open spec fn file_tags(lines: Seq<Seq<char>>, n: int) -> Seq<Seq<char>>
    decreases n,
{
    if n <= 0 || n > lines.len() {
        Seq::empty()
    } else {
        file_tags(lines, n - 1) + line_tags(lines[n - 1])
    }
}

/// `s` holds neither bracket.
pub open spec fn bracket_free(s: Seq<char>) -> bool {
    forall|i: int| 0 <= i < s.len() ==> s[i] != '[' && s[i] != ']'
}

/// The tags of one line.
pub fn tags_in_line(line: &Vec<char>) -> (tags: Vec<Vec<char>>)
    ensures
        views_of(tags@) == line_tags(line@),
{
    let mut tags: Vec<Vec<char>> = Vec::new();
    let mut opened = false;
    let mut k: usize = 0;
    while k < line.len()
        invariant
            k <= line.len(),
            opened <==> exists|j: int| 0 <= j < k && line@[j] == '[',
        decreases line.len() - k,
    {
        if line[k] == '[' {
            opened = true;
        }
        k += 1;
    }
    if !opened {
        assert(views_of(tags@) =~= Seq::<Seq<char>>::empty());
        return tags;
    }
    let mut start: usize = 0;
    let mut i: usize = 0;
    assert(views_of(tags@) =~= scan_tags(line@, 0).0);
    while i < line.len()
        invariant
            start <= i <= line.len(),
            (views_of(tags@), start as int) == scan_tags(line@, i as int),
        decreases line.len() - i,
    {
        if line[i] == ']' {
            let ghost before = tags@;
            let tag = slice_chars(line, start, i);
            tags.push(tag);
            assert(views_of(tags@) =~= views_of(before).push(tag@));
            start = i + 1;
        } else if line[i] == '[' {
            start = i + 1;
        }
        i += 1;
    }
    tags
}

/// Every tag of a month-file, in the order in which the tags stand in it.
/// A tag that stands there several times is listed as often.
pub fn get_tags_from_file(lines: &Vec<String>) -> (tags: Vec<String>)
    ensures
        lines_of(tags@) == file_tags(lines_of(lines@), lines.len() as int),
{
    let mut tags: Vec<String> = Vec::new();
    let ghost ls = lines_of(lines@);
    let mut i: usize = 0;
    assert(lines_of(tags@) =~= file_tags(ls, 0));
    while i < lines.len()
        invariant
            i <= lines.len(),
            ls == lines_of(lines@),
            lines_of(tags@) == file_tags(ls, i as int),
        decreases lines.len() - i,
    {
        let line = chars_of(lines[i].as_str());
        assert(line@ == ls[i as int]);
        let found = tags_in_line(&line);
        let ghost before = tags@;
        let mut k: usize = 0;
        while k < found.len()
            invariant
                k <= found.len(),
                lines_of(tags@) == lines_of(before) + views_of(found@).take(k as int),
            decreases found.len() - k,
        {
            let ghost sofar = tags@;
            let tag = string_of(&found[k]);
            tags.push(tag);
            assert(lines_of(tags@) =~= lines_of(sofar).push(tag@));
            assert(views_of(found@).take(k + 1) =~= views_of(found@).take(k as int).push(
                found[k as int]@,
            ));
            k += 1;
        }
        assert(views_of(found@).take(found.len() as int) =~= views_of(found@));
        i += 1;
    }
    tags
}

/// The scan of the first `n` characters depends on those characters alone,
/// and the fragment that it has open begins within them.
pub proof fn lemma_scan_of_prefix(u: Seq<char>, v: Seq<char>, n: int)
    requires
        0 <= n <= u.len(),
        n <= v.len(),
        forall|i: int| 0 <= i < n ==> u[i] == v[i],
    ensures
        scan_tags(u, n) == scan_tags(v, n),
        0 <= scan_tags(u, n).1 <= n,
    decreases n,
{
    if n > 0 {
        lemma_scan_of_prefix(u, v, n - 1);
        let start = scan_tags(u, n - 1).1;
        assert(u.subrange(start, n - 1) =~= v.subrange(start, n - 1));
    }
}

/// Characters that are no brackets neither close a tag nor open a fragment.
pub proof fn lemma_scan_of_plain_run(u: Seq<char>, from: int, to: int)
    requires
        0 <= from <= to <= u.len(),
        forall|i: int| from <= i < to ==> u[i] != '[' && u[i] != ']',
    ensures
        scan_tags(u, to) == scan_tags(u, from),
    decreases to - from,
{
    if from < to {
        lemma_scan_of_plain_run(u, from, to - 1);
    }
}

/// A line without an opening bracket has no tags.
pub proof fn lemma_no_bracket_no_tags(line: Seq<char>)
    requires
        !line.contains('['),
    ensures
        line_tags(line) == Seq::<Seq<char>>::empty(),
{
}

/// Text without brackets, added to the end of a line, adds no tag.
pub proof fn lemma_plain_text_adds_no_tag(line: Seq<char>, text: Seq<char>)
    requires
        bracket_free(text),
    ensures
        closed_tags(line + text) == closed_tags(line),
{
    let u = line + text;
    lemma_scan_of_prefix(u, line, line.len() as int);
    lemma_scan_of_plain_run(u, line.len() as int, u.len() as int);
}

/// A tag token added to the end of a line adds its name, and nothing else,
/// to the tags of the line: what is written as `[name]` is read back as
/// `name`.
pub proof fn lemma_tag_token_adds_its_name(line: Seq<char>, name: Seq<char>)
    requires
        bracket_free(name),
    ensures
        line_tags(line + bracketed(name)) == closed_tags(line).push(name),
{
    let u = line + bracketed(name);
    let n = line.len() as int;
    lemma_scan_of_prefix(u, line, n);
    assert(u[n] == '[');
    assert(scan_tags(u, n + 1) == (closed_tags(line), n + 1));
    assert forall|i: int| n + 1 <= i < n + 1 + name.len() implies u[i] != '[' && u[i] != ']' by {
        assert(u[i] == name[i - n - 1]);
    }
    lemma_scan_of_plain_run(u, n + 1, n + 1 + name.len());
    assert(u[n + 1 + name.len()] == ']');
    assert(u.len() == n + 2 + name.len());
    assert(u.subrange(n + 1, n + 1 + name.len()) =~= name);
    assert(u.contains('['));
}

/// How often `tag` stands among the first `n` tags.
pub open spec fn count_of(tags: Seq<Seq<char>>, tag: Seq<char>, n: int) -> nat
    decreases n,
{
    if n <= 0 || n > tags.len() {
        0
    } else if tags[n - 1] == tag {
        count_of(tags, tag, n - 1) + 1
    } else {
        count_of(tags, tag, n - 1)
    }
}

/// The different tags among the first `n`, in the order in which each is
/// first seen.
pub open spec fn first_seen(tags: Seq<Seq<char>>, n: int) -> Seq<Seq<char>>
    decreases n,
{
    if n <= 0 || n > tags.len() {
        Seq::empty()
    } else {
        let before = first_seen(tags, n - 1);
        if before.contains(tags[n - 1]) {
            before
        } else {
            before.push(tags[n - 1])
        }
    }
}

/// A tag counts at most once for each place, and a tag that was never seen
/// counts zero.
pub proof fn lemma_count_of_bounds(tags: Seq<Seq<char>>, tag: Seq<char>, n: int)
    requires
        0 <= n <= tags.len(),
    ensures
        count_of(tags, tag, n) <= n,
        !first_seen(tags, n).contains(tag) ==> count_of(tags, tag, n) == 0,
    decreases n,
{
    if n > 0 {
        lemma_count_of_bounds(tags, tag, n - 1);
        let before = first_seen(tags, n - 1);
        let now = first_seen(tags, n);
        if before.contains(tag) {
            let k = choose|k: int| 0 <= k < before.len() && before[k] == tag;
            assert(now[k] == tag);
        }
        if tags[n - 1] == tag {
            if before.contains(tag) {
            } else {
                assert(now[now.len() - 1] == tag);
            }
        }
    }
}

/// The key by which the different tags are ranked: the more often a tag
/// occurs, the smaller its key. The keys stand in the order of `first_seen`.
pub open spec fn tally_keys(tags: Seq<Seq<char>>) -> Seq<u64> {
    let names = first_seen(tags, tags.len() as int);
    Seq::new(
        names.len(),
        |k: int| (u64::MAX - count_of(tags, names[k], tags.len() as int)) as u64,
    )
}

/// `rows` is the table of the most used tags: the different tags with the
/// number of times each occurs, the most frequent first, at most `max_rows`
/// of them. Of two tags that occur equally often, the one that was seen
/// first comes first.
pub open spec fn is_tag_table(rows: Seq<(String, usize)>, tags: Seq<Seq<char>>, max_rows: int)
    -> bool {
    let names = first_seen(tags, tags.len() as int);
    exists|order: Seq<usize>|
        {
            &&& #[trigger] is_ranking(order, tally_keys(tags), max_rows)
            &&& rows.len() == order.len()
            &&& forall|k: int|
                0 <= k < rows.len() ==> {
                    &&& (#[trigger] rows[k]).0@ == names[order[k] as int]
                    &&& rows[k].1 == count_of(tags, names[order[k] as int], tags.len() as int)
                }
        }
}

/// The most used tags with their frequencies, at most `max_rows` of them.
pub fn tag_frequencies(tags: &Vec<String>, max_rows: u32) -> (rows: Vec<(String, usize)>)
    ensures
        is_tag_table(rows@, lines_of(tags@), max_rows as int),
{
    let ghost all = lines_of(tags@);
    let mut names: Vec<String> = Vec::new();
    let mut counts: Vec<usize> = Vec::new();
    let mut i: usize = 0;
    assert(lines_of(names@) =~= first_seen(all, 0));
    while i < tags.len()
        invariant
            i <= tags.len(),
            all == lines_of(tags@),
            names.len() == counts.len(),
            lines_of(names@) == first_seen(all, i as int),
            forall|k: int|
                0 <= k < counts.len() ==> #[trigger] counts[k] == count_of(
                    all,
                    names[k]@,
                    i as int,
                ),
            forall|j: int, k: int|
                0 <= j < k < names.len() ==> names[j]@ != names[k]@,
        decreases tags.len() - i,
    {
        let tag = &tags[i];
        assert(tag@ == all[i as int]);
        let ghost seen = lines_of(names@);
        let mut at: usize = 0;
        while at < names.len() && names[at] != *tag
            invariant
                at <= names.len(),
                seen == lines_of(names@),
                forall|j: int| 0 <= j < at ==> seen[j] != tag@,
            decreases names.len() - at,
        {
            assert(seen[at as int] == names[at as int]@);
            at += 1;
        }
        let ghost old_counts = counts@;
        if at < names.len() {
            assert(seen[at as int] == names[at as int]@);
            assert(seen.contains(tag@));
            proof {
                lemma_count_of_bounds(all, tag@, i as int);
            }
            let c = counts[at];
            counts.set(at, c + 1);
            assert forall|k: int| 0 <= k < counts.len() implies #[trigger] counts[k] == count_of(
                all,
                names[k]@,
                i + 1,
            ) by {
                assert(old_counts[k] == count_of(all, names[k]@, i as int));
            }
        } else {
            assert(!seen.contains(tag@));
            proof {
                lemma_count_of_bounds(all, tag@, i as int);
            }
            let ghost old_names = names@;
            names.push(tag.clone());
            counts.push(1);
            assert(lines_of(names@) =~= seen.push(tag@));
            assert forall|k: int| 0 <= k < counts.len() implies #[trigger] counts[k] == count_of(
                all,
                names[k]@,
                i + 1,
            ) by {
                if k < old_counts.len() {
                    assert(old_counts[k] == count_of(all, old_names[k]@, i as int));
                    assert(seen[k] == old_names[k]@);
                }
            }
            assert forall|j: int, k: int| 0 <= j < k < names.len() implies names[j]@ != names[k]@ by {
                assert(seen[j] == old_names[j]@);
            }
        }
        i += 1;
    }
    let ghost found = lines_of(names@);
    let mut keys: Vec<u64> = Vec::new();
    let mut k: usize = 0;
    while k < counts.len()
        invariant
            k <= counts.len(),
            names.len() == counts.len(),
            all == lines_of(tags@),
            found == lines_of(names@),
            found == first_seen(all, all.len() as int),
            forall|j: int|
                0 <= j < counts.len() ==> #[trigger] counts[j] == count_of(
                    all,
                    names[j]@,
                    all.len() as int,
                ),
            keys.len() == k,
            forall|j: int| 0 <= j < k ==> #[trigger] keys[j] == tally_keys(all)[j],
        decreases counts.len() - k,
    {
        assert(found[k as int] == names[k as int]@);
        keys.push(u64::MAX - counts[k] as u64);
        k += 1;
    }
    assert(keys@ =~= tally_keys(all));
    let order = ranked_indices(&keys, max_rows as usize);
    let mut rows: Vec<(String, usize)> = Vec::new();
    let mut r: usize = 0;
    while r < order.len()
        invariant
            r <= order.len(),
            names.len() == counts.len(),
            keys.len() == names.len(),
            found == lines_of(names@),
            is_ranking(order@, keys@, max_rows as int),
            forall|j: int|
                0 <= j < counts.len() ==> #[trigger] counts[j] == count_of(
                    all,
                    names[j]@,
                    all.len() as int,
                ),
            rows.len() == r,
            forall|j: int|
                0 <= j < r ==> {
                    &&& (#[trigger] rows[j]).0@ == found[order[j] as int]
                    &&& rows[j].1 == count_of(all, found[order[j] as int], all.len() as int)
                },
        decreases order.len() - r,
    {
        let at = order[r];
        assert(found[at as int] == names[at as int]@);
        rows.push((names[at].clone(), counts[at]));
        r += 1;
    }
    rows
}

/// The fields of a food line: the line tidied and freed of its tag, without
/// the separator that follows the tag, cut at every `|`, each field trimmed.
/// A line in the reserved form has four fields; a malformed one has as many
/// as its separators leave.
pub open spec fn food_fields_of(line: Seq<char>) -> Seq<Seq<char>> {
    let bare = trim(replace_all(tidy(line), bracketed(food()), Seq::empty()));
    let rest = if bare.len() > 0 && bare[0] == '|' {
        bare.subrange(1, bare.len() as int)
    } else {
        bare
    };
    split(rest, seq!['|']).map_values(|field: Seq<char>| trim(field))
}

/// Takes a food line apart into its fields.
pub fn food_fields(line: &str) -> (fields: Vec<String>)
    ensures
        lines_of(fields@) == food_fields_of(line@),
{
    let tidied = tidy_chars(&chars_of(line));
    let food_word: Vec<char> = vec!['f', 'o', 'o', 'd'];
    assert(food_word@ =~= food());
    let nothing: Vec<char> = Vec::new();
    let bare = trim_chars(&replace_chars(&tidied, &bracket(&food_word), &nothing));
    let rest = if bare.len() > 0 && bare[0] == '|' {
        slice_chars(&bare, 1, bare.len())
    } else {
        bare
    };
    let bar: Vec<char> = vec!['|'];
    assert(bar@ =~= seq!['|']);
    let pieces = split_chars(&rest, &bar);
    let mut fields: Vec<String> = Vec::new();
    let mut k: usize = 0;
    while k < pieces.len()
        invariant
            k <= pieces.len(),
            fields.len() == k,
            forall|j: int| 0 <= j < k ==> (#[trigger] fields[j])@ == trim(pieces[j]@),
        decreases pieces.len() - k,
    {
        fields.push(string_of(&trim_chars(&pieces[k])));
        k += 1;
    }
    assert(lines_of(fields@) =~= views_of(pieces@).map_values(|field: Seq<char>| trim(field)));
    fields
}

/// The table of most used tags has at most `max_rows` rows, and the
/// frequencies fall from row to row.
pub proof fn lemma_tag_table_falls(rows: Seq<(String, usize)>, tags: Seq<Seq<char>>, max_rows: int)
    requires
        0 <= max_rows,
        is_tag_table(rows, tags, max_rows),
    ensures
        rows.len() <= max_rows,
        forall|j: int, k: int| 0 <= j < k < rows.len() ==> rows[j].1 >= rows[k].1,
        forall|k: int| 0 <= k < rows.len() ==> (#[trigger] rows[k]).1 >= 1,
{
    let names = first_seen(tags, tags.len() as int);
    let keys = tally_keys(tags);
    let order = choose|order: Seq<usize>|
        {
            &&& #[trigger] is_ranking(order, keys, max_rows)
            &&& rows.len() == order.len()
            &&& forall|k: int|
                0 <= k < rows.len() ==> {
                    &&& (#[trigger] rows[k]).0@ == names[order[k] as int]
                    &&& rows[k].1 == count_of(tags, names[order[k] as int], tags.len() as int)
                }
        };
    assert forall|k: int| 0 <= k < names.len() implies 1 <= count_of(
        tags,
        #[trigger] names[k],
        tags.len() as int,
    ) <= tags.len() by {
        lemma_count_of_bounds(tags, names[k], tags.len() as int);
        lemma_first_seen_occurs(tags, names[k], tags.len() as int);
    }
    assert forall|j: int, k: int| 0 <= j < k < rows.len() implies rows[j].1 >= rows[k].1 by {
        assert(crate::order::precedes(keys, order[j] as int, order[k] as int));
        assert(0 <= order[j] < names.len());
        assert(0 <= order[k] < names.len());
        assert(rows[j].1 == count_of(tags, names[order[j] as int], tags.len() as int));
        assert(rows[k].1 == count_of(tags, names[order[k] as int], tags.len() as int));
    }
    assert forall|k: int| 0 <= k < rows.len() implies (#[trigger] rows[k]).1 >= 1 by {
        assert(0 <= order[k] < names.len());
    }
}

/// A tag that is listed as seen occurs at least once.
pub proof fn lemma_first_seen_occurs(tags: Seq<Seq<char>>, tag: Seq<char>, n: int)
    requires
        0 <= n <= tags.len(),
        first_seen(tags, n).contains(tag),
    ensures
        count_of(tags, tag, n) >= 1,
    decreases n,
{
    if n > 0 {
        let before = first_seen(tags, n - 1);
        if tags[n - 1] != tag {
            let now = first_seen(tags, n);
            let k = choose|k: int| 0 <= k < now.len() && now[k] == tag;
            if k < before.len() {
                assert(before[k] == tag);
            }
            lemma_first_seen_occurs(tags, tag, n - 1);
        }
    }
}

} // verus!
