//! The search engine: which record lines of a month-file match a tag or a
//! word, under which entry date, and how a matching line is shown.

use vstd::prelude::*;
use vstd::utf8::encode_utf8;
use crate::edit::{
    lemma_pieces_stand_between_delims, replace_all, replace_chars, slice_chars, split,
    split_chars, stands_between, tidy, tidy_chars,
};
use crate::headings::{
    date_at, date_of_heading, is_heading, is_marker, line_is_heading, line_is_marker,
};
use crate::paint::{cyan, is_painted, match_style, purple, tag_style};
use crate::text::{
    char_is_alphanumeric, chars_of, contains, find_last, has_substring, is_alphanumeric,
    lines_of, lowercase, matches_at, occurs_at, same_chars, str_to_lowercase, string_of, views_of,
};

verus! {

/// The least of three numbers.
pub open spec fn least(a: nat, b: nat, c: nat) -> nat {
    if a <= b && a <= c {
        a
    } else if b <= c {
        b
    } else {
        c
    }
}

/// The Levenshtein distance between two sequences of bytes: the least
/// number of bytes to insert, to delete or to change that turns the one
/// into the other.
pub open spec fn byte_distance(a: Seq<u8>, b: Seq<u8>) -> nat
    decreases a.len() + b.len(),
{
    if a.len() == 0 {
        b.len()
    } else if b.len() == 0 {
        a.len()
    } else {
        let change: nat = if a.last() == b.last() {
            0
        } else {
            1
        };
        least(
            byte_distance(a.drop_last(), b) + 1,
            byte_distance(a, b.drop_last()) + 1,
            byte_distance(a.drop_last(), b.drop_last()) + change,
        )
    }
}

/// The edit distance between `a` and `b`: the Levenshtein distance between
/// their UTF-8 encodings.
pub open spec fn edit_distance(a: Seq<char>, b: Seq<char>) -> nat {
    byte_distance(encode_utf8(a), encode_utf8(b))
}

/// `s` is short enough for its distance to be measured: its UTF-8 encoding
/// has fewer than `u32::MAX` bytes.
pub open spec fn measurable(s: Seq<char>) -> bool {
    encode_utf8(s).len() < u32::MAX
}

/// Trusted: `stringmetrics::levenshtein`, the Levenshtein distance between
/// the bytes of two strings with every edit at cost one. The function counts
/// bytes and distances in 32 bits and stops the program on a string that is
/// too long, so such strings are left out.
#[verifier::external_body]
pub(crate) fn levenshtein(a: &str, b: &str) -> (d: u32)
    requires
        measurable(a@),
        measurable(b@),
    ensures
        d == edit_distance(a@, b@),
{
    stringmetrics::levenshtein(a, b)
}

/// The edit distance between two strings, where both are short enough for
/// it to be measured.
pub fn distance(a: &str, b: &str) -> (d: Option<u32>)
    ensures
        d is Some <==> measurable(a@) && measurable(b@),
        d is Some ==> d->0 == edit_distance(a@, b@),
{
    if a.as_bytes().len() >= u32::MAX as usize || b.as_bytes().len() >= u32::MAX as usize {
        None
    } else {
        Some(levenshtein(a, b))
    }
}

/// The characters at which a line is cut into words.
pub open spec fn word_delims() -> Seq<char> {
    seq![' ', '(', ')', ',', '.', ';', '-', '|', '/']
}

/// The tag token `[word]`.
pub open spec fn bracketed(word: Seq<char>) -> Seq<char> {
    seq!['['] + word + seq![']']
}

/// The name of the reserved tag whose lines hold the four meal fields.
pub open spec fn food() -> Seq<char> {
    seq!['f', 'o', 'o', 'd']
}

/// `token` is `word` or one of its simple inflected forms (`ed`, `d`, `es`,
/// `'s`, `s` appended), letter case aside.
pub open spec fn is_word_form(token: Seq<char>, word: Seq<char>) -> bool {
    let t = lowercase(token);
    let w = lowercase(word);
    ||| t == w
    ||| t == w + seq!['e', 'd']
    ||| t == w + seq!['d']
    ||| t == w + seq!['e', 's']
    ||| t == w + seq!['\'', 's']
    ||| t == w + seq!['s']
}

/// `token` is within `tolerance` edits of `word`, letter case aside. With a
/// tolerance of zero nothing is near.
pub open spec fn is_near(token: Seq<char>, word: Seq<char>, tolerance: nat) -> bool {
    &&& tolerance >= 1
    &&& measurable(lowercase(token))
    &&& measurable(lowercase(word))
    &&& edit_distance(lowercase(token), lowercase(word)) <= tolerance
}

/// `i` is the last index at which `pat` occurs in `s`.
pub open spec fn is_last_occurrence(s: Seq<char>, pat: Seq<char>, i: int) -> bool {
    occurs_at(s, pat, i) && forall|j: int| i < j ==> !occurs_at(s, pat, j)
}

/// The occurrence of `pat` at `i` is not part of a longer run of letters and
/// digits: the character before it and the one after it, where there is one,
/// are not alphanumeric.
pub open spec fn free_at(s: Seq<char>, pat: Seq<char>, i: int) -> bool {
    &&& i == 0 || !is_alphanumeric(s[i - 1])
    &&& i + pat.len() == s.len() || !is_alphanumeric(s[i + pat.len()])
}

/// `word` occurs in `line`, and its last occurrence stands free.
pub open spec fn stands_alone(line: Seq<char>, word: Seq<char>) -> bool {
    exists|i: int| is_last_occurrence(line, word, i) && free_at(line, word, i)
}

/// The index of the first token from `i` on that is a form of `word`.
pub open spec fn first_word_form(tokens: Seq<Seq<char>>, word: Seq<char>, i: int) -> Option<int>
    decreases tokens.len() - i,
{
    if i < 0 || i >= tokens.len() {
        None
    } else if is_word_form(tokens[i], word) {
        Some(i)
    } else {
        first_word_form(tokens, word, i + 1)
    }
}

/// The index of the first token from `i` on that is near `word`.
pub open spec fn first_near(tokens: Seq<Seq<char>>, word: Seq<char>, tolerance: nat, i: int)
    -> Option<int>
    decreases tokens.len() - i,
{
    if i < 0 || i >= tokens.len() {
        None
    } else if is_near(tokens[i], word, tolerance) {
        Some(i)
    } else {
        first_near(tokens, word, tolerance, i + 1)
    }
}

/// What a free-text search for `word` finds in `line`: the text to emphasise,
/// or nothing. Three checks are made in turn and the first that succeeds
/// decides: the word standing free as a substring; a token that is a form of
/// the word; a token that is near the word.
pub open spec fn text_target(line: Seq<char>, word: Seq<char>, tolerance: nat) -> Option<
    Seq<char>,
> {
    let tokens = split(line, word_delims());
    if stands_alone(line, word) {
        Some(word)
    } else if first_word_form(tokens, word, 0) is Some {
        Some(tokens[first_word_form(tokens, word, 0)->0])
    } else if first_near(tokens, word, tolerance, 0) is Some {
        Some(tokens[first_near(tokens, word, tolerance, 0)->0])
    } else {
        None
    }
}

/// `line` is a record line: neither a heading nor a weekday marker.
pub open spec fn is_record(line: Seq<char>) -> bool {
    !is_marker(line) && !is_heading(line)
}

/// What a search finds in `line`: the text to emphasise, or nothing. Only
/// record lines match. A tag lookup (`search` false) matches the lines that
/// hold the token `[word]`; a free-text search goes by `text_target`.
pub open spec fn line_target(line: Seq<char>, word: Seq<char>, search: bool, tolerance: nat)
    -> Option<Seq<char>> {
    if !is_record(line) {
        None
    } else if search {
        text_target(line, word, tolerance)
    } else if contains(line, bracketed(word)) {
        Some(word)
    } else {
        None
    }
}

/// A copy of `v`.
pub fn copy_chars(v: &Vec<char>) -> (out: Vec<char>)
    ensures
        out@ == v@,
{
    let out = slice_chars(v, 0, v.len());
    assert(out@ =~= v@);
    out
}

/// The tag token `[word]`.
pub fn bracket(word: &Vec<char>) -> (out: Vec<char>)
    ensures
        out@ == bracketed(word@),
{
    let mut out: Vec<char> = Vec::new();
    out.push('[');
    crate::edit::append_chars(&mut out, word);
    out.push(']');
    assert(out@ =~= bracketed(word@));
    out
}

/// Whether `word` occurs in `line` with its last occurrence standing free.
pub fn word_stands_alone(line: &Vec<char>, word: &Vec<char>) -> (b: bool)
    ensures
        b == stands_alone(line@, word@),
{
    match find_last(line, word) {
        None => {
            assert forall|i: int| !is_last_occurrence(line@, word@, i) by {
                if occurs_at(line@, word@, i) {
                    assert(contains(line@, word@));
                }
            }
            false
        },
        Some(i) => {
            assert(is_last_occurrence(line@, word@, i as int));
            assert(i + word.len() <= line.len());
            let end: usize = i + word.len();
            let mut before_free = true;
            if i > 0 {
                before_free = !char_is_alphanumeric(line[i - 1]);
            }
            let mut after_free = true;
            if end < line.len() {
                after_free = !char_is_alphanumeric(line[end]);
            }
            let b = before_free && after_free;
            assert(b == free_at(line@, word@, i as int));
            assert forall|j: int| is_last_occurrence(line@, word@, j) implies j == i by {
                if j < i {
                    assert(!occurs_at(line@, word@, i as int));
                }
            }
            b
        },
    }
}

/// Whether `t` is `base` followed by `suffix`.
fn is_extension(t: &Vec<char>, base: &Vec<char>, suffix: &Vec<char>) -> (b: bool)
    ensures
        b == (t@ == base@ + suffix@),
{
    if t.len() < base.len() || t.len() - base.len() != suffix.len() {
        return false;
    }
    let b = matches_at(t, base, 0) && matches_at(t, suffix, base.len());
    proof {
        let joined = base@ + suffix@;
        if b {
            assert(t@ =~= t@.subrange(0, base.len() as int) + t@.subrange(
                base.len() as int,
                t.len() as int,
            ));
        }
        if t@ == joined {
            assert(joined.subrange(0, base.len() as int) =~= base@);
            assert(joined.subrange(base.len() as int, joined.len() as int) =~= suffix@);
        }
    }
    b
}

/// The lowercase form of `token`.
pub fn lowered(token: &Vec<char>) -> (low: String)
    ensures
        low@ == lowercase(token@),
{
    let text = string_of(token);
    str_to_lowercase(text.as_str())
}

/// Whether `token` is `word` or one of its inflected forms. `low_word` is the
/// lowercase form of `word`.
fn token_is_word_form(token: &Vec<char>, word: &Vec<char>, low_word: &Vec<char>) -> (b: bool)
    requires
        low_word@ == lowercase(word@),
    ensures
        b == is_word_form(token@, word@),
{
    let low = lowered(token);
    let t = chars_of(low.as_str());
    let plain: Vec<char> = Vec::new();
    let ed: Vec<char> = vec!['e', 'd'];
    let d: Vec<char> = vec!['d'];
    let es: Vec<char> = vec!['e', 's'];
    let apostrophe_s: Vec<char> = vec!['\'', 's'];
    let s: Vec<char> = vec!['s'];
    assert(low_word@ + plain@ =~= low_word@);
    assert(ed@ =~= seq!['e', 'd']);
    assert(d@ =~= seq!['d']);
    assert(es@ =~= seq!['e', 's']);
    assert(apostrophe_s@ =~= seq!['\'', 's']);
    assert(s@ =~= seq!['s']);
    is_extension(&t, low_word, &plain) || is_extension(&t, low_word, &ed) || is_extension(
        &t,
        low_word,
        &d,
    ) || is_extension(&t, low_word, &es) || is_extension(&t, low_word, &apostrophe_s)
        || is_extension(&t, low_word, &s)
}

/// Whether `token` is within `tolerance` edits of `word`. `low_word` is the
/// lowercase form of `word`.
fn token_is_near(token: &Vec<char>, word: &Vec<char>, low_word: &str, tolerance: u32) -> (b:
    bool)
    requires
        low_word@ == lowercase(word@),
    ensures
        b == is_near(token@, word@, tolerance as nat),
{
    if tolerance == 0 {
        return false;
    }
    let low = lowered(token);
    match distance(low.as_str(), low_word) {
        Some(d) => d <= tolerance,
        None => false,
    }
}

/// What a free-text search for `word` finds in `line`.
pub fn find_text_target(line: &Vec<char>, word: &Vec<char>, tolerance: u32) -> (target: Option<
    Vec<char>,
>)
    ensures
        match target {
            Some(t) => text_target(line@, word@, tolerance as nat) == Some(t@),
            None => text_target(line@, word@, tolerance as nat) is None,
        },
{
    if word_stands_alone(line, word) {
        return Some(copy_chars(word));
    }
    let low = lowered(word);
    let low_word = chars_of(low.as_str());
    let delims: Vec<char> = vec![' ', '(', ')', ',', '.', ';', '-', '|', '/'];
    assert(delims@ =~= word_delims());
    let tokens = split_chars(line, &delims);
    let ghost toks = split(line@, word_delims());
    let mut k: usize = 0;
    while k < tokens.len()
        invariant
            k <= tokens.len(),
            toks == views_of(tokens@),
            toks == split(line@, word_delims()),
            !stands_alone(line@, word@),
            low_word@ == lowercase(word@),
            first_word_form(toks, word@, 0) == first_word_form(toks, word@, k as int),
        decreases tokens.len() - k,
    {
        assert(toks[k as int] == tokens[k as int]@);
        if token_is_word_form(&tokens[k], word, &low_word) {
            return Some(copy_chars(&tokens[k]));
        }
        k += 1;
    }
    assert(first_word_form(toks, word@, 0) is None);
    let mut k: usize = 0;
    while k < tokens.len()
        invariant
            k <= tokens.len(),
            toks == views_of(tokens@),
            toks == split(line@, word_delims()),
            !stands_alone(line@, word@),
            first_word_form(toks, word@, 0) is None,
            low@ == lowercase(word@),
            first_near(toks, word@, tolerance as nat, 0) == first_near(
                toks,
                word@,
                tolerance as nat,
                k as int,
            ),
        decreases tokens.len() - k,
    {
        assert(toks[k as int] == tokens[k as int]@);
        if token_is_near(&tokens[k], word, low.as_str(), tolerance) {
            return Some(copy_chars(&tokens[k]));
        }
        k += 1;
    }
    assert(first_near(toks, word@, tolerance as nat, 0) is None);
    None
}

/// What a search finds in `line`: the text to emphasise, or nothing.
pub fn find_target(line: &Vec<char>, word: &Vec<char>, search: bool, tolerance: u32) -> (target:
    Option<Vec<char>>)
    ensures
        match target {
            Some(t) => line_target(line@, word@, search, tolerance as nat) == Some(t@),
            None => line_target(line@, word@, search, tolerance as nat) is None,
        },
{
    if line_is_marker(line) || line_is_heading(line) {
        None
    } else if search {
        find_text_target(line, word, tolerance)
    } else {
        let tag = bracket(word);
        if has_substring(line, &tag) {
            Some(copy_chars(word))
        } else {
            None
        }
    }
}

/// Why a search was refused.
#[derive(Clone, Copy, Debug, PartialEq, Eq, Structural)]
pub enum SearchError {
    /// A free-text search for `food`: the meals are kept under the tag of
    /// that name and are looked up as a tag.
    FoodInFreeText,
    /// A free-text search for a word that the file uses as a tag.
    TagCollision,
}

/// One matching record line.
#[derive(Debug)]
pub struct Hit {
    /// The index of the line in the file, counted from 0.
    pub line: usize,
    /// The date of the entry that the line belongs to.
    pub date: String,
    /// The text in the line that is to be emphasised.
    pub target: String,
}

/// Some line of the file, weekday markers aside, holds the tag token `[word]`.
pub open spec fn collides(lines: Seq<Seq<char>>, word: Seq<char>) -> bool {
    exists|i: int|
        0 <= i < lines.len() && !is_marker(#[trigger] lines[i]) && contains(
            lines[i],
            bracketed(word),
        )
}

/// Why a search is refused, if it is. A free-text search for `food` is
/// refused whatever the file holds; any other free-text search is refused
/// when its word is a tag of the file. A tag lookup is never refused.
pub open spec fn search_error(lines: Seq<Seq<char>>, word: Seq<char>, search: bool) -> Option<
    SearchError,
> {
    if search && word == food() {
        Some(SearchError::FoodInFreeText)
    } else if search && collides(lines, word) {
        Some(SearchError::TagCollision)
    } else {
        None
    }
}

/// The indices of the matching lines among the first `n`, in file order.
pub open spec fn hit_lines(
    lines: Seq<Seq<char>>,
    word: Seq<char>,
    search: bool,
    tolerance: nat,
    n: int,
) -> Seq<int>
    decreases n,
{
    if n <= 0 || n > lines.len() {
        Seq::empty()
    } else {
        let before = hit_lines(lines, word, search, tolerance, n - 1);
        if line_target(lines[n - 1], word, search, tolerance) is Some {
            before.push(n - 1)
        } else {
            before
        }
    }
}

/// The matching lines are listed by indices below `n`, in rising order.
pub proof fn lemma_hit_lines_rise(
    lines: Seq<Seq<char>>,
    word: Seq<char>,
    search: bool,
    tolerance: nat,
    n: int,
)
    requires
        0 <= n <= lines.len(),
    ensures
        forall|k: int|
            0 <= k < hit_lines(lines, word, search, tolerance, n).len() ==> 0 <= #[trigger] hit_lines(
                lines,
                word,
                search,
                tolerance,
                n,
            )[k] < n,
        forall|j: int, k: int|
            0 <= j < k < hit_lines(lines, word, search, tolerance, n).len() ==> hit_lines(
                lines,
                word,
                search,
                tolerance,
                n,
            )[j] < hit_lines(lines, word, search, tolerance, n)[k],
    decreases n,
{
    if n > 0 {
        lemma_hit_lines_rise(lines, word, search, tolerance, n - 1);
        let before = hit_lines(lines, word, search, tolerance, n - 1);
        let now = hit_lines(lines, word, search, tolerance, n);
        assert(now == before || now == before.push(n - 1));
        assert forall|k: int| 0 <= k < now.len() implies 0 <= #[trigger] now[k] < n by {
            if k < before.len() {
                assert(now[k] == before[k]);
            }
        }
        assert forall|j: int, k: int| 0 <= j < k < now.len() implies now[j] < now[k] by {
            assert(now[j] == before[j]);
            if k < before.len() {
                assert(now[k] == before[k]);
            }
        }
    }
}

/// `hits` are the matches of a search in `lines`: one for each matching
/// line, in file order, each with the date of its entry and the text that
/// the search found in it.
pub open spec fn are_hits(
    hits: Seq<Hit>,
    lines: Seq<Seq<char>>,
    word: Seq<char>,
    search: bool,
    tolerance: nat,
    n: int,
) -> bool {
    let found = hit_lines(lines, word, search, tolerance, n);
    &&& hits.len() == found.len()
    &&& forall|k: int|
        0 <= k < hits.len() ==> {
            &&& (#[trigger] hits[k]).line == found[k]
            &&& hits[k].date@ == date_at(lines, found[k])
            &&& line_target(lines[found[k]], word, search, tolerance) == Some(hits[k].target@)
        }
}

/// `outcome` is what a search for `word` in `lines` gives.
pub open spec fn is_search_outcome(
    outcome: Result<Vec<Hit>, SearchError>,
    lines: Seq<Seq<char>>,
    word: Seq<char>,
    search: bool,
    tolerance: nat,
) -> bool {
    match outcome {
        Err(e) => search_error(lines, word, search) == Some(e),
        Ok(hits) => search_error(lines, word, search) is None && are_hits(
            hits@,
            lines,
            word,
            search,
            tolerance,
            lines.len() as int,
        ),
    }
}

/// Searches a month-file for a tag (`search` false) or a word (`search`
/// true, with `tolerance` edits allowed), and reports every matching record
/// line with the date of its entry.
pub fn find_hits(lines: &Vec<String>, word: &str, search: bool, tolerance: u32) -> (outcome:
    Result<Vec<Hit>, SearchError>)
    ensures
        is_search_outcome(outcome, lines_of(lines@), word@, search, tolerance as nat),
{
    let w = chars_of(word);
    let food_word: Vec<char> = vec!['f', 'o', 'o', 'd'];
    assert(food_word@ =~= food());
    if search && same_chars(&w, &food_word) {
        return Err(SearchError::FoodInFreeText);
    }
    let tag = bracket(&w);
    let ghost ls = lines_of(lines@);
    let mut hits: Vec<Hit> = Vec::new();
    let mut date: Vec<char> = Vec::new();
    let mut i: usize = 0;
    while i < lines.len()
        invariant
            i <= lines.len(),
            ls == lines_of(lines@),
            w@ == word@,
            tag@ == bracketed(word@),
            !(search && word@ == food()),
            date@ == date_at(ls, i - 1),
            are_hits(hits@, ls, word@, search, tolerance as nat, i as int),
            forall|m: int|
                0 <= m < i && !is_marker(#[trigger] ls[m]) ==> !(search && contains(
                    ls[m],
                    bracketed(word@),
                )),
        decreases lines.len() - i,
    {
        let line = chars_of(lines[i].as_str());
        assert(line@ == ls[i as int]);
        let ghost before = hits@;
        let ghost found = hit_lines(ls, word@, search, tolerance as nat, i as int);
        if line_is_marker(&line) {
        } else if search && has_substring(&line, &tag) {
            assert(collides(ls, word@));
            return Err(SearchError::TagCollision);
        } else if line_is_heading(&line) {
            date = date_of_heading(&line);
        } else {
            match find_target(&line, &w, search, tolerance) {
                None => {},
                Some(t) => {
                    let hit = Hit { line: i, date: string_of(&date), target: string_of(&t) };
                    hits.push(hit);
                    assert forall|k: int| 0 <= k < hits.len() implies {
                        &&& (#[trigger] hits[k]).line == found.push(i as int)[k]
                        &&& hits[k].date@ == date_at(ls, found.push(i as int)[k])
                        &&& line_target(
                            ls[found.push(i as int)[k]],
                            word@,
                            search,
                            tolerance as nat,
                        ) == Some(hits[k].target@)
                    } by {
                        if k < before.len() {
                            assert(hits[k] == before[k]);
                        }
                    }
                },
            }
        }
        proof {
            let next = hit_lines(ls, word@, search, tolerance as nat, i + 1);
            if line_target(line@, word@, search, tolerance as nat) is Some {
                assert(next == found.push(i as int));
            } else {
                assert(next == found);
            }
        }
        i += 1;
    }
    proof {
        if search && collides(ls, word@) {
            let m = choose|m: int|
                0 <= m < ls.len() && !is_marker(#[trigger] ls[m]) && contains(
                    ls[m],
                    bracketed(word@),
                );
            assert(!contains(ls[m], bracketed(word@)));
        }
    }
    Ok(hits)
}

/// A matching line as it is shown, once the text that matched has been
/// painted: every occurrence of `target` gives way to `painted`, then the
/// line is tidied. In a tag lookup (`tag` true) the target is the tag's name
/// and the brackets around it stay.
pub open spec fn emphasized(line: Seq<char>, target: Seq<char>, painted: Seq<char>, tag: bool)
    -> Seq<char> {
    if tag {
        tidy(replace_all(line, bracketed(target), bracketed(painted)))
    } else {
        tidy(replace_all(line, target, painted))
    }
}

/// Shows a matching line with `painted` in place of `target`.
pub fn emphasize(line: &str, target: &str, painted: &str, tag: bool) -> (shown: String)
    ensures
        shown@ == emphasized(line@, target@, painted@, tag),
{
    let l = chars_of(line);
    let t = chars_of(target);
    let p = chars_of(painted);
    let replaced = if tag {
        replace_chars(&l, &bracket(&t), &bracket(&p))
    } else {
        replace_chars(&l, &t, &p)
    };
    string_of(&tidy_chars(&replaced))
}

/// The matching line `line` as a search shows it when `painted` is the
/// painted form of what matched.
pub open spec fn shown_with(
    line: Seq<char>,
    word: Seq<char>,
    search: bool,
    tolerance: nat,
    painted: Seq<char>,
) -> Seq<char> {
    emphasized(line, line_target(line, word, search, tolerance)->0, painted, !search)
}

/// The style in which a search paints what it found: that of a tag in a tag
/// lookup, that of a match in a free-text search.
pub open spec fn search_style(search: bool) -> Seq<char> {
    if search {
        match_style()
    } else {
        tag_style()
    }
}

/// `shown` is how the matching line `line` comes out of a search. A tag
/// lookup for `food` hands the line out as it stands in the file, for its
/// fields to be taken apart. Any other search hands it out emphasised, with
/// what matched painted in the style of the search.
pub open spec fn is_shown(
    shown: Seq<char>,
    line: Seq<char>,
    word: Seq<char>,
    search: bool,
    tolerance: nat,
) -> bool {
    if !search && word == food() {
        shown == line
    } else {
        exists|painted: Seq<char>|
            is_painted(
                painted,
                line_target(line, word, search, tolerance)->0,
                search_style(search),
            ) && shown == #[trigger] shown_with(line, word, search, tolerance, painted)
    }
}

/// `outcome` is what a search shows: a refusal for the reason that holds,
/// or one date and one shown record for each matching line, in file order.
pub open spec fn is_search_result(
    outcome: Result<(Vec<String>, Vec<String>), SearchError>,
    lines: Seq<Seq<char>>,
    word: Seq<char>,
    search: bool,
    tolerance: nat,
) -> bool {
    match outcome {
        Err(e) => search_error(lines, word, search) == Some(e),
        Ok(found) => {
            let at = hit_lines(lines, word, search, tolerance, lines.len() as int);
            &&& search_error(lines, word, search) is None
            &&& found.0.len() == at.len()
            &&& found.1.len() == at.len()
            &&& forall|k: int|
                0 <= k < at.len() ==> {
                    &&& 0 <= #[trigger] at[k] < lines.len()
                    &&& found.0[k]@ == date_at(lines, at[k])
                    &&& is_shown(found.1[k]@, lines[at[k]], word, search, tolerance)
                }
        },
    }
}

/// All records of a month-file that match a tag (`search` false) or a word
/// (`search` true, with `approx` edits allowed).
///
/// The two lists run in step: the record `found.1[k]` stands under the date
/// `found.0[k]`. There is one pair for each matching line, in file order.
pub fn search_for_stuff(lines: &Vec<String>, word: &str, search: bool, approx: u32) -> (outcome:
    Result<(Vec<String>, Vec<String>), SearchError>)
    ensures
        is_search_result(outcome, lines_of(lines@), word@, search, approx as nat),
{
    let hits = match find_hits(lines, word, search, approx) {
        Err(e) => {
            return Err(e);
        },
        Ok(hits) => hits,
    };
    let w = chars_of(word);
    let food_word: Vec<char> = vec!['f', 'o', 'o', 'd'];
    assert(food_word@ =~= food());
    let raw = !search && same_chars(&w, &food_word);
    let ghost ls = lines_of(lines@);
    let ghost at = hit_lines(ls, word@, search, approx as nat, ls.len() as int);
    proof {
        lemma_hit_lines_rise(ls, word@, search, approx as nat, ls.len() as int);
    }
    let mut dates: Vec<String> = Vec::new();
    let mut shown: Vec<String> = Vec::new();
    let mut k: usize = 0;
    while k < hits.len()
        invariant
            k <= hits.len(),
            ls == lines_of(lines@),
            at == hit_lines(ls, word@, search, approx as nat, ls.len() as int),
            are_hits(hits@, ls, word@, search, approx as nat, ls.len() as int),
            raw == (!search && word@ == food()),
            forall|j: int| 0 <= j < at.len() ==> 0 <= #[trigger] at[j] < ls.len(),
            dates.len() == k,
            shown.len() == k,
            forall|j: int|
                0 <= j < k ==> {
                    &&& 0 <= #[trigger] at[j] < ls.len()
                    &&& dates[j]@ == date_at(ls, at[j])
                    &&& is_shown(shown[j]@, ls[at[j]], word@, search, approx as nat)
                },
        decreases hits.len() - k,
    {
        let hit = &hits[k];
        assert(hit.line == at[k as int]);
        assert(ls[at[k as int]] == lines[hit.line as int]@);
        dates.push(hit.date.clone());
        if raw {
            shown.push(lines[hit.line].clone());
        } else {
            let painted = if search {
                purple(hit.target.as_str())
            } else {
                cyan(hit.target.as_str())
            };
            let text = emphasize(
                lines[hit.line].as_str(),
                hit.target.as_str(),
                painted.as_str(),
                !search,
            );
            assert(text@ == shown_with(ls[at[k as int]], word@, search, approx as nat, painted@));
            shown.push(text);
        }
        k += 1;
    }
    Ok((dates, shown))
}

/// `first_word_form` finds the first token from `i` on that is a form of
/// `word`, and finds none only where there is none.
pub proof fn lemma_first_word_form(tokens: Seq<Seq<char>>, word: Seq<char>, i: int)
    requires
        0 <= i <= tokens.len(),
    ensures
        match first_word_form(tokens, word, i) {
            Some(k) => i <= k < tokens.len() && is_word_form(tokens[k], word) && forall|j: int|
                i <= j < k ==> !is_word_form(#[trigger] tokens[j], word),
            None => forall|j: int|
                i <= j < tokens.len() ==> !is_word_form(#[trigger] tokens[j], word),
        },
    decreases tokens.len() - i,
{
    if i < tokens.len() && !is_word_form(tokens[i], word) {
        lemma_first_word_form(tokens, word, i + 1);
    }
}

/// `first_near` finds the first token from `i` on that is near `word`, and
/// finds none only where there is none.
pub proof fn lemma_first_near(tokens: Seq<Seq<char>>, word: Seq<char>, tolerance: nat, i: int)
    requires
        0 <= i <= tokens.len(),
    ensures
        match first_near(tokens, word, tolerance, i) {
            Some(k) => i <= k < tokens.len() && is_near(tokens[k], word, tolerance) && forall|
                j: int,
            | i <= j < k ==> !is_near(#[trigger] tokens[j], word, tolerance),
            None => forall|j: int|
                i <= j < tokens.len() ==> !is_near(#[trigger] tokens[j], word, tolerance),
        },
    decreases tokens.len() - i,
{
    if i < tokens.len() && !is_near(tokens[i], word, tolerance) {
        lemma_first_near(tokens, word, tolerance, i + 1);
    }
}

/// Searching again finds the same: two outcomes of one search, on the same
/// lines with the same word, mode and tolerance, are both refusals for the
/// same reason or both list the same lines, dates and targets.
pub proof fn lemma_search_repeats(
    first: Result<Vec<Hit>, SearchError>,
    second: Result<Vec<Hit>, SearchError>,
    lines: Seq<Seq<char>>,
    word: Seq<char>,
    search: bool,
    tolerance: nat,
)
    requires
        is_search_outcome(first, lines, word, search, tolerance),
        is_search_outcome(second, lines, word, search, tolerance),
    ensures
        match (first, second) {
            (Err(a), Err(b)) => a == b,
            (Ok(a), Ok(b)) => {
                &&& a.len() == b.len()
                &&& forall|k: int|
                    0 <= k < a.len() ==> {
                        &&& (#[trigger] a[k]).line == b[k].line
                        &&& a[k].date@ == b[k].date@
                        &&& a[k].target@ == b[k].target@
                    }
            },
            _ => false,
        },
{
    if let (Ok(a), Ok(b)) = (first, second) {
        assert forall|k: int| 0 <= k < a.len() implies {
            &&& (#[trigger] a[k]).line == b[k].line
            &&& a[k].date@ == b[k].date@
            &&& a[k].target@ == b[k].target@
        } by {
            assert(b[k].line == hit_lines(lines, word, search, tolerance, lines.len() as int)[k]);
        }
    }
}

/// Without tolerance a free-text search matches whole words only: a line
/// matches exactly when the word stands free in it as a substring, or one of
/// its tokens is the word or an inflected form of it.
pub proof fn lemma_exact_search_matches_whole_words(line: Seq<char>, word: Seq<char>)
    ensures
        text_target(line, word, 0) is Some <==> stands_alone(line, word) || exists|k: int|
            0 <= k < split(line, word_delims()).len() && is_word_form(
                #[trigger] split(line, word_delims())[k],
                word,
            ),
{
    let tokens = split(line, word_delims());
    lemma_first_word_form(tokens, word, 0);
    lemma_first_near(tokens, word, 0, 0);
}

/// With a tolerance of at least one, a line matches a free-text search as
/// soon as one of its tokens is within that many edits of the word.
pub proof fn lemma_near_token_matches(line: Seq<char>, word: Seq<char>, tolerance: nat, k: int)
    requires
        0 <= k < split(line, word_delims()).len(),
        is_near(split(line, word_delims())[k], word, tolerance),
    ensures
        tolerance >= 1,
        text_target(line, word, tolerance) is Some,
{
    let tokens = split(line, word_delims());
    lemma_first_near(tokens, word, tolerance, 0);
}

/// Searching again shows the same matches: two results of one search, on
/// the same lines with the same word, mode and tolerance, are both refusals
/// for the same reason, or list the same dates and as many records, each the
/// same line shown in one of the forms that painting allows.
pub proof fn lemma_search_results_agree(
    first: Result<(Vec<String>, Vec<String>), SearchError>,
    second: Result<(Vec<String>, Vec<String>), SearchError>,
    lines: Seq<Seq<char>>,
    word: Seq<char>,
    search: bool,
    tolerance: nat,
)
    requires
        is_search_result(first, lines, word, search, tolerance),
        is_search_result(second, lines, word, search, tolerance),
    ensures
        match (first, second) {
            (Err(a), Err(b)) => a == b,
            (Ok(a), Ok(b)) => {
                &&& lines_of(a.0@) == lines_of(b.0@)
                &&& a.1.len() == b.1.len()
                &&& !search && word == food() ==> lines_of(a.1@) == lines_of(b.1@)
            },
            _ => false,
        },
{
    if let (Ok(a), Ok(b)) = (first, second) {
        let at = hit_lines(lines, word, search, tolerance, lines.len() as int);
        assert forall|k: int| 0 <= k < at.len() implies a.0[k]@ == b.0[k]@ by {
            assert(0 <= at[k] < lines.len());
        }
        assert(lines_of(a.0@) =~= lines_of(b.0@));
        if !search && word == food() {
            assert forall|k: int| 0 <= k < at.len() implies a.1[k]@ == b.1[k]@ by {
                assert(0 <= at[k] < lines.len());
            }
            assert(lines_of(a.1@) =~= lines_of(b.1@));
        }
    }
}

/// The characters at which a line is cut into words are no letters and no
/// digits.
pub proof fn lemma_delimiters_are_not_alphanumeric()
    ensures
        forall|c: char| word_delims().contains(c) ==> !is_alphanumeric(c),
{
    assert forall|c: char| word_delims().contains(c) implies !is_alphanumeric(c) by {
        let i = choose|i: int| 0 <= i < word_delims().len() && word_delims()[i] == c;
        assert(0 <= i < 9);
        assert(c == ' ' || c == '(' || c == ')' || c == ',' || c == '.' || c == ';' || c == '-'
            || c == '|' || c == '/');
    }
}

/// `piece` is what stands in `line` from `from` up to `to`, and the
/// characters before and after it, where there is one, are not alphanumeric.
pub open spec fn stands_free(line: Seq<char>, piece: Seq<char>, from: int, to: int) -> bool {
    &&& 0 <= from <= to <= line.len()
    &&& piece == line.subrange(from, to)
    &&& from == 0 || !is_alphanumeric(line[from - 1])
    &&& to == line.len() || !is_alphanumeric(line[to])
}

/// Every token of a line stands free in it: it is not part of a longer run
/// of letters and digits that reaches beyond it. So a free-text search
/// without tolerance, which matches through the word standing free or
/// through a token, never matches through a word that lies inside a longer
/// one.
pub proof fn lemma_tokens_stand_free(line: Seq<char>, k: int)
    requires
        0 <= k < split(line, word_delims()).len(),
    ensures
        exists|from: int, to: int| #[trigger]
            stands_free(line, split(line, word_delims())[k], from, to),
{
    let token = split(line, word_delims())[k];
    lemma_pieces_stand_between_delims(line, word_delims(), 0, 0, k);
    lemma_delimiters_are_not_alphanumeric();
    let (from, to) = choose|from: int, to: int| #[trigger]
        stands_between(line, word_delims(), token, from, to);
    assert(stands_free(line, token, from, to));
}

/// What a free-text search finds in a line stands free in it: a match never
/// lies inside a longer run of letters and digits.
pub proof fn lemma_matches_stand_free(line: Seq<char>, word: Seq<char>, tolerance: nat)
    requires
        text_target(line, word, tolerance) is Some,
    ensures
        exists|from: int, to: int| #[trigger]
            stands_free(line, text_target(line, word, tolerance)->0, from, to),
{
    let tokens = split(line, word_delims());
    if stands_alone(line, word) {
        let i = choose|i: int| is_last_occurrence(line, word, i) && free_at(line, word, i);
        assert(stands_free(line, word, i, i + word.len()));
        assert(text_target(line, word, tolerance) == Some(word));
        assert(stands_free(line, text_target(line, word, tolerance)->0, i, i + word.len()));
    } else {
        let k = if first_word_form(tokens, word, 0) is Some {
            first_word_form(tokens, word, 0)->0
        } else {
            first_near(tokens, word, tolerance, 0)->0
        };
        lemma_first_word_form(tokens, word, 0);
        lemma_first_near(tokens, word, tolerance, 0);
        assert(text_target(line, word, tolerance) == Some(tokens[k]));
        lemma_tokens_stand_free(line, k);
        let (from, to) = choose|from: int, to: int| #[trigger]
            stands_free(line, tokens[k], from, to);
        assert(stands_free(line, text_target(line, word, tolerance)->0, from, to));
    }
}

} // verus!
