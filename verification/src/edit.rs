//! Rewriting character sequences: replacing, trimming and splitting.

use vstd::prelude::*;
use crate::text::{
    char_is_whitespace, has_prefix, is_whitespace, matches_at, occurs_at, starts_with, views_of,
};

verus! {

/// What is left of `s` from index `i` on once every occurrence of `pat`,
/// found from left to right and never overlapping, is replaced by `with`.
/// An empty `pat` occurs nowhere.
pub open spec fn replace_from(s: Seq<char>, pat: Seq<char>, with: Seq<char>, i: int) -> Seq<char>
    decreases s.len() - i,
{
    if i < 0 || i >= s.len() {
        Seq::empty()
    } else if pat.len() > 0 && occurs_at(s, pat, i) {
        with + replace_from(s, pat, with, i + pat.len())
    } else {
        seq![s[i]] + replace_from(s, pat, with, i + 1)
    }
}

/// `s` with every occurrence of `pat` replaced by `with`.
pub open spec fn replace_all(s: Seq<char>, pat: Seq<char>, with: Seq<char>) -> Seq<char> {
    replace_from(s, pat, with, 0)
}

/// Appends the characters of `tail` to `out`.
pub fn append_chars(out: &mut Vec<char>, tail: &Vec<char>)
    ensures
        final(out)@ == old(out)@ + tail@,
{
    let mut k: usize = 0;
    while k < tail.len()
        invariant
            k <= tail.len(),
            out@ == old(out)@ + tail@.take(k as int),
        decreases tail.len() - k,
    {
        out.push(tail[k]);
        k += 1;
    }
}

/// Replaces every occurrence of `pat` in `s` by `with`.
pub fn replace_chars(s: &Vec<char>, pat: &Vec<char>, with: &Vec<char>) -> (out: Vec<char>)
    ensures
        out@ == replace_all(s@, pat@, with@),
{
    let mut out: Vec<char> = Vec::new();
    let mut i: usize = 0;
    while i < s.len()
        invariant
            i <= s.len(),
            out@ + replace_from(s@, pat@, with@, i as int) == replace_all(s@, pat@, with@),
        decreases s.len() - i,
    {
        let ghost before = out@;
        if pat.len() > 0 && matches_at(s, pat, i) {
            append_chars(&mut out, with);
            assert(out@ + replace_from(s@, pat@, with@, i + pat.len()) =~= before + replace_from(
                s@,
                pat@,
                with@,
                i as int,
            ));
            i += pat.len();
        } else {
            out.push(s[i]);
            assert(out@ + replace_from(s@, pat@, with@, i + 1) =~= before + replace_from(
                s@,
                pat@,
                with@,
                i as int,
            ));
            i += 1;
        }
    }
    assert(out@ + Seq::<char>::empty() =~= out@);
    out
}

/// The first index at or after `i` that holds no whitespace, or the length of `s`.
pub open spec fn skip_whitespace(s: Seq<char>, i: int) -> int
    decreases s.len() - i,
{
    if 0 <= i < s.len() && is_whitespace(s[i]) {
        skip_whitespace(s, i + 1)
    } else {
        i
    }
}

/// The end of `s` once the whitespace before index `j` is dropped, never below `lo`.
pub open spec fn drop_whitespace(s: Seq<char>, lo: int, j: int) -> int
    decreases j,
{
    if 0 <= lo < j <= s.len() && is_whitespace(s[j - 1]) {
        drop_whitespace(s, lo, j - 1)
    } else {
        j
    }
}

/// `s` without its leading and trailing whitespace.
pub open spec fn trim(s: Seq<char>) -> Seq<char> {
    let lo = skip_whitespace(s, 0);
    let hi = drop_whitespace(s, lo, s.len() as int);
    s.subrange(lo, hi)
}

/// The characters of `s[from..to]`.
pub fn slice_chars(s: &Vec<char>, from: usize, to: usize) -> (out: Vec<char>)
    requires
        from <= to <= s.len(),
    ensures
        out@ == s@.subrange(from as int, to as int),
{
    let mut out: Vec<char> = Vec::new();
    let mut k: usize = from;
    while k < to
        invariant
            from <= k <= to <= s.len(),
            out@ == s@.subrange(from as int, k as int),
        decreases to - k,
    {
        out.push(s[k]);
        k += 1;
    }
    out
}

/// Drops leading and trailing whitespace.
pub fn trim_chars(s: &Vec<char>) -> (out: Vec<char>)
    ensures
        out@ == trim(s@),
{
    let mut lo: usize = 0;
    while lo < s.len() && char_is_whitespace(s[lo])
        invariant
            lo <= s.len(),
            skip_whitespace(s@, lo as int) == skip_whitespace(s@, 0),
        decreases s.len() - lo,
    {
        lo += 1;
    }
    let mut hi: usize = s.len();
    while hi > lo && char_is_whitespace(s[hi - 1])
        invariant
            lo <= hi <= s.len(),
            drop_whitespace(s@, lo as int, hi as int) == drop_whitespace(
                s@,
                lo as int,
                s.len() as int,
            ),
        decreases hi,
    {
        hi -= 1;
    }
    slice_chars(s, lo, hi)
}

/// The pieces of `s` between delimiters, from the piece that begins at `start`
/// and has been scanned up to index `i`. A sequence with `n` delimiters has
/// `n + 1` pieces, some of which may be empty.
pub open spec fn split_from(s: Seq<char>, delims: Seq<char>, start: int, i: int) -> Seq<Seq<char>>
    decreases s.len() - i,
{
    if !(0 <= start <= i < s.len()) {
        seq![s.subrange(start, s.len() as int)]
    } else if delims.contains(s[i]) {
        seq![s.subrange(start, i)] + split_from(s, delims, i + 1, i + 1)
    } else {
        split_from(s, delims, start, i + 1)
    }
}

/// The pieces of `s` between the characters of `delims`.
pub open spec fn split(s: Seq<char>, delims: Seq<char>) -> Seq<Seq<char>> {
    split_from(s, delims, 0, 0)
}

/// Whether `c` is one of `set`.
pub fn is_one_of(c: char, set: &Vec<char>) -> (b: bool)
    ensures
        b == set@.contains(c),
{
    let mut k: usize = 0;
    while k < set.len()
        invariant
            k <= set.len(),
            forall|j: int| 0 <= j < k ==> set@[j] != c,
        decreases set.len() - k,
    {
        if set[k] == c {
            return true;
        }
        k += 1;
    }
    false
}

/// Splits `s` at every character of `delims`.
pub fn split_chars(s: &Vec<char>, delims: &Vec<char>) -> (parts: Vec<Vec<char>>)
    ensures
        views_of(parts@) == split(s@, delims@),
{
    let mut parts: Vec<Vec<char>> = Vec::new();
    let mut start: usize = 0;
    let mut i: usize = 0;
    assert(views_of(parts@) + split_from(s@, delims@, 0, 0) =~= split(s@, delims@));
    while i < s.len()
        invariant
            start <= i <= s.len(),
            views_of(parts@) + split_from(s@, delims@, start as int, i as int) == split(
                s@,
                delims@,
            ),
        decreases s.len() - i,
    {
        if is_one_of(s[i], delims) {
            let ghost before = parts@;
            let piece = slice_chars(s, start, i);
            parts.push(piece);
            assert(views_of(parts@) =~= views_of(before).push(piece@));
            assert(views_of(parts@) + split_from(s@, delims@, i + 1, i + 1) =~= views_of(before)
                + split_from(s@, delims@, start as int, i as int));
            start = i + 1;
        }
        i += 1;
    }
    let ghost before = parts@;
    let piece = slice_chars(s, start, s.len());
    parts.push(piece);
    assert(views_of(parts@) =~= views_of(before).push(piece@));
    assert(views_of(parts@) =~= views_of(before) + split_from(
        s@,
        delims@,
        start as int,
        s.len() as int,
    ));
    parts
}

/// The list marker that opens a record line.
pub open spec fn list_marker() -> Seq<char> {
    seq!['-', ' ']
}

/// `s` without one leading list marker, if it has one.
pub open spec fn strip_marker(s: Seq<char>) -> Seq<char> {
    if starts_with(s, list_marker()) {
        s.subrange(2, s.len() as int)
    } else {
        s
    }
}

/// A line as it is shown: surrounding whitespace dropped, then one leading
/// list marker, then the whitespace that the marker leaves behind.
pub open spec fn tidy(s: Seq<char>) -> Seq<char> {
    trim(strip_marker(trim(s)))
}

/// Drops one leading list marker.
pub fn strip_marker_chars(s: &Vec<char>) -> (out: Vec<char>)
    ensures
        out@ == strip_marker(s@),
{
    let marker: Vec<char> = vec!['-', ' '];
    assert(marker@ =~= list_marker());
    if has_prefix(s, &marker) {
        slice_chars(s, 2, s.len())
    } else {
        let out = slice_chars(s, 0, s.len());
        assert(out@ =~= s@);
        out
    }
}

/// Brings a line into the form in which it is shown.
pub fn tidy_chars(s: &Vec<char>) -> (out: Vec<char>)
    ensures
        out@ == tidy(s@),
{
    let a = trim_chars(s);
    let b = strip_marker_chars(&a);
    trim_chars(&b)
}

/// `s` holds none of `delims`.
pub open spec fn delim_free(s: Seq<char>, delims: Seq<char>) -> bool {
    forall|i: int| 0 <= i < s.len() ==> !delims.contains(#[trigger] s[i])
}

/// From index `k` on, `s` is `t`.
pub open spec fn is_tail_of(t: Seq<char>, s: Seq<char>, k: int) -> bool {
    &&& 0 <= k
    &&& s.len() == k + t.len()
    &&& forall|i: int| 0 <= i < t.len() ==> s[k + i] == t[i]
}

/// A sequence without delimiters is one piece.
pub proof fn lemma_split_of_one_piece(s: Seq<char>, delims: Seq<char>, start: int, i: int)
    requires
        0 <= start <= i <= s.len(),
        forall|j: int| i <= j < s.len() ==> !delims.contains(#[trigger] s[j]),
    ensures
        split_from(s, delims, start, i) == seq![s.subrange(start, s.len() as int)],
    decreases s.len() - i,
{
    if i < s.len() {
        lemma_split_of_one_piece(s, delims, start, i + 1);
    }
}

/// The pieces of a tail are the pieces of the whole from where the tail begins.
pub proof fn lemma_split_of_tail(
    s: Seq<char>,
    t: Seq<char>,
    delims: Seq<char>,
    k: int,
    start: int,
    i: int,
)
    requires
        is_tail_of(t, s, k),
        0 <= start <= i <= t.len(),
    ensures
        split_from(s, delims, k + start, k + i) == split_from(t, delims, start, i),
    decreases t.len() - i,
{
    assert(s.subrange(k + start, s.len() as int) =~= t.subrange(start, t.len() as int));
    if i < t.len() {
        assert(s[k + i] == t[i]);
        assert(s.subrange(k + start, k + i) =~= t.subrange(start, i));
        lemma_split_of_tail(s, t, delims, k, start, i + 1);
        lemma_split_of_tail(s, t, delims, k, i + 1, i + 1);
    }
}

/// The pieces of two sequences joined by a delimiter are the pieces of the
/// first followed by the pieces of the second.
pub proof fn lemma_split_of_joined(
    head: Seq<char>,
    delim: char,
    tail: Seq<char>,
    delims: Seq<char>,
    start: int,
    i: int,
)
    requires
        delims.contains(delim),
        0 <= start <= i <= head.len(),
    ensures
        split_from(head + seq![delim] + tail, delims, start, i) == split_from(
            head,
            delims,
            start,
            i,
        ) + split(tail, delims),
    decreases head.len() - i,
{
    let s = head + seq![delim] + tail;
    let n = head.len() as int;
    if i < n {
        assert(s[i] == head[i]);
        assert(s.subrange(start, i) =~= head.subrange(start, i));
        lemma_split_of_joined(head, delim, tail, delims, start, i + 1);
        lemma_split_of_joined(head, delim, tail, delims, i + 1, i + 1);
        if delims.contains(head[i]) {
            assert(split_from(s, delims, start, i) =~= split_from(head, delims, start, i) + split(
                tail,
                delims,
            ));
        }
    } else {
        assert(s[n] == delim);
        assert(s.subrange(start, n) =~= head.subrange(start, n));
        lemma_split_of_tail(s, tail, delims, n + 1, 0, 0);
        assert(split_from(head, delims, start, n) == seq![head.subrange(start, n)]);
    }
}

/// `piece` is what stands in `s` from `from` up to `to`, between delimiters
/// or the ends of `s`.
pub open spec fn stands_between(
    s: Seq<char>,
    delims: Seq<char>,
    piece: Seq<char>,
    from: int,
    to: int,
) -> bool {
    &&& 0 <= from <= to <= s.len()
    &&& piece == s.subrange(from, to)
    &&& from == 0 || delims.contains(s[from - 1])
    &&& to == s.len() || delims.contains(s[to])
}

/// Every piece of a split stands between delimiters or the ends of what
/// was split.
pub proof fn lemma_pieces_stand_between_delims(
    s: Seq<char>,
    delims: Seq<char>,
    start: int,
    i: int,
    k: int,
)
    requires
        0 <= start <= i <= s.len(),
        start == 0 || delims.contains(s[start - 1]),
        0 <= k < split_from(s, delims, start, i).len(),
    ensures
        exists|from: int, to: int| #[trigger]
            stands_between(s, delims, split_from(s, delims, start, i)[k], from, to),
    decreases s.len() - i,
{
    let pieces = split_from(s, delims, start, i);
    if i >= s.len() {
        assert(stands_between(s, delims, pieces[k], start, s.len() as int));
    } else if delims.contains(s[i]) {
        if k == 0 {
            assert(stands_between(s, delims, pieces[k], start, i));
        } else {
            let rest = split_from(s, delims, i + 1, i + 1);
            assert(pieces[k] == rest[k - 1]);
            lemma_pieces_stand_between_delims(s, delims, i + 1, i + 1, k - 1);
            let (from, to) = choose|from: int, to: int| #[trigger]
                stands_between(s, delims, rest[k - 1], from, to);
            assert(stands_between(s, delims, pieces[k], from, to));
        }
    } else {
        lemma_pieces_stand_between_delims(s, delims, start, i + 1, k);
        let (from, to) = choose|from: int, to: int| #[trigger]
            stands_between(s, delims, split_from(s, delims, start, i + 1)[k], from, to);
        assert(stands_between(s, delims, pieces[k], from, to));
    }
}

} // verus!
