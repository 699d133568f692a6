//! The days that a calendar highlights: read from dates, sorted into months.

use vstd::prelude::*;
use crate::dates::{date_text, year_text};
use crate::edit::{
    delim_free, lemma_split_of_joined, lemma_split_of_one_piece, split, split_chars,
};
use crate::numbers::{
    decimal, digit_value, lemma_decimal_reads_back, lemma_leading_zero, parse_u32,
    parse_u32_spec, unsigned_digits, zero_padded,
};
use crate::text::{chars_of, lines_of};

verus! {


/// The hyphen, at which a date is cut into its numbers.
pub open spec fn hyphen() -> Seq<char> {
    seq!['-']
}

/// The number that the part of `date` after `index` hyphens spells; zero
/// where `date` has no such part or the part spells no number.
pub open spec fn date_part(date: Seq<char>, index: int) -> u32 {
    let parts = split(date, hyphen());
    if 0 <= index < parts.len() {
        match parse_u32_spec(parts[index]) {
            Some(n) => n,
            None => 0,
        }
    } else {
        0
    }
}

/// The month of a date written as `YYYY-MM-DD`; zero for a malformed one.
pub open spec fn month_of(date: Seq<char>) -> u32 {
    date_part(date, 1)
}

/// The day of a date written as `YYYY-MM-DD`; zero for a malformed one.
pub open spec fn day_of(date: Seq<char>) -> u32 {
    date_part(date, 2)
}

/// The month and the day of each date among the first `n` that is not
/// empty, in order.
pub open spec fn month_days(dates: Seq<Seq<char>>, n: int) -> Seq<(u32, u32)>
    decreases n,
{
    if n <= 0 || n > dates.len() {
        Seq::empty()
    } else if dates[n - 1].len() == 0 {
        month_days(dates, n - 1)
    } else {
        month_days(dates, n - 1).push((month_of(dates[n - 1]), day_of(dates[n - 1])))
    }
}

/// The days of `month` among the first `n` pairs of month and day, in order.
pub open spec fn days_of_month(pairs: Seq<(u32, u32)>, month: u32, n: int) -> Seq<u32>
    decreases n,
{
    if n <= 0 || n > pairs.len() {
        Seq::empty()
    } else if pairs[n - 1].0 == month {
        days_of_month(pairs, month, n - 1).push(pairs[n - 1].1)
    } else {
        days_of_month(pairs, month, n - 1)
    }
}

/// One number out of a date written with hyphens.
pub fn part_of_date(date: &str, index: usize) -> (n: u32)
    ensures
        n == date_part(date@, index as int),
{
    let delims: Vec<char> = vec!['-'];
    assert(delims@ =~= hyphen());
    let parts = split_chars(&chars_of(date), &delims);
    if index < parts.len() {
        assert(crate::text::views_of(parts@)[index as int] == parts[index as int]@);
        match parse_u32(&parts[index]) {
            Some(n) => n,
            None => 0,
        }
    } else {
        0
    }
}

/// The month and the day of every date that is not empty, for the calendar.
/// A date that is malformed gives zero for what cannot be read.
pub fn month_day_pairs(dates: &Vec<String>) -> (pairs: Vec<(u32, u32)>)
    ensures
        pairs@ == month_days(lines_of(dates@), dates.len() as int),
{
    let ghost ds = lines_of(dates@);
    let mut pairs: Vec<(u32, u32)> = Vec::new();
    let mut i: usize = 0;
    while i < dates.len()
        invariant
            i <= dates.len(),
            ds == lines_of(dates@),
            pairs@ == month_days(ds, i as int),
        decreases dates.len() - i,
    {
        let date = dates[i].as_str();
        assert(date@ == ds[i as int]);
        if date.unicode_len() != 0 {
            pairs.push((part_of_date(date, 1), part_of_date(date, 2)));
        }
        i += 1;
    }
    pairs
}

/// The days of the pairs, in order: what one month's calendar highlights.
pub open spec fn days_of(pairs: Seq<(u32, u32)>) -> Seq<u32> {
    pairs.map_values(|p: (u32, u32)| p.1)
}

/// The day of every date that is not empty, for one month's calendar.
pub fn highlight_days(dates: &Vec<String>) -> (days: Vec<u32>)
    ensures
        days@ == days_of(month_days(lines_of(dates@), dates.len() as int)),
{
    let pairs = month_day_pairs(dates);
    let mut days: Vec<u32> = Vec::new();
    let mut k: usize = 0;
    while k < pairs.len()
        invariant
            k <= pairs.len(),
            days.len() == k,
            forall|j: int| 0 <= j < k ==> days[j] == pairs[j].1,
        decreases pairs.len() - k,
    {
        days.push(pairs[k].1);
        k += 1;
    }
    assert(days@ =~= days_of(pairs@));
    days
}

/// `groups` holds the days of `pairs` month by month: the months in rising
/// order, each month that has a day once, each with all its days in the
/// order in which they stand in `pairs`.
pub open spec fn is_grouping(groups: Seq<(u32, Vec<u32>)>, pairs: Seq<(u32, u32)>, n: int)
    -> bool {
    &&& forall|j: int, k: int| 0 <= j < k < groups.len() ==> groups[j].0 < groups[k].0
    &&& forall|k: int|
        0 <= k < groups.len() ==> (#[trigger] groups[k]).1@ == days_of_month(
            pairs,
            groups[k].0,
            n,
        ) && groups[k].1@.len() > 0
    &&& forall|i: int|
        0 <= i < n ==> exists|k: int| 0 <= k < groups.len() && groups[k].0 == (#[trigger] pairs[i]).0
}

/// Sorts the days into months, the months in rising order.
pub fn group_by_month(pairs: &Vec<(u32, u32)>) -> (groups: Vec<(u32, Vec<u32>)>)
    ensures
        is_grouping(groups@, pairs@, pairs.len() as int),
{
    let mut groups: Vec<(u32, Vec<u32>)> = Vec::new();
    let mut i: usize = 0;
    while i < pairs.len()
        invariant
            i <= pairs.len(),
            is_grouping(groups@, pairs@, i as int),
        decreases pairs.len() - i,
    {
        let month = pairs[i].0;
        let day = pairs[i].1;
        let ghost before = groups@;
        let mut at: usize = 0;
        while at < groups.len() && groups[at].0 < month
            invariant
                at <= groups.len(),
                forall|j: int| 0 <= j < at ==> groups[j].0 < month,
            decreases groups.len() - at,
        {
            at += 1;
        }
        if at < groups.len() && groups[at].0 == month {
            let (m, mut days) = groups.remove(at);
            days.push(day);
            groups.insert(at, (m, days));
            assert forall|k: int| 0 <= k < groups.len() implies groups[k].0 == before[k].0 by {}
            assert forall|k: int| 0 <= k < groups.len() implies (#[trigger] groups[k]).1@
                == days_of_month(pairs@, groups[k].0, i + 1) && groups[k].1@.len() > 0 by {
                assert(before[k].1@ == days_of_month(pairs@, before[k].0, i as int));
                if k != at {
                    assert(groups[k] == before[k]);
                }
            }
            assert forall|p: int| 0 <= p < i + 1 implies exists|k: int|
                0 <= k < groups.len() && groups[k].0 == (#[trigger] pairs[p]).0 by {
                if p < i {
                    let k = choose|k: int| 0 <= k < before.len() && before[k].0 == pairs[p].0;
                    assert(groups[k].0 == pairs[p].0);
                } else {
                    assert(groups[at as int].0 == pairs[p].0);
                }
            }
        } else {
            let mut days: Vec<u32> = Vec::new();
            days.push(day);
            proof {
                lemma_month_without_group_has_no_day(before, pairs@, month, i as int);
            }
            groups.insert(at, (month, days));
            assert forall|k: int| 0 <= k < groups.len() implies groups[k] == (if k < at {
                before[k]
            } else if k == at {
                (month, days)
            } else {
                before[k - 1]
            }) by {}
            assert forall|j: int, k: int| 0 <= j < k < groups.len() implies groups[j].0
                < groups[k].0 by {
                if j < at && k > at {
                    assert(before[j].0 < before[k - 1].0);
                }
                if j >= at && k > at {
                    if j > at {
                        assert(before[j - 1].0 < before[k - 1].0);
                    }
                }
            }
            assert forall|k: int| 0 <= k < groups.len() implies (#[trigger] groups[k]).1@
                == days_of_month(pairs@, groups[k].0, i + 1) && groups[k].1@.len() > 0 by {
                if k < at {
                    assert(before[k].1@ == days_of_month(pairs@, before[k].0, i as int));
                } else if k > at {
                    assert(before[k - 1].1@ == days_of_month(pairs@, before[k - 1].0, i as int));
                } else {
                    assert(days@ =~= days_of_month(pairs@, month, i as int).push(day));
                }
            }
            assert forall|p: int| 0 <= p < i + 1 implies exists|k: int|
                0 <= k < groups.len() && groups[k].0 == (#[trigger] pairs[p]).0 by {
                if p < i {
                    let k = choose|k: int| 0 <= k < before.len() && before[k].0 == pairs[p].0;
                    if k < at {
                        assert(groups[k].0 == pairs[p].0);
                    } else {
                        assert(groups[k + 1].0 == pairs[p].0);
                    }
                } else {
                    assert(groups[at as int].0 == pairs[p].0);
                }
            }
        }
        i += 1;
    }
    groups
}

/// A month that has no group has no day among the pairs grouped so far.
pub proof fn lemma_month_without_group_has_no_day(
    groups: Seq<(u32, Vec<u32>)>,
    pairs: Seq<(u32, u32)>,
    month: u32,
    n: int,
)
    requires
        0 <= n <= pairs.len(),
        is_grouping(groups, pairs, n),
        forall|k: int| 0 <= k < groups.len() ==> groups[k].0 != month,
    ensures
        days_of_month(pairs, month, n) == Seq::<u32>::empty(),
    decreases n,
{
    if n > 0 {
        lemma_days_of_month_without(pairs, month, n);
    }
}

/// A month that none of the first `n` pairs names has no day among them.
pub proof fn lemma_days_of_month_without(pairs: Seq<(u32, u32)>, month: u32, n: int)
    requires
        0 <= n <= pairs.len(),
        forall|i: int| 0 <= i < n ==> (#[trigger] pairs[i]).0 != month,
    ensures
        days_of_month(pairs, month, n) == Seq::<u32>::empty(),
    decreases n,
{
    if n > 0 {
        lemma_days_of_month_without(pairs, month, n - 1);
    }
}

/// A month with a day among the first `n` pairs is named by one of them.
pub proof fn lemma_days_of_month_within(pairs: Seq<(u32, u32)>, month: u32, n: int)
    requires
        0 <= n <= pairs.len(),
        days_of_month(pairs, month, n).len() > 0,
    ensures
        exists|i: int| 0 <= i < n && (#[trigger] pairs[i]).0 == month,
    decreases n,
{
    if pairs[n - 1].0 != month {
        lemma_days_of_month_within(pairs, month, n - 1);
        let i = choose|i: int| 0 <= i < n - 1 && (#[trigger] pairs[i]).0 == month;
        assert(pairs[i].0 == month);
    }
}

/// The days of a month in two lists joined are its days in the first,
/// followed by its days in the second.
pub proof fn lemma_days_of_month_joined(
    first: Seq<(u32, u32)>,
    second: Seq<(u32, u32)>,
    month: u32,
    n: int,
)
    requires
        0 <= n <= second.len(),
    ensures
        days_of_month(first + second, month, first.len() + n) == days_of_month(
            first,
            month,
            first.len() as int,
        ) + days_of_month(second, month, n),
    decreases n,
{
    let joined = first + second;
    if n == 0 {
        lemma_days_of_month_of_prefix(joined, first, month, first.len() as int);
        assert(days_of_month(first, month, first.len() as int) + Seq::<u32>::empty()
            =~= days_of_month(first, month, first.len() as int));
    } else {
        lemma_days_of_month_joined(first, second, month, n - 1);
        assert(joined[first.len() + n - 1] == second[n - 1]);
        assert(days_of_month(joined, month, first.len() + n) =~= days_of_month(
            first,
            month,
            first.len() as int,
        ) + days_of_month(second, month, n));
    }
}

/// The days of a month among the first `n` pairs depend on those pairs alone.
pub proof fn lemma_days_of_month_of_prefix(
    a: Seq<(u32, u32)>,
    b: Seq<(u32, u32)>,
    month: u32,
    n: int,
)
    requires
        0 <= n <= a.len(),
        n <= b.len(),
        forall|i: int| 0 <= i < n ==> a[i] == b[i],
    ensures
        days_of_month(a, month, n) == days_of_month(b, month, n),
    decreases n,
{
    if n > 0 {
        lemma_days_of_month_of_prefix(a, b, month, n - 1);
    }
}

/// The order in which two month-files are read does not change what any
/// month's calendar highlights: where the files hold different months, each
/// month has the same days, in the same order, whichever file comes first.
pub proof fn lemma_file_order_is_irrelevant(
    first: Seq<(u32, u32)>,
    second: Seq<(u32, u32)>,
    month: u32,
)
    requires
        forall|i: int, j: int|
            0 <= i < first.len() && 0 <= j < second.len() ==> (#[trigger] first[i]).0 != (
            #[trigger] second[j]).0,
    ensures
        days_of_month(first + second, month, (first + second).len() as int) == days_of_month(
            second + first,
            month,
            (second + first).len() as int,
        ),
{
    lemma_days_of_month_joined(first, second, month, second.len() as int);
    lemma_days_of_month_joined(second, first, month, first.len() as int);
    let in_first = days_of_month(first, month, first.len() as int);
    let in_second = days_of_month(second, month, second.len() as int);
    if in_first.len() > 0 && in_second.len() > 0 {
        lemma_days_of_month_within(first, month, first.len() as int);
        lemma_days_of_month_within(second, month, second.len() as int);
        let i = choose|i: int| 0 <= i < first.len() && (#[trigger] first[i]).0 == month;
        let j = choose|j: int| 0 <= j < second.len() && (#[trigger] second[j]).0 == month;
        assert(first[i].0 == second[j].0);
    }
    if in_first.len() == 0 {
        assert(in_first + in_second =~= in_second + in_first);
    } else {
        assert(in_first + in_second =~= in_second + in_first);
    }
}

/// Some group of `groups` is that of `month`.
pub open spec fn has_month(groups: Seq<(u32, Vec<u32>)>, month: u32) -> bool {
    exists|j: int| 0 <= j < groups.len() && (#[trigger] groups[j]).0 == month
}

/// Two groupings whose months rise hold the same months in the same places
/// up to `k`, where each month of one is a month of the other.
proof fn lemma_same_months(a: Seq<(u32, Vec<u32>)>, b: Seq<(u32, Vec<u32>)>, k: int)
    requires
        forall|i: int, j: int| 0 <= i < j < a.len() ==> a[i].0 < a[j].0,
        forall|i: int, j: int| 0 <= i < j < b.len() ==> b[i].0 < b[j].0,
        forall|i: int| 0 <= i < a.len() ==> has_month(b, (#[trigger] a[i]).0),
        forall|i: int| 0 <= i < b.len() ==> has_month(a, (#[trigger] b[i]).0),
        0 <= k <= a.len(),
    ensures
        k <= b.len(),
        forall|i: int| 0 <= i < k ==> (#[trigger] a[i]).0 == b[i].0,
    decreases k,
{
    if k > 0 {
        lemma_same_months(a, b, k - 1);
        assert(has_month(b, a[k - 1].0));
        let j = choose|j: int| 0 <= j < b.len() && (#[trigger] b[j]).0 == a[k - 1].0;
        if j < k - 1 {
            assert(a[j].0 == b[j].0);
            assert(a[j].0 < a[k - 1].0);
        } else if j > k - 1 {
            assert(b[k - 1].0 < b[j].0);
            assert(has_month(a, b[k - 1].0));
            let j2 = choose|j2: int| 0 <= j2 < a.len() && (#[trigger] a[j2]).0 == b[k - 1].0;
            if j2 < k - 1 {
                assert(a[j2].0 == b[j2].0);
                assert(b[j2].0 < b[k - 1].0);
            } else if j2 > k - 1 {
                assert(a[k - 1].0 < a[j2].0);
            }
        }
    }
}

/// Every month of the grouping `a` is a month of the grouping `b`, where
/// each month has the same days in the pairs of both.
proof fn lemma_months_are_shared(
    a: Seq<(u32, Vec<u32>)>,
    b: Seq<(u32, Vec<u32>)>,
    pairs_a: Seq<(u32, u32)>,
    pairs_b: Seq<(u32, u32)>,
    i: int,
)
    requires
        is_grouping(a, pairs_a, pairs_a.len() as int),
        is_grouping(b, pairs_b, pairs_b.len() as int),
        0 <= i < a.len(),
        days_of_month(pairs_a, a[i].0, pairs_a.len() as int) == days_of_month(
            pairs_b,
            a[i].0,
            pairs_b.len() as int,
        ),
    ensures
        has_month(b, a[i].0),
{
    let m = a[i].0;
    assert(a[i].1@ == days_of_month(pairs_a, m, pairs_a.len() as int));
    lemma_days_of_month_within(pairs_b, m, pairs_b.len() as int);
    let p = choose|p: int| 0 <= p < pairs_b.len() && (#[trigger] pairs_b[p]).0 == m;
    let j = choose|j: int| 0 <= j < b.len() && b[j].0 == (#[trigger] pairs_b[p]).0;
    assert(b[j].0 == m);
}

/// The grouping is fixed by the days of each month: two lists of pairs in
/// which every month has the same days, in the same order, are grouped alike,
/// however the months are mixed in each.
pub proof fn lemma_grouping_is_determined(
    a: Seq<(u32, Vec<u32>)>,
    b: Seq<(u32, Vec<u32>)>,
    pairs_a: Seq<(u32, u32)>,
    pairs_b: Seq<(u32, u32)>,
)
    requires
        is_grouping(a, pairs_a, pairs_a.len() as int),
        is_grouping(b, pairs_b, pairs_b.len() as int),
        forall|month: u32| #[trigger]
            days_of_month(pairs_a, month, pairs_a.len() as int) == days_of_month(
                pairs_b,
                month,
                pairs_b.len() as int,
            ),
    ensures
        a.len() == b.len(),
        forall|k: int|
            0 <= k < a.len() ==> (#[trigger] a[k]).0 == b[k].0 && a[k].1@ == b[k].1@,
{
    assert forall|i: int| 0 <= i < a.len() implies has_month(b, (#[trigger] a[i]).0) by {
        lemma_months_are_shared(a, b, pairs_a, pairs_b, i);
    }
    assert forall|i: int| 0 <= i < b.len() implies has_month(a, (#[trigger] b[i]).0) by {
        lemma_months_are_shared(b, a, pairs_b, pairs_a, i);
    }
    lemma_same_months(a, b, a.len() as int);
    lemma_same_months(b, a, b.len() as int);
    assert forall|k: int| 0 <= k < a.len() implies (#[trigger] a[k]).0 == b[k].0 && a[k].1@
        == b[k].1@ by {
        assert(a[k].1@ == days_of_month(pairs_a, a[k].0, pairs_a.len() as int));
        assert(b[k].1@ == days_of_month(pairs_b, b[k].0, pairs_b.len() as int));
    }
}

/// A number below 100 written with two digits is read back as that number,
/// and is one piece of a date.
proof fn lemma_two_digits_read_back(n: nat)
    requires
        n < 100,
    ensures
        parse_u32_spec(zero_padded(n, 2)) == Some(n as u32),
        split(zero_padded(n, 2), hyphen()) == seq![zero_padded(n, 2)],
{
    let text = zero_padded(n, 2);
    let digits = decimal(n);
    lemma_decimal_reads_back(n);
    if n < 10 {
        assert(text =~= seq!['0'] + digits);
        lemma_leading_zero(digits);
        assert forall|i: int| 0 <= i < text.len() implies (#[trigger] digit_value(text[i])) is Some by {
            if i > 0 {
                assert(text[i] == digits[i - 1]);
            }
        }
    } else {
        assert(text == digits);
    }
    assert(digit_value(text[0]) is Some);
    assert(unsigned_digits(text) == text);
    assert forall|j: int| 0 <= j < text.len() implies !hyphen().contains(#[trigger] text[j]) by {
        assert(digit_value(text[j]) is Some);
        if hyphen().contains(text[j]) {
            let i = choose|i: int| 0 <= i < hyphen().len() && hyphen()[i] == text[j];
            assert(i == 0);
        }
    }
    lemma_split_of_one_piece(text, hyphen(), 0, 0);
    assert(text.subrange(0, text.len() as int) =~= text);
}

/// A year from 0 on is written without a hyphen.
proof fn lemma_year_has_no_hyphen(year: int)
    requires
        0 <= year,
    ensures
        delim_free(year_text(year), hyphen()),
{
    let digits = decimal(year as nat);
    lemma_decimal_reads_back(year as nat);
    let padded = zero_padded(year as nat, 4);
    assert forall|j: int| 0 <= j < padded.len() implies (#[trigger] digit_value(padded[j])) is Some by {
        if digits.len() < 4 {
            let zeros = 4 - digits.len();
            if j >= zeros {
                assert(padded[j] == digits[j - zeros]);
            } else {
                assert(padded[j] == '0');
            }
        }
    }
    let text = year_text(year);
    assert forall|j: int| 0 <= j < text.len() implies !hyphen().contains(#[trigger] text[j]) by {
        if year <= 9999 {
            assert(digit_value(padded[j]) is Some);
        } else if j > 0 {
            assert(text[j] == padded[j - 1]);
            assert(digit_value(padded[j - 1]) is Some);
        }
        if hyphen().contains(text[j]) {
            let i = choose|i: int| 0 <= i < hyphen().len() && hyphen()[i] == text[j];
            assert(i == 0);
        }
    }
}

/// A date as the journal writes it gives back its month and its day, also
/// behind a prefix that holds no hyphen, as in a heading. This holds of
/// every date from the year 0 on.
pub proof fn lemma_date_gives_its_month_and_day(
    prefix: Seq<char>,
    year: int,
    month: nat,
    day: nat,
)
    requires
        delim_free(prefix, hyphen()),
        0 <= year,
        month < 100,
        day < 100,
    ensures
        month_of(prefix + date_text(year, month, day)) == month,
        day_of(prefix + date_text(year, month, day)) == day,
{
    let delims = hyphen();
    let y = year_text(year);
    let mm = zero_padded(month, 2);
    let dd = zero_padded(day, 2);
    let head1 = prefix + y;
    let head2 = head1 + seq!['-'] + mm;
    let text = prefix + date_text(year, month, day);
    assert(text =~= head2 + seq!['-'] + dd);
    assert(delims.contains('-')) by {
        assert(delims[0] == '-');
    }
    lemma_year_has_no_hyphen(year);
    lemma_two_digits_read_back(month);
    lemma_two_digits_read_back(day);
    assert forall|j: int| 0 <= j < head1.len() implies !delims.contains(#[trigger] head1[j]) by {
        if j < prefix.len() {
            assert(head1[j] == prefix[j]);
        } else {
            assert(head1[j] == y[j - prefix.len()]);
        }
    }
    lemma_split_of_one_piece(head1, delims, 0, 0);
    assert(head1.subrange(0, head1.len() as int) =~= head1);
    lemma_split_of_joined(head2, '-', dd, delims, 0, 0);
    lemma_split_of_joined(head1, '-', mm, delims, 0, 0);
    let parts = split(text, delims);
    assert(parts =~= seq![head1] + seq![mm] + seq![dd]);
    assert(parts[1] == mm);
    assert(parts[2] == dd);
}

/// The pairs read from the first `n` dates depend on those dates alone.
pub proof fn lemma_month_days_of_prefix(a: Seq<Seq<char>>, b: Seq<Seq<char>>, n: int)
    requires
        0 <= n <= a.len(),
        n <= b.len(),
        forall|i: int| 0 <= i < n ==> a[i] == b[i],
    ensures
        month_days(a, n) == month_days(b, n),
    decreases n,
{
    if n > 0 {
        lemma_month_days_of_prefix(a, b, n - 1);
    }
}

/// The pairs read from two lists of dates joined are the pairs of the
/// first followed by the pairs of the second.
pub proof fn lemma_month_days_joined(first: Seq<Seq<char>>, second: Seq<Seq<char>>, n: int)
    requires
        0 <= n <= second.len(),
    ensures
        month_days(first + second, first.len() + n) == month_days(first, first.len() as int)
            + month_days(second, n),
    decreases n,
{
    let joined = first + second;
    if n == 0 {
        lemma_month_days_of_prefix(joined, first, first.len() as int);
        assert(month_days(first, first.len() as int) + Seq::<(u32, u32)>::empty() =~= month_days(
            first,
            first.len() as int,
        ));
    } else {
        lemma_month_days_joined(first, second, n - 1);
        assert(joined[first.len() + n - 1] == second[n - 1]);
        assert(month_days(joined, first.len() + n) =~= month_days(first, first.len() as int)
            + month_days(second, n));
    }
}

/// Every pair read from dates names the month of one of them.
pub proof fn lemma_month_days_come_from_dates(dates: Seq<Seq<char>>, n: int, i: int)
    requires
        0 <= n <= dates.len(),
        0 <= i < month_days(dates, n).len(),
    ensures
        exists|j: int| 0 <= j < n && month_days(dates, n)[i].0 == month_of(#[trigger] dates[j]),
    decreases n,
{
    let before = month_days(dates, n - 1);
    if dates[n - 1].len() != 0 && i == before.len() {
        assert(month_days(dates, n)[i].0 == month_of(dates[n - 1]));
    } else {
        lemma_month_days_come_from_dates(dates, n - 1, i);
        let j = choose|j: int|
            0 <= j < n - 1 && month_days(dates, n - 1)[i].0 == month_of(#[trigger] dates[j]);
        assert(month_days(dates, n)[i].0 == month_of(dates[j]));
    }
}

} // verus!
