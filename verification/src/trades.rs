//! The capital-gains trades that a federal form's input lists, in its
//! `CapGains` sections: for each trade a line with the buy amount (and
//! date), a line with the sell amount (and date), then a line whose first
//! amount, if any, adjusts the gain.

use vstd::prelude::*;

use crate::dsl::{int_in_range, parse_int_chars, remove_commas};
use crate::lexer::find_char;
use crate::literal::{is_digit, is_float_literal, looks_like_number};
use crate::references::string_from_range;
use crate::text::{
    char_is_white_space, chars_of, is_white_space, normalize_name, normalized, string_views, trim,
    trimmed,
};

verus! {

/// `s` without everything from its first `{` on.
pub open spec fn before_brace(s: Seq<char>) -> Seq<char> {
    s.take(find_char(s, 0, '{'))
}

/// The line without its `{ ... }` comment: everything before the first `{`.
pub fn strip_brace_comment(line: &str) -> (r: String)
    ensures
        r@ == before_brace(line@),
{
    let cs = chars_of(line);
    let n = cs.len();
    let mut i: usize = 0;
    while i < n && cs[i] != '{'
        invariant
            i <= n,
            n == line@.len(),
            cs@ == line@,
            find_char(line@, 0, '{') == find_char(line@, i as int, '{'),
        decreases n - i,
    {
        i += 1;
    }
    assert(line@.subrange(0, i as int) =~= line@.take(i as int));
    string_from_range(&cs, 0, i)
}

/// How many times `c` occurs in `s`.
pub open spec fn count_char(s: Seq<char>, c: char) -> nat
    decreases s.len(),
{
    if s.len() == 0 {
        0
    } else {
        count_char(s.drop_last(), c) + if s.last() == c {
            1nat
        } else {
            0nat
        }
    }
}

/// A word shaped like a date: at least two separators (`-` or `/`) and
/// nothing but digits and separators.
pub open spec fn date_like(t: Seq<char>) -> bool {
    count_char(t, '-') + count_char(t, '/') >= 2 && forall|k: int|
        0 <= k < t.len() ==> is_digit(#[trigger] t[k]) || t[k] == '-' || t[k] == '/'
}

/// Whether a word is shaped like a date.
pub fn is_date_like_token(token: &str) -> (r: bool)
    ensures
        r == date_like(token@),
{
    let cs = chars_of(token);
    let mut dashes: usize = 0;
    let mut slashes: usize = 0;
    let mut all_ok = true;
    let mut i: usize = 0;
    while i < cs.len()
        invariant
            i <= cs@.len(),
            cs@ == token@,
            dashes == count_char(token@.take(i as int), '-'),
            slashes == count_char(token@.take(i as int), '/'),
            dashes + slashes <= i,
            all_ok == forall|k: int| 0 <= k < i ==> is_digit(#[trigger] token@[k]) || token@[k] == '-' || token@[k] == '/',
        decreases cs@.len() - i,
    {
        let c = cs[i];
        proof {
            assert(token@.take(i + 1).drop_last() =~= token@.take(i as int));
            assert(token@.take(i + 1).last() == c);
        }
        if c == '-' {
            dashes += 1;
        } else if c == '/' {
            slashes += 1;
        } else if !('0' <= c && c <= '9') {
            all_ok = false;
        }
        i += 1;
    }
    assert(token@.take(i as int) =~= token@);
    dashes + slashes >= 2 && all_ok
}

/// The maximal runs of non-whitespace characters of `s`.
pub open spec fn ws_words(s: Seq<char>) -> Seq<Seq<char>>
    decreases s.len(),
{
    if s.len() == 0 {
        Seq::empty()
    } else if is_white_space(s[0]) {
        ws_words(s.skip(1))
    } else {
        let j = word_end_ws(s, 0);
        proof {
            lemma_word_end_ws(s, 0);
        }
        seq![s.take(j)] + ws_words(s.skip(j))
    }
}

/// The end of the run of non-whitespace characters starting at `i`.
pub open spec fn word_end_ws(s: Seq<char>, i: int) -> int
    decreases s.len() - i,
{
    if i >= s.len() || is_white_space(s[i]) {
        i
    } else {
        word_end_ws(s, i + 1)
    }
}

pub proof fn lemma_word_end_ws(s: Seq<char>, i: int)
    requires
        0 <= i <= s.len(),
    ensures
        i <= word_end_ws(s, i) <= s.len(),
        i < s.len() && !is_white_space(s[i]) ==> i < word_end_ws(s, i),
        forall|k: int| i <= k < word_end_ws(s, i) ==> !is_white_space(#[trigger] s[k]),
        word_end_ws(s, i) < s.len() ==> is_white_space(s[word_end_ws(s, i)]),
    decreases s.len() - i,
{
    if i < s.len() && !is_white_space(s[i]) {
        lemma_word_end_ws(s, i + 1);
    }
}

proof fn lemma_ws_words_skip(s: Seq<char>, i: int)
    requires
        0 <= i < s.len(),
        is_white_space(s[i]),
    ensures
        ws_words(s.skip(i)) == ws_words(s.skip(i + 1)),
{
    assert(s.skip(i)[0] == s[i]);
    assert(s.skip(i).skip(1) =~= s.skip(i + 1));
}

proof fn lemma_word_end_ws_shift(s: Seq<char>, i: int, k: int)
    requires
        0 <= i <= k <= s.len(),
        forall|m: int| i <= m < k ==> !is_white_space(#[trigger] s[m]),
    ensures
        word_end_ws(s.skip(i), k - i) == word_end_ws(s, k) - i,
    decreases s.len() - k,
{
    if k < s.len() && !is_white_space(s[k]) {
        lemma_word_end_ws_shift(s, i, k + 1);
    }
}

/// The words of a line, as `str::split_whitespace` gives them.
pub fn split_words(s: &str) -> (r: Vec<String>)
    ensures
        string_views(r@) == ws_words(s@),
{
    let cs = chars_of(s);
    let n = cs.len();
    let mut words: Vec<String> = Vec::new();
    let mut i: usize = 0;
    assert(s@.skip(0) =~= s@);
    while i < n
        invariant
            i <= n,
            n == s@.len(),
            cs@ == s@,
            ws_words(s@) == string_views(words@) + ws_words(s@.skip(i as int)),
        decreases n - i,
    {
        let ghost w0 = string_views(words@);
        if char_is_white_space(cs[i]) {
            proof {
                lemma_ws_words_skip(s@, i as int);
            }
            i += 1;
        } else {
            let start = i;
            while i < n && !char_is_white_space(cs[i])
                invariant
                    start <= i <= n,
                    n == s@.len(),
                    cs@ == s@,
                    word_end_ws(s@, start as int) == word_end_ws(s@, i as int),
                    forall|m: int| start <= m < i ==> !is_white_space(#[trigger] s@[m]),
                decreases n - i,
            {
                i += 1;
            }
            let ghost rest = s@.skip(start as int);
            proof {
                lemma_word_end_ws_shift(s@, start as int, i as int);
                assert(word_end_ws(s@, i as int) == i);
                lemma_word_end_ws_shift(s@, start as int, start as int);
                assert(word_end_ws(rest, 0) == i - start);
                assert(rest[0] == s@[start as int]);
                assert(rest.take(i - start) =~= s@.subrange(start as int, i as int));
                assert(rest.skip(i - start) =~= s@.skip(i as int));
            }
            let w = string_from_range(&cs, start, i);
            words.push(w);
            assert(string_views(words@) =~= w0.push(s@.subrange(start as int, i as int)));
            assert(w0 + (seq![s@.subrange(start as int, i as int)] + ws_words(s@.skip(i as int))) =~= string_views(
                words@,
            ) + ws_words(s@.skip(i as int)));
        }
    }
    assert(s@.skip(n as int) =~= Seq::<char>::empty());
    assert(string_views(words@) + Seq::<Seq<char>>::empty() =~= string_views(words@));
    words
}

/// The lines of a text, as `str::lines` gives them: split at each `\n`,
/// a `\r` right before it dropped; a final line break ends the last line.
pub open spec fn lines_of(s: Seq<char>) -> Seq<Seq<char>>
    decreases s.len(),
{
    if s.len() == 0 {
        Seq::empty()
    } else {
        let j = find_char(s, 0, '\n');
        proof {
            crate::lexer::lemma_find_char(s, 0, '\n');
        }
        if j >= s.len() {
            seq![s]
        } else {
            let line = s.take(j);
            let line = if line.len() > 0 && line.last() == '\r' {
                line.drop_last()
            } else {
                line
            };
            seq![line] + lines_of(s.skip(j + 1))
        }
    }
}

proof fn lemma_find_char_shift(s: Seq<char>, i: int, k: int, c: char)
    requires
        0 <= i <= k <= s.len(),
        forall|m: int| i <= m < k ==> s[m] != c,
    ensures
        find_char(s.skip(i), k - i, c) == find_char(s, k, c) - i,
    decreases s.len() - k,
{
    if k < s.len() && s[k] != c {
        lemma_find_char_shift(s, i, k + 1, c);
    }
}

/// The lines of a text.
pub fn text_lines(s: &str) -> (r: Vec<String>)
    ensures
        string_views(r@) == lines_of(s@),
{
    let cs = chars_of(s);
    let n = cs.len();
    let mut lines: Vec<String> = Vec::new();
    let mut i: usize = 0;
    assert(s@.skip(0) =~= s@);
    while i < n
        invariant
            i <= n,
            n == s@.len(),
            cs@ == s@,
            lines_of(s@) == string_views(lines@) + lines_of(s@.skip(i as int)),
        decreases n - i,
    {
        let ghost l0 = string_views(lines@);
        let ghost rest = s@.skip(i as int);
        let start = i;
        while i < n && cs[i] != '\n'
            invariant
                start <= i <= n,
                n == s@.len(),
                cs@ == s@,
                find_char(s@, start as int, '\n') == find_char(s@, i as int, '\n'),
                forall|m: int| start <= m < i ==> s@[m] != '\n',
            decreases n - i,
        {
            i += 1;
        }
        proof {
            lemma_find_char_shift(s@, start as int, i as int, '\n');
            lemma_find_char_shift(s@, start as int, start as int, '\n');
            assert(find_char(s@, i as int, '\n') == i);
            assert(find_char(rest, 0, '\n') == i - start);
        }
        if i >= n {
            let w = string_from_range(&cs, start, n);
            lines.push(w);
            proof {
                assert(rest =~= s@.subrange(start as int, n as int));
                assert(string_views(lines@) =~= l0.push(rest));
                assert(s@.skip(n as int) =~= Seq::<char>::empty());
                assert(l0 + seq![rest] =~= string_views(lines@) + lines_of(s@.skip(n as int)));
            }
        } else {
            let end = if i > start && cs[i - 1] == '\r' {
                i - 1
            } else {
                i
            };
            let w = string_from_range(&cs, start, end);
            lines.push(w);
            proof {
                let line = rest.take(i - start);
                assert(line =~= s@.subrange(start as int, i as int));
                if i > start && s@[i - 1] == '\r' {
                    assert(line.drop_last() =~= s@.subrange(start as int, end as int));
                } else {
                    assert(line =~= s@.subrange(start as int, end as int));
                }
                assert(rest.skip(i - start + 1) =~= s@.skip(i + 1));
                assert(string_views(lines@) =~= l0.push(s@.subrange(start as int, end as int)));
                assert(l0 + (seq![s@.subrange(start as int, end as int)] + lines_of(s@.skip(i + 1))) =~= string_views(
                    lines@,
                ) + lines_of(s@.skip(i + 1)));
            }
            i += 1;
        }
    }
    assert(s@.skip(n as int) =~= Seq::<char>::empty());
    assert(string_views(lines@) + Seq::<Seq<char>>::empty() =~= string_views(lines@));
    lines
}

/// A calendar date as year, month and day.
#[derive(Debug, Clone, Copy, PartialEq, Eq)]
pub struct TradeDate {
    pub year: i32,
    pub month: u32,
    pub day: u32,
}

pub open spec fn is_leap_year(y: int) -> bool {
    (y % 4 == 0 && y % 100 != 0) || y % 400 == 0
}

pub open spec fn month_length(y: int, m: int) -> int {
    if m == 2 {
        if is_leap_year(y) {
            29
        } else {
            28
        }
    } else if m == 4 || m == 6 || m == 9 || m == 11 {
        30
    } else {
        31
    }
}

/// The days of year `y` before the first of month `m`.
pub open spec fn days_before_month(y: int, m: int) -> int
    decreases m,
{
    if m <= 1 {
        0
    } else {
        days_before_month(y, m - 1) + month_length(y, m - 1)
    }
}

/// The leap years from year 0 up to, not including, year `y` (counted
/// negatively below 0).
pub open spec fn leap_years_before(y: int) -> int {
    (y + 3) / 4 - (y + 99) / 100 + (y + 399) / 400
}

/// The number of a day in the proleptic Gregorian calendar (consecutive
/// days have consecutive numbers).
pub open spec fn day_number(y: int, m: int, d: int) -> int {
    365 * y + leap_years_before(y) + days_before_month(y, m) + d
}

/// A date that the calendar library can represent: a year within its range
/// (-262143 to 262142), a month from 1 to 12, and a day of that month.
pub open spec fn valid_date(y: int, m: int, d: int) -> bool {
    &&& -262143 <= y <= 262142
    &&& 1 <= m <= 12
    &&& 1 <= d <= month_length(y, m)
}

/// Whether `chrono::NaiveDate::from_ymd_opt` gives a date for these
/// numbers; it does exactly when the date exists in its range.
#[verifier::external_body]
fn date_exists(year: i32, month: u32, day: u32) -> (r: bool)
    ensures
        r == valid_date(year as int, month as int, day as int),
{
    chrono::NaiveDate::from_ymd_opt(year, month, day).is_some()
}

/// The number of days from `earlier` to `later`: chrono's
/// `NaiveDate::signed_duration_since`, in whole days (`num_days`), which is
/// the difference of the days' numbers.
#[verifier::external_body]
fn days_between(later: TradeDate, earlier: TradeDate) -> (r: i64)
    requires
        valid_date(later.year as int, later.month as int, later.day as int),
        valid_date(earlier.year as int, earlier.month as int, earlier.day as int),
    ensures
        r == day_number(later.year as int, later.month as int, later.day as int) - day_number(
            earlier.year as int,
            earlier.month as int,
            earlier.day as int,
        ),
{
    let a = chrono::NaiveDate::from_ymd_opt(later.year, later.month, later.day).unwrap();
    let b = chrono::NaiveDate::from_ymd_opt(earlier.year, earlier.month, earlier.day).unwrap();
    a.signed_duration_since(b).num_days()
}

/// The parts of `s` between occurrences of `c` (`str::split`).
pub open spec fn split_parts(s: Seq<char>, c: char) -> Seq<Seq<char>>
    decreases s.len(),
{
    let j = find_char(s, 0, c);
    proof {
        crate::lexer::lemma_find_char(s, 0, c);
    }
    if j >= s.len() {
        seq![s]
    } else {
        seq![s.take(j)] + split_parts(s.skip(j + 1), c)
    }
}

/// A two-digit year read as 2000 to 2030 (up to 30) or 1931 to 1999.
pub open spec fn full_year(y: int) -> int {
    if y < 100 {
        if y <= 30 {
            2000 + y
        } else {
            1900 + y
        }
    } else {
        y
    }
}

/// The date a word gives: a date-like word split at its first kind of
/// separator (`-` if it has one, else `/`) into exactly month, day and year,
/// each a number of its type, naming a date that exists.
pub open spec fn date_of_word(t: Seq<char>) -> Option<TradeDate> {
    if !date_like(t) {
        None
    } else {
        let sep = if t.contains('-') {
            '-'
        } else {
            '/'
        };
        let parts = split_parts(t, sep);
        if parts.len() != 3 {
            None
        } else {
            match (
                int_in_range(parts[0], 0, u32::MAX as int),
                int_in_range(parts[1], 0, u32::MAX as int),
                int_in_range(parts[2], i32::MIN as int, i32::MAX as int),
            ) {
                (Some(m), Some(d), Some(y)) => {
                    let fy = full_year(y);
                    if valid_date(fy, m, d) {
                        Some(TradeDate { year: fy as i32, month: m as u32, day: d as u32 })
                    } else {
                        None
                    }
                },
                _ => None,
            }
        }
    }
}

/// The parts of a text between occurrences of a character.
fn split_on(s: &str, c: char) -> (r: Vec<String>)
    ensures
        string_views(r@) == split_parts(s@, c),
{
    let cs = chars_of(s);
    let n = cs.len();
    let mut parts: Vec<String> = Vec::new();
    let mut start: usize = 0;
    assert(s@.skip(0) =~= s@);
    loop
        invariant
            start <= n,
            n == s@.len(),
            cs@ == s@,
            split_parts(s@, c) == string_views(parts@) + split_parts(s@.skip(start as int), c),
        decreases n - start,
    {
        let ghost p0 = string_views(parts@);
        let ghost rest = s@.skip(start as int);
        let mut i = start;
        while i < n && cs[i] != c
            invariant
                start <= i <= n,
                n == s@.len(),
                cs@ == s@,
                find_char(s@, start as int, c) == find_char(s@, i as int, c),
                forall|m: int| start <= m < i ==> s@[m] != c,
            decreases n - i,
        {
            i += 1;
        }
        proof {
            lemma_find_char_shift(s@, start as int, i as int, c);
            lemma_find_char_shift(s@, start as int, start as int, c);
            assert(find_char(rest, 0, c) == i - start);
            assert(rest.take(i - start) =~= s@.subrange(start as int, i as int));
        }
        let w = string_from_range(&cs, start, i);
        parts.push(w);
        if i >= n {
            proof {
                assert(rest =~= s@.subrange(start as int, n as int));
                assert(string_views(parts@) =~= p0.push(rest));
                assert(p0 + seq![rest] =~= string_views(parts@));
            }
            return parts;
        }
        proof {
            assert(rest.skip(i - start + 1) =~= s@.skip(i + 1));
            assert(string_views(parts@) =~= p0.push(s@.subrange(start as int, i as int)));
            assert(p0 + (seq![s@.subrange(start as int, i as int)] + split_parts(s@.skip(i + 1), c)) =~= string_views(
                parts@,
            ) + split_parts(s@.skip(i + 1), c));
        }
        start = i + 1;
    }
}

fn has_char_in(s: &str, c: char) -> (r: bool)
    ensures
        r == s@.contains(c),
{
    let cs = chars_of(s);
    let mut i: usize = 0;
    while i < cs.len()
        invariant
            i <= cs@.len(),
            cs@ == s@,
            forall|k: int| 0 <= k < i ==> s@[k] != c,
        decreases cs@.len() - i,
    {
        if cs[i] == c {
            assert(s@[i as int] == c);
            return true;
        }
        i += 1;
    }
    false
}

fn parse_int_text(s: &str, neg: u64, pos: u64) -> (r: Option<i128>)
    ensures
        r == (match int_in_range(s@, -(neg as int), pos as int) {
            Some(v) => Some(v as i128),
            None => None::<i128>,
        }),
{
    let cs = chars_of(s);
    let n = cs.len();
    assert(cs@.subrange(0, n as int) =~= s@);
    parse_int_chars(&cs, 0, n, neg, pos)
}

/// The date a word gives, if it is shaped like a date and names one.
pub fn parse_date_token(token: &str) -> (r: Option<TradeDate>)
    ensures
        r == date_of_word(token@),
        date_ok(r),
{
    if !is_date_like_token(token) {
        return None;
    }
    let sep = if has_char_in(token, '-') {
        '-'
    } else {
        '/'
    };
    let parts = split_on(token, sep);
    if parts.len() != 3 {
        return None;
    }
    assert(string_views(parts@)[0] == parts@[0]@);
    assert(string_views(parts@)[1] == parts@[1]@);
    assert(string_views(parts@)[2] == parts@[2]@);
    let month = match parse_int_text(parts[0].as_str(), 0, 0xffff_ffff) {
        Some(v) => v,
        None => return None,
    };
    let day = match parse_int_text(parts[1].as_str(), 0, 0xffff_ffff) {
        Some(v) => v,
        None => return None,
    };
    let year_raw = match parse_int_text(parts[2].as_str(), 0x8000_0000, 0x7fff_ffff) {
        Some(v) => v,
        None => return None,
    };
    let year: i128 = if year_raw < 100 {
        if year_raw <= 30 {
            2000 + year_raw
        } else {
            1900 + year_raw
        }
    } else {
        year_raw
    };
    if year > 0x7fff_ffff {
        return None;
    }
    let (y, m, d) = (year as i32, month as u32, day as u32);
    if date_exists(y, m, d) {
        Some(TradeDate { year: y, month: m, day: d })
    } else {
        None
    }
}

/// The trade is long-term: both dates are known and the sale came more
/// than 365 days after the purchase.
pub open spec fn long_term(buy: Option<TradeDate>, sell: Option<TradeDate>) -> bool {
    match (buy, sell) {
        (Some(b), Some(s)) => day_number(s.year as int, s.month as int, s.day as int) - day_number(
            b.year as int,
            b.month as int,
            b.day as int,
        ) > 365,
        _ => false,
    }
}

pub open spec fn date_ok(d: Option<TradeDate>) -> bool {
    d matches Some(x) ==> valid_date(x.year as int, x.month as int, x.day as int)
}

/// Whether a trade is long-term.
pub fn is_long_term_trade(buy_date: Option<TradeDate>, sell_date: Option<TradeDate>) -> (r: bool)
    requires
        date_ok(buy_date),
        date_ok(sell_date),
    ensures
        r == long_term(buy_date, sell_date),
{
    match (buy_date, sell_date) {
        (Some(buy), Some(sell)) => days_between(sell, buy) > 365,
        _ => false,
    }
}

/// The amount a word gives: one with an ASCII digit that is not shaped like
/// a date and reads as a float once its commas are dropped; the literal
/// without commas.
pub open spec fn money_of_word(t: Seq<char>) -> Option<Seq<char>> {
    if (exists|k: int| 0 <= k < t.len() && is_digit(#[trigger] t[k])) && !date_like(t) && is_float_literal(
        remove_commas(t),
    ) {
        Some(remove_commas(t))
    } else {
        None
    }
}

fn has_ascii_digit(s: &str) -> (r: bool)
    ensures
        r == exists|k: int| 0 <= k < s@.len() && is_digit(#[trigger] s@[k]),
{
    let cs = chars_of(s);
    let mut i: usize = 0;
    while i < cs.len()
        invariant
            i <= cs@.len(),
            cs@ == s@,
            forall|k: int| 0 <= k < i ==> !is_digit(#[trigger] s@[k]),
        decreases cs@.len() - i,
    {
        if '0' <= cs[i] && cs[i] <= '9' {
            assert(is_digit(s@[i as int]));
            return true;
        }
        i += 1;
    }
    false
}

/// The amount a word gives, if any.
pub fn parse_money_like_token(token: &str) -> (r: Option<String>)
    ensures
        match r {
            Some(t) => money_of_word(token@) == Some(t@),
            None => money_of_word(token@) is None,
        },
{
    if !has_ascii_digit(token) || is_date_like_token(token) {
        return None;
    }
    let normalized = crate::dsl::without_commas(token);
    if looks_like_number(normalized.as_str()) {
        Some(normalized)
    } else {
        None
    }
}

/// The first amount among the words.
pub open spec fn first_money(ws: Seq<Seq<char>>) -> Option<Seq<char>>
    decreases ws.len(),
{
    if ws.len() == 0 {
        None
    } else {
        match money_of_word(ws[0]) {
            Some(v) => Some(v),
            None => first_money(ws.skip(1)),
        }
    }
}

/// The first date among the words.
pub open spec fn first_date(ws: Seq<Seq<char>>) -> Option<TradeDate>
    decreases ws.len(),
{
    if ws.len() == 0 {
        None
    } else {
        match date_of_word(ws[0]) {
            Some(v) => Some(v),
            None => first_date(ws.skip(1)),
        }
    }
}

fn first_numeric_token(words: &Vec<String>) -> (r: Option<String>)
    ensures
        match r {
            Some(t) => first_money(string_views(words@)) == Some(t@),
            None => first_money(string_views(words@)) is None,
        },
{
    let ghost ws = string_views(words@);
    let mut i: usize = 0;
    assert(ws.skip(0) =~= ws);
    while i < words.len()
        invariant
            i <= words@.len(),
            ws == string_views(words@),
            first_money(ws) == first_money(ws.skip(i as int)),
        decreases words@.len() - i,
    {
        assert(ws.skip(i as int)[0] == words@[i as int]@);
        assert(ws.skip(i as int).skip(1) =~= ws.skip(i + 1));
        match parse_money_like_token(words[i].as_str()) {
            Some(v) => {
                return Some(v);
            },
            None => {},
        }
        i += 1;
    }
    None
}

fn first_date_token(words: &Vec<String>) -> (r: Option<TradeDate>)
    ensures
        r == first_date(string_views(words@)),
        date_ok(r),
{
    let ghost ws = string_views(words@);
    let mut i: usize = 0;
    assert(ws.skip(0) =~= ws);
    while i < words.len()
        invariant
            i <= words@.len(),
            ws == string_views(words@),
            first_date(ws) == first_date(ws.skip(i as int)),
        decreases words@.len() - i,
    {
        assert(ws.skip(i as int)[0] == words@[i as int]@);
        assert(ws.skip(i as int).skip(1) =~= ws.skip(i + 1));
        let d = parse_date_token(words[i].as_str());
        if d.is_some() {
            return d;
        }
        i += 1;
    }
    None
}

/// A trade listed in a capital-gains section: the buy and sell amounts as
/// written (commas dropped) with their dates, and the adjustment, if any.
#[derive(Debug)]
pub struct Trade {
    pub buy: String,
    pub buy_date: Option<TradeDate>,
    pub sell: String,
    pub sell_date: Option<TradeDate>,
    pub adjustment: Option<String>,
}

/// A trade as a mathematical value.
pub struct TradeView {
    pub buy: Seq<char>,
    pub buy_date: Option<TradeDate>,
    pub sell: Seq<char>,
    pub sell_date: Option<TradeDate>,
    pub adjustment: Option<Seq<char>>,
}

pub open spec fn trade_view(t: Trade) -> TradeView {
    TradeView {
        buy: t.buy@,
        buy_date: t.buy_date,
        sell: t.sell@,
        sell_date: t.sell_date,
        adjustment: match t.adjustment {
            Some(a) => Some(a@),
            None => None,
        },
    }
}

/// Where reading the trades stands after some lines.
pub struct ScanState {
    pub in_section: bool,
    pub stage: int,
    pub buy: Seq<char>,
    pub buy_date: Option<TradeDate>,
    pub sell: Seq<char>,
    pub sell_date: Option<TradeDate>,
    pub trades: Seq<TradeView>,
}

pub open spec fn scan_start() -> ScanState {
    ScanState {
        in_section: false,
        stage: 0,
        buy: Seq::empty(),
        buy_date: None,
        sell: Seq::empty(),
        sell_date: None,
        trades: Seq::empty(),
    }
}

/// A line that opens a capital-gains section: normalized, it starts with
/// `capgains`.
pub open spec fn opens_section(line: Seq<char>) -> bool {
    let n = normalized(line);
    n.len() >= 8 && n.take(8) == "capgains"@
}

/// Reading one line. Comments and surrounding whitespace are dropped and
/// empty lines passed over; a section header (re)starts a section; outside
/// a section nothing counts; a line starting with `;` ends the section.
/// Inside, the first amount of a line is the buy amount, the next line's
/// the sell amount, and the next line completes the trade, its first amount
/// (if any) being the adjustment.
pub open spec fn scan_line(st: ScanState, raw: Seq<char>) -> ScanState {
    let line = trimmed(before_brace(raw));
    if line.len() == 0 {
        st
    } else if opens_section(line) {
        ScanState { in_section: true, stage: 0, ..st }
    } else if !st.in_section {
        st
    } else if line[0] == ';' {
        ScanState { in_section: false, stage: 0, ..st }
    } else {
        let ws = ws_words(line);
        if st.stage == 0 {
            match first_money(ws) {
                Some(v) => ScanState { buy: v, buy_date: first_date(ws), stage: 1, ..st },
                None => st,
            }
        } else if st.stage == 1 {
            match first_money(ws) {
                Some(v) => ScanState { sell: v, sell_date: first_date(ws), stage: 2, ..st },
                None => st,
            }
        } else {
            ScanState {
                trades: st.trades.push(
                    TradeView {
                        buy: st.buy,
                        buy_date: st.buy_date,
                        sell: st.sell,
                        sell_date: st.sell_date,
                        adjustment: first_money(ws),
                    },
                ),
                stage: 0,
                ..st
            }
        }
    }
}

pub open spec fn scan_lines(lines: Seq<Seq<char>>) -> ScanState
    decreases lines.len(),
{
    if lines.len() == 0 {
        scan_start()
    } else {
        scan_line(scan_lines(lines.drop_last()), lines.last())
    }
}

/// A line that, without its comment and surrounding whitespace, starts
/// with `;` and is no section header.
pub open spec fn closes_section(raw: Seq<char>) -> bool {
    let line = trimmed(before_brace(raw));
    line.len() > 0 && line[0] == ';' && !opens_section(line)
}

/// None of the lines is a section header.
pub open spec fn no_header(lines: Seq<Seq<char>>) -> bool {
    forall|i: int| 0 <= i < lines.len() ==> !opens_section(trimmed(before_brace(#[trigger] lines[i])))
}

proof fn lemma_outside_stays(q: Seq<Seq<char>>, r: Seq<Seq<char>>)
    requires
        !scan_lines(q).in_section,
        no_header(r),
    ensures
        scan_lines(q + r) == scan_lines(q),
    decreases r.len(),
{
    if r.len() > 0 {
        let r0 = r.drop_last();
        assert(no_header(r0)) by {
            assert forall|i: int| 0 <= i < r0.len() implies !opens_section(trimmed(before_brace(#[trigger] r0[i]))) by {
                assert(r0[i] == r[i]);
            }
        }
        lemma_outside_stays(q, r0);
        assert((q + r).drop_last() =~= q + r0);
        assert((q + r).last() == r[r.len() - 1]);
        assert(!opens_section(trimmed(before_brace(r[r.len() - 1]))));
    } else {
        assert(q + r =~= q);
    }
}

/// A line starting with `;` ends the capital-gains section: whatever came
/// before, the lines after it that open no new section add no trade and
/// leave the section closed.
pub proof fn lemma_semicolon_closes_section(before: Seq<Seq<char>>, close: Seq<char>, after: Seq<Seq<char>>)
    requires
        closes_section(close),
        no_header(after),
    ensures
        scan_lines(before.push(close) + after).trades == scan_lines(before).trades,
        !scan_lines(before.push(close) + after).in_section,
{
    let q = before.push(close);
    assert(q.drop_last() =~= before);
    assert(q.last() == close);
    assert(!scan_lines(q).in_section);
    lemma_outside_stays(q, after);
}

/// Lines that open no capital-gains section list no trade.
pub proof fn lemma_no_section_no_trades(lines: Seq<Seq<char>>)
    requires
        no_header(lines),
    ensures
        scan_lines(lines).trades.len() == 0,
{
    let e = Seq::<Seq<char>>::empty();
    assert(scan_lines(e) == scan_start());
    lemma_outside_stays(e, lines);
    assert(e + lines =~= lines);
}

/// A line of a section's body: not empty, no header, not starting with `;`.
pub open spec fn body_line(raw: Seq<char>) -> bool {
    let line = trimmed(before_brace(raw));
    line.len() > 0 && !opens_section(line) && line[0] != ';'
}

/// The words of a line without its comment and surrounding whitespace.
pub open spec fn line_words(raw: Seq<char>) -> Seq<Seq<char>> {
    ws_words(trimmed(before_brace(raw)))
}

/// Right after a section header, three body lines whose first two carry
/// amounts make one trade: the first line's amount and date are the buy,
/// the second line's the sell, and the third line's first amount, if any,
/// the adjustment.
pub proof fn lemma_trade_from_three_lines(
    before: Seq<Seq<char>>,
    header: Seq<char>,
    first: Seq<char>,
    second: Seq<char>,
    third: Seq<char>,
)
    requires
        opens_section(trimmed(before_brace(header))),
        trimmed(before_brace(header)).len() > 0,
        body_line(first),
        body_line(second),
        body_line(third),
        first_money(line_words(first)) is Some,
        first_money(line_words(second)) is Some,
    ensures
        scan_lines(before.push(header).push(first).push(second).push(third)).trades == scan_lines(before).trades.push(
            TradeView {
                buy: first_money(line_words(first))->0,
                buy_date: first_date(line_words(first)),
                sell: first_money(line_words(second))->0,
                sell_date: first_date(line_words(second)),
                adjustment: first_money(line_words(third)),
            },
        ),
{
    let l0 = before.push(header);
    let l1 = l0.push(first);
    let l2 = l1.push(second);
    let l3 = l2.push(third);
    assert(l0.drop_last() =~= before && l0.last() == header);
    assert(l1.drop_last() =~= l0 && l1.last() == first);
    assert(l2.drop_last() =~= l1 && l2.last() == second);
    assert(l3.drop_last() =~= l2 && l3.last() == third);
    let s0 = scan_lines(l0);
    assert(s0.in_section && s0.stage == 0 && s0.trades == scan_lines(before).trades);
    let s1 = scan_lines(l1);
    assert(s1.in_section && s1.stage == 1 && s1.trades == s0.trades);
    let s2 = scan_lines(l2);
    assert(s2.in_section && s2.stage == 2 && s2.trades == s0.trades);
}

fn starts_section(line: &str) -> (r: bool)
    ensures
        r == opens_section(line@),
{
    let n = normalize_name(line);
    let cs = chars_of(n.as_str());
    if cs.len() < 8 {
        return false;
    }
    let r = cs[0] == 'c' && cs[1] == 'a' && cs[2] == 'p' && cs[3] == 'g' && cs[4] == 'a' && cs[5] == 'i' && cs[6]
        == 'n' && cs[7] == 's';
    proof {
        reveal_strlit("capgains");
        if r {
            assert(n@.take(8) =~= "capgains"@);
        } else {
            if n@.take(8) == "capgains"@ {
                assert(n@.take(8)[0] == n@[0]);
                assert(n@.take(8)[1] == n@[1]);
                assert(n@.take(8)[2] == n@[2]);
                assert(n@.take(8)[3] == n@[3]);
                assert(n@.take(8)[4] == n@[4]);
                assert(n@.take(8)[5] == n@[5]);
                assert(n@.take(8)[6] == n@[6]);
                assert(n@.take(8)[7] == n@[7]);
            }
        }
    }
    r
}

/// The trades that the capital-gains sections of a form input list.
pub fn capital_gain_trades(input: &str) -> (r: Vec<Trade>)
    ensures
        r@.map_values(|t: Trade| trade_view(t)) == scan_lines(lines_of(input@)).trades,
        forall|i: int| 0 <= i < r@.len() ==> date_ok(#[trigger] r@[i].buy_date) && date_ok(r@[i].sell_date),
{
    let lines = text_lines(input);
    let ghost ls = lines_of(input@);
    let mut trades: Vec<Trade> = Vec::new();
    let mut in_section = false;
    let mut stage: u8 = 0;
    let mut buy = String::new();
    let mut buy_date: Option<TradeDate> = None;
    let mut sell = String::new();
    let mut sell_date: Option<TradeDate> = None;
    let mut i: usize = 0;
    assert(ls.take(0) =~= Seq::<Seq<char>>::empty());
    assert(trades@.map_values(|t: Trade| trade_view(t)) =~= Seq::<TradeView>::empty());
    while i < lines.len()
        invariant
            i <= lines@.len(),
            ls == string_views(lines@),
            stage <= 2,
            ({
                let st = scan_lines(ls.take(i as int));
                &&& st.in_section == in_section
                &&& st.stage == stage as int
                &&& st.buy == buy@
                &&& st.buy_date == buy_date
                &&& st.sell == sell@
                &&& st.sell_date == sell_date
                &&& st.trades == trades@.map_values(|t: Trade| trade_view(t))
            }),
            date_ok(buy_date),
            date_ok(sell_date),
            forall|k: int| 0 <= k < trades@.len() ==> date_ok(#[trigger] trades@[k].buy_date) && date_ok(trades@[k].sell_date),
        decreases lines@.len() - i,
    {
        let ghost st = scan_lines(ls.take(i as int));
        proof {
            assert(ls.take(i + 1).drop_last() =~= ls.take(i as int));
            assert(ls.take(i + 1).last() == lines@[i as int]@);
        }
        let stripped = strip_brace_comment(lines[i].as_str());
        let line = trim(stripped.as_str());
        let lc = chars_of(line.as_str());
        if lc.len() == 0 {
            i += 1;
            continue;
        }
        if starts_section(line.as_str()) {
            in_section = true;
            stage = 0;
            i += 1;
            continue;
        }
        if !in_section {
            i += 1;
            continue;
        }
        if lc[0] == ';' {
            in_section = false;
            stage = 0;
            i += 1;
            continue;
        }
        let words = split_words(line.as_str());
        if stage == 0 {
            if let Some(v) = first_numeric_token(&words) {
                buy = v;
                buy_date = first_date_token(&words);
                stage = 1;
            }
        } else if stage == 1 {
            if let Some(v) = first_numeric_token(&words) {
                sell = v;
                sell_date = first_date_token(&words);
                stage = 2;
            }
        } else {
            let adjustment = first_numeric_token(&words);
            let t = Trade { buy: buy.clone(), buy_date, sell: sell.clone(), sell_date, adjustment };
            let ghost t0 = trades@.map_values(|t: Trade| trade_view(t));
            let ghost tv = trade_view(t);
            trades.push(t);
            assert(trades@.map_values(|t: Trade| trade_view(t)) =~= t0.push(tv));
            stage = 0;
        }
        i += 1;
    }
    assert(ls.take(i as int) =~= ls);
    trades
}

} // verus!
