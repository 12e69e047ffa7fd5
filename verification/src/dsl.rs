//! Reading form input files: a cursor over the tokens of a file, with
//! readers for labels, integers, yes/no answers, numbers and texts, and the
//! reading of a whole file into its statements.

use vstd::prelude::*;

use crate::form::{FieldValue, FormField, FormState};
use crate::lexer::{copy_token, lex, lex_form_file, token_views, Token, TokenView};
use crate::literal::{all_digits, is_digit, is_float_literal, looks_like_number};
use crate::text::{chars_of, owned, push_char, str_eq};

verus! {

/// Why a form file could not be read.
#[derive(Debug)]
pub enum DslError {
    Lex(String),
    UnexpectedEof(&'static str),
    UnexpectedLabel { expected: String, found: String },
    InvalidInt(String),
    InvalidFloat(String),
    InvalidBool(String),
}

/// A reading error as a mathematical value.
pub enum DslErrorView {
    Lex(Seq<char>),
    UnexpectedEof(Seq<char>),
    UnexpectedLabel { expected: Seq<char>, found: Seq<char> },
    InvalidInt(Seq<char>),
    InvalidFloat(Seq<char>),
    InvalidBool(Seq<char>),
}

impl View for DslError {
    type V = DslErrorView;

    open spec fn view(&self) -> DslErrorView {
        match self {
            DslError::Lex(m) => DslErrorView::Lex(m@),
            DslError::UnexpectedEof(w) => DslErrorView::UnexpectedEof(w@),
            DslError::UnexpectedLabel { expected, found } => DslErrorView::UnexpectedLabel {
                expected: expected@,
                found: found@,
            },
            DslError::InvalidInt(s) => DslErrorView::InvalidInt(s@),
            DslError::InvalidFloat(s) => DslErrorView::InvalidFloat(s@),
            DslError::InvalidBool(s) => DslErrorView::InvalidBool(s@),
        }
    }
}

/// A result whose error is taken by its view.
pub open spec fn result_view<T>(r: Result<T, DslError>) -> Result<T, DslErrorView> {
    match r {
        Ok(v) => Ok(v),
        Err(e) => Err(e@),
    }
}

/// The state of a cursor: the tokens, the position of the next one, whether
/// amounts are rounded to whole dollars, and the answer that stands for
/// "not applicable".
pub struct CursorState {
    pub toks: Seq<TokenView>,
    pub pos: int,
    pub round: bool,
    pub nav: i32,
}

/// The word that switches on rounding to whole dollars.
pub open spec fn is_pragma(t: TokenView) -> bool {
    t == TokenView::Word("Round_to_Whole_Dollars"@)
}

/// The position reached from `i` by skipping rounding pragmas (each with
/// the word after it) and, when `nl`, line breaks; and whether a pragma was
/// skipped.
pub open spec fn skip_from(toks: Seq<TokenView>, i: int, nl: bool) -> (int, bool)
    decreases toks.len() - i,
{
    if 0 <= i < toks.len() && is_pragma(toks[i]) {
        let j = if i + 1 < toks.len() && toks[i + 1] is Word {
            i + 2
        } else {
            i + 1
        };
        (skip_from(toks, j, nl).0, true)
    } else if nl && 0 <= i < toks.len() && toks[i] is Newline {
        skip_from(toks, i + 1, nl)
    } else {
        (i, false)
    }
}

/// The next token after skipping, the position after it, and whether a
/// pragma was skipped on the way.
pub open spec fn next_from(toks: Seq<TokenView>, i: int, nl: bool) -> (Option<TokenView>, int, bool) {
    let (p, seen) = skip_from(toks, i, nl);
    if 0 <= p < toks.len() {
        (Some(toks[p]), p + 1, seen)
    } else {
        (None, p, seen)
    }
}

/// The cursor after reading the next token.
pub open spec fn advance(c: CursorState, nl: bool) -> (Option<TokenView>, CursorState) {
    let (t, j, seen) = next_from(c.toks, c.pos, nl);
    (t, CursorState { pos: j, round: c.round || seen, ..c })
}

pub proof fn lemma_skip_from(toks: Seq<TokenView>, i: int, nl: bool)
    requires
        0 <= i,
    ensures
        i <= skip_from(toks, i, nl).0,
        i <= toks.len() ==> skip_from(toks, i, nl).0 <= toks.len(),
        skip_from(toks, i, nl).0 < toks.len() ==> !is_pragma(toks[skip_from(toks, i, nl).0]),
        nl && skip_from(toks, i, nl).0 < toks.len() ==> !(toks[skip_from(toks, i, nl).0] is Newline),
    decreases toks.len() - i,
{
    if 0 <= i < toks.len() && is_pragma(toks[i]) {
        let j = if i + 1 < toks.len() && toks[i + 1] is Word {
            i + 2
        } else {
            i + 1
        };
        lemma_skip_from(toks, j, nl);
    } else if nl && 0 <= i < toks.len() && toks[i] is Newline {
        lemma_skip_from(toks, i + 1, nl);
    }
}

/// How a token is shown in an error message.
pub open spec fn token_text(t: TokenView) -> Seq<char> {
    match t {
        TokenView::Word(w) => w,
        TokenView::Semicolon => ";"@,
        TokenView::Newline => "<newline>"@,
    }
}

/// Reading a label that must be `expected`.
pub open spec fn expect_label_spec(c: CursorState, expected: Seq<char>) -> (Result<(), DslErrorView>, CursorState) {
    let (t, c1) = advance(c, true);
    let r = match t {
        None => Err(DslErrorView::UnexpectedEof("label"@)),
        Some(tok) => if tok == TokenView::Word(expected) {
            Ok(())
        } else {
            Err(DslErrorView::UnexpectedLabel { expected, found: token_text(tok) })
        },
    };
    (r, c1)
}

/// The value of a string of decimal digits.
pub open spec fn decimal_value(s: Seq<char>) -> int
    decreases s.len(),
{
    if s.len() == 0 {
        0
    } else {
        decimal_value(s.drop_last()) * 10 + (s.last() as int - '0' as int)
    }
}

/// The integer a word denotes: digits after an optional sign.
pub open spec fn int_literal_value(s: Seq<char>) -> Option<int> {
    if s.len() > 0 && all_digits(s) {
        Some(decimal_value(s))
    } else if s.len() > 1 && s[0] == '+' && all_digits(s.skip(1)) {
        Some(decimal_value(s.skip(1)))
    } else if s.len() > 1 && s[0] == '-' && all_digits(s.skip(1)) {
        Some(-decimal_value(s.skip(1)))
    } else {
        None
    }
}

/// The integer a word denotes, when it lies in `[lo, hi]` (`str::parse` of
/// an integer type with that range).
pub open spec fn int_in_range(s: Seq<char>, lo: int, hi: int) -> Option<int> {
    match int_literal_value(s) {
        Some(v) => if lo <= v <= hi {
            Some(v)
        } else {
            None
        },
        None => None,
    }
}

/// Reading an integer.
pub open spec fn read_int_spec(c: CursorState) -> (Result<i32, DslErrorView>, CursorState) {
    let (t, c1) = advance(c, true);
    let r = match t {
        None => Err(DslErrorView::UnexpectedEof("int"@)),
        Some(TokenView::Word(w)) => match int_in_range(w, i32::MIN as int, i32::MAX as int) {
            Some(v) => Ok(v as i32),
            None => Err(DslErrorView::InvalidInt(w)),
        },
        Some(tok) => Err(DslErrorView::InvalidInt(token_text(tok))),
    };
    (r, c1)
}

pub proof fn lemma_decimal_value_monotone(s: Seq<char>, k: int)
    requires
        0 <= k <= s.len(),
        all_digits(s),
    ensures
        0 <= decimal_value(s.take(k)) <= decimal_value(s),
    decreases s.len(),
{
    if s.len() > 0 {
        if k == s.len() {
            assert(s.take(k) =~= s);
            lemma_decimal_value_monotone(s.drop_last(), s.len() - 1);
            assert(s.drop_last().take(s.len() - 1) =~= s.drop_last());
        } else {
            assert(all_digits(s.drop_last()));
            lemma_decimal_value_monotone(s.drop_last(), k);
            assert(s.drop_last().take(k) =~= s.take(k));
            assert(is_digit(s.last()));
        }
    }
}

pub open spec fn is_sign_char(c: char) -> bool {
    c == '+' || c == '-'
}

/// The integer that `cs[lo..hi]` denotes if it is within `[-neg, pos]`.
pub(crate) fn parse_int_chars(cs: &Vec<char>, lo: usize, hi: usize, neg: u64, pos: u64) -> (r: Option<i128>)
    requires
        lo <= hi <= cs@.len(),
    ensures
        r == (match int_in_range(cs@.subrange(lo as int, hi as int), -(neg as int), pos as int) {
            Some(v) => Some(v as i128),
            None => None::<i128>,
        }),
{
    let ghost s = cs@.subrange(lo as int, hi as int);
    if lo >= hi {
        return None;
    }
    let first = cs[lo];
    let negative = first == '-';
    let start = if first == '+' || first == '-' {
        lo + 1
    } else {
        lo
    };
    if start >= hi {
        return None;
    }
    let ghost d = cs@.subrange(start as int, hi as int);
    proof {
        if start > lo {
            assert(d =~= s.skip(1));
        } else {
            assert(d =~= s);
        }
    }
    let cap: u128 = 0x1_0000_0000_0000_0000;
    let mut acc: u128 = 0;
    let mut i = start;
    while i < hi
        invariant
            start <= i <= hi <= cs@.len(),
            lo < start || lo == start,
            start < hi,
            s == cs@.subrange(lo as int, hi as int),
            s[0] == first,
            start > lo ==> start == lo + 1 && is_sign_char(first) && d == s.skip(1),
            start == lo ==> d == s && !is_sign_char(first),
            negative == (first == '-'),
            d == cs@.subrange(start as int, hi as int),
            all_digits(d.take(i - start)),
            acc as int == if decimal_value(d.take(i - start)) < cap as int {
                decimal_value(d.take(i - start))
            } else {
                cap as int
            },
            cap == 0x1_0000_0000_0000_0000u128,
        decreases hi - i,
    {
        let ch = cs[i];
        if !('0' <= ch && ch <= '9') {
            proof {
                assert(d[i - start] == ch);
                assert(!is_digit(d[i - start]));
                assert(!all_digits(d));
                if start > lo {
                    assert(!is_digit(s[0]));
                    assert(!all_digits(s));
                    assert(s.skip(1) == d);
                } else {
                    assert(s == d);
                    assert(!is_sign_char(s[0]));
                }
                assert(int_literal_value(s) is None);
            }
            return None;
        }
        let digit: u128 = ((ch as u32) - ('0' as u32)) as u128;
        proof {
            assert(d.take(i - start + 1).drop_last() =~= d.take(i - start));
            assert(d.take(i - start + 1).last() == ch);
            assert(all_digits(d.take(i - start + 1))) by {
                assert forall|k: int| 0 <= k < i - start + 1 implies is_digit(#[trigger] d.take(i - start + 1)[k]) by {
                    if k < i - start {
                        assert(d.take(i - start + 1)[k] == d.take(i - start)[k]);
                    }
                }
            }
            lemma_decimal_value_monotone(d.take(i - start), 0);
            assert(d.take(i - start).take(0) =~= Seq::<char>::empty());
        }
        if acc >= cap {
            acc = cap;
        } else {
            let next = acc * 10 + digit;
            acc = if next >= cap {
                cap
            } else {
                next
            };
        }
        i += 1;
    }
    assert(d.take(hi - start) =~= d);
    let ghost dv = decimal_value(d);
    proof {
        lemma_decimal_value_monotone(d, 0);
        assert(d.take(0) =~= Seq::<char>::empty());
        if start > lo {
            assert(!is_digit(s[0]));
            assert(!all_digits(s));
            assert(s.skip(1) == d);
            assert(s.len() > 1);
            if negative {
                assert(int_literal_value(s) == Some(-dv));
            } else {
                assert(s[0] == '+');
                assert(int_literal_value(s) == Some(dv));
            }
        } else {
            assert(s == d);
            assert(int_literal_value(s) == Some(dv));
            assert(!negative);
        }
    }
    let bound: u128 = if negative {
        neg as u128
    } else {
        pos as u128
    };
    if acc > bound {
        return None;
    }
    assert(acc == dv);
    let v: i128 = acc as i128;
    if negative {
        Some(-v)
    } else {
        Some(v)
    }
}

/// The answer a token gives to a yes/no question: `TRUE`, `YES`, `Y`, `1`
/// (any letter case) give 1; `FALSE`, `NO`, `N`, `0` give 0; `N/A` gives the
/// not-applicable answer; in single-line mode so does a line end or a
/// semicolon. Anything else is the error text.
pub open spec fn bool_answer(t: TokenView, single_line: bool, nav: i32) -> Result<i32, Seq<char>> {
    match t {
        TokenView::Word(w) => {
            let u = upper(w);
            if u == "TRUE"@ || u == "YES"@ || u == "Y"@ || u == "1"@ {
                Ok(1)
            } else if u == "FALSE"@ || u == "NO"@ || u == "N"@ || u == "0"@ {
                Ok(0)
            } else if u == "N/A"@ {
                Ok(nav)
            } else {
                Err(w)
            }
        },
        _ => if single_line {
            Ok(nav)
        } else {
            Err(token_text(t))
        },
    }
}

/// ASCII upper-casing.
pub open spec fn ascii_upper(c: char) -> char {
    if 'a' <= c && c <= 'z' {
        ((c as u32) - 32) as char
    } else {
        c
    }
}

pub open spec fn upper(s: Seq<char>) -> Seq<char> {
    s.map_values(|c: char| ascii_upper(c))
}

fn char_to_ascii_upper(c: char) -> (r: char)
    ensures
        r == ascii_upper(c),
{
    if 'a' <= c && c <= 'z' {
        let code: u8 = c as u8;
        (code - 32) as char
    } else {
        c
    }
}

/// The ASCII upper-cased copy of a text.
fn to_ascii_upper(s: &str) -> (r: String)
    ensures
        r@ == upper(s@),
{
    let cs = chars_of(s);
    let mut r = String::new();
    let mut i: usize = 0;
    while i < cs.len()
        invariant
            i <= cs@.len(),
            cs@ == s@,
            r@ == upper(s@.take(i as int)),
        decreases cs@.len() - i,
    {
        push_char(&mut r, char_to_ascii_upper(cs[i]));
        assert(upper(s@.take(i + 1)) =~= upper(s@.take(i as int)).push(ascii_upper(s@[i as int])));
        i += 1;
    }
    assert(s@.take(i as int) =~= s@);
    r
}

/// Reading a yes/no answer.
pub open spec fn read_bool_spec(c: CursorState) -> (Result<i32, DslErrorView>, CursorState) {
    let (t, c1) = advance(c, true);
    let r = match t {
        None => Err(DslErrorView::UnexpectedEof("bool"@)),
        Some(tok) => match bool_answer(tok, false, c.nav) {
            Ok(v) => Ok(v),
            Err(m) => Err(DslErrorView::InvalidBool(m)),
        },
    };
    (r, c1)
}

/// The no-words of a yes/no answer, upper-cased: `FALSE`, `NO`, `N`, `0`.
pub open spec fn no_word(u: Seq<char>) -> bool {
    u == seq!['F', 'A', 'L', 'S', 'E'] || u == seq!['N', 'O'] || u == seq!['N'] || u == seq!['0']
}

/// The yes-words of a yes/no answer, upper-cased: `TRUE`, `YES`, `Y`, `1`.
pub open spec fn yes_word(u: Seq<char>) -> bool {
    u == seq!['T', 'R', 'U', 'E'] || u == seq!['Y', 'E', 'S'] || u == seq!['Y'] || u == seq!['1']
}

/// A yes/no answer reads by a fixed table, in any letter case: each of
/// `FALSE`, `NO`, `N`, `0` as 0 and each of `TRUE`, `YES`, `Y`, `1` as 1,
/// whether the answer is read on its own line or anywhere.
pub proof fn lemma_yes_no_table(w: Seq<char>, single_line: bool, nav: i32)
    ensures
        no_word(upper(w)) ==> bool_answer(TokenView::Word(w), single_line, nav) == Ok::<i32, Seq<char>>(0),
        yes_word(upper(w)) ==> bool_answer(TokenView::Word(w), single_line, nav) == Ok::<i32, Seq<char>>(1),
        upper(w) == seq!['N', '/', 'A'] ==> bool_answer(TokenView::Word(w), single_line, nav) == Ok::<i32, Seq<char>>(nav),
        !no_word(upper(w)) && !yes_word(upper(w)) && upper(w) != seq!['N', '/', 'A'] ==> bool_answer(
            TokenView::Word(w),
            single_line,
            nav,
        ) == Err::<i32, Seq<char>>(w),
{
    reveal_strlit("N/A");
    assert("N/A"@ =~= seq!['N', '/', 'A']);
    reveal_strlit("TRUE");
    reveal_strlit("YES");
    reveal_strlit("Y");
    reveal_strlit("1");
    reveal_strlit("FALSE");
    reveal_strlit("NO");
    reveal_strlit("N");
    reveal_strlit("0");
    assert("TRUE"@ =~= seq!['T', 'R', 'U', 'E']);
    assert("YES"@ =~= seq!['Y', 'E', 'S']);
    assert("Y"@ =~= seq!['Y']);
    assert("1"@ =~= seq!['1']);
    assert("FALSE"@ =~= seq!['F', 'A', 'L', 'S', 'E']);
    assert("NO"@ =~= seq!['N', 'O']);
    assert("N"@ =~= seq!['N']);
    assert("0"@ =~= seq!['0']);
    let u = upper(w);
    if no_word(u) {
        assert(u.len() > 0 && (u[0] == 'F' || u[0] == 'N' || u[0] == '0'));
        if yes_word(u) {
            assert(u[0] == 'T' || u[0] == 'Y' || u[0] == '1');
        }
    }
    if u == seq!['N', '/', 'A'] {
        assert(u.len() == 3 && u[1] == '/');
        assert(!yes_word(u));
        assert(!no_word(u));
    }
}

/// Reading a yes/no answer whose next word is a no-word gives 0, and one
/// whose next word is a yes-word gives 1.
pub proof fn lemma_read_yes_no(c: CursorState, w: Seq<char>)
    requires
        advance(c, true).0 == Some(TokenView::Word(w)),
    ensures
        no_word(upper(w)) ==> read_bool_spec(c).0 == Ok::<i32, DslErrorView>(0),
        yes_word(upper(w)) ==> read_bool_spec(c).0 == Ok::<i32, DslErrorView>(1),
{
    lemma_yes_no_table(w, false, c.nav);
}

/// The same on the answer's own line.
pub proof fn lemma_read_yes_no_single_line(c: CursorState, w: Seq<char>)
    requires
        0 <= skip_from(c.toks, c.pos, false).0 < c.toks.len(),
        c.toks[skip_from(c.toks, c.pos, false).0] == TokenView::Word(w),
    ensures
        no_word(upper(w)) ==> read_bool_single_line_spec(c).0 == Ok::<i32, DslErrorView>(0),
        yes_word(upper(w)) ==> read_bool_single_line_spec(c).0 == Ok::<i32, DslErrorView>(1),
{
    lemma_yes_no_table(w, true, c.nav);
}

/// Reading a yes/no answer that may be left out at the end of its line.
pub open spec fn read_bool_single_line_spec(c: CursorState) -> (Result<i32, DslErrorView>, CursorState) {
    let (p, seen) = skip_from(c.toks, c.pos, false);
    let round = c.round || seen;
    if 0 <= p < c.toks.len() {
        let r = match bool_answer(c.toks[p], true, c.nav) {
            Ok(v) => Ok(v),
            Err(m) => Err(DslErrorView::InvalidBool(m)),
        };
        (r, CursorState { pos: p + 1, round, ..c })
    } else {
        (Ok(c.nav), CursorState { pos: p, round, ..c })
    }
}

/// The words joined with single spaces.
pub open spec fn join_words(parts: Seq<Seq<char>>) -> Seq<char>
    decreases parts.len(),
{
    if parts.len() == 0 {
        Seq::empty()
    } else if parts.len() == 1 {
        parts[0]
    } else {
        join_words(parts.drop_last()) + " "@ + parts.last()
    }
}

/// Reading a number: the literal, which must read as a float.
pub open spec fn read_float_spec(c: CursorState) -> (Result<Seq<char>, DslErrorView>, CursorState) {
    let (t, c1) = advance(c, true);
    let r = match t {
        None => Err(DslErrorView::UnexpectedEof("float"@)),
        Some(TokenView::Word(w)) => if is_float_literal(w) {
            Ok(w)
        } else {
            Err(DslErrorView::InvalidFloat(w))
        },
        Some(tok) => Err(DslErrorView::InvalidFloat(token_text(tok))),
    };
    (r, c1)
}

/// Reading numbers up to a semicolon, line breaks passed over: each literal
/// with whether rounding to whole dollars was on when it was read.
pub open spec fn float_list_spec(c: CursorState) -> (Result<Seq<(Seq<char>, bool)>, DslErrorView>, CursorState)
    decreases c.toks.len() - c.pos,
{
    let (t, c1) = advance(c, true);
    match t {
        None => (Err(DslErrorView::UnexpectedEof("float-list"@)), c1),
        Some(TokenView::Semicolon) => (Ok(Seq::empty()), c1),
        Some(tok) => if c1.pos <= c.pos {
            (Err(DslErrorView::UnexpectedEof("float-list"@)), c1)
        } else {
            match tok {
                TokenView::Word(w) => if is_float_literal(w) {
                    let (r, c2) = float_list_spec(c1);
                    (
                        match r {
                            Ok(rest) => Ok(seq![(w, c1.round)] + rest),
                            Err(e) => Err(e),
                        },
                        c2,
                    )
                } else {
                    (Err(DslErrorView::InvalidFloat(w)), c1)
                },
                _ => float_list_spec(c1),
            }
        },
    }
}

/// Reading words up to a semicolon, line breaks passed over.
pub open spec fn word_list_spec(c: CursorState) -> (Result<Seq<Seq<char>>, DslErrorView>, CursorState)
    decreases c.toks.len() - c.pos,
{
    let (t, c1) = advance(c, true);
    match t {
        None => (Err(DslErrorView::UnexpectedEof("string-list"@)), c1),
        Some(TokenView::Semicolon) => (Ok(Seq::empty()), c1),
        Some(tok) => if c1.pos <= c.pos {
            (Err(DslErrorView::UnexpectedEof("string-list"@)), c1)
        } else {
            match tok {
                TokenView::Word(w) => {
                    let (r, c2) = word_list_spec(c1);
                    (
                        match r {
                            Ok(rest) => Ok(seq![w] + rest),
                            Err(e) => Err(e),
                        },
                        c2,
                    )
                },
                _ => word_list_spec(c1),
            }
        },
    }
}

/// Reading a text up to a semicolon: its words joined with spaces.
pub open spec fn read_string_spec(c: CursorState) -> (Result<Seq<char>, DslErrorView>, CursorState) {
    let (r, c1) = word_list_spec(c);
    (
        match r {
            Ok(ws) => Ok(join_words(ws)),
            Err(e) => Err(e),
        },
        c1,
    )
}

/// The tokens from `i` to the end of the line (the line break is passed),
/// a semicolon shown as `;`; and the position after them.
pub open spec fn line_parts(toks: Seq<TokenView>, i: int) -> (Seq<Seq<char>>, int)
    decreases toks.len() - i,
{
    if i < 0 || i >= toks.len() {
        (Seq::empty(), i)
    } else {
        match toks[i] {
            TokenView::Newline => (Seq::empty(), i + 1),
            TokenView::Semicolon => {
                let (r, e) = line_parts(toks, i + 1);
                (seq![";"@] + r, e)
            },
            TokenView::Word(w) => {
                let (r, e) = line_parts(toks, i + 1);
                (seq![w] + r, e)
            },
        }
    }
}

/// Reading the rest of a line as text: its tokens joined with spaces,
/// without surrounding whitespace.
pub open spec fn read_line_text_spec(c: CursorState) -> (Seq<char>, CursorState) {
    let (p, seen) = skip_from(c.toks, c.pos, false);
    let (parts, e) = line_parts(c.toks, p);
    (crate::text::trimmed(join_words(parts)), CursorState { pos: e, round: c.round || seen, ..c })
}

/// A label, then a yes/no answer.
pub open spec fn get_yes_no_spec(c: CursorState, label: Seq<char>) -> (Result<i32, DslErrorView>, CursorState) {
    let (r, c1) = expect_label_spec(c, label);
    match r {
        Err(e) => (Err(e), c1),
        Ok(_) => read_bool_spec(c1),
    }
}

/// A label, then a yes/no answer that may be left out.
pub open spec fn get_yes_no_single_line_spec(c: CursorState, label: Seq<char>) -> (Result<i32, DslErrorView>, CursorState) {
    let (r, c1) = expect_label_spec(c, label);
    match r {
        Err(e) => (Err(e), c1),
        Ok(_) => read_bool_single_line_spec(c1),
    }
}

/// A label, then the rest of its line as text.
pub open spec fn get_line_string_spec(c: CursorState, label: Seq<char>) -> (Result<Seq<char>, DslErrorView>, CursorState) {
    let (r, c1) = expect_label_spec(c, label);
    match r {
        Err(e) => (Err(e), c1),
        Ok(_) => {
            let (t, c2) = read_line_text_spec(c1);
            (Ok(t), c2)
        },
    }
}

/// Reading tokens until there are none left.
pub open spec fn drain_spec(c: CursorState) -> CursorState
    decreases c.toks.len() - c.pos,
{
    let (t, c1) = advance(c, true);
    if t is Some && c1.pos > c.pos {
        drain_spec(c1)
    } else {
        c1
    }
}

pub proof fn lemma_advance(c: CursorState, nl: bool)
    requires
        0 <= c.pos,
    ensures
        advance(c, nl).0 is Some ==> advance(c, nl).1.pos > c.pos,
        c.pos <= advance(c, nl).1.pos,
        advance(c, nl).1.toks == c.toks,
        advance(c, nl).1.nav == c.nav,
        nl && advance(c, nl).0 is Some ==> !(advance(c, nl).0->0 is Newline),
{
    lemma_skip_from(c.toks, c.pos, nl);
}

/// Reading tokens until there are none left ends at the end of the
/// tokens: nothing is left unread.
pub proof fn lemma_drain_reaches_end(c: CursorState)
    requires
        0 <= c.pos <= c.toks.len(),
    ensures
        drain_spec(c).pos == c.toks.len(),
        drain_spec(c).toks == c.toks,
    decreases c.toks.len() - c.pos,
{
    lemma_advance(c, true);
    lemma_skip_from(c.toks, c.pos, true);
    let (t, c1) = advance(c, true);
    if t is Some && c1.pos > c.pos {
        lemma_drain_reaches_end(c1);
    }
}

/// Joins words with single spaces.
fn join_with_spaces(parts: &Vec<String>) -> (r: String)
    ensures
        r@ == join_words(crate::text::string_views(parts@)),
{
    let ghost ps = crate::text::string_views(parts@);
    let mut r = String::new();
    let mut i: usize = 0;
    while i < parts.len()
        invariant
            i <= parts@.len(),
            ps == crate::text::string_views(parts@),
            r@ == join_words(ps.take(i as int)),
        decreases parts@.len() - i,
    {
        assert(ps.take(i + 1).drop_last() =~= ps.take(i as int));
        assert(ps.take(i + 1).last() == parts@[i as int]@);
        if i > 0 {
            crate::text::append_str(&mut r, " ");
        }
        crate::text::append_str(&mut r, parts[i].as_str());
        proof {
            if i == 0 {
                assert(r@ =~= ps.take(1)[0]);
            } else {
                assert(r@ =~= join_words(ps.take(i as int)) + " "@ + parts@[i as int]@);
            }
        }
        i += 1;
    }
    assert(ps.take(i as int) =~= ps);
    r
}

/// The text without its commas.
pub open spec fn remove_commas(s: Seq<char>) -> Seq<char> {
    s.filter(|c: char| c != ',')
}

pub open spec fn is_ascii_alpha(c: char) -> bool {
    ('a' <= c && c <= 'z') || ('A' <= c && c <= 'Z')
}

/// A word that starts a new statement when it begins a line: not empty and
/// not `~`; one that ends with `:` or holds `_` or `?`; otherwise one that
/// is not a number (commas aside) and starts with an ASCII letter.
pub open spec fn label_like(w: Seq<char>) -> bool {
    if w.len() == 0 || w == "~"@ {
        false
    } else if w.last() == ':' || w.contains('_') || w.contains('?') {
        true
    } else if is_float_literal(remove_commas(w)) {
        false
    } else {
        is_ascii_alpha(w[0])
    }
}

/// One statement of a form file.
pub struct Statement {
    pub label: Seq<char>,
    pub raw: Seq<Seq<char>>,
    pub terminated: bool,
}

/// Reading the label of the next statement: the next word, semicolons passed
/// over.
pub open spec fn label_from(c: CursorState) -> (Option<Seq<char>>, CursorState)
    decreases c.toks.len() - c.pos,
{
    let (t, c1) = advance(c, true);
    match t {
        None => (None, c1),
        Some(TokenView::Word(w)) => (Some(w), c1),
        Some(_) => if c1.pos > c.pos {
            label_from(c1)
        } else {
            (None, c1)
        },
    }
}

/// The first position at or after `i` that is not a line break.
pub open spec fn skip_newlines(toks: Seq<TokenView>, i: int) -> int
    decreases toks.len() - i,
{
    if 0 <= i < toks.len() && toks[i] is Newline {
        skip_newlines(toks, i + 1)
    } else {
        i
    }
}

pub proof fn lemma_skip_newlines(toks: Seq<TokenView>, i: int)
    requires
        0 <= i,
    ensures
        i <= skip_newlines(toks, i),
        i <= toks.len() ==> skip_newlines(toks, i) <= toks.len(),
        skip_newlines(toks, i) < toks.len() ==> !(toks[skip_newlines(toks, i)] is Newline),
    decreases toks.len() - i,
{
    if 0 <= i < toks.len() && toks[i] is Newline {
        lemma_skip_newlines(toks, i + 1);
    }
}

/// The words of a statement from position `i`: up to a semicolon (which
/// ends it and is consumed), or up to a line that starts with a label-like
/// word, or the end; whether a semicolon ended it; and the position after.
pub open spec fn statement_body(toks: Seq<TokenView>, i: int) -> (Seq<Seq<char>>, bool, int)
    decreases toks.len() - i,
{
    if i < 0 || i >= toks.len() {
        (Seq::empty(), false, i)
    } else {
        match toks[i] {
            TokenView::Semicolon => (Seq::empty(), true, i + 1),
            TokenView::Word(w) => {
                let (r, t, e) = statement_body(toks, i + 1);
                (seq![w] + r, t, e)
            },
            TokenView::Newline => {
                let m = skip_newlines(toks, i + 1);
                proof {
                    lemma_skip_newlines(toks, i + 1);
                }
                if m >= toks.len() {
                    (Seq::empty(), false, m)
                } else if toks[m] is Word && label_like(toks[m]->Word_0) {
                    (Seq::empty(), false, m)
                } else {
                    statement_body(toks, m)
                }
            },
        }
    }
}

/// Reading the next statement, if there is one.
pub open spec fn read_statement_spec(c: CursorState) -> (Option<Statement>, CursorState) {
    let (p, seen) = skip_from(c.toks, c.pos, true);
    let c0 = CursorState { pos: p, round: c.round || seen, ..c };
    let (l, c1) = label_from(c0);
    match l {
        None => (None, c1),
        Some(label) => {
            let (raw, terminated, e) = statement_body(c.toks, c1.pos);
            (Some(Statement { label, raw, terminated }), CursorState { pos: e, ..c1 })
        },
    }
}

/// Reading statements until there are none left.
pub open spec fn statements_spec(c: CursorState) -> (Seq<Statement>, CursorState)
    decreases c.toks.len() - c.pos,
{
    let (st, c1) = read_statement_spec(c);
    match st {
        None => (Seq::empty(), c1),
        Some(x) => if c.pos < c1.pos <= c.toks.len() && c1.toks == c.toks {
            let (rest, c2) = statements_spec(c1);
            (seq![x] + rest, c2)
        } else {
            (seq![x], c1)
        },
    }
}

/// What a single word of a statement stands for.
pub enum Atom {
    Null,
    Bool(bool),
    Integer(int),
    Number(Seq<char>),
    Text(Seq<char>),
}

/// `~` and `N/A` are nothing; the yes and no words (any letter case) are
/// booleans; then, commas aside, a 64-bit integer, else a float literal
/// (kept without its commas); anything else is text.
pub open spec fn atom_of(t: Seq<char>) -> Atom {
    let u = upper(t);
    let n = remove_commas(t);
    if t == "~"@ {
        Atom::Null
    } else if u == "TRUE"@ || u == "YES"@ || u == "Y"@ || u == "1"@ {
        Atom::Bool(true)
    } else if u == "FALSE"@ || u == "NO"@ || u == "N"@ || u == "0"@ {
        Atom::Bool(false)
    } else if u == "N/A"@ {
        Atom::Null
    } else {
        match int_in_range(n, i64::MIN as int, i64::MAX as int) {
            Some(v) => Atom::Integer(v),
            None => if is_float_literal(n) {
                Atom::Number(n)
            } else {
                Atom::Text(t)
            },
        }
    }
}

pub open spec fn value_is_atom(v: FieldValue, a: Atom) -> bool {
    match a {
        Atom::Null => v is Null,
        Atom::Bool(b) => v == FieldValue::Bool(b),
        Atom::Integer(i) => v matches FieldValue::Integer(x) && x == i,
        Atom::Number(n) => v matches FieldValue::Number(x) && x@ == n,
        Atom::Text(t) => v matches FieldValue::Text(x) && x@ == t,
    }
}

/// The value of a statement's words: nothing for none, the atom of a single
/// word, else the list of the atoms.
pub open spec fn value_of_words(v: FieldValue, words: Seq<Seq<char>>) -> bool {
    if words.len() == 0 {
        v is Null
    } else if words.len() == 1 {
        value_is_atom(v, atom_of(words[0]))
    } else {
        v matches FieldValue::List(items) && items@.len() == words.len() && forall|i: int|
            0 <= i < words.len() ==> value_is_atom(#[trigger] items@[i], atom_of(words[i]))
    }
}

/// An entry records a statement.
pub open spec fn records(f: FormField, st: Statement) -> bool {
    &&& f.label@ == st.label
    &&& crate::text::string_views(f.raw_tokens@) == st.raw
    &&& f.terminated_by_semicolon == st.terminated
    &&& value_of_words(f.value, st.raw)
}

/// The entries record the statements, one for one and in order.
pub open spec fn records_all(entries: Seq<FormField>, sts: Seq<Statement>) -> bool {
    entries.len() == sts.len() && forall|i: int| 0 <= i < sts.len() ==> records(#[trigger] entries[i], sts[i])
}

/// The text without its commas.
pub(crate) fn without_commas(s: &str) -> (r: String)
    ensures
        r@ == remove_commas(s@),
{
    let cs = chars_of(s);
    let mut r = String::new();
    let mut i: usize = 0;
    while i < cs.len()
        invariant
            i <= cs@.len(),
            cs@ == s@,
            r@ == remove_commas(s@.take(i as int)),
        decreases cs@.len() - i,
    {
        proof {
            assert(s@.take(i + 1) =~= s@.take(i as int).push(s@[i as int]));
            s@.take(i as int).lemma_filter_push(s@[i as int], |c: char| c != ',');
        }
        if cs[i] != ',' {
            push_char(&mut r, cs[i]);
        }
        i += 1;
    }
    assert(s@.take(i as int) =~= s@);
    r
}

fn is_newline_token(t: &Token) -> (r: bool)
    ensures
        r == (t@ is Newline),
{
    match t {
        Token::Newline => true,
        _ => false,
    }
}

/// Whether the text holds the character.
fn has_char(cs: &Vec<char>, c: char) -> (r: bool)
    ensures
        r == cs@.contains(c),
{
    let mut i: usize = 0;
    while i < cs.len()
        invariant
            i <= cs@.len(),
            forall|k: int| 0 <= k < i ==> cs@[k] != c,
        decreases cs@.len() - i,
    {
        if cs[i] == c {
            return true;
        }
        i += 1;
    }
    false
}

/// Whether a word starts a new statement when it begins a line.
pub fn is_label_like(word: &str) -> (r: bool)
    ensures
        r == label_like(word@),
{
    let cs = chars_of(word);
    let n = cs.len();
    if n == 0 {
        return false;
    }
    if n == 1 && cs[0] == '~' {
        assert(word@ =~= "~"@) by {
            reveal_strlit("~");
        }
        return false;
    }
    proof {
        reveal_strlit("~");
        if word@ == "~"@ {
            assert(word@.len() == 1 && word@[0] == '~');
        }
    }
    if cs[n - 1] == ':' || has_char(&cs, '_') || has_char(&cs, '?') {
        return true;
    }
    let normalized = without_commas(word);
    if looks_like_number(normalized.as_str()) {
        return false;
    }
    ('a' <= cs[0] && cs[0] <= 'z') || ('A' <= cs[0] && cs[0] <= 'Z')
}

/// What a single word of a statement stands for.
fn parse_atom(token: &str) -> (r: FieldValue)
    ensures
        value_is_atom(r, atom_of(token@)),
{
    proof {
        reveal_strlit("~");
    }
    let cs = chars_of(token);
    if cs.len() == 1 && cs[0] == '~' {
        assert(token@ =~= "~"@);
        return FieldValue::Null;
    }
    assert(token@ != "~"@) by {
        if token@ == "~"@ {
            assert(token@.len() == 1 && token@[0] == '~');
        }
    }
    let upper_s = to_ascii_upper(token);
    let u = upper_s.as_str();
    if str_eq(u, "TRUE") || str_eq(u, "YES") || str_eq(u, "Y") || str_eq(u, "1") {
        return FieldValue::Bool(true);
    }
    if str_eq(u, "FALSE") || str_eq(u, "NO") || str_eq(u, "N") || str_eq(u, "0") {
        return FieldValue::Bool(false);
    }
    if str_eq(u, "N/A") {
        return FieldValue::Null;
    }
    let normalized = without_commas(token);
    let ncs = chars_of(normalized.as_str());
    let nn = ncs.len();
    assert(ncs@.subrange(0, nn as int) =~= normalized@);
    match parse_int_chars(&ncs, 0, nn, 0x8000_0000_0000_0000, 0x7fff_ffff_ffff_ffff) {
        Some(v) => {
            return FieldValue::Integer(v as i64);
        },
        None => {},
    }
    if looks_like_number(normalized.as_str()) {
        return FieldValue::Number(normalized);
    }
    FieldValue::Text(owned(token))
}

/// The value of a statement's words.
fn tokens_to_value(tokens: &Vec<String>) -> (r: FieldValue)
    ensures
        value_of_words(r, crate::text::string_views(tokens@)),
{
    let ghost w = crate::text::string_views(tokens@);
    if tokens.len() == 0 {
        return FieldValue::Null;
    }
    if tokens.len() == 1 {
        return parse_atom(tokens[0].as_str());
    }
    let mut items: Vec<FieldValue> = Vec::new();
    let mut i: usize = 0;
    while i < tokens.len()
        invariant
            i <= tokens@.len(),
            w == crate::text::string_views(tokens@),
            items@.len() == i,
            forall|k: int| 0 <= k < i ==> value_is_atom(#[trigger] items@[k], atom_of(w[k])),
        decreases tokens@.len() - i,
    {
        let a = parse_atom(tokens[i].as_str());
        items.push(a);
        i += 1;
    }
    FieldValue::List(items)
}

/// The first entry whose label, normalized, mentions rounding to whole
/// dollars.
pub open spec fn first_round_entry(entries: Seq<FormField>) -> Option<int> {
    if exists|i: int| 0 <= i < entries.len() && crate::form::contains_text(
        crate::text::normalized(#[trigger] entries[i].label@),
        "roundtowholedollars"@,
    ) {
        Some(choose|i: int|
            0 <= i < entries.len() && crate::form::contains_text(
                crate::text::normalized(#[trigger] entries[i].label@),
                "roundtowholedollars"@,
            ) && forall|j: int|
                0 <= j < i ==> !crate::form::contains_text(
                    crate::text::normalized(entries[j].label@),
                    "roundtowholedollars"@,
                ))
    } else {
        None
    }
}

/// Whether a form asks for amounts rounded to whole dollars: the answer of
/// the first entry whose label mentions it, else no.
pub fn detect_round_to_whole_dollars(state: &FormState) -> (r: bool)
    ensures
        r == match first_round_entry(state.entry_seq()) {
            Some(i) => crate::form::value_truth(state.entry_seq()[i].value),
            None => false,
        },
{
    let entries = state.entries();
    let mut i: usize = 0;
    while i < entries.len()
        invariant
            i <= entries@.len(),
            entries@ == state.entry_seq(),
            forall|j: int|
                0 <= j < i ==> !crate::form::contains_text(
                    crate::text::normalized(#[trigger] entries@[j].label@),
                    "roundtowholedollars"@,
                ),
        decreases entries@.len() - i,
    {
        let label = crate::text::normalize_name(entries[i].label.as_str());
        if crate::form::contains_str(label.as_str(), "roundtowholedollars") {
            proof {
                let es = entries@;
                let k = choose|k: int|
                    0 <= k < es.len() && crate::form::contains_text(
                        crate::text::normalized(#[trigger] es[k].label@),
                        "roundtowholedollars"@,
                    ) && forall|j: int|
                        0 <= j < k ==> !crate::form::contains_text(
                            crate::text::normalized(es[j].label@),
                            "roundtowholedollars"@,
                        );
                if k < i {
                } else if k > i {
                }
            }
            return crate::form::field_value_to_bool(&entries[i].value);
        }
        i += 1;
    }
    false
}

/// A cursor over the tokens of a form file.
pub struct DslCursor {
    tokens: Vec<Token>,
    idx: usize,
    pub round_to_whole_dollars: bool,
    pub not_app_value: i32,
}

impl DslCursor {
    pub closed spec fn token_seq(&self) -> Seq<TokenView> {
        token_views(self.tokens@)
    }

    pub closed spec fn position(&self) -> int {
        self.idx as int
    }

    /// The cursor as a mathematical value.
    pub closed spec fn model(&self) -> CursorState {
        CursorState {
            toks: self.token_seq(),
            pos: self.position(),
            round: self.round_to_whole_dollars,
            nav: self.not_app_value,
        }
    }

    /// A cursor at the start of a form file's tokens.
    pub fn new(input: &str) -> (r: Result<Self, DslError>)
        ensures
            match r {
                Ok(c) => lex(input@) == Ok::<Seq<TokenView>, Seq<char>>(c.model().toks) && c.model().pos == 0
                    && !c.model().round && c.model().nav == 0,
                Err(e) => exists|m: Seq<char>|
                    lex(input@) == Err::<Seq<TokenView>, Seq<char>>(m) && e@ == DslErrorView::Lex(m),
            },
    {
        match lex_form_file(input) {
            Ok(tokens) => Ok(DslCursor { tokens, idx: 0, round_to_whole_dollars: false, not_app_value: 0 }),
            Err(m) => Err(DslError::Lex(m)),
        }
    }

    /// Sets the answer that stands for "not applicable".
    pub fn set_not_app_value(&mut self, value: i32)
        ensures
            final(self).model() == (CursorState { nav: value, ..old(self).model() }),
    {
        self.not_app_value = value;
    }

    /// Skips a rounding pragma at the cursor, with the word after it.
    fn maybe_consume_pragma(&mut self) -> (r: bool)
        ensures
            final(self).token_seq() == old(self).token_seq(),
            final(self).not_app_value == old(self).not_app_value,
            r == (0 <= old(self).position() < old(self).token_seq().len() && is_pragma(
                old(self).token_seq()[old(self).position()],
            )),
            r ==> final(self).round_to_whole_dollars,
            !r ==> *final(self) == *old(self),
            r ==> final(self).position() == (if old(self).position() + 1 < old(self).token_seq().len()
                && old(self).token_seq()[old(self).position() + 1] is Word {
                old(self).position() + 2
            } else {
                old(self).position() + 1
            }),
    {
        let n = self.tokens.len();
        if self.idx < n {
            let pragma = match &self.tokens[self.idx] {
                Token::Word(w) => str_eq(w.as_str(), "Round_to_Whole_Dollars"),
                _ => false,
            };
            proof {
                let t = self.tokens@[self.idx as int];
                assert(self.token_seq()[self.idx as int] == t@);
                if let Token::Word(w) = t {
                    if is_pragma(t@) {
                        assert(w@ == "Round_to_Whole_Dollars"@);
                    }
                }
            }
            if pragma {
                self.round_to_whole_dollars = true;
                self.idx = self.idx + 1;
                if self.idx < n {
                    let next_is_word = match &self.tokens[self.idx] {
                        Token::Word(_) => true,
                        _ => false,
                    };
                    assert(next_is_word == (self.token_seq()[self.idx as int] is Word));
                    if next_is_word {
                        self.idx = self.idx + 1;
                    }
                }
                return true;
            }
        }
        false
    }

    /// Skips rounding pragmas and, when `include_newlines`, line breaks.
    fn skip_irrelevant(&mut self, include_newlines: bool)
        ensures
            final(self).token_seq() == old(self).token_seq(),
            final(self).not_app_value == old(self).not_app_value,
            final(self).position() == skip_from(old(self).token_seq(), old(self).position(), include_newlines).0,
            final(self).round_to_whole_dollars == (old(self).round_to_whole_dollars || skip_from(
                old(self).token_seq(),
                old(self).position(),
                include_newlines,
            ).1),
    {
        let ghost toks = self.token_seq();
        let ghost p0 = self.position();
        let ghost r0 = self.round_to_whole_dollars;
        loop
            invariant
                self.token_seq() == toks,
                self.not_app_value == old(self).not_app_value,
                skip_from(toks, p0, include_newlines).0 == skip_from(toks, self.position(), include_newlines).0,
                (r0 || skip_from(toks, p0, include_newlines).1) == (self.round_to_whole_dollars || skip_from(
                    toks,
                    self.position(),
                    include_newlines,
                ).1),
            ensures
                skip_from(toks, self.position(), include_newlines) == (self.position(), false),
            decreases toks.len() - self.position(),
        {
            let ghost p = self.position();
            if self.maybe_consume_pragma() {
                continue;
            }
            assert(!(0 <= p < toks.len() && is_pragma(toks[p])));
            if include_newlines && self.idx < self.tokens.len() {
                let is_newline = match &self.tokens[self.idx] {
                    Token::Newline => true,
                    _ => false,
                };
                assert(is_newline == (toks[p] is Newline));
                if is_newline {
                    self.idx = self.idx + 1;
                    continue;
                }
            }
            break;
        }
    }

    /// The next token after skipping, if any.
    fn next_token(&mut self, include_newlines: bool) -> (r: Option<Token>)
        ensures
            (match r {
                Some(t) => Some(t@),
                None => None::<TokenView>,
            }, final(self).model()) == advance(old(self).model(), include_newlines),
    {
        self.skip_irrelevant(include_newlines);
        if self.idx < self.tokens.len() {
            let t = copy_token(&self.tokens[self.idx]);
            assert(t@ == self.token_seq()[self.idx as int]);
            self.idx = self.idx + 1;
            Some(t)
        } else {
            None
        }
    }

    /// Reads a label that must be `expected`.
    pub fn expect_label(&mut self, expected: &str) -> (r: Result<(), DslError>)
        ensures
            (result_view(r), final(self).model()) == expect_label_spec(old(self).model(), expected@),
    {
        let tok = match self.next_token(true) {
            Some(t) => t,
            None => {
                proof {
                    reveal_strlit("label");
                }
                return Err(DslError::UnexpectedEof("label"));
            },
        };
        match tok {
            Token::Word(found) => {
                if str_eq(found.as_str(), expected) {
                    Ok(())
                } else {
                    Err(DslError::UnexpectedLabel { expected: owned(expected), found })
                }
            },
            Token::Semicolon => Err(DslError::UnexpectedLabel { expected: owned(expected), found: owned(";") }),
            Token::Newline => Err(
                DslError::UnexpectedLabel { expected: owned(expected), found: owned("<newline>") },
            ),
        }
    }

    /// Reads an integer.
    pub fn read_int(&mut self) -> (r: Result<i32, DslError>)
        ensures
            (result_view(r), final(self).model()) == read_int_spec(old(self).model()),
    {
        let tok = match self.next_token(true) {
            Some(t) => t,
            None => {
                proof {
                    reveal_strlit("int");
                }
                return Err(DslError::UnexpectedEof("int"));
            },
        };
        let s = match tok {
            Token::Word(v) => v,
            Token::Semicolon => return Err(DslError::InvalidInt(owned(";"))),
            Token::Newline => return Err(DslError::InvalidInt(owned("<newline>"))),
        };
        let cs = chars_of(s.as_str());
        let n = cs.len();
        assert(cs@.subrange(0, n as int) =~= s@);
        match parse_int_chars(&cs, 0, n, 0x8000_0000, 0x7fff_ffff) {
            Some(v) => Ok(v as i32),
            None => Err(DslError::InvalidInt(s)),
        }
    }

    /// Reads a yes/no answer: 1, 0, or the not-applicable answer.
    pub fn read_bool(&mut self) -> (r: Result<i32, DslError>)
        ensures
            (result_view(r), final(self).model()) == read_bool_spec(old(self).model()),
    {
        let tok = match self.next_token(true) {
            Some(t) => t,
            None => {
                proof {
                    reveal_strlit("bool");
                }
                return Err(DslError::UnexpectedEof("bool"));
            },
        };
        self.parse_bool_token(tok, false)
    }

    /// Reads a yes/no answer that may be left out at the end of its line, in
    /// which case the answer is the not-applicable one.
    pub fn read_bool_single_line(&mut self) -> (r: Result<i32, DslError>)
        ensures
            (result_view(r), final(self).model()) == read_bool_single_line_spec(old(self).model()),
    {
        self.skip_irrelevant(false);
        if self.idx < self.tokens.len() {
            let tok = copy_token(&self.tokens[self.idx]);
            assert(tok@ == self.token_seq()[self.idx as int]);
            self.idx = self.idx + 1;
            self.parse_bool_token(tok, true)
        } else {
            Ok(self.not_app_value)
        }
    }

    /// Reads a number; the literal is given back, and it reads as a float.
    pub fn read_float_literal(&mut self) -> (r: Result<String, DslError>)
        ensures
            (match r {
                Ok(t) => Ok(t@),
                Err(e) => Err(e@),
            }, final(self).model()) == read_float_spec(old(self).model()),
    {
        let tok = match self.next_token(true) {
            Some(t) => t,
            None => {
                proof {
                    reveal_strlit("float");
                }
                return Err(DslError::UnexpectedEof("float"));
            },
        };
        match tok {
            Token::Word(v) => {
                if looks_like_number(v.as_str()) {
                    Ok(v)
                } else {
                    Err(DslError::InvalidFloat(v))
                }
            },
            Token::Semicolon => Err(DslError::InvalidFloat(owned(";"))),
            Token::Newline => Err(DslError::InvalidFloat(owned("<newline>"))),
        }
    }

    /// Reads numbers up to a semicolon; each literal comes with whether
    /// rounding to whole dollars was on when it was read.
    pub fn read_float_literals_until_semicolon(&mut self) -> (r: Result<Vec<(String, bool)>, DslError>)
        ensures
            (match r {
                Ok(v) => Ok(v@.map_values(|p: (String, bool)| (p.0@, p.1))),
                Err(e) => Err(e@),
            }, final(self).model()) == float_list_spec(old(self).model()),
    {
        let mut out: Vec<(String, bool)> = Vec::new();
        let ghost c0 = self.model();
        loop
            invariant
                c0 == old(self).model(),
                self.model().toks == c0.toks,
                self.model().nav == c0.nav,
                0 <= self.model().pos,
                float_list_spec(c0) == (match float_list_spec(self.model()).0 {
                    Ok(rest) => Ok(out@.map_values(|p: (String, bool)| (p.0@, p.1)) + rest),
                    Err(e) => Err(e),
                }, float_list_spec(self.model()).1),
            decreases self.model().toks.len() - self.model().pos,
        {
            let ghost c = self.model();
            let ghost o0 = out@.map_values(|p: (String, bool)| (p.0@, p.1));
            proof {
                lemma_advance(c, true);
            }
            let tok = match self.next_token(true) {
                Some(t) => t,
                None => {
                    proof {
                        reveal_strlit("float-list");
                    }
                    return Err(DslError::UnexpectedEof("float-list"));
                },
            };
            match tok {
                Token::Semicolon => {
                    assert(o0 + Seq::<(Seq<char>, bool)>::empty() =~= o0);
                    return Ok(out);
                },
                Token::Newline => {},
                Token::Word(w) => {
                    if !looks_like_number(w.as_str()) {
                        return Err(DslError::InvalidFloat(w));
                    }
                    let ghost item = (w@, self.model().round);
                    out.push((w, self.round_to_whole_dollars));
                    proof {
                        assert(self.model().round == self.round_to_whole_dollars);
                        assert(out@.map_values(|p: (String, bool)| (p.0@, p.1)) =~= o0.push(item));
                        match float_list_spec(self.model()).0 {
                            Ok(rest) => {
                                assert(o0 + (seq![item] + rest) =~= o0.push(item) + rest);
                            },
                            Err(_) => {},
                        }
                    }
                },
            }
        }
    }

    /// Reads words up to a semicolon and joins them with spaces.
    pub fn read_string_until_semicolon(&mut self) -> (r: Result<String, DslError>)
        ensures
            (match r {
                Ok(t) => Ok(t@),
                Err(e) => Err(e@),
            }, final(self).model()) == read_string_spec(old(self).model()),
    {
        let mut parts: Vec<String> = Vec::new();
        let ghost c0 = self.model();
        loop
            invariant
                c0 == old(self).model(),
                self.model().toks == c0.toks,
                self.model().nav == c0.nav,
                0 <= self.model().pos,
                word_list_spec(c0) == (match word_list_spec(self.model()).0 {
                    Ok(rest) => Ok(crate::text::string_views(parts@) + rest),
                    Err(e) => Err(e),
                }, word_list_spec(self.model()).1),
            decreases self.model().toks.len() - self.model().pos,
        {
            let ghost c = self.model();
            let ghost p0 = crate::text::string_views(parts@);
            proof {
                lemma_advance(c, true);
            }
            let tok = match self.next_token(true) {
                Some(t) => t,
                None => {
                    proof {
                        reveal_strlit("string-list");
                    }
                    return Err(DslError::UnexpectedEof("string-list"));
                },
            };
            match tok {
                Token::Semicolon => {
                    assert(p0 + Seq::<Seq<char>>::empty() =~= p0);
                    return Ok(join_with_spaces(&parts));
                },
                Token::Newline => {},
                Token::Word(w) => {
                    let ghost wv = w@;
                    parts.push(w);
                    proof {
                        assert(crate::text::string_views(parts@) =~= p0.push(wv));
                        match word_list_spec(self.model()).0 {
                            Ok(rest) => {
                                assert(p0 + (seq![wv] + rest) =~= p0.push(wv) + rest);
                            },
                            Err(_) => {},
                        }
                    }
                },
            }
        }
    }

    /// Reads the rest of the line as text.
    pub fn read_line_text(&mut self) -> (r: String)
        ensures
            (r@, final(self).model()) == read_line_text_spec(old(self).model()),
    {
        self.skip_irrelevant(false);
        let ghost toks = self.token_seq();
        let ghost p = self.position();
        let mut parts: Vec<String> = Vec::new();
        while self.idx < self.tokens.len()
            invariant_except_break
                line_parts(toks, p) == (crate::text::string_views(parts@) + line_parts(toks, self.position()).0, line_parts(toks, self.position()).1),
            invariant
                self.token_seq() == toks,
                self.model().nav == old(self).model().nav,
                self.model().round == (old(self).model().round || skip_from(
                    old(self).model().toks,
                    old(self).model().pos,
                    false,
                ).1),
                0 <= p <= self.position(),
            ensures
                line_parts(toks, p) == (crate::text::string_views(parts@), self.position()),
            decreases toks.len() - self.position(),
        {
            let ghost i = self.position();
            let ghost p0 = crate::text::string_views(parts@);
            assert(toks[i] == self.tokens@[self.idx as int]@);
            let tok = copy_token(&self.tokens[self.idx]);
            self.idx = self.idx + 1;
            match tok {
                Token::Newline => {
                    assert(line_parts(toks, i) == (Seq::<Seq<char>>::empty(), i + 1));
                    assert(p0 + Seq::<Seq<char>>::empty() =~= p0);
                    break;
                },
                Token::Semicolon => {
                    parts.push(owned(";"));
                    assert(crate::text::string_views(parts@) =~= p0.push(";"@));
                    assert(p0 + (seq![";"@] + line_parts(toks, i + 1).0) =~= p0.push(";"@) + line_parts(toks, i + 1).0);
                },
                Token::Word(w) => {
                    let ghost wv = w@;
                    parts.push(w);
                    assert(crate::text::string_views(parts@) =~= p0.push(wv));
                    assert(p0 + (seq![wv] + line_parts(toks, i + 1).0) =~= p0.push(wv) + line_parts(toks, i + 1).0);
                },
            }
        }
        let joined = join_with_spaces(&parts);
        crate::text::trim(joined.as_str())
    }

    /// A label that must be `label`, then a yes/no answer.
    pub fn get_yes_no(&mut self, label: &str) -> (r: Result<i32, DslError>)
        ensures
            (result_view(r), final(self).model()) == get_yes_no_spec(old(self).model(), label@),
    {
        self.expect_label(label)?;
        self.read_bool()
    }

    /// A label that must be `label`, then a yes/no answer that may be left
    /// out.
    pub fn get_yes_no_single_line(&mut self, label: &str) -> (r: Result<i32, DslError>)
        ensures
            (result_view(r), final(self).model()) == get_yes_no_single_line_spec(old(self).model(), label@),
    {
        self.expect_label(label)?;
        self.read_bool_single_line()
    }

    /// A label that must be `label`, then the rest of its line as text.
    pub fn get_line_string(&mut self, label: &str) -> (r: Result<String, DslError>)
        ensures
            (match r {
                Ok(t) => Ok(t@),
                Err(e) => Err(e@),
            }, final(self).model()) == get_line_string_spec(old(self).model(), label@),
    {
        self.expect_label(label)?;
        Ok(self.read_line_text())
    }

    /// Reads every remaining token.
    pub fn validate_complete(&mut self)
        ensures
            final(self).model() == drain_spec(old(self).model()),
    {
        let ghost c0 = self.model();
        loop
            invariant
                c0 == old(self).model(),
                0 <= self.model().pos,
                drain_spec(c0) == drain_spec(self.model()),
            decreases self.model().toks.len() - self.model().pos,
        {
            let ghost c = self.model();
            proof {
                lemma_advance(c, true);
            }
            if self.next_token(true).is_none() {
                return;
            }
        }
    }

    /// Reads statements until there are none left.
    pub fn to_form_state(&mut self) -> (r: FormState)
        ensures
            records_all(r.entry_seq(), statements_spec(old(self).model()).0),
            final(self).model() == statements_spec(old(self).model()).1,
    {
        let mut state = FormState::new();
        let ghost c0 = self.model();
        loop
            invariant
                c0 == old(self).model(),
                0 <= self.model().pos,
                statements_spec(c0).1 == statements_spec(self.model()).1,
                records_all(state.entry_seq(), statements_spec(c0).0.take(state.entry_seq().len() as int)),
                statements_spec(c0).0 == statements_spec(c0).0.take(state.entry_seq().len() as int)
                    + statements_spec(self.model()).0,
            decreases self.model().toks.len() - self.model().pos,
        {
            let ghost c = self.model();
            let ghost n0: int = state.entry_seq().len() as int;
            match self.read_statement() {
                None => {
                    assert(statements_spec(c0).0.take(n0) + Seq::<Statement>::empty() =~= statements_spec(c0).0.take(n0));
                    return state;
                },
                Some((label, raw_tokens, terminated_by_semicolon)) => {
                    let value = tokens_to_value(&raw_tokens);
                    let ghost st = read_statement_spec(c).0->0;
                    state.push(FormField { label, value, raw_tokens, terminated_by_semicolon });
                    proof {
                        let all = statements_spec(c0).0;
                        assert(all == all.take(n0) + (seq![st] + statements_spec(self.model()).0));
                        assert(all.take(n0 + 1) =~= all.take(n0).push(st)) by {
                            assert(all.take(n0 + 1) =~= (all.take(n0) + (seq![st] + statements_spec(self.model()).0)).take(n0 + 1));
                        }
                        assert(all =~= all.take(n0 + 1) + statements_spec(self.model()).0);
                        assert forall|i: int| 0 <= i < n0 + 1 implies records(#[trigger] state.entry_seq()[i], all.take(n0 + 1)[i]) by {
                            if i < n0 {
                                assert(all.take(n0 + 1)[i] == all.take(n0)[i]);
                            }
                        }
                    }
                },
            }
        }
    }

    /// Reads a whole form file into its statements.
    pub fn parse_form_state(input: &str) -> (r: Result<FormState, DslError>)
        ensures
            match r {
                Ok(state) => exists|toks: Seq<TokenView>|
                    lex(input@) == Ok::<Seq<TokenView>, Seq<char>>(toks) && records_all(
                        state.entry_seq(),
                        statements_spec(CursorState { toks, pos: 0, round: false, nav: 0 }).0,
                    ),
                Err(e) => exists|m: Seq<char>|
                    lex(input@) == Err::<Seq<TokenView>, Seq<char>>(m) && e@ == DslErrorView::Lex(m),
            },
    {
        let mut cursor = Self::new(input)?;
        proof {
            assert(cursor.model() == (CursorState { toks: cursor.model().toks, pos: 0, round: false, nav: 0 }));
        }
        Ok(cursor.to_form_state())
    }

    /// Reads the next statement: its label, its words, and whether a
    /// semicolon ended it.
    fn read_statement(&mut self) -> (r: Option<(String, Vec<String>, bool)>)
        ensures
            match read_statement_spec(old(self).model()).0 {
                None => r is None,
                Some(st) => r matches Some(x) && x.0@ == st.label && crate::text::string_views(x.1@) == st.raw
                    && x.2 == st.terminated,
            },
            final(self).model() == read_statement_spec(old(self).model()).1,
            final(self).model().toks == old(self).model().toks,
            read_statement_spec(old(self).model()).0 is Some ==> final(self).model().pos > old(self).model().pos,
            read_statement_spec(old(self).model()).0 is Some ==> final(self).model().pos <= final(self).model().toks.len(),
            old(self).model().pos <= final(self).model().pos,
    {
        self.skip_irrelevant(true);
        proof {
            lemma_skip_from(old(self).model().toks, old(self).model().pos, true);
        }
        let ghost c0 = self.model();
        let mut found: Option<String> = None;
        loop
            invariant_except_break
                found is None,
                label_from(c0) == label_from(self.model()),
            invariant
                c0.toks == self.model().toks,
                0 <= c0.pos <= self.model().pos,
            ensures
                label_from(c0).1 == self.model(),
                found is Some ==> self.model().pos <= self.model().toks.len(),
                match label_from(c0).0 {
                    Some(w) => found matches Some(x) && x@ == w,
                    None => found is None,
                },
            decreases self.model().toks.len() - self.model().pos,
        {
            let ghost c = self.model();
            proof {
                lemma_advance(c, true);
            }
            match self.next_token(true) {
                Some(Token::Word(word)) => {
                    found = Some(word);
                    break;
                },
                Some(_) => {},
                None => {
                    break;
                },
            }
        }
        let label = match found {
            Some(l) => l,
            None => return None,
        };
        let ghost toks = self.token_seq();
        let ghost start = self.position();
        let ghost c1m = self.model();
        let mut raw_tokens: Vec<String> = Vec::new();
        let mut terminated_by_semicolon = false;
        while self.idx < self.tokens.len()
            invariant_except_break
                statement_body(toks, start) == (crate::text::string_views(raw_tokens@) + statement_body(
                    toks,
                    self.position(),
                ).0, statement_body(toks, self.position()).1, statement_body(toks, self.position()).2),
                !terminated_by_semicolon,
            invariant
                toks == self.token_seq(),
                0 <= start <= self.position() <= toks.len(),
                self.model() == (CursorState { pos: self.model().pos, ..c1m }),
            ensures
                statement_body(toks, start) == (crate::text::string_views(raw_tokens@), terminated_by_semicolon, self.position()),
            decreases toks.len() - self.position(),
        {
            let ghost i = self.position();
            let ghost r0 = crate::text::string_views(raw_tokens@);
            assert(toks[i] == self.tokens@[self.idx as int]@);
            let token = copy_token(&self.tokens[self.idx]);
            match token {
                Token::Semicolon => {
                    self.idx = self.idx + 1;
                    terminated_by_semicolon = true;
                    assert(r0 + Seq::<Seq<char>>::empty() =~= r0);
                    break;
                },
                Token::Word(word) => {
                    self.idx = self.idx + 1;
                    let ghost wv = word@;
                    raw_tokens.push(word);
                    assert(crate::text::string_views(raw_tokens@) =~= r0.push(wv));
                    assert(r0 + (seq![wv] + statement_body(toks, i + 1).0) =~= r0.push(wv) + statement_body(toks, i + 1).0);
                },
                Token::Newline => {
                    self.idx = self.idx + 1;
                    while self.idx < self.tokens.len() && is_newline_token(&self.tokens[self.idx])
                        invariant
                            toks == self.token_seq(),
                            i + 1 <= self.position() <= toks.len(),
                            self.model() == (CursorState { pos: self.model().pos, ..c1m }),
                            skip_newlines(toks, i + 1) == skip_newlines(toks, self.position()),
                        decreases toks.len() - self.position(),
                    {
                        self.idx = self.idx + 1;
                    }
                    let ghost m = self.position();
                    proof {
                        lemma_skip_newlines(toks, i + 1);
                        assert(m == skip_newlines(toks, i + 1));
                    }
                    if self.idx >= self.tokens.len() {
                        assert(r0 + Seq::<Seq<char>>::empty() =~= r0);
                        break;
                    }
                    let stop = match &self.tokens[self.idx] {
                        Token::Semicolon => false,
                        Token::Word(word) => is_label_like(word.as_str()),
                        Token::Newline => false,
                    };
                    assert(toks[m] == self.tokens@[self.idx as int]@);
                    if stop {
                        assert(r0 + Seq::<Seq<char>>::empty() =~= r0);
                        break;
                    }
                },
            }
        }
        Some((label, raw_tokens, terminated_by_semicolon))
    }

    /// The answer a token gives to a yes/no question.
    fn parse_bool_token(&self, token: Token, single_line_mode: bool) -> (r: Result<i32, DslError>)
        ensures
            result_view(r) == match bool_answer(token@, single_line_mode, self.not_app_value) {
                Ok(v) => Ok(v),
                Err(m) => Err(DslErrorView::InvalidBool(m)),
            },
    {
        let s = match token {
            Token::Word(v) => v,
            Token::Semicolon => {
                if single_line_mode {
                    return Ok(self.not_app_value);
                }
                return Err(DslError::InvalidBool(owned(";")));
            },
            Token::Newline => {
                if single_line_mode {
                    return Ok(self.not_app_value);
                }
                return Err(DslError::InvalidBool(owned("<newline>")));
            },
        };
        let upper_s = to_ascii_upper(s.as_str());
        let u = upper_s.as_str();
        if str_eq(u, "TRUE") || str_eq(u, "YES") || str_eq(u, "Y") || str_eq(u, "1") {
            return Ok(1);
        }
        if str_eq(u, "FALSE") || str_eq(u, "NO") || str_eq(u, "N") || str_eq(u, "0") {
            return Ok(0);
        }
        if str_eq(u, "N/A") {
            return Ok(self.not_app_value);
        }
        Err(DslError::InvalidBool(s))
    }
}

} // verus!
