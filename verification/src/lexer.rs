//! The tokens of a form input file.
//!
//! A form file is a sequence of words, semicolons and line breaks. Blanks
//! (space, tab, carriage return) separate words; `{ ... }` is a comment, which
//! may span lines; `"..."` is a quoted word, in which `\"` stands for a
//! quote; a word that starts with `$` loses that sign.

use vstd::prelude::*;

use crate::references::string_from_range;
use crate::text::{chars_of, owned, push_char};

verus! {

/// A token of a form input file.
#[derive(Debug, Clone, PartialEq)]
pub enum Token {
    Word(String),
    Semicolon,
    Newline,
}

/// A token as a mathematical value.
pub enum TokenView {
    Word(Seq<char>),
    Semicolon,
    Newline,
}

impl View for Token {
    type V = TokenView;

    open spec fn view(&self) -> TokenView {
        match self {
            Token::Word(w) => TokenView::Word(w@),
            Token::Semicolon => TokenView::Semicolon,
            Token::Newline => TokenView::Newline,
        }
    }
}

pub open spec fn token_views(ts: Seq<Token>) -> Seq<TokenView> {
    ts.map_values(|t: Token| t@)
}

/// A copy of a token.
pub fn copy_token(t: &Token) -> (r: Token)
    ensures
        r@ == t@,
{
    match t {
        Token::Word(w) => Token::Word(w.clone()),
        Token::Semicolon => Token::Semicolon,
        Token::Newline => Token::Newline,
    }
}

/// Characters that separate words on a line.
pub open spec fn is_blank(c: char) -> bool {
    c == ' ' || c == '\t' || c == '\r'
}

/// Characters that may continue a word.
pub open spec fn is_word_char(c: char) -> bool {
    !is_blank(c) && c != '\n' && c != ';' && c != '{' && c != '"'
}

/// The first position at or after `i` that holds `c`, or the length.
pub open spec fn find_char(s: Seq<char>, i: int, c: char) -> int
    decreases s.len() - i,
{
    if i >= s.len() {
        s.len() as int
    } else if s[i] == c {
        i
    } else {
        find_char(s, i + 1, c)
    }
}

/// The end of the run of word characters that starts at `i`.
pub open spec fn word_end(s: Seq<char>, i: int) -> int
    decreases s.len() - i,
{
    if i >= s.len() || !is_word_char(s[i]) {
        i
    } else {
        word_end(s, i + 1)
    }
}

/// The position of the quote that closes a quoted word whose text starts
/// at `i` (`\"` does not close it), or the length if none does.
pub open spec fn quote_end(s: Seq<char>, i: int) -> int
    decreases s.len() - i,
{
    if i >= s.len() {
        s.len() as int
    } else if s[i] == '\\' && i + 1 < s.len() && s[i + 1] == '"' {
        quote_end(s, i + 2)
    } else if s[i] == '"' {
        i
    } else {
        quote_end(s, i + 1)
    }
}

/// The first position at or after `i` that does not hold a quote.
pub open spec fn first_non_quote(s: Seq<char>, i: int) -> int
    decreases s.len() - i,
{
    if i >= s.len() || s[i] != '"' {
        i
    } else {
        first_non_quote(s, i + 1)
    }
}

/// The end of `s.take(j)` without its trailing quotes.
pub open spec fn last_non_quote_end(s: Seq<char>, j: int) -> int
    decreases j,
{
    if j <= 0 || s[j - 1] != '"' {
        j
    } else {
        last_non_quote_end(s, j - 1)
    }
}

/// `s` without its leading and trailing quotes.
pub open spec fn trim_quotes(s: Seq<char>) -> Seq<char> {
    let a = first_non_quote(s, 0);
    if a >= s.len() {
        Seq::empty()
    } else {
        s.subrange(a, last_non_quote_end(s, s.len() as int))
    }
}

/// `s` from `i` on, with each `\"` read as a quote.
pub open spec fn unescape_from(s: Seq<char>, i: int) -> Seq<char>
    decreases s.len() - i,
{
    if i < 0 || i >= s.len() {
        Seq::empty()
    } else if s[i] == '\\' && i + 1 < s.len() && s[i + 1] == '"' {
        seq!['"'] + unescape_from(s, i + 2)
    } else {
        seq![s[i]] + unescape_from(s, i + 1)
    }
}

/// The text of a quoted word, given with its quotes.
pub open spec fn unquote(q: Seq<char>) -> Seq<char> {
    unescape_from(trim_quotes(q), 0)
}

/// A word without the `$` it may start with.
pub open spec fn strip_dollar(w: Seq<char>) -> Seq<char> {
    if w.len() > 0 && w[0] == '$' {
        w.skip(1)
    } else {
        w
    }
}

pub open spec fn prepend_token(t: TokenView, r: Result<Seq<TokenView>, Seq<char>>) -> Result<Seq<TokenView>, Seq<char>> {
    match r {
        Ok(rest) => Ok(seq![t] + rest),
        Err(m) => Err(m),
    }
}

pub open spec fn prepend_tokens(p: Seq<TokenView>, r: Result<Seq<TokenView>, Seq<char>>) -> Result<Seq<TokenView>, Seq<char>> {
    match r {
        Ok(rest) => Ok(p + rest),
        Err(m) => Err(m),
    }
}

/// The tokens of `s` from position `i` on, or the reason it cannot be read.
pub open spec fn lex_from(s: Seq<char>, i: int) -> Result<Seq<TokenView>, Seq<char>>
    decreases s.len() - i,
{
    if i < 0 || i >= s.len() {
        Ok(Seq::empty())
    } else {
        let c = s[i];
        if is_blank(c) {
            lex_from(s, i + 1)
        } else if c == '\n' {
            prepend_token(TokenView::Newline, lex_from(s, i + 1))
        } else if c == ';' {
            prepend_token(TokenView::Semicolon, lex_from(s, i + 1))
        } else if c == '{' {
            let j = find_char(s, i + 1, '}');
            proof {
                lemma_find_char(s, i + 1, '}');
            }
            if j >= s.len() {
                Err("unterminated comment"@)
            } else {
                lex_from(s, j + 1)
            }
        } else if c == '"' {
            let e = quote_end(s, i + 1);
            proof {
                lemma_quote_end(s, i + 1);
            }
            if e >= s.len() {
                Err("unterminated quoted word"@)
            } else {
                prepend_token(TokenView::Word(unquote(s.subrange(i, e + 1))), lex_from(s, e + 1))
            }
        } else {
            let j = word_end(s, i + 1);
            proof {
                lemma_word_end(s, i + 1);
            }
            prepend_token(TokenView::Word(strip_dollar(s.subrange(i, j))), lex_from(s, j))
        }
    }
}

/// The tokens of a whole form file.
pub open spec fn lex(s: Seq<char>) -> Result<Seq<TokenView>, Seq<char>> {
    lex_from(s, 0)
}

pub proof fn lemma_find_char(s: Seq<char>, i: int, c: char)
    requires
        0 <= i <= s.len(),
    ensures
        i <= find_char(s, i, c) <= s.len(),
        find_char(s, i, c) < s.len() ==> s[find_char(s, i, c)] == c,
        forall|k: int| i <= k < find_char(s, i, c) ==> s[k] != c,
    decreases s.len() - i,
{
    if i < s.len() && s[i] != c {
        lemma_find_char(s, i + 1, c);
    }
}

pub proof fn lemma_word_end(s: Seq<char>, i: int)
    requires
        0 <= i <= s.len(),
    ensures
        i <= word_end(s, i) <= s.len(),
        forall|k: int| i <= k < word_end(s, i) ==> is_word_char(#[trigger] s[k]),
        word_end(s, i) == s.len() || !is_word_char(s[word_end(s, i)]),
    decreases s.len() - i,
{
    if i < s.len() && is_word_char(s[i]) {
        lemma_word_end(s, i + 1);
    }
}

pub proof fn lemma_quote_end(s: Seq<char>, i: int)
    requires
        0 <= i <= s.len(),
    ensures
        i <= quote_end(s, i) <= s.len(),
        quote_end(s, i) < s.len() ==> s[quote_end(s, i)] == '"',
    decreases s.len() - i,
{
    if i < s.len() {
        if s[i] == '\\' && i + 1 < s.len() && s[i + 1] == '"' {
            lemma_quote_end(s, i + 2);
        } else if s[i] != '"' {
            lemma_quote_end(s, i + 1);
        }
    }
}

proof fn lemma_prepend_tokens_push(p: Seq<TokenView>, t: TokenView, r: Result<Seq<TokenView>, Seq<char>>)
    ensures
        prepend_tokens(p, prepend_token(t, r)) == prepend_tokens(p.push(t), r),
{
    match r {
        Ok(rest) => {
            assert(p + (seq![t] + rest) =~= p.push(t) + rest);
        },
        Err(_) => {},
    }
}

/// The text of a quoted word, from its characters `cs[lo..=hi]` with the
/// quotes.
fn unquote_range(cs: &Vec<char>, lo: usize, hi: usize) -> (r: String)
    requires
        lo <= hi < cs@.len(),
    ensures
        r@ == unquote(cs@.subrange(lo as int, hi + 1)),
{
    let ghost q = cs@.subrange(lo as int, hi + 1);
    let len = cs.len();
    assert(hi < len);
    let end = hi + 1;
    let mut a = lo;
    while a < end && cs[a] == '"'
        invariant
            lo <= a <= end,
            end == hi + 1,
            end <= cs@.len(),
            q == cs@.subrange(lo as int, end as int),
            first_non_quote(q, 0) == first_non_quote(q, a - lo),
        decreases end - a,
    {
        a += 1;
    }
    if a >= end {
        assert(first_non_quote(q, 0) == q.len());
        assert(trim_quotes(q) =~= Seq::<char>::empty());
        return String::new();
    }
    let mut b = end;
    while b > lo && cs[b - 1] == '"'
        invariant
            lo <= a < b <= end,
            end <= cs@.len(),
            cs@[a as int] != '"',
            q == cs@.subrange(lo as int, end as int),
            last_non_quote_end(q, q.len() as int) == last_non_quote_end(q, b - lo),
        decreases b,
    {
        b -= 1;
    }
    assert(last_non_quote_end(q, b - lo) == b - lo);
    let ghost t = q.subrange(a - lo, b - lo);
    assert(t =~= cs@.subrange(a as int, b as int));
    assert(trim_quotes(q) == t);
    let mut r = String::new();
    let mut i = a;
    while i < b
        invariant
            a <= i <= b,
            b <= cs@.len(),
            t == cs@.subrange(a as int, b as int),
            unescape_from(t, 0) == r@ + unescape_from(t, i - a),
        decreases b - i,
    {
        if cs[i] == '\\' && i + 1 < b && cs[i + 1] == '"' {
            assert(unescape_from(t, i - a) == seq!['"'] + unescape_from(t, i - a + 2));
            let ghost r0 = r@;
            push_char(&mut r, '"');
            assert(r0 + (seq!['"'] + unescape_from(t, i - a + 2)) =~= r@ + unescape_from(t, i - a + 2));
            i += 2;
        } else {
            assert(unescape_from(t, i - a) == seq![cs@[i as int]] + unescape_from(t, i - a + 1));
            let ghost r0 = r@;
            push_char(&mut r, cs[i]);
            assert(r0 + (seq![cs@[i as int]] + unescape_from(t, i - a + 1)) =~= r@ + unescape_from(t, i - a + 1));
            i += 1;
        }
    }
    assert(unescape_from(t, i - a) =~= Seq::<char>::empty());
    assert(r@ + Seq::<char>::empty() =~= r@);
    r
}

/// The tokens of a form file, or why it cannot be read.
pub fn lex_form_file(input: &str) -> (r: Result<Vec<Token>, String>)
    ensures
        match r {
            Ok(ts) => lex(input@) == Ok::<Seq<TokenView>, Seq<char>>(token_views(ts@)),
            Err(m) => lex(input@) == Err::<Seq<TokenView>, Seq<char>>(m@),
        },
{
    let cs = chars_of(input);
    let ghost s = input@;
    let n = cs.len();
    let mut idx: usize = 0;
    let mut tokens: Vec<Token> = Vec::new();
    assert(token_views(tokens@) =~= Seq::<TokenView>::empty());
    assert(prepend_tokens(Seq::empty(), lex_from(s, 0)) == lex_from(s, 0)) by {
        match lex_from(s, 0) {
            Ok(rest) => {
                assert(Seq::<TokenView>::empty() + rest =~= rest);
            },
            Err(_) => {},
        }
    }
    while idx < n
        invariant
            idx <= n,
            n == s.len(),
            cs@ == s,
            s == input@,
            lex_from(s, 0) == prepend_tokens(token_views(tokens@), lex_from(s, idx as int)),
        decreases n - idx,
    {
        let c = cs[idx];
        let ghost t0 = tokens@;
        if c == ' ' || c == '\t' || c == '\r' {
            idx += 1;
        } else if c == '\n' || c == ';' {
            let t = if c == '\n' {
                Token::Newline
            } else {
                Token::Semicolon
            };
            proof {
                lemma_prepend_tokens_push(token_views(t0), t@, lex_from(s, idx + 1));
                assert(token_views(t0.push(t)) =~= token_views(t0).push(t@));
            }
            tokens.push(t);
            idx += 1;
        } else if c == '{' {
            let mut j = idx + 1;
            while j < n && cs[j] != '}'
                invariant
                    idx < j <= n,
                    n == s.len(),
                    cs@ == s,
                    find_char(s, idx + 1, '}') == find_char(s, j as int, '}'),
                decreases n - j,
            {
                j += 1;
            }
            if j >= n {
                return Err(owned("unterminated comment"));
            }
            idx = j + 1;
        } else if c == '"' {
            let mut e = idx + 1;
            while e < n && cs[e] != '"'
                invariant
                    idx < e <= n,
                    n == s.len(),
                    cs@ == s,
                    quote_end(s, idx + 1) == quote_end(s, e as int),
                decreases n - e,
            {
                if cs[e] == '\\' && e + 1 < n && cs[e + 1] == '"' {
                    e += 2;
                } else {
                    e += 1;
                }
            }
            if e >= n {
                return Err(owned("unterminated quoted word"));
            }
            let w = unquote_range(&cs, idx, e);
            let t = Token::Word(w);
            proof {
                lemma_prepend_tokens_push(token_views(t0), t@, lex_from(s, e + 1));
                assert(token_views(t0.push(t)) =~= token_views(t0).push(t@));
            }
            tokens.push(t);
            idx = e + 1;
        } else {
            let mut j = idx + 1;
            while j < n && cs[j] != ' ' && cs[j] != '\t' && cs[j] != '\r' && cs[j] != '\n' && cs[j] != ';'
                && cs[j] != '{' && cs[j] != '"'
                invariant
                    idx < j <= n,
                    n == s.len(),
                    cs@ == s,
                    word_end(s, idx + 1) == word_end(s, j as int),
                decreases n - j,
            {
                j += 1;
            }
            let start = if c == '$' {
                idx + 1
            } else {
                idx
            };
            let w = string_from_range(&cs, start, j);
            proof {
                if c == '$' {
                    assert(s.subrange(idx as int, j as int).skip(1) =~= s.subrange(start as int, j as int));
                }
            }
            let t = Token::Word(w);
            proof {
                lemma_prepend_tokens_push(token_views(t0), t@, lex_from(s, j as int));
                assert(token_views(t0.push(t)) =~= token_views(t0).push(t@));
            }
            tokens.push(t);
            idx = j;
        }
    }
    assert(prepend_tokens(token_views(tokens@), Ok(Seq::empty())) == Ok::<Seq<TokenView>, Seq<char>>(token_views(tokens@))) by {
        assert(token_views(tokens@) + Seq::<TokenView>::empty() =~= token_views(tokens@));
    }
    Ok(tokens)
}

} // verus!
