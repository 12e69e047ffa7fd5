//! Arithmetic expressions of rule arguments and conditions: their tokens and
//! their syntax trees. Evaluating a tree is floating-point work and happens
//! outside this library.

use vstd::prelude::*;

use crate::literal::{is_digit, is_float_literal, looks_like_number};
use crate::references::{char_is_ref_char, is_ref_char, string_from_range};
use crate::text::{chars_of, char_is_white_space, concat3, is_white_space, owned};

verus! {

/// Errors in executing a rule DAG.
#[derive(Debug)]
pub enum DagExecutionError {
    MissingRuleSpec(String),
    MissingRuleTarget(String),
    MissingValue(String),
    InvalidRuleArguments { rule_id: String, message: String },
    UnsupportedRuleKind { rule_id: String, kind: String },
    HookNotRegistered { rule_id: String, hook_name: String },
    HookNotImplemented { rule_id: String, hook_name: String, module: String, function: String },
    InvalidExpression { expr: String, message: String },
}

/// What kind of token a token is.
#[derive(Debug, Clone, Copy, PartialEq, Eq, Structural)]
pub enum TokenKind {
    Number,
    Identifier,
    Plus,
    Minus,
    Star,
    Slash,
    LParen,
    RParen,
}

/// A token of an arithmetic expression. A number keeps the text it was
/// written with, which always reads as a float.
#[derive(Debug)]
pub enum NumericToken {
    Number(String),
    Identifier(String),
    Plus,
    Minus,
    Star,
    Slash,
    LParen,
    RParen,
}

/// A token as its kind and its text (empty for operators).
pub open spec fn token_view(t: NumericToken) -> (TokenKind, Seq<char>) {
    match t {
        NumericToken::Number(s) => (TokenKind::Number, s@),
        NumericToken::Identifier(s) => (TokenKind::Identifier, s@),
        NumericToken::Plus => (TokenKind::Plus, Seq::empty()),
        NumericToken::Minus => (TokenKind::Minus, Seq::empty()),
        NumericToken::Star => (TokenKind::Star, Seq::empty()),
        NumericToken::Slash => (TokenKind::Slash, Seq::empty()),
        NumericToken::LParen => (TokenKind::LParen, Seq::empty()),
        NumericToken::RParen => (TokenKind::RParen, Seq::empty()),
    }
}

pub open spec fn token_views(ts: Seq<NumericToken>) -> Seq<(TokenKind, Seq<char>)> {
    ts.map_values(|t: NumericToken| token_view(t))
}

pub open spec fn is_ascii_alpha(c: char) -> bool {
    ('a' <= c && c <= 'z') || ('A' <= c && c <= 'Z')
}

/// Characters that continue a number: digits and points.
pub open spec fn is_number_char(c: char) -> bool {
    is_digit(c) || c == '.'
}

/// The end of the run of characters satisfying `number` (else reference
/// characters) that starts at `i`.
pub open spec fn run_end(s: Seq<char>, i: int, number: bool) -> int
    decreases s.len() - i,
{
    if i >= s.len() {
        i
    } else if (number && is_number_char(s[i])) || (!number && is_ref_char(s[i])) {
        run_end(s, i + 1, number)
    } else {
        i
    }
}

/// Puts `prefix` before the tokens of a successful result.
pub open spec fn prepend(prefix: Seq<(TokenKind, Seq<char>)>, r: Result<Seq<(TokenKind, Seq<char>)>, Seq<char>>) -> Result<Seq<(TokenKind, Seq<char>)>, Seq<char>> {
    match r {
        Ok(rest) => Ok(prefix + rest),
        Err(m) => Err(m),
    }
}

pub open spec fn op_kind(c: char) -> Option<TokenKind> {
    if c == '+' {
        Some(TokenKind::Plus)
    } else if c == '-' {
        Some(TokenKind::Minus)
    } else if c == '*' {
        Some(TokenKind::Star)
    } else if c == '/' {
        Some(TokenKind::Slash)
    } else if c == '(' {
        Some(TokenKind::LParen)
    } else if c == ')' {
        Some(TokenKind::RParen)
    } else {
        None
    }
}

/// The tokens of `s` from position `i` on, or the message of the first
/// lexical error: whitespace separates tokens; `+ - * / ( )` are operators;
/// a digit or a point starts a number, which runs over digits and points and
/// must read as a float; a letter or `_` starts an identifier, which runs
/// over reference characters; anything else is an unexpected character.
pub open spec fn lex_from(s: Seq<char>, i: int) -> Result<Seq<(TokenKind, Seq<char>)>, Seq<char>>
    decreases s.len() - i,
{
    if i < 0 || i >= s.len() {
        Ok(Seq::empty())
    } else {
        let c = s[i];
        if is_white_space(c) {
            lex_from(s, i + 1)
        } else if op_kind(c) is Some {
            prepend(seq![(op_kind(c)->0, Seq::<char>::empty())], lex_from(s, i + 1))
        } else if is_number_char(c) {
            let j = run_end(s, i + 1, true);
            proof {
                lemma_run_end(s, i + 1, true);
            }
            let raw = s.subrange(i, j);
            if is_float_literal(raw) {
                prepend(seq![(TokenKind::Number, raw)], lex_from(s, j))
            } else {
                Err("invalid number '"@ + raw + "'"@)
            }
        } else if is_ascii_alpha(c) || c == '_' {
            let j = run_end(s, i + 1, false);
            proof {
                lemma_run_end(s, i + 1, false);
            }
            prepend(seq![(TokenKind::Identifier, s.subrange(i, j))], lex_from(s, j))
        } else {
            Err("unexpected character '"@ + seq![c] + "'"@)
        }
    }
}

pub proof fn lemma_run_end(s: Seq<char>, i: int, number: bool)
    requires
        0 <= i <= s.len(),
    ensures
        i <= run_end(s, i, number) <= s.len(),
        forall|k: int| i <= k < run_end(s, i, number) ==> (if number {
            is_number_char(#[trigger] s[k])
        } else {
            is_ref_char(s[k])
        }),
        run_end(s, i, number) == s.len() || !(if number {
            is_number_char(s[run_end(s, i, number)])
        } else {
            is_ref_char(s[run_end(s, i, number)])
        }),
    decreases s.len() - i,
{
    if i < s.len() && ((number && is_number_char(s[i])) || (!number && is_ref_char(s[i]))) {
        lemma_run_end(s, i + 1, number);
    }
}

proof fn lemma_prepend_assoc(a: Seq<(TokenKind, Seq<char>)>, b: Seq<(TokenKind, Seq<char>)>, r: Result<Seq<(TokenKind, Seq<char>)>, Seq<char>>)
    ensures
        prepend(a, prepend(b, r)) == prepend(a + b, r),
{
    match r {
        Ok(rest) => {
            assert(a + (b + rest) =~= (a + b) + rest);
        },
        Err(_) => {},
    }
}

fn char_string(c: char) -> (r: String)
    ensures
        r@ == seq![c],
{
    let mut r = String::new();
    crate::text::push_char(&mut r, c);
    r
}

/// Splits an expression into tokens.
pub fn tokenize(expr: &str) -> (r: Result<Vec<NumericToken>, DagExecutionError>)
    ensures
        match r {
            Ok(ts) => lex_from(expr@, 0) == Ok::<Seq<(TokenKind, Seq<char>)>, Seq<char>>(token_views(ts@)),
            Err(DagExecutionError::InvalidExpression { expr: e, message }) => e@ == expr@ && lex_from(expr@, 0)
                == Err::<Seq<(TokenKind, Seq<char>)>, Seq<char>>(message@),
            Err(_) => false,
        },
{
    let cs = chars_of(expr);
    let ghost s = expr@;
    let n = cs.len();
    let mut idx: usize = 0;
    let mut tokens: Vec<NumericToken> = Vec::new();
    assert(token_views(tokens@) =~= Seq::<(TokenKind, Seq<char>)>::empty());
    assert(prepend(Seq::empty(), lex_from(s, 0)) == lex_from(s, 0)) by {
        match lex_from(s, 0) {
            Ok(rest) => {
                assert(Seq::<(TokenKind, Seq<char>)>::empty() + rest =~= rest);
            },
            Err(_) => {},
        }
    }
    while idx < n
        invariant
            idx <= n,
            n == s.len(),
            cs@ == s,
            s == expr@,
            lex_from(s, 0) == prepend(token_views(tokens@), lex_from(s, idx as int)),
        decreases n - idx,
    {
        let ch = cs[idx];
        let ghost t0 = tokens@;
        if char_is_white_space(ch) {
            idx += 1;
            continue;
        }
        let op: Option<NumericToken> = if ch == '+' {
            Some(NumericToken::Plus)
        } else if ch == '-' {
            Some(NumericToken::Minus)
        } else if ch == '*' {
            Some(NumericToken::Star)
        } else if ch == '/' {
            Some(NumericToken::Slash)
        } else if ch == '(' {
            Some(NumericToken::LParen)
        } else if ch == ')' {
            Some(NumericToken::RParen)
        } else {
            None
        };
        match op {
            Some(t) => {
                proof {
                    assert(token_view(t) == (op_kind(ch)->0, Seq::<char>::empty()));
                    lemma_prepend_assoc(token_views(t0), seq![token_view(t)], lex_from(s, idx + 1));
                    assert(token_views(t0.push(t)) =~= token_views(t0) + seq![token_view(t)]);
                }
                tokens.push(t);
                idx += 1;
            },
            None => {
                if ('0' <= ch && ch <= '9') || ch == '.' {
                    let start = idx;
                    idx += 1;
                    while idx < n && (('0' <= cs[idx] && cs[idx] <= '9') || cs[idx] == '.')
                        invariant
                            start < idx <= n,
                            n == s.len(),
                            cs@ == s,
                            run_end(s, start + 1, true) == run_end(s, idx as int, true),
                        decreases n - idx,
                    {
                        idx += 1;
                    }
                    proof {
                        lemma_run_end(s, start + 1, true);
                    }
                    let raw = string_from_range(&cs, start, idx);
                    if !looks_like_number(raw.as_str()) {
                        return Err(DagExecutionError::InvalidExpression {
                            expr: owned(expr),
                            message: concat3("invalid number '", raw.as_str(), "'"),
                        });
                    }
                    let t = NumericToken::Number(raw);
                    proof {
                        lemma_prepend_assoc(token_views(t0), seq![token_view(t)], lex_from(s, idx as int));
                        assert(token_views(t0.push(t)) =~= token_views(t0) + seq![token_view(t)]);
                    }
                    tokens.push(t);
                } else if ('a' <= ch && ch <= 'z') || ('A' <= ch && ch <= 'Z') || ch == '_' {
                    let start = idx;
                    idx += 1;
                    while idx < n && char_is_ref_char(cs[idx])
                        invariant
                            start < idx <= n,
                            n == s.len(),
                            cs@ == s,
                            run_end(s, start + 1, false) == run_end(s, idx as int, false),
                        decreases n - idx,
                    {
                        idx += 1;
                    }
                    proof {
                        lemma_run_end(s, start + 1, false);
                    }
                    let raw = string_from_range(&cs, start, idx);
                    let t = NumericToken::Identifier(raw);
                    proof {
                        lemma_prepend_assoc(token_views(t0), seq![token_view(t)], lex_from(s, idx as int));
                        assert(token_views(t0.push(t)) =~= token_views(t0) + seq![token_view(t)]);
                    }
                    tokens.push(t);
                } else {
                    let cstr = char_string(ch);
                    return Err(DagExecutionError::InvalidExpression {
                        expr: owned(expr),
                        message: concat3("unexpected character '", cstr.as_str(), "'"),
                    });
                }
            },
        }
    }
    proof {
        assert(token_views(tokens@) + Seq::<(TokenKind, Seq<char>)>::empty() =~= token_views(tokens@));
    }
    Ok(tokens)
}


/// The syntax tree of an arithmetic expression.
#[derive(Debug)]
pub enum Expr {
    Number(String),
    Variable(String),
    Neg(Box<Expr>),
    Add(Box<Expr>, Box<Expr>),
    Sub(Box<Expr>, Box<Expr>),
    Mul(Box<Expr>, Box<Expr>),
    Div(Box<Expr>, Box<Expr>),
}

/// The mathematical form of a syntax tree.
pub enum ExprTree {
    Number(Seq<char>),
    Variable(Seq<char>),
    Neg(Box<ExprTree>),
    Add(Box<ExprTree>, Box<ExprTree>),
    Sub(Box<ExprTree>, Box<ExprTree>),
    Mul(Box<ExprTree>, Box<ExprTree>),
    Div(Box<ExprTree>, Box<ExprTree>),
}

pub open spec fn expr_view(e: Expr) -> ExprTree
    decreases e,
{
    match e {
        Expr::Number(s) => ExprTree::Number(s@),
        Expr::Variable(s) => ExprTree::Variable(s@),
        Expr::Neg(a) => ExprTree::Neg(Box::new(expr_view(*a))),
        Expr::Add(a, b) => ExprTree::Add(Box::new(expr_view(*a)), Box::new(expr_view(*b))),
        Expr::Sub(a, b) => ExprTree::Sub(Box::new(expr_view(*a)), Box::new(expr_view(*b))),
        Expr::Mul(a, b) => ExprTree::Mul(Box::new(expr_view(*a)), Box::new(expr_view(*b))),
        Expr::Div(a, b) => ExprTree::Div(Box::new(expr_view(*a)), Box::new(expr_view(*b))),
    }
}

/// expression := term (('+' | '-') term)*, from token `i`; the tree and the
/// position after it, or the message of the first syntax error. `fuel`
/// bounds the recursion; `4 * (length - i) + 3` is always enough.
pub open spec fn parse_expression(t: Seq<(TokenKind, Seq<char>)>, i: int, fuel: nat) -> Result<(ExprTree, int), Seq<char>>
    decreases fuel, 0nat,
{
    if fuel == 0 {
        Err(Seq::empty())
    } else {
        match parse_term(t, i, (fuel - 1) as nat) {
            Err(m) => Err(m),
            Ok((lhs, j)) => expression_tail(t, j, lhs, (fuel - 1) as nat),
        }
    }
}

pub open spec fn expression_tail(t: Seq<(TokenKind, Seq<char>)>, j: int, lhs: ExprTree, fuel: nat) -> Result<(ExprTree, int), Seq<char>>
    decreases fuel, 1nat,
{
    if fuel == 0 {
        Err(Seq::empty())
    } else if 0 <= j < t.len() && (t[j].0 == TokenKind::Plus || t[j].0 == TokenKind::Minus) {
        match parse_term(t, j + 1, (fuel - 1) as nat) {
            Err(m) => Err(m),
            Ok((rhs, k)) => expression_tail(
                t,
                k,
                if t[j].0 == TokenKind::Plus {
                    ExprTree::Add(Box::new(lhs), Box::new(rhs))
                } else {
                    ExprTree::Sub(Box::new(lhs), Box::new(rhs))
                },
                (fuel - 1) as nat,
            ),
        }
    } else {
        Ok((lhs, j))
    }
}

/// term := factor (('*' | '/') factor)*.
pub open spec fn parse_term(t: Seq<(TokenKind, Seq<char>)>, i: int, fuel: nat) -> Result<(ExprTree, int), Seq<char>>
    decreases fuel, 2nat,
{
    if fuel == 0 {
        Err(Seq::empty())
    } else {
        match parse_factor(t, i, (fuel - 1) as nat) {
            Err(m) => Err(m),
            Ok((lhs, j)) => term_tail(t, j, lhs, (fuel - 1) as nat),
        }
    }
}

pub open spec fn term_tail(t: Seq<(TokenKind, Seq<char>)>, j: int, lhs: ExprTree, fuel: nat) -> Result<(ExprTree, int), Seq<char>>
    decreases fuel, 3nat,
{
    if fuel == 0 {
        Err(Seq::empty())
    } else if 0 <= j < t.len() && (t[j].0 == TokenKind::Star || t[j].0 == TokenKind::Slash) {
        match parse_factor(t, j + 1, (fuel - 1) as nat) {
            Err(m) => Err(m),
            Ok((rhs, k)) => term_tail(
                t,
                k,
                if t[j].0 == TokenKind::Star {
                    ExprTree::Mul(Box::new(lhs), Box::new(rhs))
                } else {
                    ExprTree::Div(Box::new(lhs), Box::new(rhs))
                },
                (fuel - 1) as nat,
            ),
        }
    } else {
        Ok((lhs, j))
    }
}

/// factor := number | identifier | '-' factor | '(' expression ')'.
pub open spec fn parse_factor(t: Seq<(TokenKind, Seq<char>)>, i: int, fuel: nat) -> Result<(ExprTree, int), Seq<char>>
    decreases fuel, 4nat,
{
    if fuel == 0 {
        Err(Seq::empty())
    } else if i < 0 || i >= t.len() {
        Err("unexpected end of expression"@)
    } else if t[i].0 == TokenKind::Number {
        Ok((ExprTree::Number(t[i].1), i + 1))
    } else if t[i].0 == TokenKind::Identifier {
        Ok((ExprTree::Variable(t[i].1), i + 1))
    } else if t[i].0 == TokenKind::Minus {
        match parse_factor(t, i + 1, (fuel - 1) as nat) {
            Err(m) => Err(m),
            Ok((e, k)) => Ok((ExprTree::Neg(Box::new(e)), k)),
        }
    } else if t[i].0 == TokenKind::LParen {
        match parse_expression(t, i + 1, (fuel - 1) as nat) {
            Err(m) => Err(m),
            Ok((e, k)) => if 0 <= k < t.len() && t[k].0 == TokenKind::RParen {
                Ok((e, k + 1))
            } else {
                Err("unclosed parenthesis"@)
            },
        }
    } else {
        Err("unexpected token"@)
    }
}

/// The whole token list as one expression, or the message of the first
/// syntax error.
pub open spec fn parse_tokens(t: Seq<(TokenKind, Seq<char>)>) -> Result<ExprTree, Seq<char>> {
    match parse_expression(t, 0, (4 * t.len() + 3) as nat) {
        Err(m) => Err(m),
        Ok((e, k)) => if k == t.len() {
            Ok(e)
        } else {
            Err("unexpected trailing tokens"@)
        },
    }
}

fn kind_of(t: &NumericToken) -> (k: TokenKind)
    ensures
        k == token_view(*t).0,
{
    match t {
        NumericToken::Number(_) => TokenKind::Number,
        NumericToken::Identifier(_) => TokenKind::Identifier,
        NumericToken::Plus => TokenKind::Plus,
        NumericToken::Minus => TokenKind::Minus,
        NumericToken::Star => TokenKind::Star,
        NumericToken::Slash => TokenKind::Slash,
        NumericToken::LParen => TokenKind::LParen,
        NumericToken::RParen => TokenKind::RParen,
    }
}

fn parse_expression_at(ts: &Vec<NumericToken>, i: usize, Ghost(fuel): Ghost<nat>) -> (r: Result<(Expr, usize), String>)
    requires
        i <= ts@.len(),
        fuel >= 4 * (ts@.len() - i) + 3,
    ensures
        match r {
            Ok((e, k)) => i < k <= ts@.len() && parse_expression(token_views(ts@), i as int, fuel) == Ok::<(ExprTree, int), Seq<char>>((expr_view(e), k as int)),
            Err(m) => parse_expression(token_views(ts@), i as int, fuel) == Err::<(ExprTree, int), Seq<char>>(m@),
        },
    decreases fuel, 0nat,
{
    let ghost tv = token_views(ts@);
    let (mut lhs, mut j) = match parse_term_at(ts, i, Ghost((fuel - 1) as nat)) {
        Err(m) => return Err(m),
        Ok(p) => p,
    };
    let ghost mut f: nat = (fuel - 1) as nat;
    while j < ts.len() && (kind_of(&ts[j]) == TokenKind::Plus || kind_of(&ts[j]) == TokenKind::Minus)
        invariant
            i < j <= ts@.len(),
            tv == token_views(ts@),
            f >= 4 * (ts@.len() - j) + 3,
            f <= fuel,
            parse_expression(tv, i as int, fuel) == expression_tail(tv, j as int, expr_view(lhs), f),
        decreases f,
    {
        let plus = kind_of(&ts[j]) == TokenKind::Plus;
        match parse_term_at(ts, j + 1, Ghost((f - 1) as nat)) {
            Err(m) => return Err(m),
            Ok((rhs, k)) => {
                lhs = if plus {
                    Expr::Add(Box::new(lhs), Box::new(rhs))
                } else {
                    Expr::Sub(Box::new(lhs), Box::new(rhs))
                };
                j = k;
                proof {
                    f = (f - 1) as nat;
                }
            },
        }
    }
    Ok((lhs, j))
}

fn parse_term_at(ts: &Vec<NumericToken>, i: usize, Ghost(fuel): Ghost<nat>) -> (r: Result<(Expr, usize), String>)
    requires
        i <= ts@.len(),
        fuel >= 4 * (ts@.len() - i) + 2,
    ensures
        match r {
            Ok((e, k)) => i < k <= ts@.len() && parse_term(token_views(ts@), i as int, fuel) == Ok::<(ExprTree, int), Seq<char>>((expr_view(e), k as int)),
            Err(m) => parse_term(token_views(ts@), i as int, fuel) == Err::<(ExprTree, int), Seq<char>>(m@),
        },
    decreases fuel, 2nat,
{
    let ghost tv = token_views(ts@);
    let (mut lhs, mut j) = match parse_factor_at(ts, i, Ghost((fuel - 1) as nat)) {
        Err(m) => return Err(m),
        Ok(p) => p,
    };
    let ghost mut f: nat = (fuel - 1) as nat;
    while j < ts.len() && (kind_of(&ts[j]) == TokenKind::Star || kind_of(&ts[j]) == TokenKind::Slash)
        invariant
            i < j <= ts@.len(),
            tv == token_views(ts@),
            f >= 4 * (ts@.len() - j) + 2,
            f <= fuel,
            parse_term(tv, i as int, fuel) == term_tail(tv, j as int, expr_view(lhs), f),
        decreases f,
    {
        let star = kind_of(&ts[j]) == TokenKind::Star;
        match parse_factor_at(ts, j + 1, Ghost((f - 1) as nat)) {
            Err(m) => return Err(m),
            Ok((rhs, k)) => {
                lhs = if star {
                    Expr::Mul(Box::new(lhs), Box::new(rhs))
                } else {
                    Expr::Div(Box::new(lhs), Box::new(rhs))
                };
                j = k;
                proof {
                    f = (f - 1) as nat;
                }
            },
        }
    }
    Ok((lhs, j))
}

fn parse_factor_at(ts: &Vec<NumericToken>, i: usize, Ghost(fuel): Ghost<nat>) -> (r: Result<(Expr, usize), String>)
    requires
        i <= ts@.len(),
        fuel >= 4 * (ts@.len() - i) + 1,
    ensures
        match r {
            Ok((e, k)) => i < k <= ts@.len() && parse_factor(token_views(ts@), i as int, fuel) == Ok::<(ExprTree, int), Seq<char>>((expr_view(e), k as int)),
            Err(m) => parse_factor(token_views(ts@), i as int, fuel) == Err::<(ExprTree, int), Seq<char>>(m@),
        },
    decreases fuel, 4nat,
{
    if i >= ts.len() {
        return Err(owned("unexpected end of expression"));
    }
    match &ts[i] {
        NumericToken::Number(v) => Ok((Expr::Number(v.clone()), i + 1)),
        NumericToken::Identifier(name) => Ok((Expr::Variable(name.clone()), i + 1)),
        NumericToken::Minus => {
            match parse_factor_at(ts, i + 1, Ghost((fuel - 1) as nat)) {
                Err(m) => Err(m),
                Ok((e, k)) => Ok((Expr::Neg(Box::new(e)), k)),
            }
        },
        NumericToken::LParen => {
            match parse_expression_at(ts, i + 1, Ghost((fuel - 1) as nat)) {
                Err(m) => Err(m),
                Ok((e, k)) => {
                    if k < ts.len() && kind_of(&ts[k]) == TokenKind::RParen {
                        Ok((e, k + 1))
                    } else {
                        Err(owned("unclosed parenthesis"))
                    }
                },
            }
        },
        _ => Err(owned("unexpected token")),
    }
}

/// The syntax tree of a token list that makes one expression.
pub fn parse_token_list(ts: &Vec<NumericToken>) -> (r: Result<Expr, String>)
    ensures
        match r {
            Ok(e) => parse_tokens(token_views(ts@)) == Ok::<ExprTree, Seq<char>>(expr_view(e)),
            Err(m) => parse_tokens(token_views(ts@)) == Err::<ExprTree, Seq<char>>(m@),
        },
{
    match parse_expression_at(ts, 0, Ghost((4 * ts@.len() + 3) as nat)) {
        Err(m) => Err(m),
        Ok((e, k)) => {
            if k == ts.len() {
                Ok(e)
            } else {
                Err(owned("unexpected trailing tokens"))
            }
        },
    }
}

/// A syntax tree written back out in order: its numbers and names, and an
/// operator token (with empty text) for each operator, unary minus before
/// its operand, binary operators between theirs.
pub open spec fn written(e: ExprTree) -> Seq<(TokenKind, Seq<char>)>
    decreases e,
{
    match e {
        ExprTree::Number(n) => seq![(TokenKind::Number, n)],
        ExprTree::Variable(v) => seq![(TokenKind::Identifier, v)],
        ExprTree::Neg(a) => seq![(TokenKind::Minus, Seq::<char>::empty())] + written(*a),
        ExprTree::Add(a, b) => written(*a) + seq![(TokenKind::Plus, Seq::<char>::empty())] + written(*b),
        ExprTree::Sub(a, b) => written(*a) + seq![(TokenKind::Minus, Seq::<char>::empty())] + written(*b),
        ExprTree::Mul(a, b) => written(*a) + seq![(TokenKind::Star, Seq::<char>::empty())] + written(*b),
        ExprTree::Div(a, b) => written(*a) + seq![(TokenKind::Slash, Seq::<char>::empty())] + written(*b),
    }
}

/// The tokens without parentheses, operators with empty text.
pub open spec fn without_parens(t: Seq<(TokenKind, Seq<char>)>) -> Seq<(TokenKind, Seq<char>)>
    decreases t.len(),
{
    if t.len() == 0 {
        Seq::empty()
    } else {
        let rest = without_parens(t.drop_last());
        let k = t.last().0;
        if k == TokenKind::LParen || k == TokenKind::RParen {
            rest
        } else if k == TokenKind::Number || k == TokenKind::Identifier {
            rest.push(t.last())
        } else {
            rest.push((k, Seq::<char>::empty()))
        }
    }
}

proof fn lemma_without_parens_concat(a: Seq<(TokenKind, Seq<char>)>, b: Seq<(TokenKind, Seq<char>)>)
    ensures
        without_parens(a + b) == without_parens(a) + without_parens(b),
    decreases b.len(),
{
    if b.len() == 0 {
        assert(a + b =~= a);
        assert(without_parens(a) + without_parens(b) =~= without_parens(a));
    } else {
        lemma_without_parens_concat(a, b.drop_last());
        assert((a + b).drop_last() =~= a + b.drop_last());
        assert((a + b).last() == b.last());
        let k = b.last().0;
        if k == TokenKind::LParen || k == TokenKind::RParen {
        } else if k == TokenKind::Number || k == TokenKind::Identifier {
            assert(without_parens(a) + without_parens(b.drop_last()).push(b.last()) =~= (without_parens(a)
                + without_parens(b.drop_last())).push(b.last()));
        } else {
            assert(without_parens(a) + without_parens(b.drop_last()).push((k, Seq::<char>::empty())) =~= (
            without_parens(a) + without_parens(b.drop_last())).push((k, Seq::<char>::empty())));
        }
    }
}

proof fn lemma_without_parens_one(x: (TokenKind, Seq<char>))
    ensures
        without_parens(seq![x]) == if x.0 == TokenKind::LParen || x.0 == TokenKind::RParen {
            Seq::<(TokenKind, Seq<char>)>::empty()
        } else if x.0 == TokenKind::Number || x.0 == TokenKind::Identifier {
            seq![x]
        } else {
            seq![(x.0, Seq::<char>::empty())]
        },
{
    assert(seq![x].drop_last() =~= Seq::<(TokenKind, Seq<char>)>::empty());
    assert(without_parens(Seq::<(TokenKind, Seq<char>)>::empty()) =~= Seq::<(TokenKind, Seq<char>)>::empty());
    assert(without_parens(seq![x].drop_last()) =~= Seq::<(TokenKind, Seq<char>)>::empty());
    assert(seq![x].len() == 1);
    assert(seq![x].last() == x);
    assert(Seq::<(TokenKind, Seq<char>)>::empty().push(x) =~= seq![x]);
    assert(Seq::<(TokenKind, Seq<char>)>::empty().push((x.0, Seq::<char>::empty())) =~= seq![(x.0, Seq::<char>::empty())]);
}

/// Splits `t[i..k]` as its first token and the rest.
proof fn lemma_without_parens_split(t: Seq<(TokenKind, Seq<char>)>, i: int, m: int, k: int)
    requires
        0 <= i <= m <= k <= t.len(),
    ensures
        without_parens(t.subrange(i, k)) == without_parens(t.subrange(i, m)) + without_parens(t.subrange(m, k)),
{
    assert(t.subrange(i, k) =~= t.subrange(i, m) + t.subrange(m, k));
    lemma_without_parens_concat(t.subrange(i, m), t.subrange(m, k));
}

proof fn lemma_read_back_expression(t: Seq<(TokenKind, Seq<char>)>, i: int, fuel: nat)
    requires
        0 <= i <= t.len(),
    ensures
        parse_expression(t, i, fuel) matches Ok((e, j)) ==> i <= j <= t.len() && written(e) == without_parens(
            t.subrange(i, j),
        ),
    decreases fuel, 0nat,
{
    if fuel > 0 {
        lemma_read_back_term(t, i, (fuel - 1) as nat);
        match parse_term(t, i, (fuel - 1) as nat) {
            Err(_) => {},
            Ok((lhs, j)) => {
                lemma_read_back_expression_tail(t, j, lhs, (fuel - 1) as nat);
                match expression_tail(t, j, lhs, (fuel - 1) as nat) {
                    Err(_) => {},
                    Ok((e, k)) => {
                        lemma_without_parens_split(t, i, j, k);
                    },
                }
            },
        }
    }
}

proof fn lemma_read_back_expression_tail(t: Seq<(TokenKind, Seq<char>)>, j: int, lhs: ExprTree, fuel: nat)
    requires
        0 <= j <= t.len(),
    ensures
        expression_tail(t, j, lhs, fuel) matches Ok((e, k)) ==> j <= k <= t.len() && written(e) == written(lhs)
            + without_parens(t.subrange(j, k)),
    decreases fuel, 1nat,
{
    if fuel > 0 {
        if 0 <= j < t.len() && (t[j].0 == TokenKind::Plus || t[j].0 == TokenKind::Minus) {
            lemma_read_back_term(t, j + 1, (fuel - 1) as nat);
            match parse_term(t, j + 1, (fuel - 1) as nat) {
                Err(_) => {},
                Ok((rhs, k1)) => {
                    let lhs2 = if t[j].0 == TokenKind::Plus {
                        ExprTree::Add(Box::new(lhs), Box::new(rhs))
                    } else {
                        ExprTree::Sub(Box::new(lhs), Box::new(rhs))
                    };
                    lemma_read_back_expression_tail(t, k1, lhs2, (fuel - 1) as nat);
                    match expression_tail(t, k1, lhs2, (fuel - 1) as nat) {
                        Err(_) => {},
                        Ok((e, k)) => {
                            lemma_without_parens_split(t, j, j + 1, k);
                            lemma_without_parens_split(t, j + 1, k1, k);
                            assert(t.subrange(j, j + 1) =~= seq![t[j]]);
                            lemma_without_parens_one(t[j]);
                            assert(written(lhs2) == written(lhs) + seq![(t[j].0, Seq::<char>::empty())] + written(rhs));
                            assert(written(e) =~= written(lhs) + without_parens(t.subrange(j, k)));
                        },
                    }
                },
            }
        } else {
            assert(t.subrange(j, j) =~= Seq::<(TokenKind, Seq<char>)>::empty());
            assert(without_parens(t.subrange(j, j)) =~= Seq::<(TokenKind, Seq<char>)>::empty());
            assert(written(lhs) + without_parens(t.subrange(j, j)) =~= written(lhs));
        }
    }
}

proof fn lemma_read_back_term(t: Seq<(TokenKind, Seq<char>)>, i: int, fuel: nat)
    requires
        0 <= i <= t.len(),
    ensures
        parse_term(t, i, fuel) matches Ok((e, j)) ==> i <= j <= t.len() && written(e) == without_parens(t.subrange(i, j)),
    decreases fuel, 2nat,
{
    if fuel > 0 {
        lemma_read_back_factor(t, i, (fuel - 1) as nat);
        match parse_factor(t, i, (fuel - 1) as nat) {
            Err(_) => {},
            Ok((lhs, j)) => {
                lemma_read_back_term_tail(t, j, lhs, (fuel - 1) as nat);
                match term_tail(t, j, lhs, (fuel - 1) as nat) {
                    Err(_) => {},
                    Ok((e, k)) => {
                        lemma_without_parens_split(t, i, j, k);
                    },
                }
            },
        }
    }
}

proof fn lemma_read_back_term_tail(t: Seq<(TokenKind, Seq<char>)>, j: int, lhs: ExprTree, fuel: nat)
    requires
        0 <= j <= t.len(),
    ensures
        term_tail(t, j, lhs, fuel) matches Ok((e, k)) ==> j <= k <= t.len() && written(e) == written(lhs)
            + without_parens(t.subrange(j, k)),
    decreases fuel, 3nat,
{
    if fuel > 0 {
        if 0 <= j < t.len() && (t[j].0 == TokenKind::Star || t[j].0 == TokenKind::Slash) {
            lemma_read_back_factor(t, j + 1, (fuel - 1) as nat);
            match parse_factor(t, j + 1, (fuel - 1) as nat) {
                Err(_) => {},
                Ok((rhs, k1)) => {
                    let lhs2 = if t[j].0 == TokenKind::Star {
                        ExprTree::Mul(Box::new(lhs), Box::new(rhs))
                    } else {
                        ExprTree::Div(Box::new(lhs), Box::new(rhs))
                    };
                    lemma_read_back_term_tail(t, k1, lhs2, (fuel - 1) as nat);
                    match term_tail(t, k1, lhs2, (fuel - 1) as nat) {
                        Err(_) => {},
                        Ok((e, k)) => {
                            lemma_without_parens_split(t, j, j + 1, k);
                            lemma_without_parens_split(t, j + 1, k1, k);
                            assert(t.subrange(j, j + 1) =~= seq![t[j]]);
                            lemma_without_parens_one(t[j]);
                            assert(written(lhs2) == written(lhs) + seq![(t[j].0, Seq::<char>::empty())] + written(rhs));
                            assert(written(e) =~= written(lhs) + without_parens(t.subrange(j, k)));
                        },
                    }
                },
            }
        } else {
            assert(t.subrange(j, j) =~= Seq::<(TokenKind, Seq<char>)>::empty());
            assert(without_parens(t.subrange(j, j)) =~= Seq::<(TokenKind, Seq<char>)>::empty());
            assert(written(lhs) + without_parens(t.subrange(j, j)) =~= written(lhs));
        }
    }
}

proof fn lemma_read_back_factor(t: Seq<(TokenKind, Seq<char>)>, i: int, fuel: nat)
    requires
        0 <= i <= t.len(),
    ensures
        parse_factor(t, i, fuel) matches Ok((e, j)) ==> i <= j <= t.len() && written(e) == without_parens(
            t.subrange(i, j),
        ),
    decreases fuel, 4nat,
{
    if fuel > 0 && 0 <= i < t.len() {
        let x = t[i];
        assert(t.subrange(i, i + 1) =~= seq![x]);
        lemma_without_parens_one(x);
        if x.0 == TokenKind::Number || x.0 == TokenKind::Identifier {
        } else if x.0 == TokenKind::Minus {
            lemma_read_back_factor(t, i + 1, (fuel - 1) as nat);
            match parse_factor(t, i + 1, (fuel - 1) as nat) {
                Err(_) => {},
                Ok((e, k)) => {
                    lemma_without_parens_split(t, i, i + 1, k);
                },
            }
        } else if x.0 == TokenKind::LParen {
            lemma_read_back_expression(t, i + 1, (fuel - 1) as nat);
            match parse_expression(t, i + 1, (fuel - 1) as nat) {
                Err(_) => {},
                Ok((e, k)) => {
                    if 0 <= k < t.len() && t[k].0 == TokenKind::RParen {
                        lemma_without_parens_split(t, i, i + 1, k + 1);
                        lemma_without_parens_split(t, i + 1, k, k + 1);
                        assert(t.subrange(k, k + 1) =~= seq![t[k]]);
                        lemma_without_parens_one(t[k]);
                        assert(without_parens(t.subrange(i, k + 1)) =~= without_parens(t.subrange(i + 1, k)));
                    }
                },
            }
        }
    }
}

/// An expression's tree reads back as the expression: written out in
/// order, it gives the expression's tokens without parentheses, so every
/// operand keeps its place (the dividend of `a / b` is `a`), every
/// operator is the one written between its operands, and a unary minus
/// stands before its operand.
pub proof fn lemma_tree_reads_back(s: Seq<char>)
    requires
        read_expression(s) is Ok,
    ensures
        lex_from(s, 0) is Ok,
        written(read_expression(s)->Ok_0) == without_parens(lex_from(s, 0)->Ok_0),
{
    let t = lex_from(s, 0)->Ok_0;
    lemma_read_back_expression(t, 0, (4 * t.len() + 3) as nat);
    assert(t.subrange(0, t.len() as int) =~= t);
}

/// A factor: a number, a name, or a negated factor.
pub open spec fn factor_shaped(e: ExprTree) -> bool
    decreases e,
{
    match e {
        ExprTree::Number(_) => true,
        ExprTree::Variable(_) => true,
        ExprTree::Neg(a) => factor_shaped(*a),
        _ => false,
    }
}

/// A product: factors joined by `*` and `/`, grouped from the left.
pub open spec fn term_shaped(e: ExprTree) -> bool
    decreases e,
{
    match e {
        ExprTree::Mul(a, b) => term_shaped(*a) && factor_shaped(*b),
        ExprTree::Div(a, b) => term_shaped(*a) && factor_shaped(*b),
        _ => factor_shaped(e),
    }
}

/// A sum: products joined by `+` and `-`, grouped from the left.
pub open spec fn sum_shaped(e: ExprTree) -> bool
    decreases e,
{
    match e {
        ExprTree::Add(a, b) => sum_shaped(*a) && term_shaped(*b),
        ExprTree::Sub(a, b) => sum_shaped(*a) && term_shaped(*b),
        _ => term_shaped(e),
    }
}

/// No token is a parenthesis.
pub open spec fn no_parens(t: Seq<(TokenKind, Seq<char>)>) -> bool {
    forall|i: int| 0 <= i < t.len() ==> #[trigger] t[i].0 != TokenKind::LParen && t[i].0 != TokenKind::RParen
}

proof fn lemma_shape_factor(t: Seq<(TokenKind, Seq<char>)>, i: int, fuel: nat)
    requires
        no_parens(t),
    ensures
        parse_factor(t, i, fuel) matches Ok((e, j)) ==> factor_shaped(e),
    decreases fuel, 4nat,
{
    if fuel > 0 && 0 <= i < t.len() {
        assert(t[i].0 != TokenKind::LParen);
        if t[i].0 == TokenKind::Minus {
            lemma_shape_factor(t, i + 1, (fuel - 1) as nat);
        }
    }
}

proof fn lemma_shape_term_tail(t: Seq<(TokenKind, Seq<char>)>, j: int, lhs: ExprTree, fuel: nat)
    requires
        no_parens(t),
        term_shaped(lhs),
    ensures
        term_tail(t, j, lhs, fuel) matches Ok((e, k)) ==> term_shaped(e),
    decreases fuel, 3nat,
{
    if fuel > 0 && 0 <= j < t.len() && (t[j].0 == TokenKind::Star || t[j].0 == TokenKind::Slash) {
        lemma_shape_factor(t, j + 1, (fuel - 1) as nat);
        match parse_factor(t, j + 1, (fuel - 1) as nat) {
            Err(_) => {},
            Ok((rhs, k1)) => {
                let lhs2 = if t[j].0 == TokenKind::Star {
                    ExprTree::Mul(Box::new(lhs), Box::new(rhs))
                } else {
                    ExprTree::Div(Box::new(lhs), Box::new(rhs))
                };
                assert(term_shaped(lhs2));
                lemma_shape_term_tail(t, k1, lhs2, (fuel - 1) as nat);
            },
        }
    }
}

proof fn lemma_factor_is_term(e: ExprTree)
    requires
        factor_shaped(e),
    ensures
        term_shaped(e),
        sum_shaped(e),
{
}

proof fn lemma_term_is_sum(e: ExprTree)
    requires
        term_shaped(e),
    ensures
        sum_shaped(e),
{
}

proof fn lemma_shape_term(t: Seq<(TokenKind, Seq<char>)>, i: int, fuel: nat)
    requires
        no_parens(t),
    ensures
        parse_term(t, i, fuel) matches Ok((e, j)) ==> term_shaped(e),
    decreases fuel, 2nat,
{
    if fuel > 0 {
        lemma_shape_factor(t, i, (fuel - 1) as nat);
        match parse_factor(t, i, (fuel - 1) as nat) {
            Err(_) => {},
            Ok((lhs, j)) => {
                lemma_factor_is_term(lhs);
                lemma_shape_term_tail(t, j, lhs, (fuel - 1) as nat);
            },
        }
    }
}

proof fn lemma_shape_expression_tail(t: Seq<(TokenKind, Seq<char>)>, j: int, lhs: ExprTree, fuel: nat)
    requires
        no_parens(t),
        sum_shaped(lhs),
    ensures
        expression_tail(t, j, lhs, fuel) matches Ok((e, k)) ==> sum_shaped(e),
    decreases fuel, 1nat,
{
    if fuel > 0 && 0 <= j < t.len() && (t[j].0 == TokenKind::Plus || t[j].0 == TokenKind::Minus) {
        lemma_shape_term(t, j + 1, (fuel - 1) as nat);
        match parse_term(t, j + 1, (fuel - 1) as nat) {
            Err(_) => {},
            Ok((rhs, k1)) => {
                let lhs2 = if t[j].0 == TokenKind::Plus {
                    ExprTree::Add(Box::new(lhs), Box::new(rhs))
                } else {
                    ExprTree::Sub(Box::new(lhs), Box::new(rhs))
                };
                assert(sum_shaped(lhs2));
                lemma_shape_expression_tail(t, k1, lhs2, (fuel - 1) as nat);
            },
        }
    }
}

proof fn lemma_shape_expression(t: Seq<(TokenKind, Seq<char>)>, i: int, fuel: nat)
    requires
        no_parens(t),
    ensures
        parse_expression(t, i, fuel) matches Ok((e, j)) ==> sum_shaped(e),
    decreases fuel, 0nat,
{
    if fuel > 0 {
        lemma_shape_term(t, i, (fuel - 1) as nat);
        match parse_term(t, i, (fuel - 1) as nat) {
            Err(_) => {},
            Ok((lhs, j)) => {
                lemma_term_is_sum(lhs);
                lemma_shape_expression_tail(t, j, lhs, (fuel - 1) as nat);
            },
        }
    }
}

/// Without parentheses, `*` and `/` bind tighter than `+` and `-`, unary
/// minus tighter than both, and each level groups from the left: the tree
/// is a sum of products of factors, so `a - b * c` subtracts the product
/// and `a - b - c` subtracts `c` from `a - b`.
pub proof fn lemma_precedence(s: Seq<char>)
    requires
        read_expression(s) is Ok,
        no_parens(lex_from(s, 0)->Ok_0),
    ensures
        sum_shaped(read_expression(s)->Ok_0),
{
    let t = lex_from(s, 0)->Ok_0;
    lemma_shape_expression(t, 0, (4 * t.len() + 3) as nat);
}

/// The lexical and syntactic reading of an expression.
pub open spec fn read_expression(s: Seq<char>) -> Result<ExprTree, Seq<char>> {
    match lex_from(s, 0) {
        Err(m) => Err(m),
        Ok(t) => parse_tokens(t),
    }
}

/// Reads an arithmetic expression into its syntax tree.
pub fn parse_numeric(expr: &str) -> (r: Result<Expr, DagExecutionError>)
    ensures
        match r {
            Ok(e) => read_expression(expr@) == Ok::<ExprTree, Seq<char>>(expr_view(e)) && lex_from(expr@, 0) is Ok
                && written(expr_view(e)) == without_parens(lex_from(expr@, 0)->Ok_0),
            Err(DagExecutionError::InvalidExpression { expr: e, message }) => e@ == expr@
                && read_expression(expr@) == Err::<ExprTree, Seq<char>>(message@),
            Err(_) => false,
        },
{
    let tokens = tokenize(expr)?;
    match parse_token_list(&tokens) {
        Ok(e) => {
            proof {
                lemma_tree_reads_back(expr@);
            }
            Ok(e)
        },
        Err(message) => Err(DagExecutionError::InvalidExpression { expr: owned(expr), message }),
    }
}

} // verus!
