//! Deciding what executing a rule DAG does: which rules run, in what order,
//! and what each rule computes. The arithmetic itself is floating-point work
//! done outside this library.

use vstd::prelude::*;

use crate::dag::{DagEdge, DagEdgeKind, DagNodeKind, ExecutionDag};
use crate::expr::{parse_numeric, read_expression, expr_view, DagExecutionError, Expr, ExprTree};
use crate::schema::{opt_list, opt_view, RuleSchema, RuleSpec};
use crate::strmap::StrMap;
use crate::text::{chars_of, compare_str, owned, string_views, trim, trimmed};
use crate::references::string_from_range;

verus! {

/// Parenthesis depth after the first `k` characters.
pub open spec fn paren_depth(s: Seq<char>, k: int) -> int
    decreases k,
{
    if k <= 0 {
        0
    } else {
        paren_depth(s, k - 1) + if s[k - 1] == '(' {
            1int
        } else if s[k - 1] == ')' {
            -1int
        } else {
            0int
        }
    }
}

/// `op` stands at position `idx` outside all parentheses (the depth counts
/// the character at `idx` too, so `idx` is a position of `s`).
pub open spec fn splits_at(s: Seq<char>, op: Seq<char>, idx: int) -> bool {
    &&& 0 <= idx < s.len()
    &&& idx + op.len() <= s.len()
    &&& paren_depth(s, idx + 1) == 0
    &&& s.subrange(idx, idx + op.len()) == op
}

/// The first position at which `op` splits `s`.
pub open spec fn split_index(s: Seq<char>, op: Seq<char>) -> Option<int> {
    if exists|idx: int| splits_at(s, op, idx) {
        Some(choose|idx: int| splits_at(s, op, idx) && forall|j: int| 0 <= j < idx ==> !#[trigger] splits_at(s, op, j))
    } else {
        None
    }
}

/// Splits `expr` around the first occurrence of `op` that stands outside all
/// parentheses. An empty `op` splits at the first position outside all
/// parentheses, which must exist.
pub fn split_top_level(expr: &str, op: &str) -> (r: Option<(String, String)>)
    requires
        op@.len() > 0 || split_index(expr@, op@) is Some,
    ensures
        match split_index(expr@, op@) {
            Some(idx) => r matches Some((left, right)) && left@ == expr@.take(idx) && right@ == expr@.skip(idx + op@.len()),
            None => r is None,
        },
{
    let cs = chars_of(expr);
    let os = chars_of(op);
    let ghost s = expr@;
    let n = cs.len();
    let m = os.len();
    let mut opens: usize = 0;
    let mut closes: usize = 0;
    let mut idx: usize = 0;
    while idx < n && m <= n - idx
        invariant
            cs@ == s,
            s == expr@,
            os@ == op@,
            n == s.len(),
            m == op@.len(),
            idx <= n,
            opens - closes == paren_depth(s, idx as int),
            opens + closes <= idx,
            forall|j: int| 0 <= j < idx ==> !#[trigger] splits_at(s, op@, j),
        decreases n - idx,
    {
        let ch = cs[idx];
        if ch == '(' {
            opens = opens + 1;
        } else if ch == ')' {
            closes = closes + 1;
        }
        assert(opens - closes == paren_depth(s, idx + 1));
        let mut same = true;
        let mut k: usize = 0;
        while k < m
            invariant
                cs@ == s,
                os@ == op@,
                n == s.len(),
                m == op@.len(),
                idx + m <= n,
                k <= m,
                same == forall|q: int| 0 <= q < k ==> s[idx + q] == op@[q],
            decreases m - k,
        {
            if cs[idx + k] != os[k] {
                same = false;
            }
            k += 1;
        }
        proof {
            if same {
                assert(s.subrange(idx as int, idx + m) =~= op@);
            } else {
                if s.subrange(idx as int, idx + m) == op@ {
                    assert forall|q: int| 0 <= q < m implies s[idx + q] == op@[q] by {
                        assert(s.subrange(idx as int, idx + m)[q] == s[idx + q]);
                    }
                }
            }
        }
        if opens == closes && same {
            proof {
                assert(splits_at(s, op@, idx as int));
                assert(splits_at(s, op@, idx as int) && forall|j: int| 0 <= j < idx ==> !#[trigger] splits_at(s, op@, j));
                let c = choose|c: int| splits_at(s, op@, c) && forall|j: int| 0 <= j < c ==> !#[trigger] splits_at(s, op@, j);
                if c < idx {
                    assert(!splits_at(s, op@, c));
                } else if c > idx {
                    assert(!splits_at(s, op@, idx as int));
                }
                assert(split_index(s, op@) == Some(idx as int));
            }
            let left = string_from_range(&cs, 0, idx);
            let right = string_from_range(&cs, idx + m, n);
            assert(s.subrange(0, idx as int) =~= s.take(idx as int));
            assert(s.subrange(idx + m, n as int) =~= s.skip(idx + m));
            assert(left@ == expr@.take(idx as int));
            assert(right@ == expr@.skip(idx + op@.len()));
            let r = Some((left, right));
            assert(r matches Some((left, right)) && left@ == expr@.take(idx as int) && right@ == expr@.skip(idx + op@.len()));
            return r;
        }
        idx += 1;
    }
    proof {
        assert forall|j: int| !splits_at(s, op@, j) by {
            if 0 <= j && j >= idx && m > 0 {
                assert(j + m > n);
            }
        }
        assert(!exists|j: int| splits_at(s, op@, j));
        assert(split_index(s, op@) is None);
    }
    None
}

/// A comparison of a condition.
#[derive(Debug, Clone, Copy, PartialEq, Eq, Structural)]
pub enum CompareOp {
    Ge,
    Le,
    Eq,
    Ne,
    Gt,
    Lt,
}

/// The text of a comparison.
pub open spec fn op_text(op: CompareOp) -> Seq<char> {
    match op {
        CompareOp::Ge => seq!['>', '='],
        CompareOp::Le => seq!['<', '='],
        CompareOp::Eq => seq!['=', '='],
        CompareOp::Ne => seq!['!', '='],
        CompareOp::Gt => seq!['>'],
        CompareOp::Lt => seq!['<'],
    }
}

/// The comparisons in the order in which a condition is searched for them.
pub open spec fn op_candidate(k: int) -> CompareOp {
    if k == 0 {
        CompareOp::Ge
    } else if k == 1 {
        CompareOp::Le
    } else if k == 2 {
        CompareOp::Eq
    } else if k == 3 {
        CompareOp::Ne
    } else if k == 4 {
        CompareOp::Gt
    } else {
        CompareOp::Lt
    }
}

/// The first comparison, from candidate `k` on, that splits `s`.
pub open spec fn first_comparison(s: Seq<char>, k: int) -> Option<CompareOp>
    decreases 6 - k,
{
    if k >= 6 || k < 0 {
        None
    } else if split_index(s, op_text(op_candidate(k))) is Some {
        Some(op_candidate(k))
    } else {
        first_comparison(s, k + 1)
    }
}

/// A branch condition: a comparison of two expressions, or an expression
/// that holds when it is not zero.
#[derive(Debug)]
pub enum Condition {
    Compare(CompareOp, Expr, Expr),
    NonZero(Expr),
}

pub enum ConditionTree {
    Compare(CompareOp, ExprTree, ExprTree),
    NonZero(ExprTree),
}

pub open spec fn condition_view(c: Condition) -> ConditionTree {
    match c {
        Condition::Compare(op, a, b) => ConditionTree::Compare(op, expr_view(a), expr_view(b)),
        Condition::NonZero(a) => ConditionTree::NonZero(expr_view(a)),
    }
}

/// The reading of a condition, or the expression that failed to read and
/// the message.
pub open spec fn read_condition(s: Seq<char>) -> Result<ConditionTree, (Seq<char>, Seq<char>)> {
    match first_comparison(s, 0) {
        Some(op) => {
            let idx = split_index(s, op_text(op))->0;
            let l = trimmed(s.take(idx));
            let r = trimmed(s.skip(idx + op_text(op).len()));
            match read_expression(l) {
                Err(m) => Err((l, m)),
                Ok(a) => match read_expression(r) {
                    Err(m) => Err((r, m)),
                    Ok(b) => Ok(ConditionTree::Compare(op, a, b)),
                },
            }
        },
        None => match read_expression(s) {
            Err(m) => Err((s, m)),
            Ok(a) => Ok(ConditionTree::NonZero(a)),
        },
    }
}

fn op_string(op: CompareOp) -> (r: String)
    ensures
        r@ == op_text(op),
{
    let mut r = String::new();
    match op {
        CompareOp::Ge => {
            crate::text::push_char(&mut r, '>');
            crate::text::push_char(&mut r, '=');
        },
        CompareOp::Le => {
            crate::text::push_char(&mut r, '<');
            crate::text::push_char(&mut r, '=');
        },
        CompareOp::Eq => {
            crate::text::push_char(&mut r, '=');
            crate::text::push_char(&mut r, '=');
        },
        CompareOp::Ne => {
            crate::text::push_char(&mut r, '!');
            crate::text::push_char(&mut r, '=');
        },
        CompareOp::Gt => {
            crate::text::push_char(&mut r, '>');
        },
        CompareOp::Lt => {
            crate::text::push_char(&mut r, '<');
        },
    }
    r
}

fn candidate(k: usize) -> (op: CompareOp)
    ensures
        op == op_candidate(k as int),
{
    if k == 0 {
        CompareOp::Ge
    } else if k == 1 {
        CompareOp::Le
    } else if k == 2 {
        CompareOp::Eq
    } else if k == 3 {
        CompareOp::Ne
    } else if k == 4 {
        CompareOp::Gt
    } else {
        CompareOp::Lt
    }
}

/// Comparison `op` is written at position `idx` of `s`, outside all
/// parentheses; the text before it, trimmed, reads as `a` and the text
/// after it as `b`.
pub open spec fn written_between(s: Seq<char>, op: CompareOp, a: ExprTree, b: ExprTree, idx: int) -> bool {
    &&& 0 <= idx
    &&& idx + op_text(op).len() <= s.len()
    &&& s.subrange(idx, idx + op_text(op).len()) == op_text(op)
    &&& paren_depth(s, idx + 1) == 0
    &&& read_expression(trimmed(s.take(idx))) == Ok::<ExprTree, Seq<char>>(a)
    &&& read_expression(trimmed(s.skip(idx + op_text(op).len()))) == Ok::<ExprTree, Seq<char>>(b)
}

/// The comparisons are written `>=`, `<=`, `==`, `!=`, `>`, `<`.
pub proof fn lemma_comparison_texts(op: CompareOp)
    ensures
        op == CompareOp::Ge ==> op_text(op) == seq!['>', '='],
        op == CompareOp::Le ==> op_text(op) == seq!['<', '='],
        op == CompareOp::Eq ==> op_text(op) == seq!['=', '='],
        op == CompareOp::Ne ==> op_text(op) == seq!['!', '='],
        op == CompareOp::Gt ==> op_text(op) == seq!['>'],
        op == CompareOp::Lt ==> op_text(op) == seq!['<'],
{
}

/// A comparison read from a condition is written in it, outside all
/// parentheses, between its two operands: the text before it reads as the
/// left operand and the text after it as the right one.
pub proof fn lemma_comparison_in_place(s: Seq<char>, op: CompareOp, a: ExprTree, b: ExprTree)
    requires
        read_condition(s) == Ok::<ConditionTree, (Seq<char>, Seq<char>)>(ConditionTree::Compare(op, a, b)),
    ensures
        exists|idx: int| #[trigger] written_between(s, op, a, b, idx),
{
    assert(first_comparison(s, 0) is Some);
    let o = first_comparison(s, 0)->0;
    lemma_first_comparison_splits(s, 0);
    lemma_split_index_splits(s, op_text(o));
    let idx = split_index(s, op_text(o))->0;
    let l = trimmed(s.take(idx));
    let r = trimmed(s.skip(idx + op_text(o).len()));
    assert(o == op && read_expression(l) == Ok::<ExprTree, Seq<char>>(a) && read_expression(r) == Ok::<ExprTree, Seq<char>>(b)) by {
        assert(read_condition(s) == match read_expression(l) {
            Err(m) => Err((l, m)),
            Ok(x) => match read_expression(r) {
                Err(m) => Err((r, m)),
                Ok(y) => Ok(ConditionTree::Compare(o, x, y)),
            },
        });
    }
    assert(splits_at(s, op_text(op), idx));
    assert(written_between(s, op, a, b, idx));
}

proof fn lemma_first_comparison_splits(s: Seq<char>, k: int)
    requires
        first_comparison(s, k) is Some,
    ensures
        split_index(s, op_text(first_comparison(s, k)->0)) is Some,
    decreases 6 - k,
{
    if 0 <= k < 6 && split_index(s, op_text(op_candidate(k))) is None {
        lemma_first_comparison_splits(s, k + 1);
    }
}

proof fn lemma_minimal_split(s: Seq<char>, op: Seq<char>, w: int)
    requires
        splits_at(s, op, w),
    ensures
        exists|m: int| splits_at(s, op, m) && forall|j: int| 0 <= j < m ==> !#[trigger] splits_at(s, op, j),
    decreases w,
{
    if exists|j: int| 0 <= j < w && splits_at(s, op, j) {
        let j = choose|j: int| 0 <= j < w && splits_at(s, op, j);
        lemma_minimal_split(s, op, j);
    } else {
        assert(splits_at(s, op, w) && forall|j: int| 0 <= j < w ==> !#[trigger] splits_at(s, op, j));
    }
}

proof fn lemma_split_index_splits(s: Seq<char>, op: Seq<char>)
    requires
        split_index(s, op) is Some,
    ensures
        splits_at(s, op, split_index(s, op)->0),
{
    let w = choose|idx: int| splits_at(s, op, idx);
    lemma_minimal_split(s, op, w);
}

/// Reads a branch condition: split around the first comparison found (in
/// the order `>=`, `<=`, `==`, `!=`, `>`, `<`) and read both sides, trimmed;
/// with no comparison, read the whole condition as a number.
pub fn plan_condition(expr: &str) -> (r: Result<Condition, DagExecutionError>)
    ensures
        match r {
            Ok(c) => read_condition(expr@) == Ok::<ConditionTree, (Seq<char>, Seq<char>)>(condition_view(c)),
            Err(DagExecutionError::InvalidExpression { expr: e, message }) => read_condition(expr@)
                == Err::<ConditionTree, (Seq<char>, Seq<char>)>((e@, message@)),
            Err(_) => false,
        },
{
    let mut k: usize = 0;
    while k < 6
        invariant
            k <= 6,
            first_comparison(expr@, 0) == first_comparison(expr@, k as int),
        decreases 6 - k,
    {
        let op = candidate(k);
        let ops = op_string(op);
        if let Some((lhs, rhs)) = split_top_level(expr, ops.as_str()) {
            let l = trim(lhs.as_str());
            let r = trim(rhs.as_str());
            let a = parse_numeric(l.as_str())?;
            let b = parse_numeric(r.as_str())?;
            return Ok(Condition::Compare(op, a, b));
        }
        k += 1;
    }
    let a = parse_numeric(expr)?;
    Ok(Condition::NonZero(a))
}


/// The arithmetic that a computing rule applies to its arguments.
#[derive(Debug, Clone, Copy, PartialEq, Eq, Structural)]
pub enum ArithKind {
    Sum,
    Sub,
    Mul,
    Max,
    Clamp,
    Alias,
}

/// What executing a rule amounts to.
#[derive(Debug)]
pub enum RuleAction {
    /// Evaluate the arguments, combine them by `kind`, store under `target`.
    Compute { target: String, kind: ArithKind, args: Vec<Expr> },
    /// Call the named hook and store its result under the rule's target.
    Hook { hook_name: String, target: Option<String> },
    /// Decide the branch by the condition.
    Branch { condition: Condition },
}

/// The arithmetic that a rule kind names.
pub open spec fn arith_kind_named(k: Seq<char>) -> Option<ArithKind> {
    if k == "sum"@ {
        Some(ArithKind::Sum)
    } else if k == "sub"@ {
        Some(ArithKind::Sub)
    } else if k == "mul"@ {
        Some(ArithKind::Mul)
    } else if k == "max"@ {
        Some(ArithKind::Max)
    } else if k == "clamp"@ {
        Some(ArithKind::Clamp)
    } else if k == "alias"@ {
        Some(ArithKind::Alias)
    } else {
        None
    }
}

/// What is wrong with giving `n` arguments to `kind`, if anything.
pub open spec fn arity_problem(kind: ArithKind, n: nat) -> Option<Seq<char>> {
    match kind {
        ArithKind::Sum => None,
        ArithKind::Sub => if n == 0 {
            Some("sub requires at least one argument"@)
        } else {
            None
        },
        ArithKind::Mul => if n == 0 {
            Some("mul requires at least one argument"@)
        } else {
            None
        },
        ArithKind::Max => if n == 0 {
            Some("max requires at least one argument"@)
        } else {
            None
        },
        ArithKind::Clamp => if n != 3 {
            Some("clamp requires exactly 3 arguments: value, min, max"@)
        } else {
            None
        },
        ArithKind::Alias => if n != 1 {
            Some("alias requires exactly one argument"@)
        } else {
            None
        },
    }
}

/// The trees of the arguments from `i` on, or the first argument that fails
/// to read and the message.
pub open spec fn read_args(args: Seq<String>, i: int) -> Result<Seq<ExprTree>, (Seq<char>, Seq<char>)>
    decreases args.len() - i,
{
    if i < 0 || i >= args.len() {
        Ok(Seq::empty())
    } else {
        match read_expression(args[i]@) {
            Err(m) => Err((args[i]@, m)),
            Ok(e) => match read_args(args, i + 1) {
                Err(p) => Err(p),
                Ok(rest) => Ok(seq![e] + rest),
            },
        }
    }
}

pub open spec fn expr_views(es: Seq<Expr>) -> Seq<ExprTree> {
    es.map_values(|e: Expr| expr_view(e))
}

fn kind_is(kind: &String, name: &str) -> (r: bool)
    ensures
        r == (kind@ == name@),
{
    compare_str(kind.as_str(), name) == 0
}

fn read_all_args(args: &Vec<String>) -> (r: Result<Vec<Expr>, DagExecutionError>)
    ensures
        match r {
            Ok(es) => read_args(args@, 0) == Ok::<Seq<ExprTree>, (Seq<char>, Seq<char>)>(expr_views(es@)),
            Err(DagExecutionError::InvalidExpression { expr, message }) => read_args(args@, 0)
                == Err::<Seq<ExprTree>, (Seq<char>, Seq<char>)>((expr@, message@)),
            Err(_) => false,
        },
{
    let mut es: Vec<Expr> = Vec::new();
    let mut i: usize = 0;
    proof {
        assert(expr_views(es@) + Seq::<ExprTree>::empty() =~= expr_views(es@));
        match read_args(args@, 0) {
            Ok(rest) => {
                assert(expr_views(es@) + rest =~= rest);
            },
            Err(_) => {},
        }
    }
    while i < args.len()
        invariant
            i <= args@.len(),
            read_args(args@, 0) == match read_args(args@, i as int) {
                Ok(rest) => Ok::<Seq<ExprTree>, (Seq<char>, Seq<char>)>(expr_views(es@) + rest),
                Err(p) => Err(p),
            },
        decreases args@.len() - i,
    {
        let e = parse_numeric(args[i].as_str())?;
        proof {
            match read_args(args@, i + 1) {
                Ok(rest) => {
                    assert(expr_views(es@.push(e)) + rest =~= expr_views(es@) + (seq![expr_view(e)] + rest));
                },
                Err(_) => {},
            }
        }
        es.push(e);
        i += 1;
    }
    proof {
        assert(expr_views(es@) + Seq::<ExprTree>::empty() =~= expr_views(es@));
    }
    Ok(es)
}

/// What planning a rule gives: the action, or the error met before any
/// hook runs.
pub open spec fn plan_outcome(rule: RuleSpec, r: Result<RuleAction, DagExecutionError>) -> bool {
    match r {
        Ok(RuleAction::Compute { target, kind, args }) => arith_kind_named(rule.kind@) == Some(kind)
            && arity_problem(kind, opt_list(rule.args).len()) is None
            && read_args(opt_list(rule.args), 0) == Ok::<Seq<ExprTree>, (Seq<char>, Seq<char>)>(expr_views(args@))
            && opt_view(rule.target) == Some(target@),
        Ok(RuleAction::Hook { hook_name, target }) => rule.kind@ == "hook"@ && opt_view(rule.hook) == Some(hook_name@)
            && opt_view(target) == opt_view(rule.target),
        Ok(RuleAction::Branch { condition }) => rule.kind@ == "branch"@ && (rule.if_expr matches Some(c)
            && read_condition(c@) == Ok::<ConditionTree, (Seq<char>, Seq<char>)>(condition_view(condition))),
        Err(DagExecutionError::InvalidRuleArguments { rule_id, message }) => rule_id@ == rule.id@ && (
            (arith_kind_named(rule.kind@) matches Some(k) && arity_problem(k, opt_list(rule.args).len()) == Some(message@))
            || (rule.kind@ == "hook"@ && rule.hook is None && message@ == "kind='hook' requires hook name"@)
            || (rule.kind@ == "branch"@ && rule.if_expr is None && message@ == "kind='branch' requires if expression"@)),
        Err(DagExecutionError::InvalidExpression { expr, message }) =>
            (arith_kind_named(rule.kind@) matches Some(k) && arity_problem(k, opt_list(rule.args).len()) is None
                && read_args(opt_list(rule.args), 0) == Err::<Seq<ExprTree>, (Seq<char>, Seq<char>)>((expr@, message@)))
            || (rule.kind@ == "branch"@ && (rule.if_expr matches Some(c)
                && read_condition(c@) == Err::<ConditionTree, (Seq<char>, Seq<char>)>((expr@, message@)))),
        Err(DagExecutionError::MissingRuleTarget(id)) => arith_kind_named(rule.kind@) is Some
            && arity_problem(arith_kind_named(rule.kind@)->0, opt_list(rule.args).len()) is None
            && read_args(opt_list(rule.args), 0) is Ok && rule.target is None && id@ == rule.id@,
        Err(DagExecutionError::UnsupportedRuleKind { rule_id, kind }) => arith_kind_named(rule.kind@) is None
            && rule.kind@ != "hook"@ && rule.kind@ != "branch"@ && rule_id@ == rule.id@ && kind@ == rule.kind@,
        Err(_) => false,
    }
}

/// The arithmetic planned for a rule is the one its kind names, by a fixed
/// table: `sum` sums, `sub` subtracts, `mul` multiplies, `max` takes the
/// largest, `clamp` clamps and `alias` copies; each kind name plans its own
/// arithmetic and no other.
pub proof fn lemma_planned_arithmetic(rule: RuleSpec, target: String, kind: ArithKind, args: Vec<Expr>)
    requires
        plan_outcome(rule, Ok(RuleAction::Compute { target, kind, args })),
    ensures
        rule.kind@ == "sum"@ <==> kind == ArithKind::Sum,
        rule.kind@ == "sub"@ <==> kind == ArithKind::Sub,
        rule.kind@ == "mul"@ <==> kind == ArithKind::Mul,
        rule.kind@ == "max"@ <==> kind == ArithKind::Max,
        rule.kind@ == "clamp"@ <==> kind == ArithKind::Clamp,
        rule.kind@ == "alias"@ <==> kind == ArithKind::Alias,
{
    reveal_strlit("sum");
    reveal_strlit("sub");
    reveal_strlit("mul");
    reveal_strlit("max");
    reveal_strlit("clamp");
    reveal_strlit("alias");
    assert("sum"@[0] == 's' && "sum"@[1] == 'u' && "sum"@[2] == 'm');
    assert("sub"@[0] == 's' && "sub"@[1] == 'u' && "sub"@[2] == 'b');
    assert("mul"@[0] == 'm' && "mul"@[1] == 'u' && "mul"@[2] == 'l');
    assert("max"@[0] == 'm' && "max"@[1] == 'a' && "max"@[2] == 'x');
    assert("clamp"@[0] == 'c' && "alias"@[0] == 'a');
}

proof fn lemma_read_args_each(args: Seq<String>, i: int, rest: Seq<ExprTree>)
    requires
        0 <= i <= args.len(),
        read_args(args, i) == Ok::<Seq<ExprTree>, (Seq<char>, Seq<char>)>(rest),
    ensures
        rest.len() == args.len() - i,
        forall|k: int| 0 <= k < rest.len() ==> read_expression(#[trigger] args[i + k]@) == Ok::<ExprTree, Seq<char>>(rest[k]),
    decreases args.len() - i,
{
    if i < args.len() {
        let e = read_expression(args[i]@)->Ok_0;
        let tail = read_args(args, i + 1)->Ok_0;
        assert(rest == seq![e] + tail);
        lemma_read_args_each(args, i + 1, tail);
        assert forall|k: int| 0 <= k < rest.len() implies read_expression(#[trigger] args[i + k]@) == Ok::<ExprTree, Seq<char>>(rest[k]) by {
            if k > 0 {
                assert(rest[k] == tail[k - 1]);
                assert(args[i + 1 + (k - 1)] == args[i + k]);
            }
        }
    } else {
        assert(rest =~= Seq::<ExprTree>::empty());
    }
}

/// A computing rule's plan keeps its arguments: one expression per
/// argument, in the order written, each the reading of that argument; it
/// stores under the rule's target; and the argument count suits the
/// arithmetic (`clamp` three, `alias` one, `sub`, `mul` and `max` at least
/// one).
pub proof fn lemma_planned_arguments(rule: RuleSpec, target: String, kind: ArithKind, args: Vec<Expr>)
    requires
        plan_outcome(rule, Ok(RuleAction::Compute { target, kind, args })),
    ensures
        opt_view(rule.target) == Some(target@),
        args@.len() == opt_list(rule.args).len(),
        forall|k: int|
            0 <= k < args@.len() ==> read_expression(#[trigger] opt_list(rule.args)[k]@) == Ok::<ExprTree, Seq<char>>(
                expr_view(args@[k]),
            ),
        kind == ArithKind::Clamp ==> args@.len() == 3,
        kind == ArithKind::Alias ==> args@.len() == 1,
        (kind == ArithKind::Sub || kind == ArithKind::Mul || kind == ArithKind::Max) ==> args@.len() >= 1,
{
    let a = opt_list(rule.args);
    lemma_read_args_each(a, 0, expr_views(args@));
    assert forall|k: int| 0 <= k < args@.len() implies read_expression(#[trigger] a[k]@) == Ok::<ExprTree, Seq<char>>(
        expr_view(args@[k]),
    ) by {
        assert(a[0 + k] == a[k]);
        assert(expr_views(args@)[k] == expr_view(args@[k]));
    }
}

/// A hook rule plans a call of the hook it names, stored under its target,
/// and a branch rule plans deciding its own condition: by the kind names
/// `hook` and `branch`.
pub proof fn lemma_planned_hook_or_branch(rule: RuleSpec, action: RuleAction)
    requires
        plan_outcome(rule, Ok(action)),
    ensures
        action matches RuleAction::Hook { hook_name, target } ==> rule.kind@ == "hook"@ && opt_view(rule.hook) == Some(
            hook_name@,
        ) && opt_view(target) == opt_view(rule.target),
        action matches RuleAction::Branch { condition } ==> rule.kind@ == "branch"@ && (rule.if_expr matches Some(c)
            && read_condition(c@) == Ok::<ConditionTree, (Seq<char>, Seq<char>)>(condition_view(condition))),
        rule.kind@ == "hook"@ ==> action is Hook,
        rule.kind@ == "branch"@ ==> action is Branch,
{
    reveal_strlit("hook");
    reveal_strlit("branch");
    reveal_strlit("sum");
    reveal_strlit("sub");
    reveal_strlit("mul");
    reveal_strlit("max");
    reveal_strlit("clamp");
    reveal_strlit("alias");
    assert("hook"@.len() == 4 && "hook"@[0] == 'h');
    assert("branch"@.len() == 6);
    assert("sum"@.len() == 3 && "sub"@.len() == 3 && "mul"@.len() == 3 && "max"@.len() == 3);
    assert("clamp"@.len() == 5 && "alias"@.len() == 5);
}

/// What executing the rule amounts to, or the error that executing it
/// meets before any hook runs.
pub fn plan_rule(rule: &RuleSpec) -> (r: Result<RuleAction, DagExecutionError>)
    ensures
        plan_outcome(*rule, r),
{
    let kind: Option<ArithKind> = if kind_is(&rule.kind, "sum") {
        Some(ArithKind::Sum)
    } else if kind_is(&rule.kind, "sub") {
        Some(ArithKind::Sub)
    } else if kind_is(&rule.kind, "mul") {
        Some(ArithKind::Mul)
    } else if kind_is(&rule.kind, "max") {
        Some(ArithKind::Max)
    } else if kind_is(&rule.kind, "clamp") {
        Some(ArithKind::Clamp)
    } else if kind_is(&rule.kind, "alias") {
        Some(ArithKind::Alias)
    } else {
        None
    };
    assert(kind == arith_kind_named(rule.kind@));
    match kind {
        Some(k) => {
            let empty: Vec<String> = Vec::new();
            let args: &Vec<String> = match &rule.args {
                Some(a) => a,
                None => &empty,
            };
            assert(args@ == opt_list(rule.args));
            let n = args.len();
            let problem: Option<&str> = match k {
                ArithKind::Sum => None,
                ArithKind::Sub => if n == 0 {
                    Some("sub requires at least one argument")
                } else {
                    None
                },
                ArithKind::Mul => if n == 0 {
                    Some("mul requires at least one argument")
                } else {
                    None
                },
                ArithKind::Max => if n == 0 {
                    Some("max requires at least one argument")
                } else {
                    None
                },
                ArithKind::Clamp => if n != 3 {
                    Some("clamp requires exactly 3 arguments: value, min, max")
                } else {
                    None
                },
                ArithKind::Alias => if n != 1 {
                    Some("alias requires exactly one argument")
                } else {
                    None
                },
            };
            if let Some(m) = problem {
                return Err(DagExecutionError::InvalidRuleArguments { rule_id: rule.id.clone(), message: owned(m) });
            }
            let exprs = read_all_args(args)?;
            match &rule.target {
                Some(t) => Ok(RuleAction::Compute { target: t.clone(), kind: k, args: exprs }),
                None => Err(DagExecutionError::MissingRuleTarget(rule.id.clone())),
            }
        },
        None => {
            if kind_is(&rule.kind, "hook") {
                match &rule.hook {
                    Some(h) => Ok(RuleAction::Hook { hook_name: h.clone(), target: crate::schema::clone_opt_string(&rule.target) }),
                    None => Err(DagExecutionError::InvalidRuleArguments {
                        rule_id: rule.id.clone(),
                        message: owned("kind='hook' requires hook name"),
                    }),
                }
            } else if kind_is(&rule.kind, "branch") {
                match &rule.if_expr {
                    Some(c) => {
                        let condition = plan_condition(c.as_str())?;
                        Ok(RuleAction::Branch { condition })
                    },
                    None => Err(DagExecutionError::InvalidRuleArguments {
                        rule_id: rule.id.clone(),
                        message: owned("kind='branch' requires if expression"),
                    }),
                }
            } else {
                Err(DagExecutionError::UnsupportedRuleKind { rule_id: rule.id.clone(), kind: rule.kind.clone() })
            }
        },
    }
}


/// The arguments of a rule; none when it lists none.
pub fn args_for(rule: &RuleSpec) -> (r: &[String])
    ensures
        r@ == opt_list(rule.args),
{
    match &rule.args {
        Some(v) => v.as_slice(),
        None => &[],
    }
}

/// The rule id of a rule node id.
pub open spec fn rule_of_node(s: Seq<char>) -> Option<Seq<char>> {
    if s.len() >= 5 && s.take(5) == seq!['r', 'u', 'l', 'e', ':'] {
        Some(s.skip(5))
    } else {
        None
    }
}

/// The rule id of a rule node id, if the id names a rule node.
pub fn strip_rule_prefix(s: &str) -> (r: Option<String>)
    ensures
        opt_view(r) == rule_of_node(s@),
{
    let cs = chars_of(s);
    let n = cs.len();
    if n >= 5 && cs[0] == 'r' && cs[1] == 'u' && cs[2] == 'l' && cs[3] == 'e' && cs[4] == ':' {
        assert(s@.take(5) =~= seq!['r', 'u', 'l', 'e', ':']);
        let r = string_from_range(&cs, 5, n);
        assert(s@.subrange(5, n as int) =~= s@.skip(5));
        Some(r)
    } else {
        proof {
            if s@.len() >= 5 && s@.take(5) == seq!['r', 'u', 'l', 'e', ':'] {
                assert(s@.take(5)[0] == s@[0]);
                assert(s@.take(5)[1] == s@[1]);
                assert(s@.take(5)[2] == s@[2]);
                assert(s@.take(5)[3] == s@[3]);
                assert(s@.take(5)[4] == s@[4]);
            }
        }
        None
    }
}

pub open spec fn is_control(k: DagEdgeKind) -> bool {
    k == DagEdgeKind::ControlThen || k == DagEdgeKind::ControlElse
}

/// The branch rules that gate rule `t`, each with the kind of its edge, in
/// edge order.
pub open spec fn control_preds(edges: Seq<DagEdge>, t: Seq<char>) -> Seq<(Seq<char>, DagEdgeKind)>
    decreases edges.len(),
{
    if edges.len() == 0 {
        Seq::empty()
    } else {
        let rest = control_preds(edges.drop_last(), t);
        let e = edges.last();
        if is_control(e.kind) && rule_of_node(e.from@) is Some && rule_of_node(e.to@) == Some(t) {
            rest.push((rule_of_node(e.from@)->0, e.kind))
        } else {
            rest
        }
    }
}

pub open spec fn pred_views(v: Seq<(String, DagEdgeKind)>) -> Seq<(Seq<char>, DagEdgeKind)> {
    v.map_values(|p: (String, DagEdgeKind)| (p.0@, p.1))
}

fn clone_preds(v: &Vec<(String, DagEdgeKind)>) -> (r: Vec<(String, DagEdgeKind)>)
    ensures
        pred_views(r@) == pred_views(v@),
{
    let mut r: Vec<(String, DagEdgeKind)> = Vec::new();
    let mut i: usize = 0;
    while i < v.len()
        invariant
            i <= v@.len(),
            r@.len() == i,
            forall|j: int| 0 <= j < i ==> #[trigger] r@[j].0@ == v@[j].0@ && r@[j].1 == v@[j].1,
        decreases v@.len() - i,
    {
        r.push((v[i].0.clone(), v[i].1));
        i += 1;
    }
    assert(pred_views(r@) =~= pred_views(v@));
    r
}

/// For each rule that some branch gates, the gating branch rules.
pub fn control_predecessors(dag: &ExecutionDag) -> (r: StrMap<Vec<(String, DagEdgeKind)>>)
    ensures
        forall|t: Seq<char>| #[trigger] r.contains(t) == (control_preds(dag.edges@, t).len() > 0),
        forall|t: Seq<char>| r.contains(t) ==> pred_views(#[trigger] r.value_of(t)@) == control_preds(dag.edges@, t),
{
    let mut r: StrMap<Vec<(String, DagEdgeKind)>> = StrMap::new();
    let mut k: usize = 0;
    while k < dag.edges.len()
        invariant
            k <= dag.edges@.len(),
            forall|t: Seq<char>| #[trigger] r.contains(t) == (control_preds(dag.edges@.take(k as int), t).len() > 0),
            forall|t: Seq<char>| r.contains(t) ==> pred_views(#[trigger] r.value_of(t)@) == control_preds(dag.edges@.take(k as int), t),
        decreases dag.edges@.len() - k,
    {
        proof {
            use_type_invariant(&r);
        }
        let ghost r0 = r;
        let ghost es = dag.edges@;
        let e = &dag.edges[k];
        proof {
            assert(es.take(k + 1).drop_last() =~= es.take(k as int));
            assert(es.take(k + 1).last() == *e);
        }
        let control = match e.kind {
            DagEdgeKind::ControlThen => true,
            DagEdgeKind::ControlElse => true,
            DagEdgeKind::Data => false,
        };
        if control {
            if let Some(from_rule) = strip_rule_prefix(e.from.as_str()) {
                if let Some(to_rule) = strip_rule_prefix(e.to.as_str()) {
                    let ghost tr = to_rule@;
                    let ghost fr = from_rule@;
                    let mut list = match r.get(to_rule.as_str()) {
                        Some(v) => clone_preds(v),
                        None => Vec::new(),
                    };
                    let ghost l0 = list@;
                    list.push((from_rule, e.kind));
                    proof {
                        assert(pred_views(list@) =~= pred_views(l0).push((fr, e.kind)));
                        if !r0.contains(tr) {
                            assert(pred_views(l0) =~= Seq::<(Seq<char>, DagEdgeKind)>::empty());
                        }
                    }
                    let ghost lv = list;
                    r.insert(to_rule, list);
                    proof {
                        assert forall|t: Seq<char>| r.contains(t) implies pred_views(#[trigger] r.value_of(t)@) == control_preds(es.take(k + 1), t) by {
                            assert(r.map_view()[t] == r.value_of(t));
                            if t != tr {
                                assert(r0.map_view()[t] == r0.value_of(t));
                            }
                        }
                    }
                    k += 1;
                    continue;
                }
            }
        }
        proof {
            assert forall|t: Seq<char>| r.contains(t) implies pred_views(#[trigger] r.value_of(t)@) == control_preds(es.take(k + 1), t) by {
            }
        }
        k += 1;
    }
    assert(dag.edges@.take(k as int) == dag.edges@);
    r
}

/// Every gating branch has been decided, and each decided the way that
/// opens the gated rule.
pub open spec fn gates_open(preds: Seq<(Seq<char>, DagEdgeKind)>, decisions: Map<Seq<char>, bool>) -> bool {
    forall|i: int|
        0 <= i < preds.len() ==> decisions.contains_key(#[trigger] preds[i].0) && (preds[i].1
            == DagEdgeKind::ControlThen ==> decisions[preds[i].0]) && (preds[i].1 == DagEdgeKind::ControlElse
            ==> !decisions[preds[i].0])
}

/// Whether a rule may run, given the branch decisions so far: a rule that no
/// branch gates always may.
pub fn is_rule_enabled(
    rule_id: &str,
    control_predecessors: &StrMap<Vec<(String, DagEdgeKind)>>,
    branch_decisions: &StrMap<bool>,
) -> (r: bool)
    ensures
        r == (!control_predecessors.contains(rule_id@) || gates_open(
            pred_views(control_predecessors.value_of(rule_id@)@),
            branch_decisions.map_view(),
        )),
{
    let preds = match control_predecessors.get(rule_id) {
        None => return true,
        Some(p) => p,
    };
    let ghost pv = pred_views(preds@);
    let mut i: usize = 0;
    while i < preds.len()
        invariant
            i <= preds@.len(),
            pv == pred_views(preds@),
            control_predecessors.contains(rule_id@),
            *preds == control_predecessors.value_of(rule_id@),
            gates_open(pv.take(i as int), branch_decisions.map_view()),
        decreases preds@.len() - i,
    {
        let (branch_rule_id, edge_kind) = (&preds[i].0, preds[i].1);
        let decision = match branch_decisions.get(branch_rule_id.as_str()) {
            None => {
                assert(pv[i as int].0 == branch_rule_id@);
                assert(!gates_open(pv, branch_decisions.map_view()));
                return false;
            },
            Some(d) => *d,
        };
        assert(branch_decisions.map_view()[branch_rule_id@] == decision);
        let enabled = match edge_kind {
            DagEdgeKind::ControlThen => decision,
            DagEdgeKind::ControlElse => !decision,
            DagEdgeKind::Data => true,
        };
        if !enabled {
            assert(pv[i as int] == (branch_rule_id@, edge_kind));
            assert(pv[i as int].0 == branch_rule_id@);
            assert(branch_decisions.map_view()[pv[i as int].0] == decision);
            assert(!gates_open(pv, branch_decisions.map_view()));
            return false;
        }
        proof {
            assert forall|j: int| 0 <= j < i + 1 implies branch_decisions.map_view().contains_key(#[trigger] pv.take(i + 1)[j].0)
                && (pv.take(i + 1)[j].1 == DagEdgeKind::ControlThen ==> branch_decisions.map_view()[pv.take(i + 1)[j].0])
                && (pv.take(i + 1)[j].1 == DagEdgeKind::ControlElse ==> !branch_decisions.map_view()[pv.take(i + 1)[j].0]) by {
                if j < i {
                    assert(pv.take(i + 1)[j] == pv.take(i as int)[j]);
                }
            }
        }
        i += 1;
    }
    assert(pv.take(i as int) == pv);
    true
}

/// The rule ids of the rule nodes among the node ids `o`, in order.
pub open spec fn rules_in_order(dag: ExecutionDag, o: Seq<Seq<char>>) -> Seq<Seq<char>>
    decreases o.len(),
{
    if o.len() == 0 {
        Seq::empty()
    } else {
        let rest = rules_in_order(dag, o.drop_last());
        let id = o.last();
        if dag.nodes.contains(id) && dag.nodes.value_of(id).kind == DagNodeKind::Rule && rule_of_node(id) is Some {
            rest.push(rule_of_node(id)->0)
        } else {
            rest
        }
    }
}

/// A node of the DAG that stands for a rule.
pub open spec fn is_rule_node(dag: ExecutionDag, id: Seq<char>) -> bool {
    dag.nodes.contains(id) && dag.nodes.value_of(id).kind == DagNodeKind::Rule && rule_of_node(id) is Some
}

/// The rules of a prefix of an order come first, in the same order, among
/// the rules of a longer prefix.
proof fn lemma_rules_prefix(dag: ExecutionDag, o: Seq<Seq<char>>, m: int, n: int)
    requires
        0 <= m <= n <= o.len(),
    ensures
        rules_in_order(dag, o.take(m)).len() <= rules_in_order(dag, o.take(n)).len(),
        forall|k: int|
            0 <= k < rules_in_order(dag, o.take(m)).len() ==> #[trigger] rules_in_order(dag, o.take(n))[k]
                == rules_in_order(dag, o.take(m))[k],
    decreases n - m,
{
    if n > m {
        lemma_rules_prefix(dag, o, m, n - 1);
        assert(o.take(n).drop_last() =~= o.take(n - 1));
    }
}

/// The rules of a prefix that ends with a rule node end with that rule.
proof fn lemma_rules_last(dag: ExecutionDag, o: Seq<Seq<char>>, i: int)
    requires
        0 <= i < o.len(),
        is_rule_node(dag, o[i]),
    ensures
        rules_in_order(dag, o.take(i + 1)).len() == rules_in_order(dag, o.take(i)).len() + 1,
        rules_in_order(dag, o.take(i + 1)).last() == rule_of_node(o[i])->0,
{
    assert(o.take(i + 1).drop_last() =~= o.take(i));
    assert(o.take(i + 1).last() == o[i]);
}

/// Run order follows the DAG: when an edge leads from one rule to another,
/// the first rule comes before the second among the rules of any
/// topological order of the DAG (the order in which an execution takes
/// them up).
pub proof fn lemma_run_order_follows_edges(dag: ExecutionDag, o: Seq<Seq<char>>, k: int)
    requires
        dag.is_topological_order(o),
        0 <= k < dag.edges@.len(),
        is_rule_node(dag, dag.edges@[k].from@),
        is_rule_node(dag, dag.edges@[k].to@),
    ensures
        exists|p: int, q: int|
            0 <= p < q < rules_in_order(dag, o).len() && rules_in_order(dag, o)[p] == rule_of_node(
                dag.edges@[k].from@,
            )->0 && rules_in_order(dag, o)[q] == rule_of_node(dag.edges@[k].to@)->0,
{
    let e = dag.edges@[k];
    assert(dag.nodes.contains(e.to@));
    let (i, j) = choose|i: int, j: int| 0 <= i < j < o.len() && o[i] == e.from@ && o[j] == e.to@;
    lemma_rules_last(dag, o, i);
    lemma_rules_last(dag, o, j);
    lemma_rules_prefix(dag, o, i + 1, j);
    lemma_rules_prefix(dag, o, j + 1, o.len() as int);
    lemma_rules_prefix(dag, o, i + 1, o.len() as int);
    assert(o.take(o.len() as int) =~= o);
    let full = rules_in_order(dag, o);
    let p = rules_in_order(dag, o.take(i + 1)).len() - 1;
    let q = rules_in_order(dag, o.take(j + 1)).len() - 1;
    assert(full[p] == rules_in_order(dag, o.take(i + 1))[p]);
    assert(full[q] == rules_in_order(dag, o.take(j + 1))[q]);
    assert(0 <= p < q < full.len());
}

proof fn lemma_rule_of_node_injective(a: Seq<char>, b: Seq<char>)
    requires
        rule_of_node(a) is Some,
        rule_of_node(a) == rule_of_node(b),
    ensures
        a == b,
{
    assert(a =~= a.take(5) + a.skip(5));
    assert(b =~= b.take(5) + b.skip(5));
}

/// Where rule `m` of the rules of `o` comes from: a rule node of `o`,
/// preceded by exactly `m` rule nodes.
proof fn lemma_rule_index(dag: ExecutionDag, o: Seq<Seq<char>>, m: int)
    requires
        0 <= m < rules_in_order(dag, o).len(),
    ensures
        exists|q: int|
            0 <= q < o.len() && is_rule_node(dag, o[q]) && rules_in_order(dag, o.take(q)).len() == m
                && rules_in_order(dag, o)[m] == rule_of_node(#[trigger] o[q])->0,
    decreases o.len(),
{
    let rest = rules_in_order(dag, o.drop_last());
    if m < rest.len() {
        lemma_rule_index(dag, o.drop_last(), m);
        let q = choose|q: int|
            0 <= q < o.drop_last().len() && is_rule_node(dag, o.drop_last()[q]) && rules_in_order(dag, o.drop_last().take(q)).len()
                == m && rest[m] == rule_of_node(#[trigger] o.drop_last()[q])->0;
        assert(o.drop_last().take(q) =~= o.take(q));
        assert(o.drop_last()[q] == o[q]);
        assert(rules_in_order(dag, o)[m] == rest[m]);
    } else {
        let q = o.len() - 1;
        assert(o.take(q) =~= o.drop_last());
        assert(o[q] == o.last());
    }
}

/// The branch rules that gate a rule come from control edges into it.
proof fn lemma_control_pred_edge(edges: Seq<DagEdge>, t: Seq<char>, i: int)
    requires
        0 <= i < control_preds(edges, t).len(),
    ensures
        exists|k: int|
            0 <= k < edges.len() && is_control(edges[k].kind) && rule_of_node(#[trigger] edges[k].from@) == Some(
                control_preds(edges, t)[i].0,
            ) && rule_of_node(edges[k].to@) == Some(t),
    decreases edges.len(),
{
    let rest = control_preds(edges.drop_last(), t);
    if i < rest.len() {
        lemma_control_pred_edge(edges.drop_last(), t, i);
        let k = choose|k: int|
            0 <= k < edges.drop_last().len() && is_control(edges.drop_last()[k].kind) && rule_of_node(
                #[trigger] edges.drop_last()[k].from@,
            ) == Some(rest[i].0) && rule_of_node(edges.drop_last()[k].to@) == Some(t);
        assert(edges.drop_last()[k] == edges[k]);
        assert(control_preds(edges, t)[i] == rest[i]);
    } else {
        let k = edges.len() - 1;
        assert(edges[k] == edges.last());
    }
}

/// The rules of a topological order of a DAG are distinct.
pub proof fn lemma_rules_distinct(dag: ExecutionDag, o: Seq<Seq<char>>)
    requires
        dag.is_topological_order(o),
    ensures
        rules_in_order(dag, o).no_duplicates(),
{
    let ro = rules_in_order(dag, o);
    assert forall|a: int, b: int| 0 <= a < ro.len() && 0 <= b < ro.len() && a != b implies ro[a] != ro[b] by {
        lemma_rule_index(dag, o, a);
        lemma_rule_index(dag, o, b);
        let qa = choose|q: int|
            0 <= q < o.len() && is_rule_node(dag, o[q]) && rules_in_order(dag, o.take(q)).len() == a && ro[a]
                == rule_of_node(#[trigger] o[q])->0;
        let qb = choose|q: int|
            0 <= q < o.len() && is_rule_node(dag, o[q]) && rules_in_order(dag, o.take(q)).len() == b && ro[b]
                == rule_of_node(#[trigger] o[q])->0;
        if ro[a] == ro[b] {
            lemma_rule_of_node_injective(o[qa], o[qb]);
        }
    }
}

/// Among the rules of a topological order of a DAG, no rule is gated by
/// itself or by a rule that comes after it.
pub proof fn lemma_gates_come_first(dag: ExecutionDag, o: Seq<Seq<char>>, j: int, m: int, i: int)
    requires
        dag.is_topological_order(o),
        0 <= j <= m < rules_in_order(dag, o).len(),
        0 <= i < control_preds(dag.edges@, rules_in_order(dag, o)[j]).len(),
    ensures
        control_preds(dag.edges@, rules_in_order(dag, o)[j])[i].0 != rules_in_order(dag, o)[m],
{
    let ro = rules_in_order(dag, o);
    let edges = dag.edges@;
    let b = control_preds(edges, ro[j])[i].0;
    if b == ro[m] {
        lemma_control_pred_edge(edges, ro[j], i);
        let k = choose|k: int|
            0 <= k < edges.len() && is_control(edges[k].kind) && rule_of_node(#[trigger] edges[k].from@) == Some(b)
                && rule_of_node(edges[k].to@) == Some(ro[j]);
        let e = edges[k];
        lemma_rule_index(dag, o, j);
        lemma_rule_index(dag, o, m);
        let qj = choose|q: int|
            0 <= q < o.len() && is_rule_node(dag, o[q]) && rules_in_order(dag, o.take(q)).len() == j && ro[j]
                == rule_of_node(#[trigger] o[q])->0;
        let qm = choose|q: int|
            0 <= q < o.len() && is_rule_node(dag, o[q]) && rules_in_order(dag, o.take(q)).len() == m && ro[m]
                == rule_of_node(#[trigger] o[q])->0;
        lemma_rule_of_node_injective(o[qj], e.to@);
        lemma_rule_of_node_injective(o[qm], e.from@);
        assert(dag.nodes.contains(o[qj]));
        assert(dag.nodes.contains(dag.edges@[k].to@));
        let (p, q) = choose|p: int, q: int| 0 <= p < q < o.len() && o[p] == dag.edges@[k].from@ && o[q] == dag.edges@[k].to@;
        assert(p == qm);
        assert(q == qj);
        lemma_rules_last(dag, o, qm);
        lemma_rules_prefix(dag, o, qm + 1, qj);
    }
}

/// The rules in the order in which they run: the rule nodes of a
/// topological order of the DAG.
pub fn rule_sequence(dag: &ExecutionDag) -> (r: Result<Vec<String>, DagExecutionError>)
    ensures
        match r {
            Ok(seq) => dag.is_topological_order(dag.kahn_order()) && string_views(seq@) == rules_in_order(*dag, dag.kahn_order()),
            Err(DagExecutionError::InvalidRuleArguments { rule_id, message }) => !dag.is_acyclic()
                && rule_id@ == "<dag>"@ && message@ == "cycle detected in execution DAG"@,
            Err(_) => false,
        },
{
    let topo = match dag.topological_order() {
        Ok(t) => t,
        Err(_) => {
            return Err(DagExecutionError::InvalidRuleArguments {
                rule_id: owned("<dag>"),
                message: owned("cycle detected in execution DAG"),
            });
        },
    };
    let ghost o = string_views(topo@);
    let mut seq: Vec<String> = Vec::new();
    let mut i: usize = 0;
    while i < topo.len()
        invariant
            i <= topo@.len(),
            o == string_views(topo@),
            string_views(seq@) == rules_in_order(*dag, o.take(i as int)),
        decreases topo@.len() - i,
    {
        proof {
            assert(o.take(i + 1).drop_last() =~= o.take(i as int));
            assert(o.take(i + 1).last() == topo@[i as int]@);
        }
        let ghost s0 = seq@;
        match dag.nodes.get(topo[i].as_str()) {
            Some(node) => {
                let is_rule = match node.kind {
                    DagNodeKind::Rule => true,
                    DagNodeKind::Field => false,
                };
                if is_rule {
                    if let Some(rid) = strip_rule_prefix(topo[i].as_str()) {
                        seq.push(rid);
                        assert(string_views(seq@) =~= string_views(s0).push(rule_of_node(o[i as int])->0));
                    }
                }
            },
            None => {},
        }
        i += 1;
    }
    assert(o.take(i as int) == o);
    Ok(seq)
}

/// The position of the rule with this id (the last, should ids repeat).
pub fn find_rule(schema: &RuleSchema, rule_id: &str) -> (r: Option<usize>)
    ensures
        match r {
            Some(i) => i < schema.rules@.len() && schema.rules@[i as int].id@ == rule_id@
                && forall|j: int| i < j < schema.rules@.len() ==> schema.rules@[j].id@ != rule_id@,
            None => forall|j: int| 0 <= j < schema.rules@.len() ==> schema.rules@[j].id@ != rule_id@,
        },
{
    let mut i = schema.rules.len();
    while i > 0
        invariant
            i <= schema.rules@.len(),
            forall|j: int| i <= j < schema.rules@.len() ==> schema.rules@[j].id@ != rule_id@,
        decreases i,
    {
        if compare_str(schema.rules[i - 1].id.as_str(), rule_id) == 0 {
            return Some(i - 1);
        }
        i -= 1;
    }
    None
}

} // verus!
