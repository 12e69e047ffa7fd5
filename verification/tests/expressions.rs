use ots::literal::looks_like_number;
use ots::references::extract_references;
use ots::expr::{parse_numeric, tokenize, DagExecutionError, Expr, NumericToken};
use ots::plan::{plan_condition, split_top_level, CompareOp, Condition};

#[test]
fn tokenizes_expressions() {
    let tokens = tokenize("(1 - ApplyTo2025/100)").unwrap();
    assert_eq!(tokens.len(), 7);
    assert!(matches!(tokens[0], NumericToken::LParen));
    assert!(matches!(tokens[1], NumericToken::Number(ref n) if n == "1"));
    assert!(matches!(tokens[3], NumericToken::Identifier(ref n) if n == "ApplyTo2025"));
    assert!(matches!(
        tokenize("1..2"),
        Err(DagExecutionError::InvalidExpression { ref message, .. }) if message == "invalid number '1..2'"
    ));
    assert!(matches!(
        tokenize("a $ b"),
        Err(DagExecutionError::InvalidExpression { ref expr, ref message }) if expr == "a $ b" && message == "unexpected character '$'"
    ));
}

#[test]
fn parses_arithmetic_expressions() {
    match parse_numeric("L24 - L33").unwrap() {
        Expr::Sub(a, b) => {
            assert!(matches!(*a, Expr::Variable(ref v) if v == "L24"));
            assert!(matches!(*b, Expr::Variable(ref v) if v == "L33"));
        }
        other => panic!("unexpected tree {other:?}"),
    }
    match parse_numeric("(1 - ApplyTo2025/100)").unwrap() {
        Expr::Sub(a, b) => {
            assert!(matches!(*a, Expr::Number(ref n) if n == "1"));
            assert!(matches!(*b, Expr::Div(_, _)));
        }
        other => panic!("unexpected tree {other:?}"),
    }
    match plan_condition("L33 > L24").unwrap() {
        Condition::Compare(op, a, b) => {
            assert_eq!(op, CompareOp::Gt);
            assert!(matches!(a, Expr::Variable(ref v) if v == "L33"));
            assert!(matches!(b, Expr::Variable(ref v) if v == "L24"));
        }
        _ => panic!("expected a comparison"),
    }
}

#[test]
fn parse_errors_name_the_expression() {
    let check = |text: &str, msg: &str| {
        assert!(matches!(
            parse_numeric(text),
            Err(DagExecutionError::InvalidExpression { ref expr, ref message }) if expr == text && message == msg
        ));
    };
    check("", "unexpected end of expression");
    check("(1 + 2", "unclosed parenthesis");
    check("1 2", "unexpected trailing tokens");
    check("*", "unexpected token");
}

#[test]
fn precedence_and_unary_minus() {
    match parse_numeric("-a * b + c").unwrap() {
        Expr::Add(l, r) => {
            assert!(matches!(*r, Expr::Variable(ref v) if v == "c"));
            match *l {
                Expr::Mul(x, _) => assert!(matches!(*x, Expr::Neg(_))),
                other => panic!("unexpected {other:?}"),
            }
        }
        other => panic!("unexpected {other:?}"),
    }
}

#[test]
fn splits_at_top_level_only() {
    assert_eq!(split_top_level("(a >= b) >= c", ">="), Some(("(a >= b) ".to_string(), " c".to_string())));
    assert_eq!(split_top_level("(a >= b)", ">="), None);
    assert_eq!(split_top_level("a<b", ">="), None);
}

#[test]
fn conditions_prefer_two_character_operators() {
    assert!(matches!(plan_condition("a >= b"), Ok(Condition::Compare(CompareOp::Ge, _, _))));
    assert!(matches!(plan_condition("a != 0"), Ok(Condition::Compare(CompareOp::Ne, _, _))));
    assert!(matches!(plan_condition("flag"), Ok(Condition::NonZero(_))));
}

#[test]
fn extracts_references() {
    assert_eq!(
        extract_references("L9 + L1 * 2 - refund.rate"),
        vec!["L1".to_string(), "L9".to_string(), "refund.rate".to_string()]
    );
    assert!(looks_like_number("1e5"));
    assert!(looks_like_number("-.5"));
    assert!(looks_like_number("NaN"));
    assert!(!looks_like_number("1e"));
    assert!(!looks_like_number("."));
}

#[test]
fn empty_operator_splits_at_first_top_level_position() {
    assert_eq!(split_top_level("(a)b", ""), Some(("(a".to_string(), ")b".to_string())));
    assert_eq!(split_top_level("x", ""), Some(("".to_string(), "x".to_string())));
}
