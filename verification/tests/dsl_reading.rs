use ots::dsl::{detect_round_to_whole_dollars, is_label_like, DslCursor, DslError};
use ots::form::FieldValue;
use ots::lexer::{lex_form_file, Token};

#[test]
fn parses_bool_and_na() {
    let input = "Flag Y\nFlag2 n/a\n";
    let mut dsl = DslCursor::new(input).unwrap();
    dsl.set_not_app_value(7);
    assert_eq!(dsl.get_yes_no_single_line("Flag").unwrap(), 1);
    assert_eq!(dsl.get_yes_no_single_line("Flag2").unwrap(), 7);
}

#[test]
fn parses_line_text() {
    let input = "Your1stName:  Alice Mary {ignored}\n";
    let mut dsl = DslCursor::new(input).unwrap();
    let text = dsl.get_line_string("Your1stName:").unwrap();
    assert_eq!(text, "Alice Mary");
}

#[test]
fn lexes_words_semicolons_comments_and_quotes() {
    let tokens = lex_form_file("L1 $12 {a comment\nover lines} ;\n\"two words\" \"a \\\"b\\\" c\" \"say \\\"hi\\\"\"").unwrap();
    assert_eq!(
        tokens,
        vec![
            Token::Word("L1".to_string()),
            Token::Word("12".to_string()),
            Token::Semicolon,
            Token::Newline,
            Token::Word("two words".to_string()),
            Token::Word("a \"b\" c".to_string()),
            // Surrounding quotes are trimmed greedily, so an escaped quote
            // at the very end is trimmed with them.
            Token::Word("say \"hi\\".to_string()),
        ]
    );
}

#[test]
fn lexing_rejects_unterminated_comment_and_quote() {
    assert_eq!(lex_form_file("L1 {open").unwrap_err(), "unterminated comment");
    assert_eq!(lex_form_file("L1 \"open").unwrap_err(), "unterminated quoted word");
    assert!(matches!(DslCursor::new("{x"), Err(DslError::Lex(ref m)) if m == "unterminated comment"));
}

#[test]
fn expect_label_reports_what_it_found() {
    let mut dsl = DslCursor::new("L1 ;\n").unwrap();
    assert!(matches!(
        dsl.expect_label("L2"),
        Err(DslError::UnexpectedLabel { ref expected, ref found }) if expected == "L2" && found == "L1"
    ));
    assert!(matches!(
        dsl.expect_label("L2"),
        Err(DslError::UnexpectedLabel { ref found, .. }) if found == ";"
    ));
    assert!(matches!(dsl.expect_label("L2"), Err(DslError::UnexpectedEof("label"))));
}

#[test]
fn reads_integers_within_range() {
    let mut dsl = DslCursor::new("Dependents 3\nX -2147483648 +7 2147483648 abc ;").unwrap();
    dsl.expect_label("Dependents").unwrap();
    assert_eq!(dsl.read_int().unwrap(), 3);
    dsl.expect_label("X").unwrap();
    assert_eq!(dsl.read_int().unwrap(), i32::MIN);
    assert_eq!(dsl.read_int().unwrap(), 7);
    assert!(matches!(dsl.read_int(), Err(DslError::InvalidInt(ref s)) if s == "2147483648"));
    assert!(matches!(dsl.read_int(), Err(DslError::InvalidInt(ref s)) if s == "abc"));
    assert!(matches!(dsl.read_int(), Err(DslError::InvalidInt(ref s)) if s == ";"));
    assert!(matches!(dsl.read_int(), Err(DslError::UnexpectedEof("int"))));
}

#[test]
fn reads_yes_no_answers() {
    let mut dsl = DslCursor::new("A yes\nB No\nC 1\nD maybe\nE ;\n").unwrap();
    dsl.set_not_app_value(-1);
    assert_eq!(dsl.get_yes_no("A").unwrap(), 1);
    assert_eq!(dsl.get_yes_no("B").unwrap(), 0);
    assert_eq!(dsl.get_yes_no("C").unwrap(), 1);
    assert!(matches!(dsl.get_yes_no("D"), Err(DslError::InvalidBool(ref s)) if s == "maybe"));
    assert!(matches!(dsl.get_yes_no("E"), Err(DslError::InvalidBool(ref s)) if s == ";"));
    assert!(matches!(dsl.read_bool(), Err(DslError::UnexpectedEof("bool"))));
}

#[test]
fn single_line_answer_may_be_left_out() {
    let mut dsl = DslCursor::new("A\nB N/A\nC").unwrap();
    dsl.set_not_app_value(5);
    assert_eq!(dsl.get_yes_no_single_line("A").unwrap(), 5);
    assert_eq!(dsl.get_yes_no_single_line("B").unwrap(), 5);
    assert_eq!(dsl.get_yes_no_single_line("C").unwrap(), 5);
}

#[test]
fn reads_float_literals_with_rounding_flags() {
    let input = "\nL1a\n  1000.25 {comment}\n  99.75\n  ;\nL2 1.4 Round_to_Whole_Dollars Y 2.6 ;\nL3 x ;\n";
    let mut dsl = DslCursor::new(input).unwrap();
    dsl.expect_label("L1a").unwrap();
    let values = dsl.read_float_literals_until_semicolon().unwrap();
    assert_eq!(values, vec![("1000.25".to_string(), false), ("99.75".to_string(), false)]);
    let total: f64 = values.iter().map(|(v, _)| v.parse::<f64>().unwrap()).sum();
    assert!((total - 1100.0).abs() < 1e-9);
    dsl.expect_label("L2").unwrap();
    let values = dsl.read_float_literals_until_semicolon().unwrap();
    assert_eq!(values, vec![("1.4".to_string(), false), ("2.6".to_string(), true)]);
    assert!(dsl.round_to_whole_dollars);
    dsl.expect_label("L3").unwrap();
    assert!(matches!(dsl.read_float_literals_until_semicolon(), Err(DslError::InvalidFloat(ref s)) if s == "x"));
}

#[test]
fn reads_single_float_literal() {
    let mut dsl = DslCursor::new("L1 12.5\nL2 1e3x").unwrap();
    dsl.expect_label("L1").unwrap();
    assert_eq!(dsl.read_float_literal().unwrap(), "12.5");
    dsl.expect_label("L2").unwrap();
    assert!(matches!(dsl.read_float_literal(), Err(DslError::InvalidFloat(ref s)) if s == "1e3x"));
    assert!(matches!(dsl.read_float_literal(), Err(DslError::UnexpectedEof("float"))));
}

#[test]
fn reads_strings_up_to_semicolon() {
    let mut dsl = DslCursor::new("Name John\n Q Public ;\nRest").unwrap();
    dsl.expect_label("Name").unwrap();
    assert_eq!(dsl.read_string_until_semicolon().unwrap(), "John Q Public");
    dsl.expect_label("Rest").unwrap();
    assert!(matches!(dsl.read_string_until_semicolon(), Err(DslError::UnexpectedEof("string-list"))));
}

#[test]
fn line_text_keeps_semicolons_and_stops_at_line_end() {
    let mut dsl = DslCursor::new("Title: A ; B\nNext").unwrap();
    assert_eq!(dsl.get_line_string("Title:").unwrap(), "A ; B");
    dsl.expect_label("Next").unwrap();
}

#[test]
fn validate_complete_reads_to_the_end() {
    let mut dsl = DslCursor::new("a b ; c\n\n d").unwrap();
    dsl.validate_complete();
    assert!(matches!(dsl.expect_label("a"), Err(DslError::UnexpectedEof("label"))));
}

#[test]
fn reads_statements_into_form_state() {
    let input = "Status Married/Joint\nL1a 20,267.70\n 28188.53 ;\nRollover ;\nRollover 5 ;\nFlag y\nL2 3\nL3 ~\n";
    let state = DslCursor::parse_form_state(input).unwrap();
    assert_eq!(state.len(), 7);
    assert_eq!(state.get_first("Status").unwrap().value, FieldValue::Text("Married/Joint".to_string()));
    let l1a = state.get_first("L1a").unwrap();
    assert_eq!(
        l1a.value,
        FieldValue::List(vec![FieldValue::Number("20267.70".to_string()), FieldValue::Number("28188.53".to_string())])
    );
    assert!(l1a.terminated_by_semicolon);
    let rollovers = state.get_all("Rollover");
    assert_eq!(rollovers.len(), 2);
    assert_eq!(rollovers[0].value, FieldValue::Null);
    assert_eq!(rollovers[1].value, FieldValue::Integer(5));
    assert_eq!(state.get_first("Flag").unwrap().value, FieldValue::Bool(true));
    assert!(!state.get_first("Flag").unwrap().terminated_by_semicolon);
    assert_eq!(state.get_first("L3").unwrap().value, FieldValue::Null);
}

#[test]
fn statement_continues_on_lines_that_do_not_start_with_a_label() {
    let state = DslCursor::parse_form_state("Amounts 10\n 20\n\n 30\nL2_total 4\nNotes first line\n more words").unwrap();
    assert_eq!(state.len(), 4);
    let amounts = state.get_first("Amounts").unwrap();
    assert_eq!(amounts.raw_tokens, vec!["10", "20", "30"]);
    assert!(!amounts.terminated_by_semicolon);
    assert_eq!(state.get_first("Notes").unwrap().raw_tokens, vec!["first", "line"]);
    assert_eq!(state.get_first("more").unwrap().raw_tokens, vec!["words"]);
}

#[test]
fn labels_look_like_labels() {
    assert!(is_label_like("L1:"));
    assert!(is_label_like("Spouse_Blind?"));
    assert!(is_label_like("Status"));
    assert!(!is_label_like("1,000.50"));
    assert!(!is_label_like("~"));
    assert!(!is_label_like(""));
    assert!(!is_label_like("-x"));
    assert!(is_label_like("inf_total"));
    assert!(!is_label_like("inf"));
}

#[test]
fn detects_round_to_whole_dollars_answer() {
    let state = DslCursor::parse_form_state("L1 2\nRound_To_Whole_Dollars: yes\n").unwrap();
    assert!(detect_round_to_whole_dollars(&state));
    assert!(!detect_round_to_whole_dollars(&DslCursor::parse_form_state("L1 2\n").unwrap()));
    let state = DslCursor::parse_form_state("RoundToWholeDollars: N\n").unwrap();
    assert!(!detect_round_to_whole_dollars(&state));
    let state = DslCursor::parse_form_state("Round_To_Whole_Dollars: 1\n").unwrap();
    assert!(detect_round_to_whole_dollars(&state));
}

#[test]
fn round_pragma_marks_following_numbers() {
    let input = "Round_to_Whole_Dollars Y\nL2 1.49 1.49 ;\n";
    let mut dsl = DslCursor::new(input).unwrap();
    dsl.expect_label("L2").unwrap();
    assert!(dsl.round_to_whole_dollars);
    let values = dsl.read_float_literals_until_semicolon().unwrap();
    assert_eq!(values, vec![("1.49".to_string(), true), ("1.49".to_string(), true)]);
}
