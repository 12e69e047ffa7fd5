use ots::form::{
    input_field_seeds, output_source, FieldSeed, OutputSource, enum_key_matches, enum_tokens_match, field_value_to_bool, find_state_entry_normalized, tokenize_enum_value,
    FieldValue, FormField, FormState,
};
use ots::schema::{FieldSpec, RuleSchema};
use ots::text::normalize_name;

fn entry(label: &str, value: FieldValue) -> FormField {
    FormField { label: label.to_string(), value, raw_tokens: Vec::new(), terminated_by_semicolon: false }
}

#[test]
fn reads_values_as_yes_no() {
    assert!(field_value_to_bool(&FieldValue::Bool(true)));
    assert!(!field_value_to_bool(&FieldValue::Integer(0)));
    assert!(field_value_to_bool(&FieldValue::Integer(-3)));
    assert!(!field_value_to_bool(&FieldValue::Number("0.000".to_string())));
    assert!(!field_value_to_bool(&FieldValue::Number("-0e5".to_string())));
    assert!(field_value_to_bool(&FieldValue::Number("0.5".to_string())));
    assert!(field_value_to_bool(&FieldValue::Text("  Yes ".to_string())));
    assert!(!field_value_to_bool(&FieldValue::Text("no".to_string())));
    assert!(field_value_to_bool(&FieldValue::List(vec![FieldValue::Text("y".to_string()), FieldValue::Bool(false)])));
    assert!(!field_value_to_bool(&FieldValue::List(Vec::new())));
    assert!(!field_value_to_bool(&FieldValue::Null));
}

#[test]
fn finds_entries_exactly_then_by_normalized_name() {
    let mut state = FormState::new();
    assert!(state.is_empty());
    state.push(entry("You_65+Over?", FieldValue::Bool(true)));
    state.push(entry("L1", FieldValue::Integer(1)));
    state.push(entry("l1", FieldValue::Integer(2)));
    assert_eq!(state.len(), 3);
    assert_eq!(find_state_entry_normalized(&state, "l1").unwrap().value, FieldValue::Integer(2));
    assert_eq!(find_state_entry_normalized(&state, "L-1").unwrap().value, FieldValue::Integer(1));
    assert_eq!(find_state_entry_normalized(&state, "you65over").unwrap().label, "You_65+Over?");
    assert!(find_state_entry_normalized(&state, "L2").is_none());
    assert_eq!(state.entries().len(), 3);
}

#[test]
fn normalizes_names() {
    assert_eq!(normalize_name("You_65+Over?"), "you65over");
}

#[test]
fn splits_enum_answers_into_words() {
    assert_eq!(tokenize_enum_value("Married/Joint"), vec!["married", "joint"]);
    assert_eq!(tokenize_enum_value("--"), vec![""]);
}

#[test]
fn matches_enum_keys() {
    let words = tokenize_enum_value("Married Filing Jointly");
    assert!(enum_tokens_match(&words, "marriedfilingjointly"));
    assert!(!enum_tokens_match(&words, "single"));
    assert!(!enum_tokens_match(&[], "single"));
    assert!(enum_key_matches("Married/Joint", "married_filing_jointly"));
    assert!(enum_key_matches("Single", "single"));
    assert!(enum_key_matches("HoH", "hoh"));
    assert!(!enum_key_matches("Widow", "single"));
}

#[test]
fn seeds_input_fields_from_entries_or_defaults() {
    let field = |id: &str, source: &str, default: Option<u64>| FieldSpec {
        id: id.to_string(),
        source: source.to_string(),
        field_type: "money".to_string(),
        default,
        enum_ref: None,
        label: None,
    };
    let mut schema = RuleSchema::new();
    schema.fields.push(field("L1", "input", None));
    schema.fields.push(field("L2", "computed", None));
    schema.fields.push(field("L3", "input_list", Some(7)));
    schema.fields.push(field("L4", "input", None));
    schema.fields.push(field("you_blind", "input", None));
    let mut state = FormState::new();
    state.push(entry("L1", FieldValue::Integer(1)));
    state.push(entry("L2", FieldValue::Integer(2)));
    state.push(entry("You_Blind?", FieldValue::Bool(true)));
    assert_eq!(
        input_field_seeds(&schema, &state),
        vec![(0, FieldSeed::Entry(0)), (2, FieldSeed::Default), (4, FieldSeed::Entry(2))]
    );
}

#[test]
fn output_prefers_computed_then_entry_then_default() {
    let mut with_default = FieldSpec {
        id: "L9".to_string(),
        source: "computed".to_string(),
        field_type: "money".to_string(),
        default: Some(3),
        enum_ref: None,
        label: None,
    };
    let mut state = FormState::new();
    assert_eq!(output_source(&with_default, true, &state), OutputSource::Computed);
    assert_eq!(output_source(&with_default, false, &state), OutputSource::Default);
    state.push(entry("l9", FieldValue::Integer(4)));
    assert_eq!(output_source(&with_default, false, &state), OutputSource::Entry(0));
    with_default.id = "L10".to_string();
    with_default.default = None;
    assert_eq!(output_source(&with_default, false, &state), OutputSource::Empty);
}

#[test]
fn normalizing_twice_changes_nothing() {
    for raw in ["You_65+Over?", "Married/Joint", "ÄbC-12", ""] {
        let once = normalize_name(raw);
        assert_eq!(normalize_name(&once), once);
    }
}

#[test]
fn first_entry_is_first_of_all_entries() {
    let mut state = FormState::new();
    state.push(entry("A", FieldValue::Integer(1)));
    state.push(entry("B", FieldValue::Integer(2)));
    state.push(entry("A", FieldValue::Integer(3)));
    let all = state.get_all("A");
    assert_eq!(all.len(), 2);
    assert_eq!(state.get_first("A").unwrap().value, all[0].value);
    assert_eq!(all[1].value, FieldValue::Integer(3));
    assert!(state.get_first("C").is_none());
    assert!(state.get_all("C").is_empty());
}

#[test]
fn numbers_read_as_no_exactly_when_they_parse_to_zero() {
    let two_to_minus_1075 = format!("{}e-1075", five_to_1075());
    let literals = [
        "0", "0.000", "-0e5", "+0.0e-12", "0.5", "1e-400", "1e-330", "9.9e-325", "2.4703282292062327e-324",
        "2.4703282292062328e-324", "2.47032822920623272e-324", "2.470328229206232721e-324", "5e-324", "1e-323",
        "4e-324", "1e400", "123.45e-2", ".5e-320", "1.e0", "inf", "-Infinity", "NaN", "00000.000001e-318",
        "100000000000000000000000000000e-353", "1e-99999999999999999999999999", "1e99999999999999999999999999",
    ];
    for lit in literals.iter() {
        let expected = lit.parse::<f64>().unwrap() != 0.0;
        assert_eq!(field_value_to_bool(&FieldValue::Number(lit.to_string())), expected, "{}", lit);
    }
    let exact = two_to_minus_1075;
    assert_eq!(exact.parse::<f64>().unwrap(), 0.0);
    assert!(!field_value_to_bool(&FieldValue::Number(exact.clone())));
    let above = exact.replacen("e-1075", "1e-1075", 1);
    assert!(above.parse::<f64>().unwrap() != 0.0);
    assert!(field_value_to_bool(&FieldValue::Number(above)));
}

/// The decimal digits of 5^1075, so that `digits e-1075` is exactly 2^-1075.
fn five_to_1075() -> String {
    let mut digits: Vec<u32> = vec![1];
    for _ in 0..1075 {
        let mut carry = 0;
        for d in digits.iter_mut() {
            let x = *d * 5 + carry;
            *d = x % 10;
            carry = x / 10;
        }
        while carry > 0 {
            digits.push(carry % 10);
            carry /= 10;
        }
    }
    digits.iter().rev().map(|d| char::from(b'0' + *d as u8)).collect()
}
