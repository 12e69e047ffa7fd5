use ots::forms::{
    bracket_set_for_status, derives_capital_gains, first_mismatched_table, BracketSet, is_mfj_hoh_or_widow, is_mfs, is_single_or_mfs, list_registered_forms, normalize_form_name,
    require_form, resolve_form, FormRegistryError, StatusCodes,
};

#[test]
fn resolves_registered_form() {
    let registration = resolve_form("US_1040", 2025).unwrap();
    assert_eq!(registration.canonical_name, "US1040");
    assert_eq!(registration.rules_file, "data/2025/us1040.rules.toml");

    let nj_registration = resolve_form("NJ_1040", 2025).unwrap();
    assert_eq!(nj_registration.canonical_name, "NJ1040");
    assert_eq!(nj_registration.rules_file, "data/2025/nj1040.rules.toml");
}

#[test]
fn resolves_aliases_and_rejects_other_years() {
    assert_eq!(resolve_form("1040", 2025).unwrap().canonical_name, "US1040");
    assert_eq!(resolve_form("nj-1040", 2025).unwrap().year, 2025);
    assert!(resolve_form("US_1040", 2024).is_none());
    assert!(resolve_form("CA540", 2025).is_none());
}

#[test]
fn rejects_unknown_form_or_year() {
    let error = require_form("US_1040", 2024).unwrap_err();
    assert!(matches!(error, FormRegistryError::UnsupportedForm { year: 2024, ref form } if form == "US_1040"));
}

#[test]
fn lists_registered_forms() {
    assert_eq!(list_registered_forms(), vec!["US1040 (2025)".to_string(), "NJ1040 (2025)".to_string()]);
}

#[test]
fn normalizes_form_names() {
    assert_eq!(normalize_form_name("US_1040-a"), "us1040a");
}

#[test]
fn only_the_federal_form_derives_capital_gains() {
    assert!(derives_capital_gains("us1040", 2025));
    assert!(!derives_capital_gains("nj1040", 2025));
    assert!(!derives_capital_gains("us1040", 2024));
}

#[test]
fn classifies_filing_statuses() {
    let codes = StatusCodes {
        single: 1,
        married_filing_jointly: 2,
        married_filing_separately: 3,
        head_of_household: 4,
        widow: 5,
    };
    assert!(is_single_or_mfs(1, &codes));
    assert!(is_single_or_mfs(3, &codes));
    assert!(!is_single_or_mfs(2, &codes));
    assert!(is_mfj_hoh_or_widow(2, &codes));
    assert!(is_mfj_hoh_or_widow(4, &codes));
    assert!(is_mfj_hoh_or_widow(5, &codes));
    assert!(!is_mfj_hoh_or_widow(1, &codes));
    assert!(is_mfs(3, &codes));
    assert!(!is_mfs(1, &codes));
}

#[test]
fn picks_federal_bracket_sets() {
    let codes = StatusCodes {
        single: 1,
        married_filing_jointly: 2,
        married_filing_separately: 3,
        head_of_household: 4,
        widow: 5,
    };
    assert_eq!(bracket_set_for_status(1, &codes), BracketSet::Single);
    assert_eq!(bracket_set_for_status(5, &codes), BracketSet::MarriedFilingJointly);
    assert_eq!(bracket_set_for_status(3, &codes), BracketSet::MarriedFilingSeparately);
    assert_eq!(bracket_set_for_status(4, &codes), BracketSet::HeadOfHousehold);
    assert_eq!(bracket_set_for_status(9, &codes), BracketSet::Single);
}

#[test]
fn finds_malformed_bracket_tables() {
    assert_eq!(first_mismatched_table(&vec![(3, 2), (4, 3)]), None);
    assert_eq!(first_mismatched_table(&vec![(3, 2), (3, 3), (1, 1)]), Some(1));
    assert_eq!(first_mismatched_table(&vec![(0, usize::MAX)]), Some(0));
}
