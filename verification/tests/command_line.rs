use ots::cli::{parse_command, usage, Command, CommandError, YearError};

fn args(items: &[&str]) -> Vec<String> {
    items.iter().map(|s| s.to_string()).collect()
}

#[test]
fn parses_run_command_with_default_year() {
    let c = parse_command(args(&["run", "US_1040", "in.txt"]), 2025).unwrap();
    assert_eq!(
        c,
        Command::Run { form_name: "US_1040".to_string(), file_path: "in.txt".to_string(), year: 2025 }
    );
}

#[test]
fn takes_the_last_year_option() {
    let c = parse_command(args(&["run", "f", "p", "--year", "2024", "--year", "+2023"]), 2025).unwrap();
    assert_eq!(c, Command::Run { form_name: "f".to_string(), file_path: "p".to_string(), year: 2023 });
}

#[test]
fn reports_command_line_errors() {
    assert_eq!(parse_command(args(&["run", "f"]), 2025), Err(CommandError::Usage));
    assert_eq!(parse_command(args(&["check", "f", "p"]), 2025), Err(CommandError::Usage));
    assert_eq!(parse_command(args(&["run", "f", "p", "--year"]), 2025), Err(CommandError::MissingYearValue));
    assert_eq!(
        parse_command(args(&["run", "f", "p", "--year", "20x5"]), 2025),
        Err(CommandError::InvalidYear(YearError::InvalidDigit))
    );
    assert_eq!(
        parse_command(args(&["run", "f", "p", "--year", "70000"]), 2025),
        Err(CommandError::InvalidYear(YearError::PosOverflow))
    );
    assert_eq!(
        parse_command(args(&["run", "f", "p", "--year", ""]), 2025),
        Err(CommandError::InvalidYear(YearError::Empty))
    );
    assert_eq!(
        parse_command(args(&["run", "f", "p", "--verbose"]), 2025),
        Err(CommandError::UnknownArgument("--verbose".to_string()))
    );
    assert!(usage().starts_with("usage:"));
}
