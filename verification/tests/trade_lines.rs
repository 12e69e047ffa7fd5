use ots::trades::{
    capital_gain_trades, is_date_like_token, is_long_term_trade, parse_date_token, parse_money_like_token,
    split_words, strip_brace_comment, text_lines, TradeDate,
};

#[test]
fn strips_brace_comments() {
    assert_eq!(strip_brace_comment("100 {note} 200"), "100 ");
    assert_eq!(strip_brace_comment("no comment"), "no comment");
}

#[test]
fn recognizes_date_like_tokens() {
    assert!(is_date_like_token("1/2/2024"));
    assert!(is_date_like_token("12-31-99"));
    assert!(!is_date_like_token("1/2"));
    assert!(!is_date_like_token("1/2/20x4"));
}

#[test]
fn parses_dates_with_two_digit_years() {
    assert_eq!(parse_date_token("3/15/24"), Some(TradeDate { year: 2024, month: 3, day: 15 }));
    assert_eq!(parse_date_token("12-31-99"), Some(TradeDate { year: 1999, month: 12, day: 31 }));
    assert_eq!(parse_date_token("2/29/2023"), None);
    assert_eq!(parse_date_token("2/29/2024"), Some(TradeDate { year: 2024, month: 2, day: 29 }));
    assert_eq!(parse_date_token("1/2/3/4"), None);
    assert_eq!(parse_date_token("1-2/2024"), None);
}

#[test]
fn decides_long_term_trades() {
    let buy = parse_date_token("1/1/2023");
    assert!(!is_long_term_trade(buy, parse_date_token("1/1/2024")));
    assert!(is_long_term_trade(buy, parse_date_token("1/2/2024")));
    assert!(!is_long_term_trade(None, parse_date_token("1/2/2024")));
}

#[test]
fn reads_money_tokens() {
    assert_eq!(parse_money_like_token("1,234.50"), Some("1234.50".to_string()));
    assert_eq!(parse_money_like_token("1/2/2024"), None);
    assert_eq!(parse_money_like_token("abc"), None);
    assert_eq!(parse_money_like_token("inf"), None);
}

#[test]
fn splits_lines_and_words() {
    assert_eq!(text_lines("a\r\nb\n\nc"), vec!["a", "b", "", "c"]);
    assert_eq!(text_lines("a\n"), vec!["a"]);
    assert_eq!(split_words("  x  y\tz "), vec!["x", "y", "z"]);
}

#[test]
fn reads_trades_from_capital_gains_sections() {
    let input = "L1 5\nCapGains-A-Long:\n 1,000.00 1/5/2022 {buy}\n 1500 6/1/2023\n 25\n 200 3/1/2024\n 300 4/1/2024\n\n ~\n;\n 999\n";
    let trades = capital_gain_trades(input);
    assert_eq!(trades.len(), 2);
    assert_eq!(trades[0].buy, "1000.00");
    assert_eq!(trades[0].sell, "1500");
    assert_eq!(trades[0].adjustment.as_deref(), Some("25"));
    assert_eq!(trades[0].buy_date, Some(TradeDate { year: 2022, month: 1, day: 5 }));
    assert!(is_long_term_trade(trades[0].buy_date, trades[0].sell_date));
    assert_eq!(trades[1].adjustment, None);
    assert!(!is_long_term_trade(trades[1].buy_date, trades[1].sell_date));
}
