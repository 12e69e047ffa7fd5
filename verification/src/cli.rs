//! The command line of the form runner: `run <form-name> <file-path>
//! [--year <year>]`.

use vstd::prelude::*;

use crate::text::{chars_of, str_eq, string_views};

verus! {

/// A command of the form runner.
#[derive(Debug, PartialEq, Eq)]
pub enum Command {
    Run { form_name: String, file_path: String, year: u16 },
}

/// Why a year could not be read (the kinds of `str::parse` errors).
#[derive(Debug, Clone, Copy, PartialEq, Eq, Structural)]
pub enum YearError {
    Empty,
    InvalidDigit,
    PosOverflow,
}

/// Why a command line could not be read.
#[derive(Debug, PartialEq, Eq)]
pub enum CommandError {
    /// The command line does not have the shape the usage text gives.
    Usage,
    /// `--year` is the last argument.
    MissingYearValue,
    /// The value after `--year` is not a year.
    InvalidYear(YearError),
    /// An argument that the command does not take.
    UnknownArgument(String),
}

/// The usage text.
pub fn usage() -> (r: &'static str)
    ensures
        r@ == "usage:\n  ots run <form-name> <file-path> [--year <year>]"@,
{
    "usage:\n  ots run <form-name> <file-path> [--year <year>]"
}

pub open spec fn digit_value(c: char) -> int {
    c as int - '0' as int
}

/// Reading the digits of `s` from `i` on into `acc` as a 16-bit unsigned
/// number: the first character that is not a digit is an invalid digit,
/// unless the value has passed 65535 before it.
pub open spec fn u16_digits(s: Seq<char>, i: int, acc: int) -> Result<u16, YearError>
    decreases s.len() - i,
{
    if i < 0 || i >= s.len() {
        Ok(acc as u16)
    } else if !('0' <= s[i] && s[i] <= '9') {
        Err(YearError::InvalidDigit)
    } else if acc * 10 + digit_value(s[i]) > 65535 {
        Err(YearError::PosOverflow)
    } else {
        u16_digits(s, i + 1, acc * 10 + digit_value(s[i]))
    }
}

/// Reading a 16-bit unsigned number: an optional `+`, then digits.
pub open spec fn parse_u16(s: Seq<char>) -> Result<u16, YearError> {
    if s.len() == 0 {
        Err(YearError::Empty)
    } else if s[0] == '+' {
        if s.len() == 1 {
            Err(YearError::InvalidDigit)
        } else {
            u16_digits(s, 1, 0)
        }
    } else {
        u16_digits(s, 0, 0)
    }
}

/// Reads a 16-bit unsigned number.
pub fn parse_year(s: &str) -> (r: Result<u16, YearError>)
    ensures
        r == parse_u16(s@),
{
    let cs = chars_of(s);
    let n = cs.len();
    if n == 0 {
        return Err(YearError::Empty);
    }
    let start: usize = if cs[0] == '+' {
        if n == 1 {
            return Err(YearError::InvalidDigit);
        }
        1
    } else {
        0
    };
    let mut acc: u32 = 0;
    let mut i = start;
    while i < n
        invariant
            start <= i <= n,
            n == s@.len(),
            cs@ == s@,
            acc <= 65535,
            parse_u16(s@) == u16_digits(s@, i as int, acc as int),
        decreases n - i,
    {
        let c = cs[i];
        if !('0' <= c && c <= '9') {
            return Err(YearError::InvalidDigit);
        }
        let d = (c as u32) - ('0' as u32);
        let next = acc * 10 + d;
        if next > 65535 {
            return Err(YearError::PosOverflow);
        }
        acc = next;
        i += 1;
    }
    Ok(acc as u16)
}

/// Reading the options from `i` on, `year` being the year so far.
pub open spec fn options_from(args: Seq<Seq<char>>, i: int, year: u16) -> Result<u16, CommandErrorView>
    decreases args.len() - i,
{
    if i < 0 || i >= args.len() {
        Ok(year)
    } else if args[i] == "--year"@ {
        if i + 1 >= args.len() {
            Err(CommandErrorView::MissingYearValue)
        } else {
            match parse_u16(args[i + 1]) {
                Ok(y) => options_from(args, i + 2, y),
                Err(k) => Err(CommandErrorView::InvalidYear(k)),
            }
        }
    } else {
        Err(CommandErrorView::UnknownArgument(args[i]))
    }
}

/// A command-line error as a mathematical value.
pub enum CommandErrorView {
    Usage,
    MissingYearValue,
    InvalidYear(YearError),
    UnknownArgument(Seq<char>),
}

pub open spec fn command_error_view(e: CommandError) -> CommandErrorView {
    match e {
        CommandError::Usage => CommandErrorView::Usage,
        CommandError::MissingYearValue => CommandErrorView::MissingYearValue,
        CommandError::InvalidYear(k) => CommandErrorView::InvalidYear(k),
        CommandError::UnknownArgument(a) => CommandErrorView::UnknownArgument(a@),
    }
}

/// Reads the arguments of the form runner (without the program name); the
/// year defaults to `default_year`.
pub fn parse_command(args: Vec<String>, default_year: u16) -> (r: Result<Command, CommandError>)
    ensures
        ({
            let a = string_views(args@);
            if a.len() < 3 || a[0] != "run"@ {
                r matches Err(CommandError::Usage)
            } else {
                match options_from(a, 3, default_year) {
                    Ok(y) => r matches Ok(Command::Run { form_name, file_path, year }) && form_name@ == a[1]
                        && file_path@ == a[2] && year == y,
                    Err(e) => r matches Err(x) && command_error_view(x) == e,
                }
            }
        }),
{
    let ghost a = string_views(args@);
    if args.len() < 3 || !str_eq(args[0].as_str(), "run") {
        return Err(CommandError::Usage);
    }
    assert(a[0] == args@[0]@);
    let mut year = default_year;
    let mut i: usize = 3;
    while i < args.len()
        invariant
            3 <= i <= args@.len(),
            a == string_views(args@),
            a.len() >= 3,
            a[0] == "run"@,
            options_from(a, 3, default_year) == options_from(a, i as int, year),
        decreases args@.len() - i,
    {
        assert(a[i as int] == args@[i as int]@);
        if str_eq(args[i].as_str(), "--year") {
            if i + 1 >= args.len() {
                return Err(CommandError::MissingYearValue);
            }
            assert(a[i + 1] == args@[i + 1]@);
            match parse_year(args[i + 1].as_str()) {
                Ok(y) => {
                    year = y;
                },
                Err(k) => {
                    return Err(CommandError::InvalidYear(k));
                },
            }
            i += 2;
        } else {
            return Err(CommandError::UnknownArgument(args[i].clone()));
        }
    }
    assert(a[1] == args@[1]@);
    assert(a[2] == args@[2]@);
    Ok(Command::Run { form_name: args[1].clone(), file_path: args[2].clone(), year })
}

} // verus!
