//! The registry of supported forms, and the filing-status tests that the
//! forms' computations share.

use vstd::prelude::*;

use crate::text::{append_str, normalize_name, normalized, owned, push_char, str_eq, string_views};

verus! {

/// Why a form's computations could not be set up.
#[derive(Debug)]
pub enum FormRegistryError {
    UnsupportedForm { year: u16, form: String },
    HookRegistration { year: u16, form: &'static str, source: String },
}

/// A supported form: its canonical name, tax year and rules file.
#[derive(Debug, Clone, PartialEq, Eq)]
pub struct RegisteredForm {
    pub canonical_name: &'static str,
    pub year: u16,
    pub rules_file: &'static str,
}

/// One entry of the registry: a form and the names it is known by.
pub struct FormRegistration {
    pub canonical_name: &'static str,
    pub year: u16,
    pub rules_file: &'static str,
    pub aliases: Vec<&'static str>,
}

/// An entry of the registry as a mathematical value.
pub struct RegistrationView {
    pub canonical_name: Seq<char>,
    pub year: u16,
    pub rules_file: Seq<char>,
    pub aliases: Seq<Seq<char>>,
}

pub open spec fn registration_view(r: FormRegistration) -> RegistrationView {
    RegistrationView {
        canonical_name: r.canonical_name@,
        year: r.year,
        rules_file: r.rules_file@,
        aliases: r.aliases@.map_values(|a: &'static str| a@),
    }
}

/// The supported forms, in order.
#[verifier::opaque]
pub open spec fn registry() -> Seq<RegistrationView> {
    seq![
        RegistrationView {
            canonical_name: "US1040"@,
            year: 2025,
            rules_file: "data/2025/us1040.rules.toml"@,
            aliases: seq!["us1040"@, "1040"@],
        },
        RegistrationView {
            canonical_name: "NJ1040"@,
            year: 2025,
            rules_file: "data/2025/nj1040.rules.toml"@,
            aliases: seq!["nj1040"@, "nj_1040"@],
        },
    ]
}

/// The registry's entries.
pub fn form_registrations() -> (r: Vec<FormRegistration>)
    ensures
        r@.map_values(|x: FormRegistration| registration_view(x)) == registry(),
{
    let mut us_aliases: Vec<&'static str> = Vec::new();
    us_aliases.push("us1040");
    us_aliases.push("1040");
    let mut nj_aliases: Vec<&'static str> = Vec::new();
    nj_aliases.push("nj1040");
    nj_aliases.push("nj_1040");
    let mut r: Vec<FormRegistration> = Vec::new();
    r.push(
        FormRegistration {
            canonical_name: "US1040",
            year: 2025,
            rules_file: "data/2025/us1040.rules.toml",
            aliases: us_aliases,
        },
    );
    r.push(
        FormRegistration {
            canonical_name: "NJ1040",
            year: 2025,
            rules_file: "data/2025/nj1040.rules.toml",
            aliases: nj_aliases,
        },
    );
    proof {
        reveal(registry);
        let v = r@.map_values(|x: FormRegistration| registration_view(x));
        assert(v[0].aliases =~= seq!["us1040"@, "1040"@]);
        assert(v[1].aliases =~= seq!["nj1040"@, "nj_1040"@]);
        assert(v =~= registry());
    }
    r
}

/// A form name as the registry compares names: its ASCII letters and
/// digits, lower-cased.
pub fn normalize_form_name(raw: &str) -> (r: String)
    ensures
        r@ == normalized(raw@),
{
    normalize_name(raw)
}

/// The entry is for this year and one of its names normalizes to `n`.
pub open spec fn registration_matches(e: RegistrationView, n: Seq<char>, year: u16) -> bool {
    e.year == year && exists|k: int| 0 <= k < e.aliases.len() && normalized(#[trigger] e.aliases[k]) == n
}

/// The first entry of the registry for this year with a name that
/// normalizes to `n`, if any.
#[verifier::opaque]
pub open spec fn first_match(n: Seq<char>, year: u16) -> Option<int> {
    let t = registry();
    if exists|i: int| 0 <= i < t.len() && registration_matches(#[trigger] t[i], n, year) {
        Some(choose|i: int|
            0 <= i < t.len() && registration_matches(#[trigger] t[i], n, year) && forall|j: int|
                0 <= j < i ==> !registration_matches(t[j], n, year))
    } else {
        None
    }
}

/// The first entry of the registry that a form name and a year designate.
pub open spec fn first_registration(form_name: Seq<char>, year: u16) -> Option<int> {
    first_match(normalized(form_name), year)
}

/// Form names resolve through their normalized forms: two names that
/// normalize alike designate the same form in every year.
pub proof fn lemma_resolution_by_normalized_name(a: Seq<char>, b: Seq<char>, year: u16)
    requires
        normalized(a) == normalized(b),
    ensures
        first_registration(a, year) == first_registration(b, year),
{
}

/// The position in the registry of the first entry that matches.
fn find_registration(regs: &Vec<FormRegistration>, form_name: &str, year: u16) -> (r: Option<usize>)
    requires
        regs@.map_values(|x: FormRegistration| registration_view(x)) == registry(),
    ensures
        match first_registration(form_name@, year) {
            Some(i) => r == Some(i as usize),
            None => r is None,
        },
        r matches Some(i) ==> i < regs@.len(),
        first_registration(form_name@, year) matches Some(i) ==> 0 <= i < regs@.len(),
{
    reveal(first_match);
    let ghost t = registry();
    let normalized_name = normalize_form_name(form_name);
    assert(t.len() == regs@.len());
    let mut i: usize = 0;
    while i < regs.len()
        invariant
            i <= regs@.len(),
            regs@.map_values(|x: FormRegistration| registration_view(x)) == t,
            t == registry(),
            t.len() == regs@.len(),
            normalized_name@ == normalized(form_name@),
            forall|j: int| 0 <= j < i ==> !registration_matches(#[trigger] t[j], normalized(form_name@), year),
        decreases regs@.len() - i,
    {
        let reg = &regs[i];
        assert(t[i as int] == registration_view(*reg));
        let mut found = false;
        if reg.year == year {
            let mut k: usize = 0;
            while k < reg.aliases.len() && !found
                invariant
                    k <= reg.aliases@.len(),
                    t[i as int] == registration_view(*reg),
                    normalized_name@ == normalized(form_name@),
                    found ==> registration_matches(t[i as int], normalized(form_name@), year),
                    !found ==> forall|m: int| 0 <= m < k ==> normalized(#[trigger] t[i as int].aliases[m]) != normalized(form_name@),
                    reg.year == year,
                decreases reg.aliases@.len() - k,
            {
                let a = normalize_form_name(reg.aliases[k]);
                assert(t[i as int].aliases[k as int] == reg.aliases@[k as int]@);
                if str_eq(a.as_str(), normalized_name.as_str()) {
                    found = true;
                }
                k += 1;
            }
        }
        if found {
            proof {
                reveal(first_match);
                assert(0 <= i < t.len() && registration_matches(t[i as int], normalized(form_name@), year));
                let c = choose|c: int|
                    0 <= c < t.len() && registration_matches(#[trigger] t[c], normalized(form_name@), year) && forall|j: int|
                        0 <= j < c ==> !registration_matches(t[j], normalized(form_name@), year);
                if c < i {
                } else if c > i {
                    assert(!registration_matches(t[i as int], normalized(form_name@), year));
                }
            }
            return Some(i);
        }
        proof {
            if reg.year == year {
                assert(!registration_matches(t[i as int], normalized(form_name@), year));
            }
        }
        i += 1;
    }
    None
}

/// The supported form that a name and a year designate.
pub fn resolve_form(form_name: &str, year: u16) -> (r: Option<RegisteredForm>)
    ensures
        match first_registration(form_name@, year) {
            Some(i) => r matches Some(f) && f.canonical_name@ == registry()[i].canonical_name && f.year
                == registry()[i].year && f.rules_file@ == registry()[i].rules_file,
            None => r is None,
        },
{
    let regs = form_registrations();
    let ghost views = regs@.map_values(|x: FormRegistration| registration_view(x));
    assert(views.len() == regs@.len());
    match find_registration(&regs, form_name, year) {
        Some(i) => {
            let reg = &regs[i];
            assert(views[i as int] == registration_view(regs@[i as int]));
            assert(registry()[i as int] == registration_view(*reg));
            Some(RegisteredForm { canonical_name: reg.canonical_name, year: reg.year, rules_file: reg.rules_file })
        },
        None => None,
    }
}

/// The supported form that a name and a year designate, or the error that
/// says it is not supported.
pub fn require_form(form_name: &str, year: u16) -> (r: Result<RegisteredForm, FormRegistryError>)
    ensures
        match first_registration(form_name@, year) {
            Some(i) => r matches Ok(f) && f.canonical_name@ == registry()[i].canonical_name && f.year
                == registry()[i].year && f.rules_file@ == registry()[i].rules_file,
            None => r matches Err(FormRegistryError::UnsupportedForm { year: y, form }) && y == year && form@
                == form_name@,
        },
{
    match resolve_form(form_name, year) {
        Some(f) => Ok(f),
        None => Err(FormRegistryError::UnsupportedForm { year, form: owned(form_name) }),
    }
}

/// The decimal digits of a number.
pub open spec fn decimal_text(n: nat) -> Seq<char>
    decreases n,
{
    if n < 10 {
        seq![digit_char(n)]
    } else {
        decimal_text(n / 10).push(digit_char(n % 10))
    }
}

pub open spec fn digit_char(d: nat) -> char {
    (('0' as u32) + d) as char
}

/// The decimal digits of a year.
fn year_text(n: u16) -> (r: String)
    ensures
        r@ == decimal_text(n as nat),
{
    let mut digits: Vec<char> = Vec::new();
    let mut m: u16 = n;
    loop
        invariant_except_break
            decimal_text(n as nat) == decimal_text(m as nat) + digits@.reverse(),
        invariant
            m <= n,
        ensures
            decimal_text(n as nat) == digits@.reverse(),
        decreases m,
    {
        let d = m % 10;
        let c = (('0' as u8) + (d as u8)) as char;
        assert(c == digit_char(d as nat)) by {
            assert(('0' as u32) + (d as nat) == ('0' as u8) + (d as u8));
        }
        let ghost d0 = digits@;
        digits.push(c);
        if m < 10 {
            assert(decimal_text(m as nat) == seq![c]);
            assert(digits@.reverse() =~= seq![c] + d0.reverse());
            assert(decimal_text(n as nat) =~= digits@.reverse());
            break;
        }
        assert(decimal_text(m as nat) == decimal_text((m / 10) as nat).push(c));
        assert(digits@.reverse() =~= seq![c] + d0.reverse());
        assert(decimal_text((m / 10) as nat).push(c) + d0.reverse() =~= decimal_text((m / 10) as nat) + (seq![c] + d0.reverse()));
        m = m / 10;
    }
    let mut r = String::new();
    let mut i = digits.len();
    while i > 0
        invariant
            i <= digits@.len(),
            r@ == digits@.reverse().take(digits@.len() - i),
        decreases i,
    {
        i -= 1;
        push_char(&mut r, digits[i]);
        assert(digits@.reverse().take(digits@.len() - i) =~= digits@.reverse().take(digits@.len() - i - 1).push(digits@[i as int]));
    }
    assert(digits@.reverse().take(digits@.len() as int) =~= digits@.reverse());
    r
}

/// How a supported form is listed: `NAME (YEAR)`.
pub open spec fn listing(e: RegistrationView) -> Seq<char> {
    e.canonical_name + " ("@ + decimal_text(e.year as nat) + ")"@
}

/// The supported forms, each as `NAME (YEAR)`, in registry order.
pub fn list_registered_forms() -> (r: Vec<String>)
    ensures
        string_views(r@) == registry().map_values(|e: RegistrationView| listing(e)),
{
    let regs = form_registrations();
    let ghost t = registry();
    let mut r: Vec<String> = Vec::new();
    let mut i: usize = 0;
    while i < regs.len()
        invariant
            i <= regs@.len(),
            regs@.map_values(|x: FormRegistration| registration_view(x)) == t,
            t == registry(),
            string_views(r@) == t.take(i as int).map_values(|e: RegistrationView| listing(e)),
        decreases regs@.len() - i,
    {
        let reg = &regs[i];
        assert(t[i as int] == registration_view(*reg));
        let mut s = owned(reg.canonical_name);
        append_str(&mut s, " (");
        let y = year_text(reg.year);
        append_str(&mut s, y.as_str());
        append_str(&mut s, ")");
        let ghost r0 = string_views(r@);
        r.push(s);
        assert(string_views(r@) =~= r0.push(listing(t[i as int])));
        assert(t.take(i + 1).map_values(|e: RegistrationView| listing(e)) =~= t.take(i as int).map_values(
            |e: RegistrationView| listing(e),
        ).push(listing(t[i as int])));
        i += 1;
    }
    assert(t.take(i as int) =~= t);
    r
}

/// Whether a form's input values get capital gains derived from the trades
/// listed in its input file: only the 2025 federal form's do.
pub fn derives_capital_gains(form_name: &str, year: u16) -> (r: bool)
    ensures
        r == match first_registration(form_name@, year) {
            Some(i) => registry()[i].canonical_name == "US1040"@ && registry()[i].year == 2025,
            None => false,
        },
{
    match resolve_form(form_name, year) {
        Some(f) => str_eq(f.canonical_name, "US1040") && f.year == 2025,
        None => false,
    }
}

/// The numeric codes by which a form's input names the filing statuses.
#[derive(Debug, Clone, Copy, PartialEq, Eq)]
pub struct StatusCodes {
    pub single: i64,
    pub married_filing_jointly: i64,
    pub married_filing_separately: i64,
    pub head_of_household: i64,
    pub widow: i64,
}

/// Single, or married filing separately.
pub fn is_single_or_mfs(status: i64, status_codes: &StatusCodes) -> (r: bool)
    ensures
        r == (status == status_codes.single || status == status_codes.married_filing_separately),
{
    status == status_codes.single || status == status_codes.married_filing_separately
}

/// Married filing jointly, head of household, or qualifying widow(er).
pub fn is_mfj_hoh_or_widow(status: i64, status_codes: &StatusCodes) -> (r: bool)
    ensures
        r == (status == status_codes.married_filing_jointly || status == status_codes.head_of_household
            || status == status_codes.widow),
{
    status == status_codes.married_filing_jointly || status == status_codes.head_of_household || status
        == status_codes.widow
}

/// Married filing separately.
pub fn is_mfs(status: i64, status_codes: &StatusCodes) -> (r: bool)
    ensures
        r == (status == status_codes.married_filing_separately),
{
    status == status_codes.married_filing_separately
}

/// The federal tax bracket sets, one per group of filing statuses.
#[derive(Debug, Clone, Copy, PartialEq, Eq, Structural)]
pub enum BracketSet {
    Single,
    MarriedFilingJointly,
    MarriedFilingSeparately,
    HeadOfHousehold,
}

/// The federal bracket set a filing status is taxed by: a qualifying
/// widow(er) by the joint one, an unknown status by the single one.
pub fn bracket_set_for_status(status: i64, status_codes: &StatusCodes) -> (r: BracketSet)
    ensures
        r == if status == status_codes.single {
            BracketSet::Single
        } else if status == status_codes.married_filing_jointly || status == status_codes.widow {
            BracketSet::MarriedFilingJointly
        } else if status == status_codes.married_filing_separately {
            BracketSet::MarriedFilingSeparately
        } else if status == status_codes.head_of_household {
            BracketSet::HeadOfHousehold
        } else {
            BracketSet::Single
        },
{
    if status == status_codes.single {
        BracketSet::Single
    } else if status == status_codes.married_filing_jointly || status == status_codes.widow {
        BracketSet::MarriedFilingJointly
    } else if status == status_codes.married_filing_separately {
        BracketSet::MarriedFilingSeparately
    } else if status == status_codes.head_of_household {
        BracketSet::HeadOfHousehold
    } else {
        BracketSet::Single
    }
}

/// A bracket table is well formed when it has one more breakpoint than it
/// has rates.
pub open spec fn table_mismatched(size: (usize, usize)) -> bool {
    size.0 != size.1 + 1
}

/// The first bracket table, given as its numbers of breakpoints and rates,
/// that is not well formed.
pub fn first_mismatched_table(sizes: &Vec<(usize, usize)>) -> (r: Option<usize>)
    ensures
        match r {
            Some(i) => i < sizes@.len() && table_mismatched(sizes@[i as int]) && forall|j: int|
                0 <= j < i ==> !table_mismatched(#[trigger] sizes@[j]),
            None => forall|j: int| 0 <= j < sizes@.len() ==> !table_mismatched(#[trigger] sizes@[j]),
        },
{
    let mut i: usize = 0;
    while i < sizes.len()
        invariant
            i <= sizes@.len(),
            forall|j: int| 0 <= j < i ==> !table_mismatched(#[trigger] sizes@[j]),
        decreases sizes@.len() - i,
    {
        let (breakpoints, rates) = sizes[i];
        if rates == usize::MAX || breakpoints != rates + 1 {
            return Some(i);
        }
        i += 1;
    }
    None
}

} // verus!
