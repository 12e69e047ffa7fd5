//! Number literals: which words read as numbers.

use vstd::prelude::*;

use crate::text::{ascii_lower, chars_of, char_to_ascii_lower};

verus! {

pub open spec fn is_digit(c: char) -> bool {
    '0' <= c && c <= '9'
}

pub open spec fn all_digits(s: Seq<char>) -> bool {
    forall|i: int| 0 <= i < s.len() ==> is_digit(#[trigger] s[i])
}

pub open spec fn is_sign(c: char) -> bool {
    c == '+' || c == '-'
}

/// Digits, with at most one decimal point and at least one digit:
/// `12`, `12.`, `.5`, `12.5`.
pub open spec fn is_decimal(s: Seq<char>) -> bool {
    ||| (s.len() > 0 && all_digits(s))
    ||| (s.len() > 1 && exists|p: int|
        0 <= p < s.len() && s[p] == '.' && all_digits(s.take(p)) && all_digits(s.skip(p + 1)))
}

/// Digits, optionally after one sign.
pub open spec fn is_signed_digits(s: Seq<char>) -> bool {
    ||| (s.len() > 0 && all_digits(s))
    ||| (s.len() > 1 && is_sign(s[0]) && all_digits(s.skip(1)))
}

/// A decimal, optionally followed by `e` or `E` and an exponent.
pub open spec fn is_unsigned_number(s: Seq<char>) -> bool {
    ||| is_decimal(s)
    ||| exists|p: int|
        0 <= p < s.len() && (s[p] == 'e' || s[p] == 'E') && is_decimal(s.take(p))
            && is_signed_digits(s.skip(p + 1))
}

/// `inf`, `infinity` or `nan`, in any letter case.
pub open spec fn is_special_value(s: Seq<char>) -> bool {
    let l = s.map_values(|c: char| ascii_lower(c));
    ||| l == seq!['i', 'n', 'f']
    ||| l == seq!['i', 'n', 'f', 'i', 'n', 'i', 't', 'y']
    ||| l == seq!['n', 'a', 'n']
}

/// The words that the standard library reads as a 64-bit float: an optional
/// sign, then a number or a special value.
pub open spec fn is_float_literal(s: Seq<char>) -> bool {
    let body = if s.len() > 0 && is_sign(s[0]) {
        s.skip(1)
    } else {
        s
    };
    is_unsigned_number(body) || is_special_value(body)
}

/// `b` to the power `e`.
pub open spec fn power(b: nat, e: nat) -> nat
    decreases e,
{
    if e == 0 {
        1
    } else {
        b * power(b, (e - 1) as nat)
    }
}

proof fn lemma_power_positive(b: nat, e: nat)
    requires
        b >= 1,
    ensures
        power(b, e) >= 1,
    decreases e,
{
    if e > 0 {
        lemma_power_positive(b, (e - 1) as nat);
        assert(b * power(b, (e - 1) as nat) >= 1) by (nonlinear_arith)
            requires
                b >= 1,
                power(b, (e - 1) as nat) >= 1,
        ;
    }
}

proof fn lemma_power_adds(b: nat, x: nat, y: nat)
    ensures
        power(b, x + y) == power(b, x) * power(b, y),
    decreases x,
{
    if x > 0 {
        lemma_power_adds(b, (x - 1) as nat, y);
        let x1 = (x - 1) as nat;
        assert((x + y - 1) as nat == x1 + y);
        assert(power(b, x + y) == b * power(b, x1 + y));
        assert(power(b, x) == b * power(b, x1));
        assert(b * (power(b, x1) * power(b, y)) == (b * power(b, x1)) * power(b, y)) by (nonlinear_arith);
    } else {
        assert(x + y == y);
        assert(power(b, x) == 1);
    }
}

proof fn lemma_power_multiplies(b: nat, x: nat, y: nat)
    ensures
        power(b, x * y) == power(power(b, x), y),
    decreases y,
{
    if y > 0 {
        lemma_power_multiplies(b, x, (y - 1) as nat);
        assert(x * y == x + x * (y - 1) as nat) by (nonlinear_arith)
            requires
                y > 0,
        ;
        lemma_power_adds(b, x, x * (y - 1) as nat);
        assert(power(power(b, x), y) == power(b, x) * power(power(b, x), (y - 1) as nat));
    } else {
        assert(x * y == 0) by (nonlinear_arith)
            requires
                y == 0,
        ;
    }
}

proof fn lemma_power_increases(b: nat, x: nat, y: nat)
    requires
        b >= 1,
        x <= y,
    ensures
        power(b, x) <= power(b, y),
    decreases y - x,
{
    if x < y {
        lemma_power_increases(b, x, (y - 1) as nat);
        lemma_power_positive(b, (y - 1) as nat);
        assert(power(b, (y - 1) as nat) <= b * power(b, (y - 1) as nat)) by (nonlinear_arith)
            requires
                b >= 1,
                power(b, (y - 1) as nat) >= 1,
        ;
    }
}

proof fn lemma_power_base_lt(a: nat, b: nat, e: nat)
    requires
        1 <= a < b,
        e > 0,
    ensures
        power(a, e) < power(b, e),
    decreases e,
{
    if e > 1 {
        lemma_power_base_lt(a, b, (e - 1) as nat);
        lemma_power_positive(a, (e - 1) as nat);
        assert(a * power(a, (e - 1) as nat) < b * power(b, (e - 1) as nat)) by (nonlinear_arith)
            requires
                1 <= a < b,
                1 <= power(a, (e - 1) as nat) < power(b, (e - 1) as nat),
        ;
    } else {
        assert(power(a, 0) == 1 && power(b, 0) == 1);
    }
}

/// Crude bounds on 2^1075: above 10^268, below 10^359.
proof fn lemma_two_to_1075()
    ensures
        power(10, 268) < power(2, 1075),
        power(2, 1075) < power(10, 359),
{
    assert(power(2, 0) == 1);
    assert(power(2, 1) == 2);
    assert(power(2, 2) == 4);
    assert(power(2, 3) == 8);
    assert(power(2, 4) == 16);
    lemma_power_multiplies(2, 3, 359);
    lemma_power_base_lt(8, 10, 359);
    lemma_power_increases(2, 1075, 1077);
    lemma_power_multiplies(2, 4, 268);
    lemma_power_base_lt(10, 16, 268);
    lemma_power_increases(2, 1072, 1075);
}

/// The value of a digit character.
pub open spec fn digit_value(c: char) -> nat {
    (c as int - '0' as int) as nat
}

/// The digits of `s`, other characters skipped, read as one decimal number.
pub open spec fn digits_value(s: Seq<char>) -> nat
    decreases s.len(),
{
    if s.len() == 0 {
        0
    } else if is_digit(s.last()) {
        10 * digits_value(s.drop_last()) + digit_value(s.last())
    } else {
        digits_value(s.drop_last())
    }
}

/// How many digits of `s` come after a point.
pub open spec fn fraction_digits(s: Seq<char>) -> nat
    decreases s.len(),
{
    if s.len() == 0 {
        0
    } else if is_digit(s.last()) && s.drop_last().contains('.') {
        fraction_digits(s.drop_last()) + 1
    } else {
        fraction_digits(s.drop_last())
    }
}

/// A literal without its sign.
pub open spec fn literal_body(s: Seq<char>) -> Seq<char> {
    if s.len() > 0 && is_sign(s[0]) {
        s.skip(1)
    } else {
        s
    }
}

/// The position of the first `e` or `E` at or after `i`, or the length.
pub open spec fn exponent_mark(s: Seq<char>, i: int) -> int
    decreases s.len() - i,
{
    if i >= s.len() {
        s.len() as int
    } else if s[i] == 'e' || s[i] == 'E' {
        i
    } else {
        exponent_mark(s, i + 1)
    }
}

/// The exponent of a literal's body: the signed number after `e` or `E`,
/// or 0 when there is none.
pub open spec fn exponent_of(body: Seq<char>) -> int {
    let m = exponent_mark(body, 0);
    if m < body.len() {
        let e = body.skip(m + 1);
        if e.len() > 0 && e[0] == '-' {
            -(digits_value(e) as int)
        } else {
            digits_value(e) as int
        }
    } else {
        0
    }
}

/// A float literal that the standard library reads as zero. Its value is
/// the digits before the exponent, divided by ten for each digit after the
/// point, times ten to the exponent. It reads as zero when that value is
/// zero, or at most 2^-1075, half the least positive 64-bit float: rounding
/// to nearest, ties to even, takes it to zero.
pub open spec fn literal_denotes_zero(s: Seq<char>) -> bool {
    let body = literal_body(s);
    let mant = body.take(exponent_mark(body, 0));
    let shift = fraction_digits(mant) - exponent_of(body);
    &&& is_float_literal(s)
    &&& !is_special_value(body)
    &&& at_most_half_least(digits_value(mant), shift)
}

/// Every entry is a decimal digit.
pub open spec fn small_digits(v: Seq<u8>) -> bool {
    forall|i: int| 0 <= i < v.len() ==> #[trigger] v[i] < 10
}

/// The number whose decimal digits `v` lists, least significant first.
pub open spec fn le_value(v: Seq<u8>) -> nat
    decreases v.len(),
{
    if v.len() == 0 {
        0
    } else {
        v[0] as nat + 10 * le_value(v.skip(1))
    }
}

proof fn lemma_le_split(v: Seq<u8>, k: int)
    requires
        0 <= k <= v.len(),
    ensures
        le_value(v) == le_value(v.take(k)) + power(10, k as nat) * le_value(v.skip(k)),
    decreases k,
{
    if k == 0 {
        assert(v.take(0) =~= Seq::<u8>::empty());
        assert(v.skip(0) =~= v);
        assert(le_value(v.take(0)) == 0);
        assert(power(10, 0) == 1);
        assert(le_value(v) == 0 + 1 * le_value(v.skip(0)));
    } else {
        let t = v.skip(1);
        lemma_le_split(t, k - 1);
        assert(v.take(k).skip(1) =~= t.take(k - 1));
        assert(v.take(k)[0] == v[0]);
        assert(t.skip(k - 1) =~= v.skip(k));
        let a = le_value(t.take(k - 1));
        let b = le_value(v.skip(k));
        let p = power(10, (k - 1) as nat);
        assert(le_value(v) == v[0] as nat + 10 * le_value(t));
        assert(le_value(v.take(k)) == v[0] as nat + 10 * a);
        assert(power(10, k as nat) == 10 * p);
        assert(le_value(t) == a + p * b);
        assert(10 * (a + p * b) == 10 * a + (10 * p) * b) by (nonlinear_arith);
        assert(le_value(v) == le_value(v.take(k)) + (10 * p) * b);
    }
}

proof fn lemma_le_bound(v: Seq<u8>)
    requires
        small_digits(v),
    ensures
        le_value(v) < power(10, v.len()),
    decreases v.len(),
{
    if v.len() > 0 {
        let t = v.skip(1);
        assert(small_digits(t)) by {
            assert forall|i: int| 0 <= i < t.len() implies #[trigger] t[i] < 10 by {
                assert(t[i] == v[i + 1]);
            }
        }
        lemma_le_bound(t);
        assert((v.len() - 1) as nat == t.len());
        assert(v[0] < 10);
        assert(v[0] as nat + 10 * le_value(t) < 10 * power(10, t.len())) by (nonlinear_arith)
            requires
                v[0] < 10,
                le_value(t) < power(10, t.len()),
        ;
    }
}

proof fn lemma_le_zero(v: Seq<u8>)
    ensures
        (le_value(v) == 0) == (forall|i: int| 0 <= i < v.len() ==> #[trigger] v[i] == 0),
    decreases v.len(),
{
    if v.len() > 0 {
        let t = v.skip(1);
        lemma_le_zero(t);
        if le_value(v) == 0 {
            assert forall|i: int| 0 <= i < v.len() implies #[trigger] v[i] == 0 by {
                if i > 0 {
                    assert(t[i - 1] == v[i]);
                }
            }
        }
        if forall|i: int| 0 <= i < v.len() ==> #[trigger] v[i] == 0 {
            assert forall|i: int| 0 <= i < t.len() implies #[trigger] t[i] == 0 by {
                assert(t[i] == v[i + 1]);
            }
        }
    }
}

/// With `h` the highest nonzero digit: the value is the lower digits plus
/// that digit times 10^h.
proof fn lemma_le_top(v: Seq<u8>, h: int)
    requires
        small_digits(v),
        0 <= h < v.len(),
        forall|j: int| h < j < v.len() ==> #[trigger] v[j] == 0,
    ensures
        le_value(v) == le_value(v.take(h)) + power(10, h as nat) * v[h] as nat,
        le_value(v.take(h)) < power(10, h as nat),
{
    lemma_le_split(v, h);
    let t = v.skip(h);
    let u = t.skip(1);
    lemma_le_zero(u);
    assert forall|i: int| 0 <= i < u.len() implies #[trigger] u[i] == 0 by {
        assert(u[i] == v[h + 1 + i]);
    }
    assert(t[0] == v[h]);
    assert(small_digits(v.take(h))) by {
        assert forall|i: int| 0 <= i < v.take(h).len() implies #[trigger] v.take(h)[i] < 10 by {
            assert(v.take(h)[i] == v[i]);
        }
    }
    lemma_le_bound(v.take(h));
}

proof fn lemma_le_push(v: Seq<u8>, d: u8)
    ensures
        le_value(v.push(d)) == le_value(v) + power(10, v.len()) * d as nat,
{
    let w = v.push(d);
    lemma_le_split(w, v.len() as int);
    assert(w.take(v.len() as int) =~= v);
    let t = w.skip(v.len() as int);
    assert(t.len() == 1 && t[0] == d);
    assert(t.skip(1) =~= Seq::<u8>::empty());
    assert(le_value(t) == d as nat + 10 * le_value(t.skip(1)));
}

/// The digits, least significant first, of `k` times the number `v` lists.
fn times_small(v: &Vec<u8>, k: u8) -> (r: Vec<u8>)
    requires
        small_digits(v@),
        1 <= k <= 9,
    ensures
        small_digits(r@),
        le_value(r@) == k as nat * le_value(v@),
{
    let mut out: Vec<u8> = Vec::new();
    let mut carry: u8 = 0;
    let mut i: usize = 0;
    proof {
        assert(v@.take(0) =~= Seq::<u8>::empty());
        assert(le_value(out@) == 0);
        assert(power(10, 0) == 1);
        assert(le_value(v@.take(0)) == 0);
    }
    while i < v.len()
        invariant
            i <= v@.len(),
            small_digits(v@),
            1 <= k <= 9,
            out@.len() == i,
            small_digits(out@),
            carry < 10,
            le_value(out@) + power(10, i as nat) * carry as nat == k as nat * le_value(v@.take(i as int)),
        decreases v@.len() - i,
    {
        let vi = v[i];
        assert(vi < 10);
        assert(vi * k <= 81) by (nonlinear_arith)
            requires
                vi < 10,
                k <= 9,
        ;
        let x: u8 = vi * k + carry;
        let d: u8 = x % 10;
        let c: u8 = x / 10;
        proof {
            let pw = power(10, i as nat);
            lemma_le_push(out@, d);
            lemma_le_push(v@.take(i as int), vi);
            assert(v@.take(i as int).push(vi) =~= v@.take(i + 1));
            assert(power(10, (i + 1) as nat) == 10 * pw);
            let lo = le_value(out@);
            let lt = le_value(v@.take(i as int));
            assert(d as nat + 10 * c as nat == vi as nat * k as nat + carry as nat);
            assert(lo + pw * d as nat + (10 * pw) * c as nat == k as nat * (lt + pw * vi as nat)) by (nonlinear_arith)
                requires
                    lo + pw * carry as nat == k as nat * lt,
                    d as nat + 10 * c as nat == vi as nat * k as nat + carry as nat,
            ;
            assert(small_digits(out@.push(d))) by {
                assert forall|j: int| 0 <= j < out@.push(d).len() implies #[trigger] out@.push(d)[j] < 10 by {
                    if j < out@.len() {
                        assert(out@.push(d)[j] == out@[j]);
                    }
                }
            }
        }
        out.push(d);
        carry = c;
        i += 1;
    }
    proof {
        assert(v@.take(i as int) =~= v@);
        if carry == 0 {
            assert(power(10, i as nat) * carry as nat == 0) by (nonlinear_arith)
                requires
                    carry == 0,
            ;
        }
    }
    if carry > 0 {
        proof {
            lemma_le_push(out@, carry);
            assert(small_digits(out@.push(carry))) by {
                assert forall|j: int| 0 <= j < out@.push(carry).len() implies #[trigger] out@.push(carry)[j] < 10 by {
                    if j < out@.len() {
                        assert(out@.push(carry)[j] == out@[j]);
                    }
                }
            }
        }
        out.push(carry);
    }
    out
}

/// The position of the highest nonzero digit, if any.
fn highest_nonzero(v: &Vec<u8>) -> (r: Option<usize>)
    ensures
        match r {
            Some(h) => h < v@.len() && v@[h as int] != 0 && forall|j: int| h < j < v@.len() ==> #[trigger] v@[j] == 0,
            None => forall|j: int| 0 <= j < v@.len() ==> #[trigger] v@[j] == 0,
        },
{
    let mut i = v.len();
    while i > 0
        invariant
            i <= v@.len(),
            forall|j: int| i <= j < v@.len() ==> #[trigger] v@[j] == 0,
        decreases i,
    {
        if v[i - 1] != 0 {
            return Some(i - 1);
        }
        i -= 1;
    }
    None
}

/// Whether `m * 2^1075 <= 10^shift` (with `shift >= 0`), or `m` is zero.
pub open spec fn at_most_half_least(m: nat, shift: int) -> bool {
    m == 0 || (shift >= 0 && m * power(2, 1075) <= power(10, shift as nat))
}

/// Whether the number `p` lists, times ten to the power of the exponent
/// less `frac`, is zero or at most 2^-1075. The exponent is `x`, negated
/// when `neg`; past 10^20 only its sign counts, and `x` stands for any such
/// value.
fn tiny_value(p: Vec<u8>, frac: usize, neg: bool, x: u128, Ghost(ev): Ghost<nat>) -> (r: bool)
    requires
        small_digits(p@),
        (x as nat == ev && x <= 100_000_000_000_000_000_000u128) || (x > 100_000_000_000_000_000_000u128 && ev
            > 100_000_000_000_000_000_000u128),
    ensures
        r == at_most_half_least(le_value(p@), frac - (if neg {
            -(ev as int)
        } else {
            ev as int
        })),
{
    let ghost m = le_value(p@);
    let ghost shift = frac - (if neg {
        -(ev as int)
    } else {
        ev as int
    });
    let h = match highest_nonzero(&p) {
        None => {
            proof {
                lemma_le_zero(p@);
            }
            return true;
        },
        Some(h) => h,
    };
    let ghost ph = power(10, h as nat);
    let ghost ph1 = power(10, (h + 1) as nat);
    proof {
        lemma_le_top(p@, h as int);
        lemma_two_to_1075();
        lemma_power_positive(10, h as nat);
        assert(ph1 == 10 * ph);
        let low = le_value(p@.take(h as int));
        assert(p@[h as int] >= 1 && p@[h as int] < 10);
        assert(ph <= m < ph1) by (nonlinear_arith)
            requires
                m == low + ph * p@[h as int] as nat,
                low < ph,
                1 <= p@[h as int] < 10,
                ph1 == 10 * ph,
        ;
        // A value too small: m * 2^1075 < 10^(h+360) <= 10^shift.
        lemma_power_adds(10, (h + 1) as nat, 359);
        assert(m * power(2, 1075) < ph1 * power(10, 359)) by (nonlinear_arith)
            requires
                m < ph1,
                power(2, 1075) < power(10, 359),
                power(2, 1075) >= 1,
        ;
        // A value too large: m * 2^1075 > 10^(h+268).
        lemma_power_adds(10, h as nat, 268);
        assert(ph * power(10, 268) < m * power(2, 1075)) by (nonlinear_arith)
            requires
                ph <= m,
                power(10, 268) < power(2, 1075),
                ph >= 1,
        ;
    }
    if x > 100_000_000_000_000_000_000u128 {
        if neg {
            proof {
                lemma_power_increases(10, (h + 1 + 359) as nat, shift as nat);
            }
            return true;
        } else {
            return false;
        }
    }
    let xe: i128 = if neg {
        -(x as i128)
    } else {
        x as i128
    };
    let sh: i128 = frac as i128 - xe;
    let l: i128 = h as i128 + 1;
    assert(sh == shift);
    if sh >= l + 359 {
        proof {
            lemma_power_increases(10, (h + 1 + 359) as nat, shift as nat);
        }
        return true;
    }
    if sh <= l + 267 {
        proof {
            if shift >= 0 {
                lemma_power_increases(10, shift as nat, (h + 268) as nat);
            }
        }
        return false;
    }
    let mut q = p;
    let mut i: usize = 0;
    proof {
        assert(power(2, 0) == 1);
    }
    while i < 1075
        invariant
            i <= 1075,
            small_digits(q@),
            le_value(q@) == m * power(2, i as nat),
        decreases 1075 - i,
    {
        let ghost before = le_value(q@);
        q = times_small(&q, 2);
        proof {
            assert(power(2, (i + 1) as nat) == 2 * power(2, i as nat));
            assert(2 * (m * power(2, i as nat)) == m * (2 * power(2, i as nat))) by (nonlinear_arith);
        }
        i += 1;
    }
    let ghost big = le_value(q@);
    let ghost k = shift as nat;
    let hh = match highest_nonzero(&q) {
        None => {
            proof {
                lemma_le_zero(q@);
                assert(false);
            }
            return false;
        },
        Some(t) => t,
    };
    let ghost pt = power(10, hh as nat);
    proof {
        lemma_le_top(q@, hh as int);
        lemma_power_positive(10, hh as nat);
        assert(power(10, (hh + 1) as nat) == 10 * pt);
    }
    let top: i128 = hh as i128;
    if top < sh {
        proof {
            let low = le_value(q@.take(hh as int));
            assert(big < 10 * pt) by (nonlinear_arith)
                requires
                    big == low + pt * q@[hh as int] as nat,
                    low < pt,
                    q@[hh as int] < 10,
            ;
            lemma_power_increases(10, (hh + 1) as nat, k);
        }
        return true;
    }
    if top > sh {
        proof {
            let low = le_value(q@.take(hh as int));
            assert(pt <= big) by (nonlinear_arith)
                requires
                    big == low + pt * q@[hh as int] as nat,
                    q@[hh as int] >= 1,
            ;
            lemma_power_increases(10, (k + 1) as nat, hh as nat);
            lemma_power_positive(10, k);
            assert(power(10, (k + 1) as nat) == 10 * power(10, k));
        }
        return false;
    }
    // The highest digit stands at 10^shift: the value is at most 10^shift
    // exactly when it is 10^shift.
    if q[hh] != 1 {
        proof {
            let low = le_value(q@.take(hh as int));
            assert(big > pt) by (nonlinear_arith)
                requires
                    big == low + pt * q@[hh as int] as nat,
                    q@[hh as int] >= 2,
                    pt >= 1,
            ;
        }
        return false;
    }
    let mut j: usize = 0;
    while j < hh
        invariant
            j <= hh < q@.len(),
            forall|t: int| 0 <= t < j ==> #[trigger] q@[t] == 0,
            q@[hh as int] == 1,
            big == le_value(q@),
            big == le_value(q@.take(hh as int)) + pt * q@[hh as int] as nat,
            big == m * power(2, 1075),
            pt == power(10, hh as nat),
            hh as int == shift,
            k == shift,
            m >= 1,
            m == le_value(p@),
            shift == frac - (if neg {
                -(ev as int)
            } else {
                ev as int
            }),
        decreases hh - j,
    {
        if q[j] != 0 {
            proof {
                let low = le_value(q@.take(hh as int));
                lemma_le_zero(q@.take(hh as int));
                assert(q@.take(hh as int)[j as int] == q@[j as int]);
                assert(low > 0);
                assert(big > pt);
            }
            return false;
        }
        j += 1;
    }
    proof {
        lemma_le_zero(q@.take(hh as int));
        assert forall|t: int| 0 <= t < q@.take(hh as int).len() implies #[trigger] q@.take(hh as int)[t] == 0 by {
            assert(q@.take(hh as int)[t] == q@[t]);
        }
        assert(big == pt * 1);
    }
    true
}

/// Whether a float literal reads as zero.
pub fn literal_is_zero(s: &str) -> (r: bool)
    requires
        is_float_literal(s@),
    ensures
        r == literal_denotes_zero(s@),
{
    let cs = chars_of(s);
    let n = cs.len();
    let lo: usize = if n > 0 && (cs[0] == '+' || cs[0] == '-') {
        1
    } else {
        0
    };
    let ghost body = literal_body(s@);
    proof {
        assert(body =~= cs@.subrange(lo as int, n as int));
    }
    if is_special_in(&cs, lo, n) {
        return false;
    }
    let mut m = lo;
    while m < n && cs[m] != 'e' && cs[m] != 'E'
        invariant
            lo <= m <= n,
            n == cs@.len(),
            cs@ == s@,
            body == cs@.subrange(lo as int, n as int),
            exponent_mark(body, 0) == exponent_mark(body, m - lo),
        decreases n - m,
    {
        assert(body[m - lo] == cs@[m as int]);
        m += 1;
    }
    proof {
        if m < n {
            assert(body[m - lo] == cs@[m as int]);
        }
        assert(exponent_mark(body, 0) == m - lo);
        assert(body.take(m - lo) =~= cs@.subrange(lo as int, m as int));
    }
    let mut p: Vec<u8> = Vec::new();
    let mut frac: usize = 0;
    let mut point = false;
    let mut i = lo;
    proof {
        assert(cs@.subrange(lo as int, lo as int) =~= Seq::<char>::empty());
    }
    while i < m
        invariant
            lo <= i <= m <= n,
            n == cs@.len(),
            small_digits(p@),
            le_value(p@) == digits_value(cs@.subrange(lo as int, i as int)),
            frac as nat == fraction_digits(cs@.subrange(lo as int, i as int)),
            frac <= i,
            point == cs@.subrange(lo as int, i as int).contains('.'),
        decreases m - i,
    {
        let c = cs[i];
        let ghost pre = cs@.subrange(lo as int, i as int);
        let ghost nxt = cs@.subrange(lo as int, i + 1);
        proof {
            assert(nxt.drop_last() =~= pre);
            assert(nxt.last() == c);
            assert(nxt.contains('.') == (pre.contains('.') || c == '.')) by {
                if nxt.contains('.') {
                    let t = choose|t: int| 0 <= t < nxt.len() && nxt[t] == '.';
                    if t < pre.len() {
                        assert(pre[t] == nxt[t]);
                    }
                }
                if pre.contains('.') {
                    let t = choose|t: int| 0 <= t < pre.len() && pre[t] == '.';
                    assert(nxt[t] == pre[t]);
                }
                if c == '.' {
                    assert(nxt[nxt.len() - 1] == c);
                }
            }
        }
        if '0' <= c && c <= '9' {
            let d: u8 = ((c as u32) - ('0' as u32)) as u8;
            proof {
                let w = seq![d] + p@;
                assert(w.skip(1) =~= p@);
                assert(w[0] == d);
                assert(le_value(w) == d as nat + 10 * le_value(p@));
                assert(d as nat == digit_value(c));
                assert(p@.insert(0, d) =~= w);
                assert(small_digits(w)) by {
                    assert forall|j: int| 0 <= j < w.len() implies #[trigger] w[j] < 10 by {
                        if j > 0 {
                            assert(w[j] == p@[j - 1]);
                        }
                    }
                }
            }
            p.insert(0, d);
            if point {
                frac += 1;
            }
        } else if c == '.' {
            point = true;
        }
        i += 1;
    }
    let mut neg = false;
    let mut x: u128 = 0;
    let ghost mut ev: nat = 0;
    if m < n {
        let ghost e = cs@.subrange(m + 1, n as int);
        proof {
            assert(body.skip(m - lo + 1) =~= e);
        }
        neg = m + 1 < n && cs[m + 1] == '-';
        let mut j = m + 1;
        proof {
            assert(cs@.subrange(m + 1, m + 1) =~= Seq::<char>::empty());
        }
        while j < n
            invariant
                m + 1 <= j <= n,
                n == cs@.len(),
                (x as nat == digits_value(cs@.subrange(m + 1, j as int)) && x <= 100_000_000_000_000_000_000u128) || (x
                    > 100_000_000_000_000_000_000u128 && digits_value(cs@.subrange(m + 1, j as int))
                    > 100_000_000_000_000_000_000u128),
            decreases n - j,
        {
            let c = cs[j];
            proof {
                assert(cs@.subrange(m + 1, j + 1).drop_last() =~= cs@.subrange(m + 1, j as int));
                assert(cs@.subrange(m + 1, j + 1).last() == c);
            }
            if '0' <= c && c <= '9' && x <= 100_000_000_000_000_000_000u128 {
                let d: u128 = ((c as u32) - ('0' as u32)) as u128;
                x = x * 10 + d;
            }
            j += 1;
        }
        proof {
            assert(cs@.subrange(m + 1, j as int) == e);
            ev = digits_value(e);
            if m + 1 < n {
                assert(e[0] == cs@[m + 1]);
            }
        }
    }
    tiny_value(p, frac, neg, x, Ghost(ev))
}

fn all_digits_in(cs: &Vec<char>, lo: usize, hi: usize) -> (r: bool)
    requires
        lo <= hi <= cs@.len(),
    ensures
        r == all_digits(cs@.subrange(lo as int, hi as int)),
{
    let mut i = lo;
    while i < hi
        invariant
            lo <= i <= hi <= cs@.len(),
            forall|j: int| lo <= j < i ==> is_digit(cs@[j]),
        decreases hi - i,
    {
        if !('0' <= cs[i] && cs[i] <= '9') {
            assert(cs@.subrange(lo as int, hi as int)[i - lo] == cs@[i as int]);
            return false;
        }
        i += 1;
    }
    assert forall|j: int| 0 <= j < hi - lo implies is_digit(#[trigger] cs@.subrange(lo as int, hi as int)[j]) by {
        assert(cs@.subrange(lo as int, hi as int)[j] == cs@[lo + j]);
    }
    true
}

/// The first position in `lo..hi` holding `a` or `b`.
fn find_either(cs: &Vec<char>, lo: usize, hi: usize, a: char, b: char) -> (r: Option<usize>)
    requires
        lo <= hi <= cs@.len(),
    ensures
        r matches Some(p) ==> lo <= p < hi && (cs@[p as int] == a || cs@[p as int] == b)
            && forall|j: int| lo <= j < p ==> cs@[j] != a && cs@[j] != b,
        r is None ==> forall|j: int| lo <= j < hi ==> cs@[j] != a && cs@[j] != b,
{
    let mut i = lo;
    while i < hi
        invariant
            lo <= i <= hi <= cs@.len(),
            forall|j: int| lo <= j < i ==> cs@[j] != a && cs@[j] != b,
        decreases hi - i,
    {
        if cs[i] == a || cs[i] == b {
            return Some(i);
        }
        i += 1;
    }
    None
}

proof fn lemma_sub_take_skip(s: Seq<char>, lo: int, p: int, hi: int)
    requires
        0 <= lo <= p < hi <= s.len(),
    ensures
        s.subrange(lo, hi).take(p - lo) == s.subrange(lo, p),
        s.subrange(lo, hi).skip(p - lo + 1) == s.subrange(p + 1, hi),
        s.subrange(lo, hi)[p - lo] == s[p],
{
    assert(s.subrange(lo, hi).take(p - lo) =~= s.subrange(lo, p));
    assert(s.subrange(lo, hi).skip(p - lo + 1) =~= s.subrange(p + 1, hi));
}

fn is_decimal_in(cs: &Vec<char>, lo: usize, hi: usize) -> (r: bool)
    requires
        lo <= hi <= cs@.len(),
    ensures
        r == is_decimal(cs@.subrange(lo as int, hi as int)),
{
    let ghost s = cs@.subrange(lo as int, hi as int);
    match find_either(cs, lo, hi, '.', '.') {
        None => {
            let r = hi > lo && all_digits_in(cs, lo, hi);
            proof {
                if s.len() > 1 && exists|p: int|
                    0 <= p < s.len() && s[p] == '.' && all_digits(s.take(p)) && all_digits(s.skip(p + 1)) {
                    let p = choose|p: int|
                        0 <= p < s.len() && s[p] == '.' && all_digits(s.take(p)) && all_digits(s.skip(p + 1));
                    assert(s[p] == cs@[lo + p]);
                }
            }
            r
        },
        Some(p) => {
            proof {
                lemma_sub_take_skip(cs@, lo as int, p as int, hi as int);
                assert(!is_digit(s[p - lo]));
            }
            let r = hi - lo > 1 && all_digits_in(cs, lo, p) && all_digits_in(cs, p + 1, hi);
            proof {
                if r {
                    assert(s[p - lo] == '.');
                } else if s.len() > 1 && exists|q: int|
                    0 <= q < s.len() && s[q] == '.' && all_digits(s.take(q)) && all_digits(s.skip(q + 1)) {
                    let q = choose|q: int|
                        0 <= q < s.len() && s[q] == '.' && all_digits(s.take(q)) && all_digits(s.skip(q + 1));
                    assert(s[q] == cs@[lo + q]);
                    if q < p - lo {
                        assert(false);
                    } else if q > p - lo {
                        assert(s.take(q)[p - lo] == s[p - lo]);
                    } else {
                        lemma_sub_take_skip(cs@, lo as int, p as int, hi as int);
                    }
                }
            }
            r
        },
    }
}

fn is_signed_digits_in(cs: &Vec<char>, lo: usize, hi: usize) -> (r: bool)
    requires
        lo <= hi <= cs@.len(),
    ensures
        r == is_signed_digits(cs@.subrange(lo as int, hi as int)),
{
    let ghost s = cs@.subrange(lo as int, hi as int);
    if hi == lo {
        return false;
    }
    if all_digits_in(cs, lo, hi) {
        return true;
    }
    proof {
        assert(s[0] == cs@[lo as int]);
        assert(s.skip(1) =~= cs@.subrange(lo + 1, hi as int));
    }
    hi - lo > 1 && (cs[lo] == '+' || cs[lo] == '-') && all_digits_in(cs, lo + 1, hi)
}

fn is_unsigned_number_in(cs: &Vec<char>, lo: usize, hi: usize) -> (r: bool)
    requires
        lo <= hi <= cs@.len(),
    ensures
        r == is_unsigned_number(cs@.subrange(lo as int, hi as int)),
{
    let ghost s = cs@.subrange(lo as int, hi as int);
    if is_decimal_in(cs, lo, hi) {
        return true;
    }
    match find_either(cs, lo, hi, 'e', 'E') {
        None => {
            proof {
                if exists|p: int|
                    0 <= p < s.len() && (s[p] == 'e' || s[p] == 'E') && is_decimal(s.take(p))
                        && is_signed_digits(s.skip(p + 1)) {
                    let p = choose|p: int|
                        0 <= p < s.len() && (s[p] == 'e' || s[p] == 'E') && is_decimal(s.take(p))
                            && is_signed_digits(s.skip(p + 1));
                    assert(s[p] == cs@[lo + p]);
                }
            }
            false
        },
        Some(p) => {
            proof {
                lemma_sub_take_skip(cs@, lo as int, p as int, hi as int);
            }
            let r = is_decimal_in(cs, lo, p) && is_signed_digits_in(cs, p + 1, hi);
            proof {
                if !r && exists|q: int|
                    0 <= q < s.len() && (s[q] == 'e' || s[q] == 'E') && is_decimal(s.take(q))
                        && is_signed_digits(s.skip(q + 1)) {
                    let q = choose|q: int|
                        0 <= q < s.len() && (s[q] == 'e' || s[q] == 'E') && is_decimal(s.take(q))
                            && is_signed_digits(s.skip(q + 1));
                    assert(s[q] == cs@[lo + q]);
                    if q > p - lo {
                        // The mantissa would hold an exponent mark.
                        let t = s.take(q);
                        assert(t[p - lo] == s[p - lo]);
                        assert(!is_digit(t[p - lo]));
                        if t.len() > 1 && exists|d: int|
                            0 <= d < t.len() && t[d] == '.' && all_digits(t.take(d)) && all_digits(t.skip(d + 1)) {
                            let d = choose|d: int|
                                0 <= d < t.len() && t[d] == '.' && all_digits(t.take(d)) && all_digits(t.skip(d + 1));
                            if p - lo < d {
                                assert(t.take(d)[p - lo] == t[p - lo]);
                            } else {
                                assert(t.skip(d + 1)[p - lo - d - 1] == t[p - lo]);
                            }
                        }
                    }
                }
            }
            r
        },
    }
}

fn is_special_in(cs: &Vec<char>, lo: usize, hi: usize) -> (r: bool)
    requires
        lo <= hi <= cs@.len(),
    ensures
        r == is_special_value(cs@.subrange(lo as int, hi as int)),
{
    let ghost s = cs@.subrange(lo as int, hi as int);
    let mut l: Vec<char> = Vec::new();
    let mut i = lo;
    while i < hi
        invariant
            lo <= i <= hi <= cs@.len(),
            l@ == cs@.subrange(lo as int, i as int).map_values(|c: char| ascii_lower(c)),
        decreases hi - i,
    {
        l.push(char_to_ascii_lower(cs[i]));
        assert(cs@.subrange(lo as int, i + 1).map_values(|c: char| ascii_lower(c)) =~= cs@.subrange(
            lo as int,
            i as int,
        ).map_values(|c: char| ascii_lower(c)).push(ascii_lower(cs@[i as int])));
        i += 1;
    }
    let ls = l.len();
    let inf = ls == 3 && l[0] == 'i' && l[1] == 'n' && l[2] == 'f';
    let infinity = ls == 8 && l[0] == 'i' && l[1] == 'n' && l[2] == 'f' && l[3] == 'i' && l[4] == 'n'
        && l[5] == 'i' && l[6] == 't' && l[7] == 'y';
    let nan = ls == 3 && l[0] == 'n' && l[1] == 'a' && l[2] == 'n';
    proof {
        if inf {
            assert(l@ =~= seq!['i', 'n', 'f']);
        }
        if infinity {
            assert(l@ =~= seq!['i', 'n', 'f', 'i', 'n', 'i', 't', 'y']);
        }
        if nan {
            assert(l@ =~= seq!['n', 'a', 'n']);
        }
    }
    inf || infinity || nan
}

/// Whether the word reads as a 64-bit float.
pub fn looks_like_number(value: &str) -> (r: bool)
    ensures
        r == is_float_literal(value@),
{
    let cs = chars_of(value);
    let n = cs.len();
    assert(cs@.subrange(0, n as int) == value@);
    let lo: usize = if n > 0 && (cs[0] == '+' || cs[0] == '-') {
        1
    } else {
        0
    };
    assert(cs@.subrange(lo as int, n as int) == if value@.len() > 0 && crate::literal::is_sign(value@[0]) {
        value@.skip(1)
    } else {
        value@
    });
    is_unsigned_number_in(&cs, lo, n) || is_special_in(&cs, lo, n)
}

} // verus!
