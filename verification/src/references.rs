//! The names that an argument or condition expression refers to.

use vstd::prelude::*;

use crate::literal::{is_float_literal, looks_like_number};
use crate::strmap::{sorted_keys, StrMap};
use crate::text::{chars_of, is_ascii_alnum, string_views};

verus! {

/// A character that can stand in a reference: a letter, a digit, `_`, `.` or `?`.
pub open spec fn is_ref_char(c: char) -> bool {
    is_ascii_alnum(c) || c == '_' || c == '.' || c == '?'
}

/// `s[i..j]` is a maximal run of reference characters.
pub open spec fn is_run(s: Seq<char>, i: int, j: int) -> bool {
    &&& 0 <= i < j <= s.len()
    &&& forall|k: int| i <= k < j ==> is_ref_char(#[trigger] s[k])
    &&& (i == 0 || !is_ref_char(s[i - 1]))
    &&& (j == s.len() || !is_ref_char(s[j]))
}

/// `t` is a reference of `s`: a maximal run of reference characters that
/// does not read as a number.
pub open spec fn is_reference(s: Seq<char>, t: Seq<char>) -> bool {
    !is_float_literal(t) && exists|i: int, j: int| is_run(s, i, j) && s.subrange(i, j) == t
}

pub fn char_is_ref_char(c: char) -> (r: bool)
    ensures
        r == is_ref_char(c),
{
    crate::text::char_is_ascii_alnum(c) || c == '_' || c == '.' || c == '?'
}

/// The string made of `cs[lo..hi]`.
pub fn string_from_range(cs: &Vec<char>, lo: usize, hi: usize) -> (r: String)
    requires
        lo <= hi <= cs@.len(),
    ensures
        r@ == cs@.subrange(lo as int, hi as int),
{
    let mut r = String::new();
    let mut i = lo;
    while i < hi
        invariant
            lo <= i <= hi <= cs@.len(),
            r@ == cs@.subrange(lo as int, i as int),
        decreases hi - i,
    {
        crate::text::push_char(&mut r, cs[i]);
        assert(cs@.subrange(lo as int, i + 1) =~= cs@.subrange(lo as int, i as int).push(cs@[i as int]));
        i += 1;
    }
    r
}

/// The only run that ends at `j` starts where the current run started.
proof fn lemma_run_ending_at(s: Seq<char>, st: int, j: int, i: int)
    requires
        0 <= st <= j <= s.len(),
        forall|k: int| st <= k < j ==> is_ref_char(#[trigger] s[k]),
        st == 0 || !is_ref_char(s[st - 1]),
        is_run(s, i, j),
    ensures
        i == st,
{
    if i < st {
        assert(is_ref_char(s[st - 1]));
    } else if i > st {
        assert(is_ref_char(s[i - 1]));
    }
}

/// Files the word read so far among the references, unless it is empty or
/// reads as a number, and starts a new word.
pub fn flush_reference(current: &mut String, refs: &mut StrMap<()>)
    ensures
        final(current)@ == Seq::<char>::empty(),
        forall|t: Seq<char>| #[trigger] final(refs).contains(t) == (old(refs).contains(t) || (old(current)@.len() > 0
            && !is_float_literal(old(current)@) && t == old(current)@)),
{
    let mut word = String::new();
    std::mem::swap(&mut word, current);
    if word.as_str().is_empty() {
        return;
    }
    if !looks_like_number(word.as_str()) {
        refs.insert(word, ());
    }
}

/// The references of an expression, each once, in sorted order.
pub fn extract_references(expression: &str) -> (r: Vec<String>)
    ensures
        sorted_keys(string_views(r@)),
        forall|t: Seq<char>| string_views(r@).contains(t) == is_reference(expression@, t),
{
    let cs = chars_of(expression);
    let ghost s = expression@;
    let n = cs.len();
    let mut refs: StrMap<()> = StrMap::new();
    let mut st: usize = 0;
    let mut k: usize = 0;
    while k < n
        invariant
            cs@ == s,
            n == s.len(),
            st <= k <= n,
            forall|q: int| st <= q < k ==> is_ref_char(#[trigger] s[q]),
            st == 0 || !is_ref_char(s[st - 1]),
            forall|t: Seq<char>| #[trigger] refs.contains(t) == (!is_float_literal(t) && exists|i: int, j: int|
                is_run(s, i, j) && j < k && s.subrange(i, j) == t),
        decreases n - k,
    {
        if char_is_ref_char(cs[k]) {
            proof {
                assert forall|t: Seq<char>| #[trigger] refs.contains(t) == (!is_float_literal(t) && exists|i: int, j: int|
                    is_run(s, i, j) && j < k + 1 && s.subrange(i, j) == t) by {
                    if exists|i: int, j: int| is_run(s, i, j) && j < k + 1 && s.subrange(i, j) == t {
                        let (i, j) = choose|i: int, j: int| is_run(s, i, j) && j < k + 1 && s.subrange(i, j) == t;
                        assert(j != k);
                    }
                }
            }
        } else {
            if st < k {
                let mut word = string_from_range(&cs, st, k);
                let ghost w = word@;
                flush_reference(&mut word, &mut refs);
                proof {
                    assert(is_run(s, st as int, k as int));
                    assert forall|t: Seq<char>| #[trigger] refs.contains(t) == (!is_float_literal(t) && exists|i: int, j: int|
                        is_run(s, i, j) && j < k + 1 && s.subrange(i, j) == t) by {
                        if exists|i: int, j: int| is_run(s, i, j) && j < k + 1 && s.subrange(i, j) == t {
                            let (i, j) = choose|i: int, j: int| is_run(s, i, j) && j < k + 1 && s.subrange(i, j) == t;
                            if j == k {
                                lemma_run_ending_at(s, st as int, k as int, i);
                            }
                        }
                        if t == w && !is_float_literal(t) {
                            assert(is_run(s, st as int, k as int) && s.subrange(st as int, k as int) == t);
                        }
                    }
                }
            } else {
                proof {
                    assert forall|t: Seq<char>| #[trigger] refs.contains(t) == (!is_float_literal(t) && exists|i: int, j: int|
                        is_run(s, i, j) && j < k + 1 && s.subrange(i, j) == t) by {
                        if exists|i: int, j: int| is_run(s, i, j) && j < k + 1 && s.subrange(i, j) == t {
                            let (i, j) = choose|i: int, j: int| is_run(s, i, j) && j < k + 1 && s.subrange(i, j) == t;
                            if j == k {
                                lemma_run_ending_at(s, st as int, k as int, i);
                            }
                        }
                    }
                }
            }
            st = k + 1;
        }
        k += 1;
    }
    if st < n {
        let mut word = string_from_range(&cs, st, n);
        let ghost w = word@;
        flush_reference(&mut word, &mut refs);
        proof {
            assert(is_run(s, st as int, n as int));
            assert forall|t: Seq<char>| #[trigger] refs.contains(t) == is_reference(s, t) by {
                if exists|i: int, j: int| is_run(s, i, j) && s.subrange(i, j) == t {
                    let (i, j) = choose|i: int, j: int| is_run(s, i, j) && s.subrange(i, j) == t;
                    if j == n {
                        lemma_run_ending_at(s, st as int, n as int, i);
                    }
                }
                if t == w && !is_float_literal(t) {
                    assert(is_run(s, st as int, n as int) && s.subrange(st as int, n as int) == t);
                }
            }
        }
    } else {
        proof {
            assert forall|t: Seq<char>| #[trigger] refs.contains(t) == is_reference(s, t) by {
                if exists|i: int, j: int| is_run(s, i, j) && s.subrange(i, j) == t {
                    let (i, j) = choose|i: int, j: int| is_run(s, i, j) && s.subrange(i, j) == t;
                    if j == n {
                        lemma_run_ending_at(s, st as int, n as int, i);
                    }
                }
            }
        }
    }
    proof {
        use_type_invariant(&refs);
    }
    let r = refs.keys_vec();
    assert forall|t: Seq<char>| string_views(r@).contains(t) == is_reference(expression@, t) by {
        assert(refs.contains(t) == is_reference(s, t));
    }
    r
}

} // verus!
