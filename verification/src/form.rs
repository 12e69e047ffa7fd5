//! The values read from a form input file, and the conventions by which
//! they are looked up and read as answers.

use vstd::prelude::*;

use crate::literal::{is_digit, is_float_literal, literal_denotes_zero, literal_is_zero, looks_like_number};
use crate::text::{
    ascii_lower, char_is_ascii_alnum, char_to_ascii_lower, chars_of, is_ascii_alnum, normalize_name,
    normalized, push_char, str_eq, trim, trimmed,
};

verus! {

/// The value of one entry of a form file. A number that is not an integer
/// keeps the text it was written with, which always reads as a float.
#[derive(Debug, PartialEq)]
pub enum FieldValue {
    Null,
    Number(String),
    Integer(i64),
    Text(String),
    Bool(bool),
    List(Vec<FieldValue>),
}

impl Default for FieldValue {
    fn default() -> (r: Self)
        ensures
            r == FieldValue::Null,
    {
        FieldValue::Null
    }
}

/// One statement of a form file: a label and what follows it.
#[derive(Debug, PartialEq)]
pub struct FormField {
    pub label: String,
    pub value: FieldValue,
    pub raw_tokens: Vec<String>,
    pub terminated_by_semicolon: bool,
}

/// The statements of a form file, in the order they were written.
#[derive(Debug, PartialEq)]
pub struct FormState {
    entries: Vec<FormField>,
}

impl Default for FormState {
    fn default() -> (r: Self)
        ensures
            r.entry_seq() == Seq::<FormField>::empty(),
    {
        FormState::new()
    }
}

impl Default for ReturnContext {
    fn default() -> (r: Self)
        ensures
            r.state.entry_seq() == Seq::<FormField>::empty(),
    {
        ReturnContext { state: FormState::new() }
    }
}

/// A reference to a line of a form.
#[derive(Debug, Clone, PartialEq, Eq)]
pub struct LineRef(pub String);

/// What is known of a return: the statements of its form.
#[derive(Debug, PartialEq)]
pub struct ReturnContext {
    pub state: FormState,
}

/// The first index whose entry has this label, if any.
pub open spec fn first_with_label(entries: Seq<FormField>, label: Seq<char>) -> Option<int> {
    if exists|i: int| 0 <= i < entries.len() && #[trigger] entries[i].label@ == label {
        Some(choose|i: int|
            0 <= i < entries.len() && #[trigger] entries[i].label@ == label && forall|j: int|
                0 <= j < i ==> entries[j].label@ != label)
    } else {
        None
    }
}

/// Whether an entry has this label.
pub open spec fn has_label(label: Seq<char>) -> spec_fn(FormField) -> bool {
    |e: FormField| e.label@ == label
}

/// The entries with this label, in order.
pub open spec fn with_label(entries: Seq<FormField>, label: Seq<char>) -> Seq<FormField> {
    entries.filter(has_label(label))
}

impl FormState {
    /// The entries, in order.
    pub closed spec fn entry_seq(&self) -> Seq<FormField> {
        self.entries@
    }

    /// An empty state.
    pub fn new() -> (r: Self)
        ensures
            r.entry_seq() == Seq::<FormField>::empty(),
    {
        FormState { entries: Vec::new() }
    }

    /// Appends an entry.
    pub fn push(&mut self, field: FormField)
        ensures
            final(self).entry_seq() == old(self).entry_seq().push(field),
    {
        self.entries.push(field);
    }

    /// The entries, in order.
    pub fn entries(&self) -> (r: &[FormField])
        ensures
            r@ == self.entry_seq(),
    {
        self.entries.as_slice()
    }

    pub fn is_empty(&self) -> (r: bool)
        ensures
            r == (self.entry_seq().len() == 0),
    {
        self.entries.len() == 0
    }

    pub fn len(&self) -> (r: usize)
        ensures
            r == self.entry_seq().len(),
    {
        self.entries.len()
    }

    /// The first entry with this label.
    pub fn get_first(&self, label: &str) -> (r: Option<&FormField>)
        ensures
            match first_with_label(self.entry_seq(), label@) {
                Some(i) => r == Some(&self.entry_seq()[i]),
                None => r is None,
            },
    {
        let mut i: usize = 0;
        while i < self.entries.len()
            invariant
                i <= self.entries@.len(),
                forall|j: int| 0 <= j < i ==> self.entries@[j].label@ != label@,
            decreases self.entries@.len() - i,
        {
            if str_eq(self.entries[i].label.as_str(), label) {
                proof {
                    let es = self.entries@;
                    assert(0 <= i < es.len() && es[i as int].label@ == label@);
                    let k = choose|k: int|
                        0 <= k < es.len() && #[trigger] es[k].label@ == label@ && forall|j: int|
                            0 <= j < k ==> es[j].label@ != label@;
                    if k < i {
                    } else if k > i {
                        assert(es[i as int].label@ != label@);
                    }
                }
                return Some(&self.entries[i]);
            }
            i += 1;
        }
        None
    }

    /// The entries with this label, in order.
    pub fn get_all(&self, label: &str) -> (r: Vec<&FormField>)
        ensures
            r@.map_values(|e: &FormField| *e) == with_label(self.entry_seq(), label@),
    {
        let mut r: Vec<&FormField> = Vec::new();
        let mut i: usize = 0;
        while i < self.entries.len()
            invariant
                i <= self.entries@.len(),
                r@.map_values(|e: &FormField| *e) == with_label(self.entries@.take(i as int), label@),
            decreases self.entries@.len() - i,
        {
            let ghost es = self.entries@;
            let ghost r0 = r@;
            assert(es.take(i + 1) =~= es.take(i as int).push(es[i as int]));
            proof {
                es.take(i as int).lemma_filter_push(es[i as int], has_label(label@));
            }
            if str_eq(self.entries[i].label.as_str(), label) {
                r.push(&self.entries[i]);
                assert(r@.map_values(|e: &FormField| *e) =~= r0.map_values(|e: &FormField| *e).push(es[i as int]));
            } else {
                assert(r@ == r0);
            }
            i += 1;
        }
        assert(self.entries@.take(i as int) =~= self.entries@);
        r
    }
}

/// Among entries with a label, some come before all others.
proof fn lemma_least_label_index(entries: Seq<FormField>, label: Seq<char>, j: int)
    requires
        0 <= j < entries.len(),
        entries[j].label@ == label,
    ensures
        exists|i: int|
            0 <= i < entries.len() && #[trigger] entries[i].label@ == label && forall|k: int|
                0 <= k < i ==> entries[k].label@ != label,
    decreases j,
{
    if exists|k: int| 0 <= k < j && #[trigger] entries[k].label@ == label {
        let k = choose|k: int| 0 <= k < j && #[trigger] entries[k].label@ == label;
        lemma_least_label_index(entries, label, k);
    } else {
        assert(forall|k: int| 0 <= k < j ==> entries[k].label@ != label);
    }
}

/// What the first entry with a label is.
proof fn lemma_first_with_label_props(entries: Seq<FormField>, label: Seq<char>)
    ensures
        match first_with_label(entries, label) {
            Some(i) => 0 <= i < entries.len() && entries[i].label@ == label && forall|k: int|
                0 <= k < i ==> entries[k].label@ != label,
            None => forall|k: int| 0 <= k < entries.len() ==> entries[k].label@ != label,
        },
{
    if exists|j: int| 0 <= j < entries.len() && #[trigger] entries[j].label@ == label {
        let j = choose|j: int| 0 <= j < entries.len() && #[trigger] entries[j].label@ == label;
        lemma_least_label_index(entries, label, j);
    }
}

/// Where the first entry with a label stands after one more entry.
proof fn lemma_first_with_label_push(rest: Seq<FormField>, x: FormField, label: Seq<char>)
    ensures
        first_with_label(rest.push(x), label) == match first_with_label(rest, label) {
            Some(i) => Some(i),
            None => if x.label@ == label {
                Some(rest.len() as int)
            } else {
                None
            },
        },
{
    let e = rest.push(x);
    lemma_first_with_label_props(rest, label);
    lemma_first_with_label_props(e, label);
    assert forall|k: int| 0 <= k < rest.len() implies #[trigger] e[k] == rest[k] by {}
    match first_with_label(e, label) {
        Some(j) => {
            match first_with_label(rest, label) {
                Some(i) => {
                    if j < i {
                        assert(rest[j].label@ == label);
                    } else if j > i {
                        assert(e[i].label@ == label);
                    }
                },
                None => {
                    if j < rest.len() {
                        assert(rest[j].label@ == label);
                    }
                },
            }
        },
        None => {
            match first_with_label(rest, label) {
                Some(i) => {
                    assert(e[i].label@ == label);
                },
                None => {
                    assert(e[rest.len() as int] == x);
                },
            }
        },
    }
}

/// The first entry with a label is the first of all the entries with that
/// label (`get_first` and `get_all` agree).
pub proof fn lemma_first_is_first_of_all(entries: Seq<FormField>, label: Seq<char>)
    ensures
        match first_with_label(entries, label) {
            Some(i) => 0 <= i < entries.len() && with_label(entries, label).len() > 0 && with_label(entries, label)[0]
                == entries[i],
            None => with_label(entries, label).len() == 0,
        },
    decreases entries.len(),
{
    if entries.len() == 0 {
        assert(with_label(entries, label) =~= Seq::<FormField>::empty()) by {
            reveal(Seq::filter);
        }
    } else {
        let rest = entries.drop_last();
        let x = entries.last();
        assert(entries =~= rest.push(x));
        lemma_first_is_first_of_all(rest, label);
        lemma_first_with_label_push(rest, x, label);
        rest.lemma_filter_push(x, has_label(label));
        lemma_first_with_label_props(rest, label);
        if with_label(rest, label).len() > 0 {
            assert(with_label(rest.push(x), label)[0] == with_label(rest, label)[0]);
        }
    }
}

/// The first index whose entry's label normalizes to `n`, if any.
pub open spec fn first_normalized(entries: Seq<FormField>, n: Seq<char>) -> Option<int> {
    if exists|i: int| 0 <= i < entries.len() && normalized(#[trigger] entries[i].label@) == n {
        Some(choose|i: int|
            0 <= i < entries.len() && normalized(#[trigger] entries[i].label@) == n && forall|j: int|
                0 <= j < i ==> normalized(entries[j].label@) != n)
    } else {
        None
    }
}

/// The entry for a field: the first whose label is the field's id, else the
/// first whose label normalizes as the id does.
pub fn find_state_entry_normalized<'a>(state: &'a FormState, field_id: &str) -> (r: Option<&'a FormField>)
    ensures
        match first_with_label(state.entry_seq(), field_id@) {
            Some(i) => r == Some(&state.entry_seq()[i]),
            None => match first_normalized(state.entry_seq(), normalized(field_id@)) {
                Some(i) => r == Some(&state.entry_seq()[i]),
                None => r is None,
            },
        },
{
    let entries = state.entries();
    match find_entry_index(entries, field_id) {
        Some(i) => Some(&entries[i]),
        None => None,
    }
}

/// The words that read as yes.
pub open spec fn is_yes_word(s: Seq<char>) -> bool {
    s == seq!['t', 'r', 'u', 'e'] || s == seq!['y', 'e', 's'] || s == seq!['y'] || s == seq!['1']
}

/// ASCII lower-casing of a whole text.
pub open spec fn lower(s: Seq<char>) -> Seq<char> {
    s.map_values(|c: char| ascii_lower(c))
}

/// A value read as a yes/no answer.
pub open spec fn value_truth(v: FieldValue) -> bool
    decreases v,
{
    match v {
        FieldValue::Bool(b) => b,
        FieldValue::Integer(i) => i != 0,
        FieldValue::Number(t) => !literal_denotes_zero(t@),
        FieldValue::Text(t) => is_yes_word(lower(trimmed(t@))),
        FieldValue::List(items) => if items@.len() > 0 {
            proof {
                assert(decreases_to!(items => items@));
            }
            value_truth(items@[0])
        } else {
            false
        },
        FieldValue::Null => false,
    }
}

/// The ASCII lower-cased copy of a text.
pub fn to_ascii_lower(s: &str) -> (r: String)
    ensures
        r@ == lower(s@),
{
    let cs = chars_of(s);
    let mut r = String::new();
    let mut i: usize = 0;
    while i < cs.len()
        invariant
            i <= cs@.len(),
            cs@ == s@,
            r@ == lower(s@.take(i as int)),
        decreases cs@.len() - i,
    {
        push_char(&mut r, char_to_ascii_lower(cs[i]));
        assert(lower(s@.take(i + 1)) =~= lower(s@.take(i as int)).push(ascii_lower(s@[i as int])));
        i += 1;
    }
    assert(s@.take(i as int) =~= s@);
    r
}

fn is_yes_text(s: &str) -> (r: bool)
    ensures
        r == is_yes_word(s@),
{
    let cs = chars_of(s);
    let n = cs.len();
    let r = (n == 4 && cs[0] == 't' && cs[1] == 'r' && cs[2] == 'u' && cs[3] == 'e') || (n == 3 && cs[0] == 'y'
        && cs[1] == 'e' && cs[2] == 's') || (n == 1 && cs[0] == 'y') || (n == 1 && cs[0] == '1');
    proof {
        if n == 4 && cs[0] == 't' && cs[1] == 'r' && cs[2] == 'u' && cs[3] == 'e' {
            assert(s@ =~= seq!['t', 'r', 'u', 'e']);
        }
        if n == 3 && cs[0] == 'y' && cs[1] == 'e' && cs[2] == 's' {
            assert(s@ =~= seq!['y', 'e', 's']);
        }
        if n == 1 && cs[0] == 'y' {
            assert(s@ =~= seq!['y']);
        }
        if n == 1 && cs[0] == '1' {
            assert(s@ =~= seq!['1']);
        }
    }
    r
}

/// A value read as a yes/no answer: a boolean as itself; a number is yes
/// unless zero; a text is yes if, trimmed and lower-cased, it is `true`,
/// `yes`, `y` or `1`; a list as its first item; nothing is no.
pub fn field_value_to_bool(value: &FieldValue) -> (r: bool)
    ensures
        r == value_truth(*value),
    decreases value,
{
    match value {
        FieldValue::Bool(v) => *v,
        FieldValue::Integer(v) => *v != 0,
        FieldValue::Number(v) => !(looks_like_number(v.as_str()) && literal_is_zero(v.as_str())),
        FieldValue::Text(text) => {
            let t = trim(text.as_str());
            let l = to_ascii_lower(t.as_str());
            is_yes_text(l.as_str())
        },
        FieldValue::List(values) => {
            if values.len() > 0 {
                proof {
                    assert(decreases_to!(values => values@));
                }
                field_value_to_bool(&values[0])
            } else {
                false
            }
        },
        FieldValue::Null => false,
    }
}

/// `needle` occurs in `hay` at position `i`.
pub open spec fn occurs_at(hay: Seq<char>, needle: Seq<char>, i: int) -> bool {
    0 <= i && i + needle.len() <= hay.len() && hay.subrange(i, i + needle.len()) == needle
}

/// `needle` occurs somewhere in `hay` (`str::contains`).
pub open spec fn contains_text(hay: Seq<char>, needle: Seq<char>) -> bool {
    exists|i: int| #[trigger] occurs_at(hay, needle, i)
}

/// Whether `needle` occurs in `hay`.
pub fn contains_str(hay: &str, needle: &str) -> (r: bool)
    ensures
        r == contains_text(hay@, needle@),
{
    let h = chars_of(hay);
    let nd = chars_of(needle);
    let hn = h.len();
    let nn = nd.len();
    if nn > hn {
        proof {
            assert forall|i: int| !occurs_at(hay@, needle@, i) by {}
        }
        return false;
    }
    let mut i: usize = 0;
    while i <= hn - nn
        invariant
            nn <= hn,
            h@ == hay@,
            nd@ == needle@,
            hn == hay@.len(),
            nn == needle@.len(),
            forall|k: int| 0 <= k < i ==> !occurs_at(hay@, needle@, k),
        decreases hn - i,
    {
        let mut j: usize = 0;
        while j < nn && h[i + j] == nd[j]
            invariant
                j <= nn,
                i + nn <= hn,
                h@ == hay@,
                nd@ == needle@,
                hn == hay@.len(),
                nn == needle@.len(),
                forall|k: int| 0 <= k < j ==> hay@[i + k] == needle@[k],
            decreases nn - j,
        {
            j += 1;
        }
        if j == nn {
            assert(hay@.subrange(i as int, i + nn) =~= needle@);
            assert(occurs_at(hay@, needle@, i as int));
            return true;
        }
        assert(hay@.subrange(i as int, i + nn)[j as int] != needle@[j as int]);
        i += 1;
    }
    proof {
        assert forall|k: int| !occurs_at(hay@, needle@, k) by {
            if k >= i {
                assert(k + needle@.len() > hay@.len());
            }
        }
    }
    false
}

/// The maximal runs of ASCII letters and digits of `s` from `i` on,
/// lower-cased, where `cur` is the part of a run already read.
pub open spec fn alnum_runs(s: Seq<char>, i: int, cur: Seq<char>) -> Seq<Seq<char>>
    decreases s.len() - i,
{
    if i >= s.len() {
        if cur.len() > 0 {
            seq![cur]
        } else {
            Seq::empty()
        }
    } else if is_ascii_alnum(s[i]) {
        alnum_runs(s, i + 1, cur.push(ascii_lower(s[i])))
    } else if cur.len() > 0 {
        seq![cur] + alnum_runs(s, i + 1, Seq::empty())
    } else {
        alnum_runs(s, i + 1, Seq::empty())
    }
}

/// The words of an answer as matched against enumeration keys: its runs of
/// letters and digits, lower-cased; a text with none gives one empty word.
pub open spec fn enum_words(s: Seq<char>) -> Seq<Seq<char>> {
    let runs = alnum_runs(s, 0, Seq::empty());
    if runs.len() == 0 {
        seq![normalized(s)]
    } else {
        runs
    }
}

/// Splits an answer into the words that are matched against enumeration
/// keys.
pub fn tokenize_enum_value(raw: &str) -> (r: Vec<String>)
    ensures
        crate::text::string_views(r@) == enum_words(raw@),
{
    let cs = chars_of(raw);
    let ghost s = raw@;
    let mut tokens: Vec<String> = Vec::new();
    let mut current = String::new();
    let mut nonempty = false;
    let mut i: usize = 0;
    assert(crate::text::string_views(tokens@) + alnum_runs(s, 0, current@) =~= alnum_runs(s, 0, Seq::empty()));
    while i < cs.len()
        invariant
            i <= cs@.len(),
            cs@ == s,
            s == raw@,
            nonempty == (current@.len() > 0),
            crate::text::string_views(tokens@) + alnum_runs(s, i as int, current@) == alnum_runs(s, 0, Seq::empty()),
        decreases cs@.len() - i,
    {
        let ch = cs[i];
        let ghost t0 = crate::text::string_views(tokens@);
        let ghost c0 = current@;
        assert(s[i as int] == ch);
        if char_is_ascii_alnum(ch) {
            assert(alnum_runs(s, i as int, c0) == alnum_runs(s, i + 1, c0.push(ascii_lower(ch))));
            push_char(&mut current, char_to_ascii_lower(ch));
            nonempty = true;
        } else if nonempty {
            let done = current;
            current = String::new();
            nonempty = false;
            tokens.push(done);
            assert(crate::text::string_views(tokens@) =~= t0.push(c0));
            assert(alnum_runs(s, i as int, c0) == seq![c0] + alnum_runs(s, i + 1, Seq::empty()));
            assert(t0 + (seq![c0] + alnum_runs(s, i + 1, Seq::empty())) =~= t0.push(c0) + alnum_runs(s, i + 1, Seq::empty()));
            assert(current@ =~= Seq::<char>::empty());
        } else {
            assert(c0 =~= Seq::<char>::empty());
            assert(alnum_runs(s, i as int, c0) == alnum_runs(s, i + 1, Seq::empty()));
        }
        i += 1;
    }
    let ghost t1 = crate::text::string_views(tokens@);
    if nonempty {
        let ghost c1 = current@;
        tokens.push(current);
        assert(crate::text::string_views(tokens@) =~= t1.push(c1));
        assert(t1 + seq![c1] =~= t1.push(c1));
    } else {
        assert(t1 + Seq::<Seq<char>>::empty() =~= t1);
    }
    if tokens.len() == 0 {
        let mut v: Vec<String> = Vec::new();
        v.push(normalize_name(raw));
        assert(crate::text::string_views(v@) =~= seq![normalized(raw@)]);
        v
    } else {
        tokens
    }
}

/// A word that matches any key: empty, or a single ASCII character (one
/// byte long).
pub open spec fn matches_any_key(t: Seq<char>) -> bool {
    t.len() == 0 || (t.len() == 1 && (t[0] as u32) < 128)
}

/// The words of an answer match a key when there is at least one and each
/// either matches any key or occurs in the key.
pub open spec fn words_match_key(words: Seq<Seq<char>>, key: Seq<char>) -> bool {
    words.len() > 0 && forall|i: int|
        0 <= i < words.len() ==> matches_any_key(#[trigger] words[i]) || contains_text(key, words[i])
}

/// Whether the words of an answer match a normalized enumeration key.
pub fn enum_tokens_match(input_tokens: &[String], key_normalized: &str) -> (r: bool)
    ensures
        r == words_match_key(input_tokens@.map_values(|t: String| t@), key_normalized@),
{
    let ghost w = input_tokens@.map_values(|t: String| t@);
    if input_tokens.len() == 0 {
        return false;
    }
    let mut i: usize = 0;
    while i < input_tokens.len()
        invariant
            i <= input_tokens@.len(),
            w == input_tokens@.map_values(|t: String| t@),
            forall|k: int| 0 <= k < i ==> matches_any_key(#[trigger] w[k]) || contains_text(key_normalized@, w[k]),
        decreases input_tokens@.len() - i,
    {
        let t = &input_tokens[i];
        let tc = chars_of(t.as_str());
        let short = tc.len() == 0 || (tc.len() == 1 && (tc[0] as u32) < 128);
        assert(w[i as int] == t@);
        if !short && !contains_str(key_normalized, t.as_str()) {
            return false;
        }
        i += 1;
    }
    true
}

/// Whether an answer names an enumeration key: their normalized forms are
/// equal or one contains the other, or the answer's words match the key.
pub open spec fn enum_key_matches_spec(text: Seq<char>, key: Seq<char>) -> bool {
    let needle = normalized(text);
    let k = normalized(key);
    ||| k == needle
    ||| contains_text(k, needle)
    ||| contains_text(needle, k)
    ||| words_match_key(enum_words(text), k)
}

/// Whether an answer names an enumeration key.
pub fn enum_key_matches(text: &str, key: &str) -> (r: bool)
    ensures
        r == enum_key_matches_spec(text@, key@),
{
    let needle = normalize_name(text);
    let input_tokens = tokenize_enum_value(text);
    let key_normalized = normalize_name(key);
    proof {
        assert(input_tokens@.map_values(|t: String| t@) =~= crate::text::string_views(input_tokens@));
    }
    str_eq(key_normalized.as_str(), needle.as_str()) || contains_str(key_normalized.as_str(), needle.as_str())
        || contains_str(needle.as_str(), key_normalized.as_str()) || enum_tokens_match(
        input_tokens.as_slice(),
        key_normalized.as_str(),
    )
}

/// Where an input field's initial value comes from.
#[derive(Debug, Clone, Copy, PartialEq, Eq, Structural)]
pub enum FieldSeed {
    /// The value of the entry at this position of the form state.
    Entry(usize),
    /// The field's default value.
    Default,
}

/// Where input field `f` gets its initial value: the entry for it (see
/// `find_state_entry_normalized`), else its default, else nowhere.
pub open spec fn seed_of(f: crate::schema::FieldSpec, entries: Seq<FormField>) -> Option<FieldSeed> {
    match first_with_label(entries, f.id@) {
        Some(i) => Some(FieldSeed::Entry(i as usize)),
        None => match first_normalized(entries, normalized(f.id@)) {
            Some(i) => Some(FieldSeed::Entry(i as usize)),
            None => if f.default is Some {
                Some(FieldSeed::Default)
            } else {
                None
            },
        },
    }
}

/// A field that the form file fills in.
pub open spec fn is_input_field(f: crate::schema::FieldSpec) -> bool {
    f.source@ == "input"@ || f.source@ == "input_list"@
}

/// The seeds of the input fields among the first `n` fields, in field
/// order: each with the field's position.
pub open spec fn input_seeds(fields: Seq<crate::schema::FieldSpec>, entries: Seq<FormField>, n: int) -> Seq<(usize, FieldSeed)>
    decreases n,
{
    if n <= 0 {
        Seq::empty()
    } else {
        let rest = input_seeds(fields, entries, n - 1);
        let f = fields[n - 1];
        if is_input_field(f) && seed_of(f, entries) is Some {
            rest.push(((n - 1) as usize, seed_of(f, entries)->0))
        } else {
            rest
        }
    }
}

/// Where each input field of a schema gets its initial value, in field
/// order; fields that get none are left out.
pub fn input_field_seeds(schema: &crate::schema::RuleSchema, state: &FormState) -> (r: Vec<(usize, FieldSeed)>)
    ensures
        r@ == input_seeds(schema.fields@, state.entry_seq(), schema.fields@.len() as int),
{
    let entries = state.entries();
    let mut r: Vec<(usize, FieldSeed)> = Vec::new();
    let mut i: usize = 0;
    while i < schema.fields.len()
        invariant
            i <= schema.fields@.len(),
            entries@ == state.entry_seq(),
            r@ == input_seeds(schema.fields@, state.entry_seq(), i as int),
        decreases schema.fields@.len() - i,
    {
        let f = &schema.fields[i];
        let input = str_eq(f.source.as_str(), "input") || str_eq(f.source.as_str(), "input_list");
        if input {
            let seed: Option<FieldSeed> = match find_entry_index(entries, f.id.as_str()) {
                Some(k) => Some(FieldSeed::Entry(k)),
                None => if f.default.is_some() {
                    Some(FieldSeed::Default)
                } else {
                    None
                },
            };
            if let Some(sd) = seed {
                r.push((i, sd));
            }
        }
        i += 1;
    }
    r
}

/// The position of the entry for a field: the first whose label is the
/// field's id, else the first whose label normalizes as the id does.
fn find_entry_index(entries: &[FormField], field_id: &str) -> (r: Option<usize>)
    ensures
        match first_with_label(entries@, field_id@) {
            Some(i) => 0 <= i < entries@.len() && r == Some(i as usize),
            None => match first_normalized(entries@, normalized(field_id@)) {
                Some(i) => 0 <= i < entries@.len() && r == Some(i as usize),
                None => r is None,
            },
        },
{
    let mut i: usize = 0;
    while i < entries.len()
        invariant
            i <= entries@.len(),
            forall|j: int| 0 <= j < i ==> entries@[j].label@ != field_id@,
        decreases entries@.len() - i,
    {
        if str_eq(entries[i].label.as_str(), field_id) {
            proof {
                let es = entries@;
                assert(0 <= i < es.len() && #[trigger] es[i as int].label@ == field_id@);
                let k = choose|k: int|
                    0 <= k < es.len() && #[trigger] es[k].label@ == field_id@ && forall|j: int|
                        0 <= j < k ==> es[j].label@ != field_id@;
                if k < i {
                } else if k > i {
                    assert(es[i as int].label@ != field_id@);
                }
            }
            return Some(i);
        }
        i += 1;
    }
    assert(first_with_label(entries@, field_id@) is None);
    let normalized_field = normalize_name(field_id);
    let mut i: usize = 0;
    while i < entries.len()
        invariant
            i <= entries@.len(),
            first_with_label(entries@, field_id@) is None,
            normalized_field@ == normalized(field_id@),
            forall|j: int| 0 <= j < i ==> normalized(entries@[j].label@) != normalized_field@,
        decreases entries@.len() - i,
    {
        let n = normalize_name(entries[i].label.as_str());
        if str_eq(n.as_str(), normalized_field.as_str()) {
            proof {
                let es = entries@;
                let nf = normalized_field@;
                assert(0 <= i < es.len() && normalized(es[i as int].label@) == nf);
                let k = choose|k: int|
                    0 <= k < es.len() && normalized(#[trigger] es[k].label@) == nf && forall|j: int|
                        0 <= j < k ==> normalized(es[j].label@) != nf;
                if k < i {
                } else if k > i {
                    assert(normalized(es[i as int].label@) != nf);
                }
            }
            return Some(i);
        }
        i += 1;
    }
    None
}

/// What a field's output line shows.
#[derive(Debug, Clone, Copy, PartialEq, Eq, Structural)]
pub enum OutputSource {
    /// The value that the rules computed for it.
    Computed,
    /// The value of the entry at this position of the form state.
    Entry(usize),
    /// The field's default value.
    Default,
    /// Nothing.
    Empty,
}

/// What a field's output line shows: its computed value if the rules
/// computed one, else the entry for it, else its default, else nothing.
pub open spec fn output_of(f: crate::schema::FieldSpec, computed: bool, entries: Seq<FormField>) -> OutputSource {
    if computed {
        OutputSource::Computed
    } else {
        match first_with_label(entries, f.id@) {
            Some(i) => OutputSource::Entry(i as usize),
            None => match first_normalized(entries, normalized(f.id@)) {
                Some(i) => OutputSource::Entry(i as usize),
                None => if f.default is Some {
                    OutputSource::Default
                } else {
                    OutputSource::Empty
                },
            },
        }
    }
}

/// What a field's output line shows, given whether the rules computed a
/// value for it.
pub fn output_source(field: &crate::schema::FieldSpec, computed: bool, state: &FormState) -> (r: OutputSource)
    ensures
        r == output_of(*field, computed, state.entry_seq()),
{
    if computed {
        return OutputSource::Computed;
    }
    match find_entry_index(state.entries(), field.id.as_str()) {
        Some(i) => OutputSource::Entry(i),
        None => if field.default.is_some() {
            OutputSource::Default
        } else {
            OutputSource::Empty
        },
    }
}

} // verus!
