//! The declarative rule schema of a form: its fields, its rules and the
//! hooks that rules may call.

use vstd::prelude::*;

use crate::strmap::StrMap;

verus! {

pub struct RuleMeta {
    pub form: String,
    pub year: u16,
    pub constants_file: Option<String>,
}

pub struct FieldSpec {
    pub id: String,
    pub source: String,
    pub field_type: String,
    /// The field's default value, held as the bit pattern of an IEEE 754
    /// double (the library does no floating-point arithmetic).
    pub default: Option<u64>,
    pub enum_ref: Option<String>,
    pub label: Option<String>,
}

pub struct HookSpec {
    pub module: String,
    pub function: String,
}

pub struct RuleSpec {
    pub id: String,
    pub target: Option<String>,
    pub kind: String,
    pub args: Option<Vec<String>>,
    pub hook: Option<String>,
    pub constants: Option<Vec<String>>,
    pub if_expr: Option<String>,
    pub then_rules: Option<Vec<String>>,
    pub else_rules: Option<Vec<String>>,
}

pub struct RuleSchema {
    pub meta: Option<RuleMeta>,
    pub fields: Vec<FieldSpec>,
    pub rules: Vec<RuleSpec>,
    pub hooks: StrMap<HookSpec>,
}

/// The list held by an optional list; an absent list is empty.
pub open spec fn opt_list(o: Option<Vec<String>>) -> Seq<String> {
    match o {
        Some(v) => v@,
        None => Seq::empty(),
    }
}

/// The characters of an optional string.
pub open spec fn opt_view(o: Option<String>) -> Option<Seq<char>> {
    match o {
        Some(s) => Some(s@),
        None => None,
    }
}

pub fn clone_opt_string(o: &Option<String>) -> (r: Option<String>)
    ensures
        opt_view(r) == opt_view(*o),
{
    match o {
        Some(s) => Some(s.clone()),
        None => None,
    }
}

pub fn clone_string_vec(v: &Vec<String>) -> (r: Vec<String>)
    ensures
        crate::text::string_views(r@) == crate::text::string_views(v@),
{
    let mut r: Vec<String> = Vec::new();
    let mut i: usize = 0;
    while i < v.len()
        invariant
            i <= v@.len(),
            r@.len() == i,
            forall|j: int| 0 <= j < i ==> #[trigger] r@[j]@ == v@[j]@,
        decreases v@.len() - i,
    {
        r.push(v[i].clone());
        i += 1;
    }
    assert(crate::text::string_views(r@) =~= crate::text::string_views(v@));
    r
}

impl RuleSchema {
    pub fn new() -> (r: Self)
        ensures
            r.meta is None,
            r.fields@.len() == 0,
            r.rules@.len() == 0,
            r.hooks.keys().len() == 0,
    {
        RuleSchema { meta: None, fields: Vec::new(), rules: Vec::new(), hooks: StrMap::new() }
    }
}

} // verus!
