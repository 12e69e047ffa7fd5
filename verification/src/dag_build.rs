//! Building the execution DAG of a rule schema.

use vstd::prelude::*;

use crate::dag::{DagBuildError, DagEdge, DagEdgeKind, DagNode, DagNodeKind, ExecutionDag};
use crate::references::{extract_references, is_reference};
use crate::schema::{clone_opt_string, opt_list, opt_view, FieldSpec, RuleSchema, RuleSpec};
use crate::strmap::{sorted_keys, StrMap};
use crate::text::{compare_str, push_char, string_views};

verus! {

/// The id of the node of a field.
pub open spec fn field_node_key(id: Seq<char>) -> Seq<char> {
    seq!['f', 'i', 'e', 'l', 'd', ':'] + id
}

/// The id of the node of a rule.
pub open spec fn rule_node_key(id: Seq<char>) -> Seq<char> {
    seq!['r', 'u', 'l', 'e', ':'] + id
}

pub open spec fn field_ids(s: RuleSchema) -> Seq<Seq<char>> {
    s.fields@.map_values(|f: FieldSpec| f.id@)
}

pub open spec fn rule_ids(s: RuleSchema) -> Seq<Seq<char>> {
    s.rules@.map_values(|r: RuleSpec| r.id@)
}

/// The rule refers to `d`: in an argument, in its condition, or as a
/// constant.
pub open spec fn depends_on(r: RuleSpec, d: Seq<char>) -> bool {
    ||| exists|i: int| 0 <= i < opt_list(r.args).len() && is_reference(#[trigger] opt_list(r.args)[i]@, d)
    ||| (r.if_expr matches Some(c) && is_reference(c@, d))
    ||| string_views(opt_list(r.constants)).contains(d)
}

/// The id of the last of `rules` whose target is `d`.
pub open spec fn last_producer(rules: Seq<RuleSpec>, d: Seq<char>) -> Option<Seq<char>>
    decreases rules.len(),
{
    if rules.len() == 0 {
        None
    } else if opt_view(rules.last().target) == Some(d) {
        Some(rules.last().id@)
    } else {
        last_producer(rules.drop_last(), d)
    }
}

/// The node that feeds dependency `d` of rule `r`, or `None` when `d` is an
/// external input. A rule's own target can only come from its field; other
/// names come from the rule that produces them, else a field, else a rule of
/// that id.
pub open spec fn dependency_source(s: RuleSchema, r: RuleSpec, d: Seq<char>) -> Option<Seq<char>> {
    if opt_view(r.target) == Some(d) {
        if field_ids(s).contains(d) {
            Some(field_node_key(d))
        } else {
            None
        }
    } else if last_producer(s.rules@, d) is Some {
        Some(rule_node_key(last_producer(s.rules@, d)->0))
    } else if field_ids(s).contains(d) {
        Some(field_node_key(d))
    } else if rule_ids(s).contains(d) {
        Some(rule_node_key(d))
    } else {
        None
    }
}

/// The sorted list of the rule's dependencies.
pub open spec fn dependency_listing(r: RuleSpec) -> Seq<Seq<char>> {
    choose|l: Seq<Seq<char>>| sorted_keys(l) && forall|t: Seq<char>| #[trigger] l.contains(t) == depends_on(r, t)
}

/// The rule's dependencies can be listed in sorted order.
pub open spec fn dependencies_listable(r: RuleSpec) -> bool {
    exists|l: Seq<Seq<char>>| sorted_keys(l) && forall|t: Seq<char>| #[trigger] l.contains(t) == depends_on(r, t)
}

/// The sorted list of the rule's external inputs.
pub open spec fn external_listing(s: RuleSchema, r: RuleSpec) -> Seq<Seq<char>> {
    choose|l: Seq<Seq<char>>|
        sorted_keys(l) && forall|t: Seq<char>|
            #[trigger] l.contains(t) == (depends_on(r, t) && dependency_source(s, r, t) is None)
}

pub open spec fn edge_view(e: DagEdge) -> (Seq<char>, Seq<char>, DagEdgeKind) {
    (e.from@, e.to@, e.kind)
}

pub open spec fn edge_views(es: Seq<DagEdge>) -> Seq<(Seq<char>, Seq<char>, DagEdgeKind)> {
    es.map_values(|e: DagEdge| edge_view(e))
}

/// Data edges into rule `r`, one per dependency that has a source, in the
/// order of `deps`.
pub open spec fn data_edges(s: RuleSchema, r: RuleSpec, deps: Seq<Seq<char>>) -> Seq<(Seq<char>, Seq<char>, DagEdgeKind)>
    decreases deps.len(),
{
    if deps.len() == 0 {
        Seq::empty()
    } else {
        let rest = data_edges(s, r, deps.drop_last());
        match dependency_source(s, r, deps.last()) {
            Some(src) => rest.push((src, rule_node_key(r.id@), DagEdgeKind::Data)),
            None => rest,
        }
    }
}

/// Control edges from rule `rid` to each of `targets`.
pub open spec fn branch_edges(rid: Seq<char>, targets: Seq<Seq<char>>, kind: DagEdgeKind) -> Seq<(Seq<char>, Seq<char>, DagEdgeKind)> {
    targets.map_values(|t: Seq<char>| (rule_node_key(rid), rule_node_key(t), kind))
}

/// The edges that rule `r` contributes, in order.
pub open spec fn rule_edges(s: RuleSchema, r: RuleSpec) -> Seq<(Seq<char>, Seq<char>, DagEdgeKind)> {
    data_edges(s, r, dependency_listing(r)) + branch_edges(
        r.id@,
        string_views(opt_list(r.then_rules)),
        DagEdgeKind::ControlThen,
    ) + branch_edges(r.id@, string_views(opt_list(r.else_rules)), DagEdgeKind::ControlElse)
}

/// The edges of the first `n` rules.
pub open spec fn schema_edges(s: RuleSchema, n: int) -> Seq<(Seq<char>, Seq<char>, DagEdgeKind)>
    decreases n,
{
    if n <= 0 {
        Seq::empty()
    } else {
        schema_edges(s, n - 1) + rule_edges(s, s.rules@[n - 1])
    }
}

pub open spec fn node_is(
    nd: DagNode,
    id: Seq<char>,
    kind: DagNodeKind,
    target: Option<Seq<char>>,
    operator: Option<Seq<char>>,
    deps: Seq<Seq<char>>,
    ext: Seq<Seq<char>>,
) -> bool {
    &&& nd.id@ == id
    &&& nd.kind == kind
    &&& opt_view(nd.target) == target
    &&& opt_view(nd.operator) == operator
    &&& string_views(nd.dependencies@) == deps
    &&& string_views(nd.external_inputs@) == ext
}

/// The node of field `i` is as the schema gives it.
pub open spec fn field_node_ok(s: RuleSchema, m: Map<Seq<char>, DagNode>, i: int) -> bool {
    let f = s.fields@[i];
    let key = field_node_key(f.id@);
    m.contains_key(key) && node_is(m[key], key, DagNodeKind::Field, Some(f.id@), Some(f.source@), Seq::empty(), Seq::empty())
}

/// The node of rule `i` is as the schema gives it.
pub open spec fn rule_node_ok(s: RuleSchema, m: Map<Seq<char>, DagNode>, i: int) -> bool {
    let r = s.rules@[i];
    let key = rule_node_key(r.id@);
    m.contains_key(key) && node_is(
        m[key],
        key,
        DagNodeKind::Rule,
        opt_view(r.target),
        Some(r.kind@),
        dependency_listing(r),
        external_listing(s, r),
    )
}

/// `dag` is the DAG of schema `s`: a node per field and per rule, and the
/// edges of the rules in rule order.
pub open spec fn describes(s: RuleSchema, dag: ExecutionDag) -> bool {
    &&& forall|key: Seq<char>| #[trigger] dag.nodes.contains(key) == (
        (exists|i: int| 0 <= i < s.fields@.len() && key == field_node_key(s.fields@[i].id@))
        || (exists|i: int| 0 <= i < s.rules@.len() && key == rule_node_key(s.rules@[i].id@)))
    &&& forall|i: int| 0 <= i < s.fields@.len() ==> field_node_ok(s, dag.nodes.map_view(), i)
    &&& forall|i: int| 0 <= i < s.rules@.len() ==> rule_node_ok(s, dag.nodes.map_view(), i)
    &&& edge_views(dag.edges@) == schema_edges(s, s.rules@.len() as int)
}

/// Entry `i` repeats an earlier one.
pub open spec fn repeats_at(ids: Seq<Seq<char>>, i: int) -> bool {
    0 <= i < ids.len() && ids.take(i).contains(ids[i])
}

/// Entry `i` is the first that repeats an earlier one.
pub open spec fn first_repeat(ids: Seq<Seq<char>>, i: int) -> bool {
    repeats_at(ids, i) && forall|j: int| 0 <= j < i ==> !#[trigger] repeats_at(ids, j)
}

/// The rules that rule `r` branches to: its `then` list, then its `else` list.
pub open spec fn branch_targets(r: RuleSpec) -> Seq<Seq<char>> {
    string_views(opt_list(r.then_rules)) + string_views(opt_list(r.else_rules))
}

/// Rule `i` branches to a rule that does not exist.
pub open spec fn has_unknown_branch(s: RuleSchema, i: int) -> bool {
    exists|j: int| 0 <= j < branch_targets(s.rules@[i]).len() && !rule_ids(s).contains(#[trigger] branch_targets(s.rules@[i])[j])
}

/// Branch target `j` of rule `i` is the first unknown one of the first rule
/// that has one.
pub open spec fn first_unknown_branch(s: RuleSchema, i: int, j: int) -> bool {
    &&& 0 <= i < s.rules@.len()
    &&& forall|i2: int| 0 <= i2 < i ==> !#[trigger] has_unknown_branch(s, i2)
    &&& 0 <= j < branch_targets(s.rules@[i]).len()
    &&& !rule_ids(s).contains(branch_targets(s.rules@[i])[j])
    &&& forall|j2: int| 0 <= j2 < j ==> rule_ids(s).contains(#[trigger] branch_targets(s.rules@[i])[j2])
}

/// Field ids and rule ids are each unique and every branch names a rule.
pub open spec fn schema_consistent(s: RuleSchema) -> bool {
    &&& field_ids(s).no_duplicates()
    &&& rule_ids(s).no_duplicates()
    &&& forall|i: int| 0 <= i < s.rules@.len() ==> !#[trigger] has_unknown_branch(s, i)
}


proof fn lemma_take_push_contains(s: Seq<Seq<char>>, k: int, t: Seq<char>)
    requires
        0 <= k < s.len(),
    ensures
        s.take(k + 1).contains(t) == (s.take(k).contains(t) || t == s[k]),
{
    let a = s.take(k + 1);
    let b = s.take(k);
    assert(a[k] == s[k]);
    if a.contains(t) && t != s[k] {
        let j = choose|j: int| 0 <= j < a.len() && a[j] == t;
        assert(b[j] == t);
    }
    if b.contains(t) {
        let j = choose|j: int| 0 <= j < b.len() && b[j] == t;
        assert(a[j] == t);
    }
}

proof fn lemma_prefix_injective(p: Seq<char>, a: Seq<char>, b: Seq<char>)
    requires
        p + a == p + b,
    ensures
        a == b,
{
    assert(a =~= (p + a).skip(p.len() as int));
    assert(b =~= (p + b).skip(p.len() as int));
}

proof fn lemma_field_rule_keys_differ(a: Seq<char>, b: Seq<char>)
    ensures
        field_node_key(a) != rule_node_key(b),
{
    assert(field_node_key(a)[0] == 'f');
    assert(rule_node_key(b)[0] == 'r');
}

proof fn lemma_edge_views_push(es: Seq<DagEdge>, e: DagEdge)
    ensures
        edge_views(es.push(e)) == edge_views(es).push(edge_view(e)),
{
    assert(edge_views(es.push(e)) =~= edge_views(es).push(edge_view(e)));
}

/// Two sorted lists with the same elements are the same list.
pub proof fn lemma_sorted_listing_unique(a: Seq<Seq<char>>, b: Seq<Seq<char>>)
    requires
        sorted_keys(a),
        sorted_keys(b),
        forall|t: Seq<char>| a.contains(t) == b.contains(t),
    ensures
        a == b,
    decreases a.len() + b.len(),
{
    if a.len() == 0 {
        if b.len() > 0 {
            assert(b.contains(b[0]));
        }
        assert(a =~= b);
    } else if b.len() == 0 {
        assert(a.contains(a[0]));
    } else {
        assert(a.contains(a[0]));
        assert(b.contains(b[0]));
        let ia = choose|i: int| 0 <= i < a.len() && a[i] == b[0];
        let ib = choose|i: int| 0 <= i < b.len() && b[i] == a[0];
        crate::text::lemma_chars_lt_irreflexive(a[0]);
        if ia > 0 && ib > 0 {
            assert(crate::text::chars_lt(a[0], a[ia]));
            assert(crate::text::chars_lt(b[0], b[ib]));
            crate::text::lemma_chars_lt_trichotomy(a[0], b[0]);
        }
        if ia > 0 && ib == 0 {
            assert(crate::text::chars_lt(a[0], a[ia]));
        }
        if ib > 0 && ia == 0 {
            assert(crate::text::chars_lt(b[0], b[ib]));
        }
        assert(a[0] == b[0]);
        let a1 = a.drop_first();
        let b1 = b.drop_first();
        assert forall|t: Seq<char>| a1.contains(t) == b1.contains(t) by {
            if a1.contains(t) {
                let i = choose|i: int| 0 <= i < a1.len() && a1[i] == t;
                assert(crate::text::chars_lt(a[0], a[i + 1]));
                assert(b.contains(t));
                let j = choose|j: int| 0 <= j < b.len() && b[j] == t;
                if j == 0 {
                    crate::text::lemma_chars_lt_irreflexive(t);
                }
                assert(b1[j - 1] == t);
            }
            if b1.contains(t) {
                let i = choose|i: int| 0 <= i < b1.len() && b1[i] == t;
                assert(crate::text::chars_lt(b[0], b[i + 1]));
                assert(a.contains(t));
                let j = choose|j: int| 0 <= j < a.len() && a[j] == t;
                if j == 0 {
                    crate::text::lemma_chars_lt_irreflexive(t);
                }
                assert(a1[j - 1] == t);
            }
        }
        lemma_sorted_listing_unique(a1, b1);
        assert(a =~= seq![a[0]] + a1);
        assert(b =~= seq![b[0]] + b1);
    }
}

fn prefixed_name(rule_kind: bool, id: &str) -> (r: String)
    ensures
        r@ == if rule_kind {
            rule_node_key(id@)
        } else {
            field_node_key(id@)
        },
{
    let mut r = String::new();
    if rule_kind {
        push_char(&mut r, 'r');
        push_char(&mut r, 'u');
        push_char(&mut r, 'l');
        push_char(&mut r, 'e');
        push_char(&mut r, ':');
    } else {
        push_char(&mut r, 'f');
        push_char(&mut r, 'i');
        push_char(&mut r, 'e');
        push_char(&mut r, 'l');
        push_char(&mut r, 'd');
        push_char(&mut r, ':');
    }
    let ghost p = r@;
    let cs = crate::text::chars_of(id);
    let mut i: usize = 0;
    while i < cs.len()
        invariant
            i <= cs@.len(),
            cs@ == id@,
            r@ == p + id@.take(i as int),
        decreases cs@.len() - i,
    {
        push_char(&mut r, cs[i]);
        assert(p + id@.take(i + 1) =~= (p + id@.take(i as int)).push(id@[i as int]));
        i += 1;
    }
    assert(id@.take(i as int) == id@);
    r
}

/// The node id of a field.
pub fn field_node_name(id: &str) -> (r: String)
    ensures
        r@ == field_node_key(id@),
{
    prefixed_name(false, id)
}

/// The node id of a rule.
pub fn rule_node_name(id: &str) -> (r: String)
    ensures
        r@ == rule_node_key(id@),
{
    prefixed_name(true, id)
}

/// The dependencies of a rule, as a set.
fn collect_dependencies(rule: &RuleSpec) -> (deps: StrMap<()>)
    ensures
        forall|t: Seq<char>| #[trigger] deps.contains(t) == depends_on(*rule, t),
{
    let mut deps: StrMap<()> = StrMap::new();
    let ghost args = opt_list(rule.args);
    if let Some(arg_list) = &rule.args {
        let mut a: usize = 0;
        while a < arg_list.len()
            invariant
                a <= arg_list@.len(),
                args == arg_list@,
                forall|t: Seq<char>| #[trigger] deps.contains(t) == exists|i: int| 0 <= i < a && is_reference(#[trigger] args[i]@, t),
            decreases arg_list@.len() - a,
        {
            let refs = extract_references(arg_list[a].as_str());
            let mut k: usize = 0;
            while k < refs.len()
                invariant
                    k <= refs@.len(),
                    a < arg_list@.len(),
                    args == arg_list@,
                    forall|t: Seq<char>| string_views(refs@).contains(t) == is_reference(arg_list@[a as int]@, t),
                    forall|t: Seq<char>| #[trigger] deps.contains(t) == ((exists|i: int| 0 <= i < a && is_reference(#[trigger] args[i]@, t))
                        || string_views(refs@).take(k as int).contains(t)),
                decreases refs@.len() - k,
            {
                let ghost before = deps;
                let ghost rk = refs@[k as int]@;
                deps.insert(refs[k].clone(), ());
                proof {
                    assert forall|t: Seq<char>| #[trigger] deps.contains(t) == ((exists|i: int| 0 <= i < a && is_reference(#[trigger] args[i]@, t))
                        || string_views(refs@).take(k + 1).contains(t)) by {
                        lemma_take_push_contains(string_views(refs@), k as int, t);
                    }
                }
                k += 1;
            }
            proof {
                assert(string_views(refs@).take(refs@.len() as int) == string_views(refs@));
                assert forall|t: Seq<char>| #[trigger] deps.contains(t) == exists|i: int| 0 <= i < a + 1 && is_reference(#[trigger] args[i]@, t) by {
                    if exists|i: int| 0 <= i < a + 1 && is_reference(#[trigger] args[i]@, t) {
                        let i = choose|i: int| 0 <= i < a + 1 && is_reference(#[trigger] args[i]@, t);
                        if i < a {
                        }
                    }
                }
            }
            a += 1;
        }
    }
    let ghost after_args = deps;
    if let Some(cond) = &rule.if_expr {
        let refs = extract_references(cond.as_str());
        let mut k: usize = 0;
        while k < refs.len()
            invariant
                k <= refs@.len(),
                forall|t: Seq<char>| string_views(refs@).contains(t) == is_reference(cond@, t),
                forall|t: Seq<char>| #[trigger] deps.contains(t) == (after_args.contains(t) || string_views(refs@).take(k as int).contains(t)),
            decreases refs@.len() - k,
        {
            let ghost rk = refs@[k as int]@;
            deps.insert(refs[k].clone(), ());
            proof {
                assert forall|t: Seq<char>| #[trigger] deps.contains(t) == (after_args.contains(t) || string_views(refs@).take(k + 1).contains(t)) by {
                    lemma_take_push_contains(string_views(refs@), k as int, t);
                }
            }
            k += 1;
        }
        assert(string_views(refs@).take(refs@.len() as int) == string_views(refs@));
    }
    let ghost after_cond = deps;
    if let Some(consts) = &rule.constants {
        let mut k: usize = 0;
        while k < consts.len()
            invariant
                k <= consts@.len(),
                opt_list(rule.constants) == consts@,
                forall|t: Seq<char>| #[trigger] deps.contains(t) == (after_cond.contains(t) || string_views(consts@).take(k as int).contains(t)),
            decreases consts@.len() - k,
        {
            let ghost rk = consts@[k as int]@;
            deps.insert(consts[k].clone(), ());
            proof {
                assert forall|t: Seq<char>| #[trigger] deps.contains(t) == (after_cond.contains(t) || string_views(consts@).take(k + 1).contains(t)) by {
                    lemma_take_push_contains(string_views(consts@), k as int, t);
                }
            }
            k += 1;
        }
        assert(string_views(consts@).take(consts@.len() as int) == string_views(consts@));
    }
    proof {
        assert forall|t: Seq<char>| #[trigger] deps.contains(t) == depends_on(*rule, t) by {
            if rule.args is None {
                assert(opt_list(rule.args).len() == 0);
            }
            if rule.constants is None {
                assert(string_views(opt_list(rule.constants)).len() == 0);
            }
        }
    }
    deps
}


/// What the lookup tables of a build hold: the field ids, the rule ids, and
/// for each target the id of the last rule producing it.
pub open spec fn tables_ok(s: RuleSchema, fset: StrMap<()>, rset: StrMap<()>, targets: StrMap<String>) -> bool {
    &&& forall|t: Seq<char>| #[trigger] fset.contains(t) == field_ids(s).contains(t)
    &&& forall|t: Seq<char>| #[trigger] rset.contains(t) == rule_ids(s).contains(t)
    &&& forall|t: Seq<char>| #[trigger] targets.contains(t) == (last_producer(s.rules@, t) is Some)
    &&& forall|t: Seq<char>| targets.contains(t) ==> #[trigger] targets.value_of(t)@ == last_producer(s.rules@, t)->0
}

fn dependency_source_exec(
    s: &RuleSchema,
    rule: &RuleSpec,
    d: &str,
    fset: &StrMap<()>,
    rset: &StrMap<()>,
    targets: &StrMap<String>,
) -> (r: Option<String>)
    requires
        tables_ok(*s, *fset, *rset, *targets),
    ensures
        opt_view(r) == dependency_source(*s, *rule, d@),
{
    if let Some(t) = &rule.target {
        if compare_str(t.as_str(), d) == 0 {
            if fset.contains_key(d) {
                return Some(field_node_name(d));
            } else {
                return None;
            }
        }
    }
    if let Some(p) = targets.get(d) {
        return Some(rule_node_name(p.as_str()));
    }
    if fset.contains_key(d) {
        return Some(field_node_name(d));
    }
    if rset.contains_key(d) {
        return Some(rule_node_name(d));
    }
    None
}

/// Appends the data edges of `rule` for the dependencies `deps`, in order,
/// and returns the dependencies that no node feeds.
fn add_data_edges(
    s: &RuleSchema,
    rule: &RuleSpec,
    deps: &Vec<String>,
    fset: &StrMap<()>,
    rset: &StrMap<()>,
    targets: &StrMap<String>,
    edges: &mut Vec<DagEdge>,
) -> (ext: StrMap<()>)
    requires
        tables_ok(*s, *fset, *rset, *targets),
    ensures
        edge_views(final(edges)@) == edge_views(old(edges)@) + data_edges(*s, *rule, string_views(deps@)),
        forall|t: Seq<char>| #[trigger] ext.contains(t) == (string_views(deps@).contains(t) && dependency_source(*s, *rule, t) is None),
{
    let rnode = rule_node_name(rule.id.as_str());
    let mut ext: StrMap<()> = StrMap::new();
    let ghost e0 = edge_views(edges@);
    let ghost dv = string_views(deps@);
    let mut k: usize = 0;
    assert(dv.take(0) =~= Seq::<Seq<char>>::empty());
    while k < deps.len()
        invariant
            k <= deps@.len(),
            dv == string_views(deps@),
            rnode@ == rule_node_key(rule.id@),
            tables_ok(*s, *fset, *rset, *targets),
            edge_views(edges@) == e0 + data_edges(*s, *rule, dv.take(k as int)),
            forall|t: Seq<char>| #[trigger] ext.contains(t) == (dv.take(k as int).contains(t) && dependency_source(*s, *rule, t) is None),
        decreases deps@.len() - k,
    {
        let ghost dk = dv[k as int];
        proof {
            assert(dv.take(k + 1).drop_last() =~= dv.take(k as int));
            assert(dv.take(k + 1).last() == dk);
        }
        match dependency_source_exec(s, rule, deps[k].as_str(), fset, rset, targets) {
            Some(src) => {
                let e = DagEdge { from: src, to: rnode.clone(), kind: DagEdgeKind::Data };
                proof {
                    lemma_edge_views_push(edges@, e);
                }
                edges.push(e);
                proof {
                    assert(e0 + data_edges(*s, *rule, dv.take(k + 1)) =~= (e0 + data_edges(*s, *rule, dv.take(k as int))).push(edge_view(e)));
                }
            },
            None => {
                ext.insert(deps[k].clone(), ());
            },
        }
        proof {
            assert forall|t: Seq<char>| #[trigger] ext.contains(t) == (dv.take(k + 1).contains(t) && dependency_source(*s, *rule, t) is None) by {
                lemma_take_push_contains(dv, k as int, t);
            }
        }
        k += 1;
    }
    assert(dv.take(deps@.len() as int) == dv);
    ext
}

/// Appends control edges from the rule `rid` to each rule of `next`;
/// `Err(j)` when entry `j` is the first that names no rule.
fn add_branch_edges(
    s: &RuleSchema,
    rid: &String,
    next: &Option<Vec<String>>,
    kind: DagEdgeKind,
    rset: &StrMap<()>,
    edges: &mut Vec<DagEdge>,
) -> (r: Result<(), usize>)
    requires
        forall|t: Seq<char>| #[trigger] rset.contains(t) == rule_ids(*s).contains(t),
    ensures
        r is Ok ==> edge_views(final(edges)@) == edge_views(old(edges)@) + branch_edges(rid@, string_views(opt_list(*next)), kind),
        r is Ok ==> forall|j: int| 0 <= j < opt_list(*next).len() ==> rule_ids(*s).contains(#[trigger] string_views(opt_list(*next))[j]),
        r matches Err(j) ==> j < opt_list(*next).len() && !rule_ids(*s).contains(string_views(opt_list(*next))[j as int])
            && forall|j2: int| 0 <= j2 < j ==> rule_ids(*s).contains(#[trigger] string_views(opt_list(*next))[j2]),
{
    let ghost e0 = edge_views(edges@);
    let ghost tv = string_views(opt_list(*next));
    match next {
        None => {
            assert(edge_views(edges@) =~= e0 + branch_edges(rid@, tv, kind));
            Ok(())
        },
        Some(list) => {
            let from = rule_node_name(rid.as_str());
            let mut j: usize = 0;
            while j < list.len()
                invariant
                    j <= list@.len(),
                    tv == string_views(list@),
                    opt_list(*next) == list@,
                    from@ == rule_node_key(rid@),
                    forall|t: Seq<char>| #[trigger] rset.contains(t) == rule_ids(*s).contains(t),
                    edge_views(edges@) == e0 + branch_edges(rid@, tv.take(j as int), kind),
                    forall|j2: int| 0 <= j2 < j ==> rule_ids(*s).contains(#[trigger] tv[j2]),
                decreases list@.len() - j,
            {
                if !rset.contains_key(list[j].as_str()) {
                    assert(opt_list(*next) == list@);
                    assert(tv[j as int] == list@[j as int]@);
                    return Err(j);
                }
                let to = rule_node_name(list[j].as_str());
                let e = DagEdge { from: from.clone(), to, kind };
                proof {
                    lemma_edge_views_push(edges@, e);
                }
                edges.push(e);
                proof {
                    assert(branch_edges(rid@, tv.take(j + 1), kind) =~= branch_edges(rid@, tv.take(j as int), kind).push(edge_view(e)));
                    assert(e0 + branch_edges(rid@, tv.take(j + 1), kind) =~= (e0 + branch_edges(rid@, tv.take(j as int), kind)).push(edge_view(e)));
                }
                j += 1;
            }
            assert(tv.take(j as int) == tv);
            Ok(())
        },
    }
}


/// Two DAGs of the same schema have the same topological orders.
pub proof fn lemma_describes_same_orders(s: RuleSchema, d1: ExecutionDag, d2: ExecutionDag, o: Seq<Seq<char>>)
    requires
        describes(s, d1),
        describes(s, d2),
    ensures
        d1.is_topological_order(o) == d2.is_topological_order(o),
{
    assert forall|key: Seq<char>| d1.nodes.contains(key) == d2.nodes.contains(key) by {
        assert(d1.nodes.contains(key) == d2.nodes.contains(key));
    }
    let ev = edge_views(d1.edges@);
    assert(ev == edge_views(d2.edges@));
    assert(d1.edges@.len() == ev.len());
    assert(d2.edges@.len() == ev.len());
    assert forall|k: int| 0 <= k < ev.len() implies d1.edges@[k].from@ == d2.edges@[k].from@ && d1.edges@[k].to@ == d2.edges@[k].to@ by {
        assert(ev[k] == edge_view(d1.edges@[k]));
        assert(edge_views(d2.edges@)[k] == edge_view(d2.edges@[k]));
    }
    if d1.is_topological_order(o) {
        assert forall|k: int| 0 <= k < d2.edges@.len() && d2.nodes.contains(#[trigger] d2.edges@[k].to@) implies exists|i: int, j: int|
            0 <= i < j < o.len() && o[i] == d2.edges@[k].from@ && o[j] == d2.edges@[k].to@ by {
            assert(d1.nodes.contains(d1.edges@[k].to@));
        }
    }
    if d2.is_topological_order(o) {
        assert forall|k: int| 0 <= k < d1.edges@.len() && d1.nodes.contains(#[trigger] d1.edges@[k].to@) implies exists|i: int, j: int|
            0 <= i < j < o.len() && o[i] == d1.edges@[k].from@ && o[j] == d1.edges@[k].to@ by {
            assert(d2.nodes.contains(d2.edges@[k].to@));
        }
    }
}

/// A node of the DAG stands at each end of the edge.
pub open spec fn joins_nodes(dag: ExecutionDag, e: (Seq<char>, Seq<char>, DagEdgeKind)) -> bool {
    dag.nodes.contains(e.0) && dag.nodes.contains(e.1)
}

proof fn lemma_producer_is_rule(rules: Seq<RuleSpec>, d: Seq<char>)
    requires
        last_producer(rules, d) is Some,
    ensures
        exists|i: int| 0 <= i < rules.len() && #[trigger] rules[i].id@ == last_producer(rules, d)->0,
    decreases rules.len(),
{
    if opt_view(rules.last().target) == Some(d) {
        assert(rules[rules.len() - 1].id@ == last_producer(rules, d)->0);
    } else {
        lemma_producer_is_rule(rules.drop_last(), d);
        let i = choose|i: int| 0 <= i < rules.drop_last().len() && #[trigger] rules.drop_last()[i].id@ == last_producer(rules, d)->0;
        assert(rules[i] == rules.drop_last()[i]);
    }
}

proof fn lemma_rule_node_present(s: RuleSchema, dag: ExecutionDag, i: int)
    requires
        describes(s, dag),
        0 <= i < s.rules@.len(),
    ensures
        dag.nodes.contains(rule_node_key(s.rules@[i].id@)),
{
    let key = rule_node_key(s.rules@[i].id@);
    assert(dag.nodes.contains(key) == (
        (exists|j: int| 0 <= j < s.fields@.len() && key == field_node_key(s.fields@[j].id@))
        || (exists|j: int| 0 <= j < s.rules@.len() && key == rule_node_key(s.rules@[j].id@))));
}

proof fn lemma_named_rule_present(s: RuleSchema, dag: ExecutionDag, d: Seq<char>)
    requires
        describes(s, dag),
        rule_ids(s).contains(d),
    ensures
        dag.nodes.contains(rule_node_key(d)),
{
    let i = choose|i: int| 0 <= i < rule_ids(s).len() && rule_ids(s)[i] == d;
    lemma_rule_node_present(s, dag, i);
}

proof fn lemma_source_present(s: RuleSchema, dag: ExecutionDag, r: RuleSpec, d: Seq<char>)
    requires
        describes(s, dag),
        dependency_source(s, r, d) is Some,
    ensures
        dag.nodes.contains(dependency_source(s, r, d)->0),
{
    let src = dependency_source(s, r, d)->0;
    if src == field_node_key(d) && field_ids(s).contains(d) {
        let i = choose|i: int| 0 <= i < field_ids(s).len() && field_ids(s)[i] == d;
        assert(src == field_node_key(s.fields@[i].id@));
        assert(dag.nodes.contains(src) == (
            (exists|j: int| 0 <= j < s.fields@.len() && src == field_node_key(s.fields@[j].id@))
            || (exists|j: int| 0 <= j < s.rules@.len() && src == rule_node_key(s.rules@[j].id@))));
    } else if opt_view(r.target) != Some(d) && last_producer(s.rules@, d) is Some {
        lemma_producer_is_rule(s.rules@, d);
        let i = choose|i: int| 0 <= i < s.rules@.len() && #[trigger] s.rules@[i].id@ == last_producer(s.rules@, d)->0;
        lemma_rule_node_present(s, dag, i);
    } else {
        lemma_named_rule_present(s, dag, d);
    }
}

proof fn lemma_data_edges_join(s: RuleSchema, dag: ExecutionDag, r: RuleSpec, deps: Seq<Seq<char>>)
    requires
        describes(s, dag),
        dag.nodes.contains(rule_node_key(r.id@)),
    ensures
        forall|k: int| 0 <= k < data_edges(s, r, deps).len() ==> joins_nodes(dag, #[trigger] data_edges(s, r, deps)[k]),
    decreases deps.len(),
{
    if deps.len() > 0 {
        lemma_data_edges_join(s, dag, r, deps.drop_last());
        let rest = data_edges(s, r, deps.drop_last());
        if dependency_source(s, r, deps.last()) is Some {
            lemma_source_present(s, dag, r, deps.last());
            let e = (dependency_source(s, r, deps.last())->0, rule_node_key(r.id@), DagEdgeKind::Data);
            assert(data_edges(s, r, deps) == rest.push(e));
            assert forall|k: int| 0 <= k < data_edges(s, r, deps).len() implies joins_nodes(dag, #[trigger] data_edges(s, r, deps)[k]) by {
                if k < rest.len() {
                    assert(data_edges(s, r, deps)[k] == rest[k]);
                }
            }
        } else {
            assert(data_edges(s, r, deps) == rest);
        }
    }
}

proof fn lemma_branch_edges_join(s: RuleSchema, dag: ExecutionDag, r: RuleSpec, targets: Seq<Seq<char>>, kind: DagEdgeKind)
    requires
        describes(s, dag),
        dag.nodes.contains(rule_node_key(r.id@)),
        forall|j: int| 0 <= j < targets.len() ==> rule_ids(s).contains(#[trigger] targets[j]),
    ensures
        forall|k: int| 0 <= k < branch_edges(r.id@, targets, kind).len() ==> joins_nodes(dag, #[trigger] branch_edges(r.id@, targets, kind)[k]),
{
    assert forall|k: int| 0 <= k < branch_edges(r.id@, targets, kind).len() implies joins_nodes(dag, #[trigger] branch_edges(r.id@, targets, kind)[k]) by {
        lemma_named_rule_present(s, dag, targets[k]);
    }
}

proof fn lemma_schema_edges_join(s: RuleSchema, dag: ExecutionDag, n: int)
    requires
        schema_consistent(s),
        describes(s, dag),
        0 <= n <= s.rules@.len(),
    ensures
        forall|k: int| 0 <= k < schema_edges(s, n).len() ==> joins_nodes(dag, #[trigger] schema_edges(s, n)[k]),
    decreases n,
{
    if n > 0 {
        lemma_schema_edges_join(s, dag, n - 1);
        let r = s.rules@[n - 1];
        lemma_rule_node_present(s, dag, n - 1);
        let thens = string_views(opt_list(r.then_rules));
        let elses = string_views(opt_list(r.else_rules));
        assert(!has_unknown_branch(s, n - 1));
        assert(branch_targets(r) == thens + elses);
        assert forall|j: int| 0 <= j < thens.len() implies rule_ids(s).contains(#[trigger] thens[j]) by {
            assert(branch_targets(r)[j] == thens[j]);
        }
        assert forall|j: int| 0 <= j < elses.len() implies rule_ids(s).contains(#[trigger] elses[j]) by {
            assert(branch_targets(r)[thens.len() + j] == elses[j]);
        }
        lemma_data_edges_join(s, dag, r, dependency_listing(r));
        lemma_branch_edges_join(s, dag, r, thens, DagEdgeKind::ControlThen);
        lemma_branch_edges_join(s, dag, r, elses, DagEdgeKind::ControlElse);
        let a = schema_edges(s, n - 1);
        let d = data_edges(s, r, dependency_listing(r));
        let t = branch_edges(r.id@, thens, DagEdgeKind::ControlThen);
        let e = branch_edges(r.id@, elses, DagEdgeKind::ControlElse);
        assert(schema_edges(s, n) == a + (d + t + e));
        assert forall|k: int| 0 <= k < schema_edges(s, n).len() implies joins_nodes(dag, #[trigger] schema_edges(s, n)[k]) by {
            if k < a.len() {
                assert(schema_edges(s, n)[k] == a[k]);
            } else if k < a.len() + d.len() {
                assert(schema_edges(s, n)[k] == d[k - a.len()]);
            } else if k < a.len() + d.len() + t.len() {
                assert(schema_edges(s, n)[k] == t[k - a.len() - d.len()]);
            } else {
                assert(schema_edges(s, n)[k] == e[k - a.len() - d.len() - t.len()]);
            }
        }
    }
}

/// Every edge of a schema's DAG starts and ends at nodes of that DAG.
pub proof fn lemma_edges_join_nodes(s: RuleSchema, dag: ExecutionDag, k: int)
    requires
        schema_consistent(s),
        describes(s, dag),
        0 <= k < dag.edges@.len(),
    ensures
        dag.nodes.contains(dag.edges@[k].from@),
        dag.nodes.contains(dag.edges@[k].to@),
{
    lemma_schema_edges_join(s, dag, s.rules@.len() as int);
    assert(edge_views(dag.edges@)[k] == edge_view(dag.edges@[k]));
    assert(joins_nodes(dag, schema_edges(s, s.rules@.len() as int)[k]));
}

/// The names a rule lists among its constants, in order.
pub open spec fn constant_names(r: RuleSpec) -> Seq<Seq<char>> {
    string_views(opt_list(r.constants))
}

/// Every name a rule lists among its constants is one of the dependencies
/// of the rule's node in the schema's DAG.
pub proof fn lemma_constants_are_dependencies(s: RuleSchema, dag: ExecutionDag, i: int, c: int)
    requires
        schema_consistent(s),
        describes(s, dag),
        forall|k: int| 0 <= k < s.rules@.len() ==> dependencies_listable(#[trigger] s.rules@[k]),
        0 <= i < s.rules@.len(),
        0 <= c < constant_names(s.rules@[i]).len(),
    ensures
        dag.nodes.contains(rule_node_key(s.rules@[i].id@)),
        string_views(dag.nodes.value_of(rule_node_key(s.rules@[i].id@)).dependencies@).contains(
            constant_names(s.rules@[i])[c],
        ),
{
    let r = s.rules@[i];
    let key = rule_node_key(r.id@);
    let name = constant_names(r)[c];
    assert(rule_node_ok(s, dag.nodes.map_view(), i));
    assert(dag.nodes.map_view()[key] == dag.nodes.value_of(key));
    assert(dependencies_listable(r));
    assert(string_views(opt_list(r.constants)).contains(name));
    assert(depends_on(r, name));
    assert(dependency_listing(r).contains(name));
}

proof fn lemma_last_producer_is(rules: Seq<RuleSpec>, d: Seq<char>, j: int)
    requires
        0 <= j < rules.len(),
        opt_view(rules[j].target) == Some(d),
        forall|k: int| j < k < rules.len() ==> opt_view(#[trigger] rules[k].target) != Some(d),
    ensures
        last_producer(rules, d) == Some(rules[j].id@),
    decreases rules.len(),
{
    if j < rules.len() - 1 {
        assert(opt_view(rules[rules.len() - 1].target) != Some(d));
        let r0 = rules.drop_last();
        assert forall|k: int| j < k < r0.len() implies opt_view(#[trigger] r0[k].target) != Some(d) by {
            assert(r0[k] == rules[k]);
        }
        lemma_last_producer_is(r0, d, j);
        assert(r0[j] == rules[j]);
    }
}

proof fn lemma_data_edge_present(s: RuleSchema, r: RuleSpec, deps: Seq<Seq<char>>, d: Seq<char>)
    requires
        deps.contains(d),
        dependency_source(s, r, d) is Some,
    ensures
        data_edges(s, r, deps).contains((dependency_source(s, r, d)->0, rule_node_key(r.id@), DagEdgeKind::Data)),
    decreases deps.len(),
{
    let e = (dependency_source(s, r, d)->0, rule_node_key(r.id@), DagEdgeKind::Data);
    let rest = data_edges(s, r, deps.drop_last());
    if deps.last() == d {
        assert(data_edges(s, r, deps) == rest.push(e));
        assert(rest.push(e)[rest.len() as int] == e);
    } else {
        let k = choose|k: int| 0 <= k < deps.len() && deps[k] == d;
        assert(k < deps.len() - 1);
        assert(deps.drop_last()[k] == d);
        lemma_data_edge_present(s, r, deps.drop_last(), d);
        let x = choose|x: int| 0 <= x < rest.len() && rest[x] == e;
        match dependency_source(s, r, deps.last()) {
            Some(src) => {
                assert(data_edges(s, r, deps) == rest.push((src, rule_node_key(r.id@), DagEdgeKind::Data)));
                assert(data_edges(s, r, deps)[x] == rest[x]);
            },
            None => {
                assert(data_edges(s, r, deps) == rest);
            },
        }
    }
}

proof fn lemma_schema_edges_include(s: RuleSchema, n: int, i: int, e: (Seq<char>, Seq<char>, DagEdgeKind))
    requires
        0 <= i < n <= s.rules@.len(),
        rule_edges(s, s.rules@[i]).contains(e),
    ensures
        schema_edges(s, n).contains(e),
    decreases n,
{
    let a = schema_edges(s, n - 1);
    let b = rule_edges(s, s.rules@[n - 1]);
    assert(schema_edges(s, n) == a + b);
    if i == n - 1 {
        let x = choose|x: int| 0 <= x < b.len() && b[x] == e;
        assert((a + b)[a.len() + x] == e);
    } else {
        lemma_schema_edges_include(s, n - 1, i, e);
        let x = choose|x: int| 0 <= x < a.len() && a[x] == e;
        assert((a + b)[x] == e);
    }
}

/// A name that a rule lists among its constants, other than the rule's
/// own target, and that rule `j` is the last to target, gives a data edge
/// from rule `j`'s node to the rule's node: the rule runs after the rule
/// that produces it.
pub proof fn lemma_constant_producer_edge(s: RuleSchema, dag: ExecutionDag, i: int, c: int, j: int)
    requires
        schema_consistent(s),
        describes(s, dag),
        forall|k: int| 0 <= k < s.rules@.len() ==> dependencies_listable(#[trigger] s.rules@[k]),
        0 <= i < s.rules@.len(),
        0 <= c < constant_names(s.rules@[i]).len(),
        0 <= j < s.rules@.len(),
        opt_view(s.rules@[j].target) == Some(constant_names(s.rules@[i])[c]),
        forall|k: int| j < k < s.rules@.len() ==> opt_view(#[trigger] s.rules@[k].target) != Some(
            constant_names(s.rules@[i])[c],
        ),
        opt_view(s.rules@[i].target) != Some(constant_names(s.rules@[i])[c]),
    ensures
        edge_views(dag.edges@).contains(
            (rule_node_key(s.rules@[j].id@), rule_node_key(s.rules@[i].id@), DagEdgeKind::Data),
        ),
{
    let r = s.rules@[i];
    let name = constant_names(r)[c];
    lemma_constants_are_dependencies(s, dag, i, c);
    assert(dependencies_listable(r));
    assert(string_views(opt_list(r.constants)).contains(name));
    assert(depends_on(r, name));
    assert(dependency_listing(r).contains(name));
    lemma_last_producer_is(s.rules@, name, j);
    assert(dependency_source(s, r, name) == Some(rule_node_key(s.rules@[j].id@)));
    lemma_data_edge_present(s, r, dependency_listing(r), name);
    let e = (rule_node_key(s.rules@[j].id@), rule_node_key(r.id@), DagEdgeKind::Data);
    let d = data_edges(s, r, dependency_listing(r));
    let x = choose|x: int| 0 <= x < d.len() && d[x] == e;
    let rest = branch_edges(r.id@, string_views(opt_list(r.then_rules)), DagEdgeKind::ControlThen) + branch_edges(
        r.id@,
        string_views(opt_list(r.else_rules)),
        DagEdgeKind::ControlElse,
    );
    assert(rule_edges(s, r) =~= d + rest);
    assert((d + rest)[x] == e);
    lemma_schema_edges_include(s, s.rules@.len() as int, i, e);
}

/// Every name an argument or the condition of a rule refers to is one of
/// the dependencies of the rule's node in the schema's DAG.
pub proof fn lemma_references_are_dependencies(s: RuleSchema, dag: ExecutionDag, i: int, t: Seq<char>)
    requires
        schema_consistent(s),
        describes(s, dag),
        forall|k: int| 0 <= k < s.rules@.len() ==> dependencies_listable(#[trigger] s.rules@[k]),
        0 <= i < s.rules@.len(),
    ensures
        (exists|a: int|
            0 <= a < opt_list(s.rules@[i].args).len() && is_reference(#[trigger] opt_list(s.rules@[i].args)[a]@, t))
            ==> string_views(dag.nodes.value_of(rule_node_key(s.rules@[i].id@)).dependencies@).contains(t),
        (s.rules@[i].if_expr matches Some(c) && is_reference(c@, t)) ==> string_views(
            dag.nodes.value_of(rule_node_key(s.rules@[i].id@)).dependencies@,
        ).contains(t),
{
    let r = s.rules@[i];
    let key = rule_node_key(r.id@);
    assert(rule_node_ok(s, dag.nodes.map_view(), i));
    assert(dag.nodes.map_view()[key] == dag.nodes.value_of(key));
    assert(dependencies_listable(r));
    if depends_on(r, t) {
        assert(dependency_listing(r).contains(t));
    }
}

/// Each rule a branch names in its `then` list gets a then-edge from the
/// branch's node, and each in its `else` list an else-edge.
pub proof fn lemma_branch_edges_present(s: RuleSchema, dag: ExecutionDag, i: int, k: int)
    requires
        describes(s, dag),
        0 <= i < s.rules@.len(),
    ensures
        0 <= k < opt_list(s.rules@[i].then_rules).len() ==> edge_views(dag.edges@).contains(
            (
                rule_node_key(s.rules@[i].id@),
                rule_node_key(opt_list(s.rules@[i].then_rules)[k]@),
                DagEdgeKind::ControlThen,
            ),
        ),
        0 <= k < opt_list(s.rules@[i].else_rules).len() ==> edge_views(dag.edges@).contains(
            (
                rule_node_key(s.rules@[i].id@),
                rule_node_key(opt_list(s.rules@[i].else_rules)[k]@),
                DagEdgeKind::ControlElse,
            ),
        ),
{
    let r = s.rules@[i];
    let d = data_edges(s, r, dependency_listing(r));
    let thens = string_views(opt_list(r.then_rules));
    let elses = string_views(opt_list(r.else_rules));
    let te = branch_edges(r.id@, thens, DagEdgeKind::ControlThen);
    let ee = branch_edges(r.id@, elses, DagEdgeKind::ControlElse);
    assert(rule_edges(s, r) == d + te + ee);
    if 0 <= k < opt_list(r.then_rules).len() {
        let e = (rule_node_key(r.id@), rule_node_key(opt_list(r.then_rules)[k]@), DagEdgeKind::ControlThen);
        assert(thens[k] == opt_list(r.then_rules)[k]@);
        assert(te[k] == e);
        assert((d + te + ee)[d.len() + k] == e);
        lemma_schema_edges_include(s, s.rules@.len() as int, i, e);
    }
    if 0 <= k < opt_list(r.else_rules).len() {
        let e = (rule_node_key(r.id@), rule_node_key(opt_list(r.else_rules)[k]@), DagEdgeKind::ControlElse);
        assert(elses[k] == opt_list(r.else_rules)[k]@);
        assert(ee[k] == e);
        assert((d + te + ee)[d.len() + te.len() + k] == e);
        lemma_schema_edges_include(s, s.rules@.len() as int, i, e);
    }
}

proof fn lemma_repeats_none(ids: Seq<Seq<char>>)
    requires
        forall|j: int| 0 <= j < ids.len() ==> !#[trigger] repeats_at(ids, j),
    ensures
        ids.no_duplicates(),
{
    assert forall|a: int, b: int| 0 <= a < ids.len() && 0 <= b < ids.len() && a != b implies ids[a] != ids[b] by {
        if ids[a] == ids[b] {
            if a < b {
                assert(ids.take(b)[a] == ids[a]);
                assert(repeats_at(ids, b));
            } else {
                assert(ids.take(a)[b] == ids[b]);
                assert(repeats_at(ids, a));
            }
        }
    }
}

proof fn lemma_last_producer_step(rules: Seq<RuleSpec>, i: int, t: Seq<char>)
    requires
        0 <= i < rules.len(),
    ensures
        last_producer(rules.take(i + 1), t) == if opt_view(rules[i].target) == Some(t) {
            Some(rules[i].id@)
        } else {
            last_producer(rules.take(i), t)
        },
{
    assert(rules.take(i + 1).drop_last() =~= rules.take(i));
    assert(rules.take(i + 1).last() == rules[i]);
}

/// Builds the DAG of a rule schema: a node per field and per rule, data
/// edges from what each rule refers to, control edges from each branch rule.
/// Fails on a repeated field id, then a repeated rule id, then a branch to an
/// unknown rule, then a cycle.
pub fn build_execution_dag(schema: &RuleSchema) -> (r: Result<ExecutionDag, DagBuildError>)
    ensures
        match r {
            Ok(dag) => schema_consistent(*schema) && describes(*schema, dag) && dag.is_acyclic() && forall|i: int|
                0 <= i < schema.rules@.len() ==> dependencies_listable(#[trigger] schema.rules@[i]),
            Err(DagBuildError::DuplicateField(x)) => exists|i: int|
                first_repeat(field_ids(*schema), i) && x@ == #[trigger] field_ids(*schema)[i],
            Err(DagBuildError::DuplicateRule(x)) => field_ids(*schema).no_duplicates() && exists|i: int|
                first_repeat(rule_ids(*schema), i) && x@ == #[trigger] rule_ids(*schema)[i],
            Err(DagBuildError::UnknownBranchRuleReference { rule_id, referenced_rule }) => field_ids(*schema).no_duplicates()
                && rule_ids(*schema).no_duplicates() && exists|i: int, j: int|
                #[trigger] first_unknown_branch(*schema, i, j) && rule_id@ == rule_ids(*schema)[i]
                    && referenced_rule@ == branch_targets(schema.rules@[i])[j],
            Err(DagBuildError::CycleDetected) => schema_consistent(*schema) && forall|d: ExecutionDag|
                #[trigger] describes(*schema, d) ==> !d.is_acyclic(),
        },
{
    let ghost s = *schema;
    let ghost fids = field_ids(s);
    let ghost rids = rule_ids(s);
    let mut nodes: StrMap<DagNode> = StrMap::new();
    let mut fset: StrMap<()> = StrMap::new();
    let nf = schema.fields.len();
    let mut i: usize = 0;
    while i < nf
        invariant
            s == *schema,
            fids == field_ids(s),
            nf == s.fields@.len(),
            i <= nf,
            forall|t: Seq<char>| #[trigger] fset.contains(t) == fids.take(i as int).contains(t),
            forall|j: int| 0 <= j < i ==> !#[trigger] repeats_at(fids, j),
            forall|key: Seq<char>| #[trigger] nodes.contains(key) == exists|j: int| 0 <= j < i && key == field_node_key(s.fields@[j].id@),
            forall|j: int| 0 <= j < i ==> field_node_ok(s, nodes.map_view(), j),
        decreases nf - i,
    {
        let f = &schema.fields[i];
        assert(fids[i as int] == f.id@);
        if fset.insert(f.id.clone(), ()).is_some() {
            proof {
                assert(repeats_at(fids, i as int));
            }
            return Err(DagBuildError::DuplicateField(f.id.clone()));
        }
        let key = field_node_name(f.id.as_str());
        let ghost m0 = nodes.map_view();
        proof {
            assert(!fids.take(i as int).contains(fids[i as int]));
            assert forall|j: int| 0 <= j < i implies field_node_key(s.fields@[j].id@) != key@ by {
                if field_node_key(s.fields@[j].id@) == key@ {
                    lemma_prefix_injective(seq!['f', 'i', 'e', 'l', 'd', ':'], s.fields@[j].id@, f.id@);
                    assert(fids.take(i as int)[j] == fids[j]);
                }
            }
        }
        let node = DagNode {
            id: key.clone(),
            kind: DagNodeKind::Field,
            target: Some(f.id.clone()),
            operator: Some(f.source.clone()),
            dependencies: Vec::new(),
            external_inputs: Vec::new(),
        };
        proof {
            assert(string_views(node.dependencies@) =~= Seq::<Seq<char>>::empty());
            assert(string_views(node.external_inputs@) =~= Seq::<Seq<char>>::empty());
        }
        let ghost kg = key@;
        let ghost ng = node;
        assert(node_is(ng, kg, DagNodeKind::Field, Some(f.id@), Some(f.source@), Seq::empty(), Seq::empty()));
        nodes.insert(key, node);
        proof {
            assert(nodes.map_view() == m0.insert(kg, ng));
            assert(nodes.map_view()[kg] == ng);
            assert forall|t: Seq<char>| #[trigger] fset.contains(t) == fids.take(i + 1).contains(t) by {
                lemma_take_push_contains(fids, i as int, t);
            }
            assert forall|j: int| 0 <= j < i + 1 implies field_node_ok(s, nodes.map_view(), j) by {
                if j < i {
                    let kj = field_node_key(s.fields@[j].id@);
                    assert(field_node_ok(s, m0, j));
                    assert(kj != kg);
                    assert(nodes.map_view()[kj] == m0[kj]);
                }
            }
            assert forall|key2: Seq<char>| #[trigger] nodes.contains(key2) == exists|j: int| 0 <= j < i + 1 && key2 == field_node_key(s.fields@[j].id@) by {
                if key2 == field_node_key(s.fields@[i as int].id@) {
                    assert(exists|j: int| 0 <= j < i + 1 && key2 == field_node_key(s.fields@[j].id@));
                }
            }
        }
        i += 1;
    }
    proof {
        lemma_repeats_none(fids);
        assert(fids.take(nf as int) == fids);
    }

    let mut rset: StrMap<()> = StrMap::new();
    let nr = schema.rules.len();
    i = 0;
    while i < nr
        invariant
            s == *schema,
            fids == field_ids(s),
            rids == rule_ids(s),
            nf == s.fields@.len(),
            nr == s.rules@.len(),
            i <= nr,
            fids.no_duplicates(),
            forall|t: Seq<char>| #[trigger] fset.contains(t) == fids.contains(t),
            forall|t: Seq<char>| #[trigger] rset.contains(t) == rids.take(i as int).contains(t),
            forall|j: int| 0 <= j < i ==> !#[trigger] repeats_at(rids, j),
            forall|key: Seq<char>| #[trigger] nodes.contains(key) == ((exists|j: int| 0 <= j < nf && key == field_node_key(s.fields@[j].id@))
                || (exists|j: int| 0 <= j < i && key == rule_node_key(s.rules@[j].id@))),
            forall|j: int| 0 <= j < nf ==> field_node_ok(s, nodes.map_view(), j),
        decreases nr - i,
    {
        let rule = &schema.rules[i];
        assert(rids[i as int] == rule.id@);
        if rset.insert(rule.id.clone(), ()).is_some() {
            proof {
                assert(repeats_at(rids, i as int));
            }
            return Err(DagBuildError::DuplicateRule(rule.id.clone()));
        }
        let key = rule_node_name(rule.id.as_str());
        let ghost m0 = nodes.map_view();
        proof {
            assert(!rids.take(i as int).contains(rids[i as int]));
            assert forall|j: int| 0 <= j < nf implies field_node_key(s.fields@[j].id@) != key@ by {
                lemma_field_rule_keys_differ(s.fields@[j].id@, rule.id@);
            }
        }
        let node = DagNode {
            id: key.clone(),
            kind: DagNodeKind::Rule,
            target: clone_opt_string(&rule.target),
            operator: Some(rule.kind.clone()),
            dependencies: Vec::new(),
            external_inputs: Vec::new(),
        };
        let ghost kg = key@;
        nodes.insert(key, node);
        proof {
            assert(nodes.map_view() == m0.insert(kg, node));
            assert forall|t: Seq<char>| #[trigger] rset.contains(t) == rids.take(i + 1).contains(t) by {
                lemma_take_push_contains(rids, i as int, t);
            }
            assert forall|j: int| 0 <= j < nf implies field_node_ok(s, nodes.map_view(), j) by {
                let kj = field_node_key(s.fields@[j].id@);
                lemma_field_rule_keys_differ(s.fields@[j].id@, rule.id@);
                assert(field_node_ok(s, m0, j));
                assert(kj != kg);
                assert(nodes.map_view()[kj] == m0[kj]);
            }
            assert forall|key2: Seq<char>| #[trigger] nodes.contains(key2) == ((exists|j: int| 0 <= j < nf && key2 == field_node_key(s.fields@[j].id@))
                || (exists|j: int| 0 <= j < i + 1 && key2 == rule_node_key(s.rules@[j].id@))) by {
                if key2 == rule_node_key(s.rules@[i as int].id@) {
                    assert(exists|j: int| 0 <= j < i + 1 && key2 == rule_node_key(s.rules@[j].id@));
                }
            }
        }
        i += 1;
    }
    proof {
        lemma_repeats_none(rids);
        assert(rids.take(nr as int) == rids);
    }

    let mut targets: StrMap<String> = StrMap::new();
    i = 0;
    while i < nr
        invariant
            s == *schema,
            nr == s.rules@.len(),
            i <= nr,
            forall|t: Seq<char>| #[trigger] targets.contains(t) == (last_producer(s.rules@.take(i as int), t) is Some),
            forall|t: Seq<char>| targets.contains(t) ==> #[trigger] targets.value_of(t)@ == last_producer(s.rules@.take(i as int), t)->0,
        decreases nr - i,
    {
        let rule = &schema.rules[i];
        proof {
            use_type_invariant(&targets);
        }
        let ghost t0 = targets;
        if let Some(t) = &rule.target {
            targets.insert(t.clone(), rule.id.clone());
        }
        proof {
            use_type_invariant(&targets);
            assert forall|t: Seq<char>| #[trigger] targets.contains(t) == (last_producer(s.rules@.take(i + 1), t) is Some) by {
                lemma_last_producer_step(s.rules@, i as int, t);
            }
            assert forall|t: Seq<char>| targets.contains(t) implies #[trigger] targets.value_of(t)@ == last_producer(s.rules@.take(i + 1), t)->0 by {
                lemma_last_producer_step(s.rules@, i as int, t);
                assert(targets.map_view()[t] == targets.value_of(t));
                if t0.contains(t) {
                    assert(t0.map_view()[t] == t0.value_of(t));
                }
            }
        }
        i += 1;
    }
    assert(s.rules@.take(nr as int) == s.rules@);

    let mut edges: Vec<DagEdge> = Vec::new();
    i = 0;
    assert(edge_views(edges@) =~= schema_edges(s, 0));
    while i < nr
        invariant
            s == *schema,
            fids == field_ids(s),
            rids == rule_ids(s),
            nf == s.fields@.len(),
            nr == s.rules@.len(),
            i <= nr,
            fids.no_duplicates(),
            rids.no_duplicates(),
            tables_ok(s, fset, rset, targets),
            forall|key: Seq<char>| #[trigger] nodes.contains(key) == ((exists|j: int| 0 <= j < nf && key == field_node_key(s.fields@[j].id@))
                || (exists|j: int| 0 <= j < nr && key == rule_node_key(s.rules@[j].id@))),
            forall|j: int| 0 <= j < nf ==> field_node_ok(s, nodes.map_view(), j),
            forall|j: int| 0 <= j < i ==> rule_node_ok(s, nodes.map_view(), j),
            forall|j: int| 0 <= j < i ==> !#[trigger] has_unknown_branch(s, j),
            edge_views(edges@) == schema_edges(s, i as int),
            forall|j: int| 0 <= j < i ==> dependencies_listable(#[trigger] s.rules@[j]),
        decreases nr - i,
    {
        let rule = &schema.rules[i];
        let deps = collect_dependencies(rule);
        proof {
            use_type_invariant(&deps);
        }
        let dep_list = deps.keys_vec();
        proof {
            let l = string_views(dep_list@);
            assert(l == deps.keys());
            assert forall|t: Seq<char>| #[trigger] l.contains(t) == depends_on(*rule, t) by {
                assert(deps.contains(t) == depends_on(*rule, t));
            }
            lemma_sorted_listing_unique(l, dependency_listing(*rule));
            assert(dependencies_listable(s.rules@[i as int]));
        }
        let ghost e_before = edge_views(edges@);
        let ext = add_data_edges(schema, rule, &dep_list, &fset, &rset, &targets, &mut edges);
        let ghost e_data = edge_views(edges@);
        match add_branch_edges(schema, &rule.id, &rule.then_rules, DagEdgeKind::ControlThen, &rset, &mut edges) {
            Ok(()) => {},
            Err(j) => {
                proof {
                    assert(branch_targets(s.rules@[i as int])[j as int] == string_views(opt_list(rule.then_rules))[j as int]);
                    assert forall|j2: int| 0 <= j2 < j implies rids.contains(#[trigger] branch_targets(s.rules@[i as int])[j2]) by {
                        assert(branch_targets(s.rules@[i as int])[j2] == string_views(opt_list(rule.then_rules))[j2]);
                    }
                    assert(first_unknown_branch(s, i as int, j as int));
                }
                return Err(DagBuildError::UnknownBranchRuleReference {
                    rule_id: rule.id.clone(),
                    referenced_rule: rule.then_rules.as_ref().unwrap()[j].clone(),
                });
            },
        }
        let ghost e_then = edge_views(edges@);
        match add_branch_edges(schema, &rule.id, &rule.else_rules, DagEdgeKind::ControlElse, &rset, &mut edges) {
            Ok(()) => {},
            Err(j) => {
                proof {
                    let nt = string_views(opt_list(rule.then_rules)).len();
                    assert(branch_targets(s.rules@[i as int])[nt + j] == string_views(opt_list(rule.else_rules))[j as int]);
                    assert forall|j2: int| 0 <= j2 < nt + j implies rids.contains(#[trigger] branch_targets(s.rules@[i as int])[j2]) by {
                        if j2 < nt {
                            assert(branch_targets(s.rules@[i as int])[j2] == string_views(opt_list(rule.then_rules))[j2]);
                        } else {
                            assert(branch_targets(s.rules@[i as int])[j2] == string_views(opt_list(rule.else_rules))[j2 - nt]);
                        }
                    }
                    assert(first_unknown_branch(s, i as int, nt + j));
                }
                return Err(DagBuildError::UnknownBranchRuleReference {
                    rule_id: rule.id.clone(),
                    referenced_rule: rule.else_rules.as_ref().unwrap()[j].clone(),
                });
            },
        }
        proof {
            let nt = string_views(opt_list(rule.then_rules)).len();
            assert forall|j2: int| 0 <= j2 < branch_targets(s.rules@[i as int]).len() implies rids.contains(#[trigger] branch_targets(s.rules@[i as int])[j2]) by {
                if j2 < nt {
                    assert(branch_targets(s.rules@[i as int])[j2] == string_views(opt_list(rule.then_rules))[j2]);
                } else {
                    assert(branch_targets(s.rules@[i as int])[j2] == string_views(opt_list(rule.else_rules))[j2 - nt]);
                }
            }
            assert(!has_unknown_branch(s, i as int));
            assert(edge_views(edges@) =~= schema_edges(s, i + 1));
        }
        proof {
            use_type_invariant(&ext);
        }
        let ext_list = ext.keys_vec();
        proof {
            let l = string_views(ext_list@);
            assert(l == ext.keys());
            assert forall|t: Seq<char>| #[trigger] l.contains(t) == (depends_on(*rule, t) && dependency_source(s, *rule, t) is None) by {
                assert(ext.contains(t) == (string_views(dep_list@).contains(t) && dependency_source(s, *rule, t) is None));
                assert(deps.contains(t) == depends_on(*rule, t));
            }
            lemma_sorted_listing_unique(l, external_listing(s, *rule));
        }
        let key = rule_node_name(rule.id.as_str());
        let ghost m0 = nodes.map_view();
        let node = DagNode {
            id: key.clone(),
            kind: DagNodeKind::Rule,
            target: clone_opt_string(&rule.target),
            operator: Some(rule.kind.clone()),
            dependencies: dep_list,
            external_inputs: ext_list,
        };
        let ghost kg = key@;
        let ghost ng = node;
        assert(kg == rule_node_key(s.rules@[i as int].id@));
        nodes.insert(key, node);
        proof {
            assert(nodes.map_view() == m0.insert(kg, ng));
            assert forall|j: int| 0 <= j < nf implies field_node_ok(s, nodes.map_view(), j) by {
                let kj = field_node_key(s.fields@[j].id@);
                lemma_field_rule_keys_differ(s.fields@[j].id@, rule.id@);
                assert(field_node_ok(s, m0, j));
                assert(kj != kg);
                assert(nodes.map_view()[kj] == m0[kj]);
            }
            assert forall|j: int| 0 <= j < i + 1 implies rule_node_ok(s, nodes.map_view(), j) by {
                let kj = rule_node_key(s.rules@[j].id@);
                if j < i {
                    if kj == kg {
                        lemma_prefix_injective(seq!['r', 'u', 'l', 'e', ':'], s.rules@[j].id@, rule.id@);
                        assert(rids[j] == rids[i as int]);
                    }
                    assert(rule_node_ok(s, m0, j));
                    assert(nodes.map_view()[kj] == m0[kj]);
                } else {
                    assert(nodes.map_view()[kg] == ng);
                    assert(m0.contains_key(kg));
                }
            }
            assert forall|key2: Seq<char>| #[trigger] nodes.contains(key2) == ((exists|j: int| 0 <= j < nf && key2 == field_node_key(s.fields@[j].id@))
                || (exists|j: int| 0 <= j < nr && key2 == rule_node_key(s.rules@[j].id@))) by {
                if key2 == rule_node_key(s.rules@[i as int].id@) {
                    assert(exists|j: int| 0 <= j < nr && key2 == rule_node_key(s.rules@[j].id@));
                }
            }
        }
        i += 1;
    }

    let dag = ExecutionDag { nodes, edges };
    proof {
        assert(schema_consistent(s));
        assert(describes(s, dag));
    }
    match dag.topological_order() {
        Ok(_) => Ok(dag),
        Err(_) => {
            proof {
                assert forall|d: ExecutionDag| #[trigger] describes(s, d) implies !d.is_acyclic() by {
                    assert forall|o: Seq<Seq<char>>| !d.is_topological_order(o) by {
                        lemma_describes_same_orders(s, dag, d, o);
                    }
                }
            }
            Err(DagBuildError::CycleDetected)
        },
    }
}

} // verus!
