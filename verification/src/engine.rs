//! Running a rule DAG: the order in which rules run, which of them the
//! branch decisions let run, and what each one asks for. The caller does
//! the floating-point work of each step and reports branch decisions back.

use vstd::prelude::*;

use crate::dag::{DagEdgeKind, ExecutionDag};
use crate::expr::DagExecutionError;
use crate::plan::{
    control_predecessors, control_preds, find_rule, gates_open, is_rule_enabled, plan_outcome, plan_rule,
    pred_views, rule_of_node, rule_sequence, rules_in_order, is_rule_node, RuleAction,
};
use crate::schema::{opt_view, HookSpec, RuleSchema, RuleSpec};
use crate::strmap::StrMap;
use crate::text::string_views;

verus! {

/// A hook declaration as its module and function names.
pub open spec fn hook_view(h: HookSpec) -> (Seq<char>, Seq<char>) {
    (h.module@, h.function@)
}

fn copy_hook_spec(h: &HookSpec) -> (r: HookSpec)
    ensures
        hook_view(r) == hook_view(*h),
{
    HookSpec { module: h.module.clone(), function: h.function.clone() }
}

/// The hooks known to an execution: those the schema declares, and those
/// that have an implementation.
pub struct HookRegistry {
    specs: StrMap<HookSpec>,
    handlers: StrMap<bool>,
}

impl HookRegistry {
    /// The declared hooks, by name.
    pub closed spec fn declared(&self) -> Map<Seq<char>, (Seq<char>, Seq<char>)> {
        self.specs.map_view().map_values(|h: HookSpec| hook_view(h))
    }

    /// The names of the hooks that have an implementation.
    pub closed spec fn implemented(&self) -> Set<Seq<char>> {
        self.handlers.map_view().dom()
    }

    pub fn new() -> (r: Self)
        ensures
            r.declared() == Map::<Seq<char>, (Seq<char>, Seq<char>)>::empty(),
            r.implemented() == Set::<Seq<char>>::empty(),
    {
        let r = HookRegistry { specs: StrMap::new(), handlers: StrMap::new() };
        assert(r.declared() =~= Map::<Seq<char>, (Seq<char>, Seq<char>)>::empty());
        assert(r.implemented() =~= Set::<Seq<char>>::empty());
        r
    }

    /// Records the hooks that a schema declares.
    pub fn register_schema_hooks(&mut self, schema: &RuleSchema)
        ensures
            final(self).declared() == old(self).declared().union_prefer_right(
                schema.hooks.map_view().map_values(|h: HookSpec| hook_view(h)),
            ),
            final(self).implemented() == old(self).implemented(),
    {
        let n = schema.hooks.len();
        let mut i: usize = 0;
        proof {
            use_type_invariant(&schema.hooks);
        }
        while i < n
            invariant
                i <= n,
                n == schema.hooks.keys().len(),
                schema.hooks.wf(),
                self.implemented() == old(self).implemented(),
                self.declared() == old(self).declared().union_prefer_right(
                    Map::new(
                        |x: Seq<char>| schema.hooks.keys().take(i as int).contains(x),
                        |x: Seq<char>| hook_view(schema.hooks.value_of(x)),
                    ),
                ),
            decreases n - i,
        {
            let name = schema.hooks.key_at(i).clone();
            let spec = copy_hook_spec(schema.hooks.value_at(i));
            let ghost k = schema.hooks.keys()[i as int];
            proof {
                crate::strmap::lemma_sorted_index_of(schema.hooks.keys(), i as int);
                assert(schema.hooks.value_of(k) == schema.hooks.values()[i as int]);
            }
            let ghost d0 = self.declared();
            let ghost hv = hook_view(spec);
            assert(name@ == k);
            self.specs.insert(name, spec);
            proof {
                assert(self.declared() =~= d0.insert(k, hv));
                let ks = schema.hooks.keys();
                assert(ks.take(i + 1) =~= ks.take(i as int).push(k));
                assert forall|x: Seq<char>| ks.take(i + 1).contains(x) == (ks.take(i as int).contains(x) || x == k) by {
                    if ks.take(i + 1).contains(x) {
                        let j = choose|j: int| 0 <= j < i + 1 && #[trigger] ks.take(i + 1)[j] == x;
                        if j < i {
                            assert(ks.take(i as int)[j] == x);
                        }
                    }
                    if ks.take(i as int).contains(x) {
                        let j = choose|j: int| 0 <= j < i && #[trigger] ks.take(i as int)[j] == x;
                        assert(ks.take(i + 1)[j] == x);
                    }
                    if x == k {
                        assert(ks.take(i + 1)[i as int] == x);
                    }
                }
                let m_i = Map::new(
                    |x: Seq<char>| ks.take(i as int).contains(x),
                    |x: Seq<char>| hook_view(schema.hooks.value_of(x)),
                );
                let m_n = Map::new(
                    |x: Seq<char>| ks.take(i + 1).contains(x),
                    |x: Seq<char>| hook_view(schema.hooks.value_of(x)),
                );
                assert(hv == hook_view(schema.hooks.value_of(k)));
                assert forall|x: Seq<char>| #[trigger] m_n.contains_key(x) == m_i.insert(k, hv).contains_key(x) by {
                    assert(ks.take(i + 1).contains(x) == (ks.take(i as int).contains(x) || x == k));
                }
                assert(m_n =~= m_i.insert(k, hv));
                assert(old(self).declared().union_prefer_right(m_i).insert(k, hv) =~= old(self).declared().union_prefer_right(
                    m_i.insert(k, hv),
                ));
                assert(self.declared() == old(self).declared().union_prefer_right(m_n));
            }
            i += 1;
        }
        proof {
            assert(schema.hooks.keys().take(n as int) =~= schema.hooks.keys());
            assert(Map::new(
                |x: Seq<char>| schema.hooks.keys().contains(x),
                |x: Seq<char>| hook_view(schema.hooks.value_of(x)),
            ) =~= schema.hooks.map_view().map_values(|h: HookSpec| hook_view(h)));
        }
    }

    /// Records that a hook has an implementation.
    pub fn register_hook(&mut self, name: String)
        ensures
            final(self).declared() == old(self).declared(),
            final(self).implemented() == old(self).implemented().insert(name@),
    {
        let ghost k = name@;
        self.handlers.insert(name, true);
        assert(self.implemented() =~= old(self).implemented().insert(k));
    }

    /// Whether a hook has an implementation.
    pub fn is_registered(&self, name: &str) -> (r: bool)
        ensures
            r == self.implemented().contains(name@),
    {
        self.handlers.contains_key(name)
    }

    /// Whether a rule may call this hook: it may if the hook has an
    /// implementation; otherwise the error says whether the hook is only
    /// declared or not known at all.
    pub fn resolve_hook(&self, rule_id: &str, hook_name: &str) -> (r: Result<(), DagExecutionError>)
        ensures
            hook_resolution(*self, rule_id@, hook_name@, r),
    {
        if self.handlers.contains_key(hook_name) {
            return Ok(());
        }
        match self.specs.get(hook_name) {
            Some(spec) => Err(
                DagExecutionError::HookNotImplemented {
                    rule_id: crate::text::owned(rule_id),
                    hook_name: crate::text::owned(hook_name),
                    module: spec.module.clone(),
                    function: spec.function.clone(),
                },
            ),
            None => Err(
                DagExecutionError::HookNotRegistered {
                    rule_id: crate::text::owned(rule_id),
                    hook_name: crate::text::owned(hook_name),
                },
            ),
        }
    }
}

/// What resolving a hook for a rule gives.
pub open spec fn hook_resolution(
    hooks: HookRegistry,
    rule_id: Seq<char>,
    name: Seq<char>,
    r: Result<(), DagExecutionError>,
) -> bool {
    if hooks.implemented().contains(name) {
        r is Ok
    } else if hooks.declared().contains_key(name) {
        r matches Err(DagExecutionError::HookNotImplemented { rule_id: id, hook_name: h, module, function })
            && id@ == rule_id && h@ == name && (module@, function@) == hooks.declared()[name]
    } else {
        r matches Err(DagExecutionError::HookNotRegistered { rule_id: id, hook_name: h }) && id@ == rule_id
            && h@ == name
    }
}

/// Once a hook is registered, every rule may call it: resolving it for any
/// rule succeeds, whatever the schemas declare.
pub proof fn lemma_registered_hooks_resolve(
    hooks: HookRegistry,
    rule_id: Seq<char>,
    name: Seq<char>,
    r: Result<(), DagExecutionError>,
)
    requires
        hooks.implemented().contains(name),
        hook_resolution(hooks, rule_id, name, r),
    ensures
        r is Ok,
{
}

/// The next thing to do in an execution.
#[derive(Debug)]
pub enum Step {
    /// Execute the rule at this position of the schema's rules, as the
    /// action says.
    Run { rule_index: usize, action: RuleAction },
    /// Every rule has been dealt with.
    Finished,
}

/// The last position of a rule with this id, if any.
pub open spec fn last_rule_with_id(rules: Seq<RuleSpec>, id: Seq<char>) -> Option<int> {
    if exists|i: int| 0 <= i < rules.len() && #[trigger] rules[i].id@ == id {
        Some(choose|i: int|
            0 <= i < rules.len() && #[trigger] rules[i].id@ == id && forall|j: int|
                i < j < rules.len() ==> rules[j].id@ != id)
    } else {
        None
    }
}

/// The gating branch rules of rule `r`, each with the kind of its edge.
spec fn gates_in(preds: StrMap<Vec<(String, DagEdgeKind)>>, r: Seq<char>) -> Seq<(Seq<char>, DagEdgeKind)> {
    if preds.contains(r) {
        pred_views(preds.value_of(r)@)
    } else {
        Seq::empty()
    }
}

/// The rules among the first `k` of `order` that the decisions let run, in
/// order.
spec fn opened_in(
    order: Seq<Seq<char>>,
    preds: StrMap<Vec<(String, DagEdgeKind)>>,
    decisions: Map<Seq<char>, bool>,
    k: int,
) -> Seq<Seq<char>>
    decreases k,
{
    if k <= 0 {
        Seq::empty()
    } else {
        let rest = opened_in(order, preds, decisions, k - 1);
        if gates_open(gates_in(preds, order[k - 1]), decisions) {
            rest.push(order[k - 1])
        } else {
            rest
        }
    }
}

/// No rule of `order` is gated by itself or by a rule that comes after it.
spec fn gates_precede(order: Seq<Seq<char>>, preds: StrMap<Vec<(String, DagEdgeKind)>>) -> bool {
    forall|j: int, m: int, i: int|
        0 <= j <= m < order.len() && 0 <= i < gates_in(preds, order[j]).len() ==> #[trigger] gates_in(
            preds,
            order[j],
        )[i].0 != #[trigger] order[m]
}

/// The part of an execution that moves as rules run.
struct RunState {
    next: usize,
    decisions: StrMap<bool>,
    executed: Vec<String>,
    awaiting: Option<String>,
    branches: Ghost<Set<Seq<char>>>,
}

impl RunState {
    fn fresh() -> (r: RunState)
        ensures
            r.next == 0,
            r.decisions.map_view() == Map::<Seq<char>, bool>::empty(),
            r.executed@.len() == 0,
            r.awaiting is None,
            r.branches@ == Set::<Seq<char>>::empty(),
    {
        RunState {
            next: 0,
            decisions: StrMap::new(),
            executed: Vec::new(),
            awaiting: None,
            branches: Ghost(Set::empty()),
        }
    }
}

/// An execution in progress: it takes up the rules of a DAG in run order
/// and hands out, one at a time, those that the branch decisions so far let
/// run.
pub struct Execution {
    order: Vec<String>,
    preds: StrMap<Vec<(String, DagEdgeKind)>>,
    run: RunState,
}

impl Execution {
    /// The rules in the order in which they come up.
    pub closed spec fn order(&self) -> Seq<Seq<char>> {
        string_views(self.order@)
    }

    /// How many of them have come up.
    pub closed spec fn position(&self) -> int {
        self.run.next as int
    }

    /// The branch rules that gate a rule, each with the kind of its edge.
    pub closed spec fn gates(&self, r: Seq<char>) -> Seq<(Seq<char>, DagEdgeKind)> {
        gates_in(self.preds, r)
    }

    /// The branch decisions so far, by branch rule.
    pub closed spec fn decisions(&self) -> Map<Seq<char>, bool> {
        self.run.decisions.map_view()
    }

    /// The rules executed so far, in order.
    pub closed spec fn executed(&self) -> Seq<Seq<char>> {
        string_views(self.run.executed@)
    }

    /// The branch rule just handed out whose decision is still owed.
    pub closed spec fn awaiting(&self) -> Option<Seq<char>> {
        opt_view(self.run.awaiting)
    }

    /// The branch rules handed out so far.
    pub closed spec fn branch_rules(&self) -> Set<Seq<char>> {
        self.run.branches@
    }

    /// The rule may run: every branch that gates it has been decided the
    /// way that opens it.
    pub open spec fn enabled(&self, r: Seq<char>) -> bool {
        gates_open(self.gates(r), self.decisions())
    }

    /// The first position at or after `k` whose rule may run, or the end.
    pub open spec fn first_enabled(&self, k: int) -> int
        decreases self.order().len() - k,
    {
        if k < 0 || k >= self.order().len() {
            k
        } else if self.enabled(self.order()[k]) {
            k
        } else {
            self.first_enabled(k + 1)
        }
    }

    /// Every rule has come up and no decision is owed.
    pub open spec fn finished(&self) -> bool {
        self.position() == self.order().len() && self.awaiting() is None
    }

    /// What every execution keeps: the rules executed are those of the
    /// rules that have come up that the decisions let run; a decision is
    /// held for each branch rule handed out, but for the one whose decision
    /// is still owed.
    #[verifier::type_invariant]
    pub closed spec fn well_formed(&self) -> bool {
        &&& self.run.next <= self.order@.len()
        &&& self.order().no_duplicates()
        &&& gates_precede(self.order(), self.preds)
        &&& self.executed() == opened_in(self.order(), self.preds, self.decisions(), self.run.next as int)
        &&& forall|b: Seq<char>| self.run.branches@.contains(b) ==> self.executed().contains(b)
        &&& match opt_view(self.run.awaiting) {
            Some(b) => 0 < self.run.next && b == self.order()[self.run.next - 1] && self.run.branches@.contains(b)
                && self.decisions().dom() == self.run.branches@.remove(b),
            None => self.decisions().dom() == self.run.branches@,
        }
    }

    /// The execution of a DAG, before any rule has run.
    pub fn start(dag: &ExecutionDag) -> (r: Result<Execution, DagExecutionError>)
        ensures
            match r {
                Ok(e) => dag.is_topological_order(dag.kahn_order()) && e.order() == rules_in_order(*dag, dag.kahn_order())
                    && e.position() == 0 && e.decisions() == Map::<Seq<char>, bool>::empty()
                    && e.executed() == Seq::<Seq<char>>::empty() && e.awaiting() is None
                    && e.branch_rules() == Set::<Seq<char>>::empty()
                    && forall|t: Seq<char>| #[trigger] e.gates(t) == control_preds(dag.edges@, t),
                Err(DagExecutionError::InvalidRuleArguments { rule_id, message }) => !dag.is_acyclic()
                    && rule_id@ == "<dag>"@ && message@ == "cycle detected in execution DAG"@,
                Err(_) => false,
            },
    {
        let order = rule_sequence(dag)?;
        let preds = control_predecessors(dag);
        let run = RunState::fresh();
        proof {
            let o = dag.kahn_order();
            let ro = string_views(order@);
            assert forall|t: Seq<char>| #[trigger] gates_in(preds, t) == control_preds(dag.edges@, t) by {
                if !preds.contains(t) {
                    assert(control_preds(dag.edges@, t).len() == 0);
                    assert(control_preds(dag.edges@, t) =~= Seq::<(Seq<char>, DagEdgeKind)>::empty());
                }
            }
            crate::plan::lemma_rules_distinct(*dag, o);
            assert forall|j: int, m: int, i: int|
                0 <= j <= m < ro.len() && 0 <= i < gates_in(preds, ro[j]).len() implies #[trigger] gates_in(
                    preds,
                    ro[j],
                )[i].0 != #[trigger] ro[m] by {
                crate::plan::lemma_gates_come_first(*dag, o, j, m, i);
            }
            assert(string_views(run.executed@) =~= Seq::<Seq<char>>::empty());
            assert(run.decisions.map_view().dom() =~= run.branches@);
        }
        let e = Execution { order, preds, run };
        proof {
            assert(e.executed() =~= Seq::<Seq<char>>::empty());
        }
        Ok(e)
    }

    /// Whether the decision of a branch rule handed out is still owed.
    pub fn awaits_decision(&self) -> (r: bool)
        ensures
            r == self.awaiting() is Some,
    {
        self.run.awaiting.is_some()
    }

    /// Moves on to the next rule that may run and says how to execute it;
    /// or reports that no rule is left, or why the rule cannot be executed,
    /// leaving that rule to come up again. A rule handed out counts as
    /// executed; the decision of a branch rule is owed before the next step.
    pub fn next_step(&mut self, schema: &RuleSchema, hooks: &HookRegistry) -> (r: Result<Step, DagExecutionError>)
        requires
            old(self).awaiting() is None,
        ensures
            final(self).order() == old(self).order(),
            forall|t: Seq<char>| #[trigger] final(self).gates(t) == old(self).gates(t),
            final(self).decisions() == old(self).decisions(),
            ({
                let k = old(self).first_enabled(old(self).position());
                let order = old(self).order();
                let held = final(self).position() == k && final(self).executed() == old(self).executed()
                    && final(self).branch_rules() == old(self).branch_rules() && final(self).awaiting() is None;
                if k >= order.len() {
                    held && (r matches Ok(Step::Finished))
                } else {
                    match last_rule_with_id(schema.rules@, order[k]) {
                        None => held && (r matches Err(DagExecutionError::MissingRuleSpec(id)) && id@ == order[k]),
                        Some(i) => {
                            let rule = schema.rules@[i];
                            match r {
                                Ok(Step::Run { rule_index, action }) => rule_index == i && plan_outcome(rule, Ok(action))
                                    && (action matches RuleAction::Hook { hook_name, .. } ==> hook_resolution(
                                    *hooks,
                                    rule.id@,
                                    hook_name@,
                                    Ok(()),
                                )) && final(self).position() == k + 1 && final(self).executed() == old(self).executed().push(
                                    order[k],
                                ) && final(self).branch_rules() == (if action is Branch {
                                    old(self).branch_rules().insert(order[k])
                                } else {
                                    old(self).branch_rules()
                                }) && final(self).awaiting() == (if action is Branch {
                                    Some(order[k])
                                } else {
                                    None
                                }),
                                Ok(Step::Finished) => false,
                                Err(e) => held && (plan_outcome(rule, Err(e)) || (rule.kind@ == "hook"@ && (
                                rule.hook matches Some(h) && hook_resolution(*hooks, rule.id@, h@, Err(e))))),
                            }
                        },
                    }
                }
            }),
    {
        proof {
            use_type_invariant(&*self);
            lemma_first_enabled(*self, self.position());
        }
        let n = self.order.len();
        let mut k = self.run.next;
        while k < n
            invariant
                *self == *old(self),
                old(self).well_formed(),
                old(self).awaiting() is None,
                n == old(self).order().len(),
                old(self).position() <= k <= n,
                old(self).first_enabled(old(self).position()) == old(self).first_enabled(k as int),
            decreases n - k,
        {
            let ghost rid = self.order()[k as int];
            assert(self.order@[k as int]@ == rid);
            if !is_rule_enabled(self.order[k].as_str(), &self.preds, &self.run.decisions) {
                proof {
                    assert(!old(self).enabled(rid));
                }
                k += 1;
                continue;
            }
            proof {
                assert(old(self).enabled(rid));
                assert(old(self).first_enabled(k as int) == k);
                lemma_first_enabled(*old(self), old(self).position());
            }
            let idx = match find_rule(schema, self.order[k].as_str()) {
                Some(i) => i,
                None => {
                    proof {
                        assert(last_rule_with_id(schema.rules@, rid) is None);
                    }
                    let id = self.order[k].clone();
                    self.hold_at(k);
                    return Err(DagExecutionError::MissingRuleSpec(id));
                },
            };
            proof {
                let rs = schema.rules@;
                assert(0 <= idx < rs.len() && rs[idx as int].id@ == rid);
                let c = choose|c: int|
                    0 <= c < rs.len() && #[trigger] rs[c].id@ == rid && forall|j: int| c < j < rs.len() ==> rs[j].id@ != rid;
                if c < idx {
                    assert(rs[idx as int].id@ != rid);
                } else if c > idx {
                }
                assert(last_rule_with_id(rs, rid) == Some(idx as int));
            }
            let rule = &schema.rules[idx];
            let action = match plan_rule(rule) {
                Ok(a) => a,
                Err(e) => {
                    self.hold_at(k);
                    return Err(e);
                },
            };
            if let RuleAction::Hook { hook_name, .. } = &action {
                match hooks.resolve_hook(rule.id.as_str(), hook_name.as_str()) {
                    Ok(()) => {},
                    Err(e) => {
                        self.hold_at(k);
                        return Err(e);
                    },
                }
            }
            let branch = match &action {
                RuleAction::Branch { .. } => true,
                _ => false,
            };
            self.take_up(k, branch);
            return Ok(Step::Run { rule_index: idx, action });
        }
        proof {
            lemma_first_enabled(*old(self), old(self).position());
        }
        self.hold_at(n);
        Ok(Step::Finished)
    }

    /// Puts the execution at position `k`, past rules that may not run.
    fn hold_at(&mut self, k: usize)
        requires
            old(self).awaiting() is None,
            old(self).position() <= k <= old(self).order().len(),
            forall|j: int| old(self).position() <= j < k ==> !old(self).enabled(#[trigger] old(self).order()[j]),
        ensures
            final(self).order() == old(self).order(),
            forall|t: Seq<char>| #[trigger] final(self).gates(t) == old(self).gates(t),
            final(self).decisions() == old(self).decisions(),
            final(self).position() == k,
            final(self).executed() == old(self).executed(),
            final(self).branch_rules() == old(self).branch_rules(),
            final(self).awaiting() is None,
    {
        proof {
            use_type_invariant(&*self);
            lemma_opened_skip(self.order(), self.preds, self.decisions(), self.position(), k as int);
        }
        self.run.next = k;
    }

    /// Hands out the rule at position `k`, past rules that may not run.
    fn take_up(&mut self, k: usize, branch: bool)
        requires
            old(self).awaiting() is None,
            old(self).position() <= k < old(self).order().len(),
            forall|j: int| old(self).position() <= j < k ==> !old(self).enabled(#[trigger] old(self).order()[j]),
            old(self).enabled(old(self).order()[k as int]),
        ensures
            final(self).order() == old(self).order(),
            forall|t: Seq<char>| #[trigger] final(self).gates(t) == old(self).gates(t),
            final(self).decisions() == old(self).decisions(),
            final(self).position() == k + 1,
            final(self).executed() == old(self).executed().push(old(self).order()[k as int]),
            final(self).branch_rules() == (if branch {
                old(self).branch_rules().insert(old(self).order()[k as int])
            } else {
                old(self).branch_rules()
            }),
            final(self).awaiting() == (if branch {
                Some(old(self).order()[k as int])
            } else {
                None
            }),
    {
        let ghost order = self.order();
        let ghost preds = self.preds;
        let ghost dec = self.decisions();
        let ghost b = order[k as int];
        let ghost ex0 = self.executed();
        let ghost br0 = self.branch_rules();
        proof {
            use_type_invariant(&*self);
            lemma_opened_skip(order, preds, dec, self.position(), k as int);
            let idx = lemma_opened_positions(order, preds, dec, k as int);
            if ex0.contains(b) {
                let x = choose|x: int| 0 <= x < ex0.len() && ex0[x] == b;
                assert(order[idx[x]] == ex0[x]);
                assert(idx[x] < k);
            }
            assert(!br0.contains(b));
        }
        let mut run = RunState::fresh();
        proof {
            assert(string_views(run.executed@) =~= Seq::<Seq<char>>::empty());
            assert(run.decisions.map_view().dom() =~= run.branches@);
        }
        std::mem::swap(&mut run, &mut self.run);
        let id = self.order[k].clone();
        assert(id@ == b);
        let n = self.order.len();
        assert(k < n);
        run.next = k + 1;
        run.executed.push(id.clone());
        if branch {
            run.awaiting = Some(id);
            run.branches = Ghost(run.branches@.insert(b));
        }
        proof {
            assert(string_views(run.executed@) =~= ex0.push(b));
            assert(opened_in(order, preds, dec, k + 1) == opened_in(order, preds, dec, k as int).push(b));
            if branch {
                assert(run.branches@.remove(b) =~= br0);
            }
            assert forall|x: Seq<char>| run.branches@.contains(x) implies string_views(run.executed@).contains(x) by {
                if x == b {
                    assert(string_views(run.executed@)[ex0.len() as int] == b);
                } else {
                    assert(ex0.contains(x));
                    let i = choose|i: int| 0 <= i < ex0.len() && ex0[i] == x;
                    assert(string_views(run.executed@)[i] == x);
                }
            }
        }
        self.run = run;
    }

    /// Records the decision of the branch rule whose decision is owed;
    /// when none is owed, nothing changes.
    pub fn record_branch(&mut self, decision: bool)
        ensures
            final(self).decisions() == (match old(self).awaiting() {
                Some(b) => old(self).decisions().insert(b, decision),
                None => old(self).decisions(),
            }),
            final(self).awaiting() is None,
            final(self).order() == old(self).order(),
            final(self).position() == old(self).position(),
            forall|t: Seq<char>| #[trigger] final(self).gates(t) == old(self).gates(t),
            final(self).executed() == old(self).executed(),
            final(self).branch_rules() == old(self).branch_rules(),
    {
        proof {
            use_type_invariant(&*self);
        }
        if self.run.awaiting.is_none() {
            return;
        }
        let ghost order = self.order();
        let ghost preds = self.preds;
        let ghost dec = self.decisions();
        let ghost next = self.position();
        let ghost br0 = self.branch_rules();
        let mut run = RunState::fresh();
        proof {
            assert(string_views(run.executed@) =~= Seq::<Seq<char>>::empty());
            assert(run.decisions.map_view().dom() =~= run.branches@);
        }
        std::mem::swap(&mut run, &mut self.run);
        let mut awaiting: Option<String> = None;
        std::mem::swap(&mut awaiting, &mut run.awaiting);
        if let Some(b) = awaiting {
            let ghost bv = b@;
            proof {
                assert(bv == order[next - 1]);
                assert forall|j: int| 0 <= j < next implies gates_open(gates_in(preds, #[trigger] order[j]), dec) == gates_open(
                    gates_in(preds, order[j]),
                    dec.insert(bv, decision),
                ) by {
                    let g = gates_in(preds, order[j]);
                    assert forall|i: int| 0 <= i < g.len() implies g[i].0 != bv by {
                        assert(gates_in(preds, order[j])[i].0 != order[next - 1]);
                    }
                    lemma_gates_open_insert(g, dec, bv, decision);
                }
                lemma_opened_stable(order, preds, dec, dec.insert(bv, decision), next);
            }
            run.decisions.insert(b, decision);
            proof {
                assert(run.decisions.map_view().dom() =~= br0);
            }
        }
        self.run = run;
    }

    /// The branch decisions so far.
    pub fn branch_decisions(&self) -> (r: &StrMap<bool>)
        ensures
            r.map_view() == self.decisions(),
    {
        &self.run.decisions
    }

    /// The rules executed so far, in order.
    pub fn executed_rules(&self) -> (r: &Vec<String>)
        ensures
            string_views(r@) == self.executed(),
    {
        &self.run.executed
    }
}

/// Past the rules that may not run, a position keeps the same rules run.
proof fn lemma_opened_skip(
    order: Seq<Seq<char>>,
    preds: StrMap<Vec<(String, DagEdgeKind)>>,
    dec: Map<Seq<char>, bool>,
    p: int,
    k: int,
)
    requires
        0 <= p <= k,
        forall|j: int| p <= j < k ==> !gates_open(gates_in(preds, #[trigger] order[j]), dec),
    ensures
        opened_in(order, preds, dec, k) == opened_in(order, preds, dec, p),
    decreases k - p,
{
    if k > p {
        lemma_opened_skip(order, preds, dec, p, k - 1);
        assert(!gates_open(gates_in(preds, order[k - 1]), dec));
    }
}

/// The rules run depend only on whether each rule may run.
proof fn lemma_opened_stable(
    order: Seq<Seq<char>>,
    preds: StrMap<Vec<(String, DagEdgeKind)>>,
    d1: Map<Seq<char>, bool>,
    d2: Map<Seq<char>, bool>,
    k: int,
)
    requires
        forall|j: int| 0 <= j < k ==> gates_open(gates_in(preds, #[trigger] order[j]), d1) == gates_open(gates_in(preds, order[j]), d2),
    ensures
        opened_in(order, preds, d1, k) == opened_in(order, preds, d2, k),
    decreases k,
{
    if k > 0 {
        lemma_opened_stable(order, preds, d1, d2, k - 1);
        assert(gates_open(gates_in(preds, order[k - 1]), d1) == gates_open(gates_in(preds, order[k - 1]), d2));
    }
}

/// A decision on a branch that gates none of `g` changes nothing for it.
proof fn lemma_gates_open_insert(g: Seq<(Seq<char>, DagEdgeKind)>, dec: Map<Seq<char>, bool>, b: Seq<char>, d: bool)
    requires
        forall|i: int| 0 <= i < g.len() ==> #[trigger] g[i].0 != b,
    ensures
        gates_open(g, dec) == gates_open(g, dec.insert(b, d)),
{
    let dec2 = dec.insert(b, d);
    if gates_open(g, dec) {
        assert forall|i: int| 0 <= i < g.len() implies dec2.contains_key(#[trigger] g[i].0) && (g[i].1
            == DagEdgeKind::ControlThen ==> dec2[g[i].0]) && (g[i].1 == DagEdgeKind::ControlElse ==> !dec2[g[i].0]) by {
            assert(g[i].0 != b);
            assert(dec.contains_key(g[i].0));
        }
    }
    if gates_open(g, dec2) {
        assert forall|i: int| 0 <= i < g.len() implies dec.contains_key(#[trigger] g[i].0) && (g[i].1
            == DagEdgeKind::ControlThen ==> dec[g[i].0]) && (g[i].1 == DagEdgeKind::ControlElse ==> !dec[g[i].0]) by {
            assert(g[i].0 != b);
            assert(dec2.contains_key(g[i].0));
        }
    }
}

/// `s` is `order` taken at the strictly increasing positions `idx`.
pub open spec fn picks_in_order(s: Seq<Seq<char>>, order: Seq<Seq<char>>, idx: Seq<int>) -> bool {
    &&& idx.len() == s.len()
    &&& forall|x: int| 0 <= x < s.len() ==> 0 <= #[trigger] idx[x] < order.len() && order[idx[x]] == s[x]
    &&& forall|x: int, y: int| 0 <= x < y < s.len() ==> #[trigger] idx[x] < #[trigger] idx[y]
}

/// Where the rules run come from: the positions, in increasing order, of
/// the rules of the order that may run.
proof fn lemma_opened_positions(
    order: Seq<Seq<char>>,
    preds: StrMap<Vec<(String, DagEdgeKind)>>,
    dec: Map<Seq<char>, bool>,
    k: int,
) -> (idx: Seq<int>)
    requires
        0 <= k <= order.len(),
    ensures
        picks_in_order(opened_in(order, preds, dec, k), order, idx),
        forall|x: int| 0 <= x < idx.len() ==> #[trigger] idx[x] < k && gates_open(gates_in(preds, order[idx[x]]), dec),
        forall|p: int|
            0 <= p < k && gates_open(gates_in(preds, #[trigger] order[p]), dec) ==> opened_in(order, preds, dec, k).contains(
                order[p],
            ),
    decreases k,
{
    if k == 0 {
        Seq::empty()
    } else {
        let idx0 = lemma_opened_positions(order, preds, dec, k - 1);
        let rest = opened_in(order, preds, dec, k - 1);
        let op = opened_in(order, preds, dec, k);
        if gates_open(gates_in(preds, order[k - 1]), dec) {
            let idx = idx0.push(k - 1);
            assert(op == rest.push(order[k - 1]));
            assert forall|x: int| 0 <= x < op.len() implies 0 <= #[trigger] idx[x] < order.len() && order[idx[x]] == op[x] by {
                if x < rest.len() {
                    assert(idx[x] == idx0[x]);
                    assert(op[x] == rest[x]);
                }
            }
            assert forall|x: int, y: int| 0 <= x < y < op.len() implies #[trigger] idx[x] < #[trigger] idx[y] by {
                assert(idx[x] == idx0[x]);
                if y < rest.len() {
                    assert(idx[y] == idx0[y]);
                }
            }
            assert forall|x: int| 0 <= x < idx.len() implies #[trigger] idx[x] < k && gates_open(gates_in(preds, order[idx[x]]), dec) by {
                if x < idx0.len() {
                    assert(idx[x] == idx0[x]);
                }
            }
            assert forall|p: int| 0 <= p < k && gates_open(gates_in(preds, #[trigger] order[p]), dec) implies op.contains(order[p]) by {
                if p < k - 1 {
                    assert(rest.contains(order[p]));
                    let x = choose|x: int| 0 <= x < rest.len() && rest[x] == order[p];
                    assert(op[x] == rest[x]);
                } else {
                    assert(op[rest.len() as int] == order[p]);
                }
            }
            idx
        } else {
            assert(op == rest);
            idx0
        }
    }
}

/// A finished execution of a DAG has executed exactly the rules that every
/// branch gating them let run, each once, in run order, so that a rule runs
/// after any rule that an edge leads to it from; and it holds a decision for
/// exactly the branch rules it executed.
pub proof fn lemma_finished_run(dag: ExecutionDag, e: Execution)
    requires
        e.well_formed(),
        e.finished(),
        dag.is_topological_order(dag.kahn_order()),
        e.order() == rules_in_order(dag, dag.kahn_order()),
        forall|t: Seq<char>| #[trigger] e.gates(t) == control_preds(dag.edges@, t),
    ensures
        forall|r: Seq<char>|
            #[trigger] e.executed().contains(r) <==> (e.order().contains(r) && gates_open(
                control_preds(dag.edges@, r),
                e.decisions(),
            )),
        e.executed().no_duplicates(),
        exists|idx: Seq<int>| #[trigger] picks_in_order(e.executed(), e.order(), idx),
        forall|k: int|
            0 <= k < dag.edges@.len() && is_rule_node(dag, dag.edges@[k].from@) && is_rule_node(dag, dag.edges@[k].to@)
                && e.executed().contains(rule_of_node(#[trigger] dag.edges@[k].from@)->0) && e.executed().contains(
                rule_of_node(dag.edges@[k].to@)->0,
            ) ==> exists|x: int, y: int|
                0 <= x < y < e.executed().len() && e.executed()[x] == rule_of_node(dag.edges@[k].from@)->0
                    && e.executed()[y] == rule_of_node(dag.edges@[k].to@)->0,
        e.decisions().dom() == e.branch_rules(),
        forall|b: Seq<char>| e.branch_rules().contains(b) ==> e.executed().contains(b),
{
    let order = e.order();
    let ex = e.executed();
    let n = order.len() as int;
    let idx = lemma_opened_positions(order, e.preds, e.decisions(), n);
    assert(ex == opened_in(order, e.preds, e.decisions(), n));
    assert(picks_in_order(ex, order, idx));
    assert forall|r: Seq<char>|
        #[trigger] ex.contains(r) <==> (order.contains(r) && gates_open(control_preds(dag.edges@, r), e.decisions())) by {
        assert(e.gates(r) == gates_in(e.preds, r));
        if ex.contains(r) {
            let x = choose|x: int| 0 <= x < ex.len() && ex[x] == r;
            assert(order[idx[x]] == r);
            assert(gates_open(gates_in(e.preds, order[idx[x]]), e.decisions()));
        }
        if order.contains(r) && gates_open(control_preds(dag.edges@, r), e.decisions()) {
            let p = choose|p: int| 0 <= p < n && order[p] == r;
            assert(gates_open(gates_in(e.preds, order[p]), e.decisions()));
        }
    }
    assert forall|x: int, y: int| 0 <= x < ex.len() && 0 <= y < ex.len() && x != y implies ex[x] != ex[y] by {
        assert(order[idx[x]] == ex[x]);
        assert(order[idx[y]] == ex[y]);
        if x < y {
            assert(idx[x] < idx[y]);
        } else {
            assert(idx[y] < idx[x]);
        }
    }
    assert forall|k: int|
        0 <= k < dag.edges@.len() && is_rule_node(dag, dag.edges@[k].from@) && is_rule_node(dag, dag.edges@[k].to@)
            && ex.contains(rule_of_node(#[trigger] dag.edges@[k].from@)->0) && ex.contains(rule_of_node(dag.edges@[k].to@)->0)
        implies exists|x: int, y: int|
            0 <= x < y < ex.len() && ex[x] == rule_of_node(dag.edges@[k].from@)->0 && ex[y] == rule_of_node(dag.edges@[k].to@)->0 by {
        let a = rule_of_node(dag.edges@[k].from@)->0;
        let c = rule_of_node(dag.edges@[k].to@)->0;
        crate::plan::lemma_run_order_follows_edges(dag, dag.kahn_order(), k);
        let (p, q) = choose|p: int, q: int| 0 <= p < q < order.len() && order[p] == a && order[q] == c;
        let x = choose|x: int| 0 <= x < ex.len() && ex[x] == a;
        let y = choose|y: int| 0 <= y < ex.len() && ex[y] == c;
        assert(order[idx[x]] == a);
        assert(order[idx[y]] == c);
        assert(idx[x] == p);
        assert(idx[y] == q);
        if y < x {
            assert(idx[y] < idx[x]);
        }
    }
}

/// Where the first rule that may run lies: past rules that may not.
proof fn lemma_first_enabled(e: Execution, p: int)
    requires
        0 <= p <= e.order().len(),
    ensures
        p <= e.first_enabled(p) <= e.order().len(),
        forall|j: int| p <= j < e.first_enabled(p) ==> !e.enabled(#[trigger] e.order()[j]),
        e.first_enabled(p) < e.order().len() ==> e.enabled(e.order()[e.first_enabled(p)]),
    decreases e.order().len() - p,
{
    if p < e.order().len() && !e.enabled(e.order()[p]) {
        lemma_first_enabled(e, p + 1);
    }
}

/// A rule that a branch gates may run only once that branch has been
/// decided, and only on the side it was decided: a `then` rule after a
/// true decision, an `else` rule after a false one.
pub proof fn lemma_branch_gating(e: Execution, rule: Seq<char>, i: int)
    requires
        0 <= i < e.gates(rule).len(),
        e.enabled(rule),
    ensures
        e.decisions().contains_key(e.gates(rule)[i].0),
        e.gates(rule)[i].1 == DagEdgeKind::ControlThen ==> e.decisions()[e.gates(rule)[i].0],
        e.gates(rule)[i].1 == DagEdgeKind::ControlElse ==> !e.decisions()[e.gates(rule)[i].0],
{
}

} // verus!
