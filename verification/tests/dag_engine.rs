use ots::dag::{DagEdgeKind, DagBuildError};
use ots::dag_build::build_execution_dag;
use ots::engine::{Execution, HookRegistry, Step};
use ots::expr::DagExecutionError;
use ots::plan::{ArithKind, RuleAction};
use ots::schema::{FieldSpec, HookSpec, RuleSchema, RuleSpec};

fn field(id: &str, source: &str) -> FieldSpec {
    FieldSpec {
        id: id.to_string(),
        source: source.to_string(),
        field_type: "money".to_string(),
        default: None,
        enum_ref: None,
        label: None,
    }
}

fn strings(items: &[&str]) -> Option<Vec<String>> {
    Some(items.iter().map(|s| s.to_string()).collect())
}

fn rule(id: &str, target: Option<&str>, kind: &str, args: &[&str]) -> RuleSpec {
    RuleSpec {
        id: id.to_string(),
        target: target.map(|t| t.to_string()),
        kind: kind.to_string(),
        args: if args.is_empty() { None } else { strings(args) },
        hook: None,
        constants: None,
        if_expr: None,
        then_rules: None,
        else_rules: None,
    }
}

fn branch(id: &str, cond: &str, then_rules: &[&str], else_rules: &[&str]) -> RuleSpec {
    let mut r = rule(id, None, "branch", &[]);
    r.if_expr = Some(cond.to_string());
    r.then_rules = strings(then_rules);
    r.else_rules = strings(else_rules);
    r
}

fn us1040_schema() -> RuleSchema {
    let mut schema = RuleSchema::new();
    schema.fields.push(field("L1a", "input_list"));
    schema.fields.push(field("L1", "computed"));
    schema.fields.push(field("L9", "computed"));
    schema.fields.push(field("ApplyTo2025", "input_list"));
    schema.rules.push(rule("rule_L1", Some("L1"), "sum", &["L1a"]));
    schema.rules.push(rule("rule_L9", Some("L9"), "sum", &["L1", "ApplyTo2025", "refund.apply_to_next_year_min_pct"]));
    schema.rules.push(branch("rule_refund_or_due", "L9 > 0", &["rule_refund_L34"], &["rule_due_L37"]));
    schema.rules.push(rule("rule_refund_L34", Some("L34"), "sub", &["L9", "0"]));
    schema.rules.push(rule("rule_due_L37", Some("L37"), "sum", &["L9", "L1"]));
    schema
}

#[test]
fn builds_us1040_execution_dag_from_config() {
    let schema = us1040_schema();
    let dag = build_execution_dag(&schema).unwrap();

    assert!(dag.nodes.contains_key("rule:rule_L1"));
    assert!(dag.nodes.contains_key("rule:rule_L9"));
    assert!(dag.nodes.contains_key("field:L1a"));

    assert!(dag
        .edges
        .iter()
        .any(|edge| edge.from == "rule:rule_L1" && edge.to == "rule:rule_L9" && edge.kind == DagEdgeKind::Data));

    assert!(dag.edges.iter().any(|edge| {
        edge.from == "rule:rule_refund_or_due"
            && edge.to == "rule:rule_refund_L34"
            && edge.kind == DagEdgeKind::ControlThen
    }));

    assert!(dag.edges.iter().any(|edge| {
        edge.from == "rule:rule_refund_or_due"
            && edge.to == "rule:rule_due_L37"
            && edge.kind == DagEdgeKind::ControlElse
    }));

    assert!(dag.topological_order().is_ok());
}

#[test]
fn rejects_duplicates_and_unknown_branch_targets() {
    let mut schema = us1040_schema();
    schema.fields.push(field("L1", "computed"));
    assert!(matches!(build_execution_dag(&schema), Err(DagBuildError::DuplicateField(ref id)) if id == "L1"));

    let mut schema = us1040_schema();
    schema.rules.push(rule("rule_L1", Some("L1"), "sum", &["L1a"]));
    assert!(matches!(build_execution_dag(&schema), Err(DagBuildError::DuplicateRule(ref id)) if id == "rule_L1"));

    let mut schema = us1040_schema();
    schema.rules.push(branch("rule_b", "L1 > 0", &["rule_missing"], &[]));
    assert!(matches!(
        build_execution_dag(&schema),
        Err(DagBuildError::UnknownBranchRuleReference { ref rule_id, ref referenced_rule })
            if rule_id == "rule_b" && referenced_rule == "rule_missing"
    ));
}

#[test]
fn detects_cycles() {
    let mut schema = RuleSchema::new();
    schema.fields.push(field("A", "computed"));
    schema.fields.push(field("B", "computed"));
    schema.rules.push(rule("rule_a", Some("A"), "sum", &["B"]));
    schema.rules.push(rule("rule_b", Some("B"), "sum", &["A"]));
    assert!(matches!(build_execution_dag(&schema), Err(DagBuildError::CycleDetected)));
}

fn run_order(schema: &RuleSchema, decide: bool) -> Vec<String> {
    let dag = build_execution_dag(schema).unwrap();
    let hooks = HookRegistry::new();
    let mut execution = Execution::start(&dag).unwrap();
    loop {
        match execution.next_step(schema, &hooks).unwrap() {
            Step::Finished => break,
            Step::Run { action, .. } => {
                if let RuleAction::Branch { .. } = action {
                    execution.record_branch(decide);
                }
            }
        }
    }
    execution.executed_rules().clone()
}

#[test]
fn branches_gate_the_rules_they_name() {
    let schema = us1040_schema();
    let taken = run_order(&schema, true);
    assert!(taken.contains(&"rule_refund_L34".to_string()));
    assert!(!taken.contains(&"rule_due_L37".to_string()));
    let pos = |id: &str| taken.iter().position(|r| r == id).unwrap();
    assert!(pos("rule_L1") < pos("rule_L9"));
    assert!(pos("rule_L9") < pos("rule_refund_or_due"));
    assert!(pos("rule_refund_or_due") < pos("rule_refund_L34"));

    let other = run_order(&schema, false);
    assert!(!other.contains(&"rule_refund_L34".to_string()));
    assert!(other.contains(&"rule_due_L37".to_string()));
}

#[test]
fn plans_compute_rules() {
    let schema = us1040_schema();
    let dag = build_execution_dag(&schema).unwrap();
    let hooks = HookRegistry::new();
    let mut execution = Execution::start(&dag).unwrap();
    match execution.next_step(&schema, &hooks).unwrap() {
        Step::Run { rule_index, action: RuleAction::Compute { target, kind, args } } => {
            assert_eq!(schema.rules[rule_index].id, "rule_L1");
            assert_eq!(target, "L1");
            assert_eq!(kind, ArithKind::Sum);
            assert_eq!(args.len(), 1);
        }
        _ => panic!("expected rule_L1 to run first"),
    }
}

#[test]
fn returns_not_implemented_for_declared_but_unregistered_hook() {
    let mut schema = RuleSchema::new();
    schema.fields.push(field("L1", "computed"));
    let mut r = rule("r_hook", Some("L1"), "hook", &[]);
    r.hook = Some("demo::missing".to_string());
    schema.rules.push(r);
    schema.hooks.insert(
        "demo::missing".to_string(),
        HookSpec { module: "forms::demo".to_string(), function: "missing".to_string() },
    );
    let dag = build_execution_dag(&schema).unwrap();

    let mut hooks = HookRegistry::new();
    hooks.register_schema_hooks(&schema);

    let mut execution = Execution::start(&dag).unwrap();
    let err = execution.next_step(&schema, &hooks).unwrap_err();
    assert!(matches!(
        err,
        DagExecutionError::HookNotImplemented {
            ref hook_name,
            ref module,
            ref function,
            ..
        } if hook_name == "demo::missing" && module == "forms::demo" && function == "missing"
    ));
}

#[test]
fn hooks_resolve_by_registration() {
    let mut hooks = HookRegistry::new();
    assert!(matches!(
        hooks.resolve_hook("r", "x::y"),
        Err(DagExecutionError::HookNotRegistered { ref rule_id, ref hook_name }) if rule_id == "r" && hook_name == "x::y"
    ));
    hooks.register_hook("x::y".to_string());
    assert!(hooks.is_registered("x::y"));
    assert!(hooks.resolve_hook("r", "x::y").is_ok());
}

#[test]
fn reports_rule_argument_problems() {
    let mut schema = RuleSchema::new();
    schema.fields.push(field("A", "computed"));
    schema.rules.push(rule("r_clamp", Some("A"), "clamp", &["1", "2"]));
    let dag = build_execution_dag(&schema).unwrap();
    let hooks = HookRegistry::new();
    let mut execution = Execution::start(&dag).unwrap();
    assert!(matches!(
        execution.next_step(&schema, &hooks),
        Err(DagExecutionError::InvalidRuleArguments { ref rule_id, ref message })
            if rule_id == "r_clamp" && message == "clamp requires exactly 3 arguments: value, min, max"
    ));
}

fn first_step_error(schema: &RuleSchema, hooks: &HookRegistry) -> DagExecutionError {
    let dag = build_execution_dag(schema).unwrap();
    let mut execution = Execution::start(&dag).unwrap();
    execution.next_step(schema, hooks).unwrap_err()
}

#[test]
fn reports_rule_planning_errors() {
    let hooks = HookRegistry::new();

    let mut schema = RuleSchema::new();
    schema.rules.push(rule("r_sum", None, "sum", &["1"]));
    assert!(matches!(first_step_error(&schema, &hooks), DagExecutionError::MissingRuleTarget(ref id) if id == "r_sum"));

    let mut schema = RuleSchema::new();
    schema.rules.push(rule("r_odd", Some("X"), "median", &["1"]));
    assert!(matches!(
        first_step_error(&schema, &hooks),
        DagExecutionError::UnsupportedRuleKind { ref rule_id, ref kind } if rule_id == "r_odd" && kind == "median"
    ));

    let mut schema = RuleSchema::new();
    schema.rules.push(rule("r_hook", Some("X"), "hook", &[]));
    assert!(matches!(
        first_step_error(&schema, &hooks),
        DagExecutionError::InvalidRuleArguments { ref message, .. } if message == "kind='hook' requires hook name"
    ));

    let mut schema = RuleSchema::new();
    schema.rules.push(rule("r_branch", None, "branch", &[]));
    assert!(matches!(
        first_step_error(&schema, &hooks),
        DagExecutionError::InvalidRuleArguments { ref message, .. } if message == "kind='branch' requires if expression"
    ));

    let mut schema = RuleSchema::new();
    schema.rules.push(rule("r_bad", Some("X"), "sum", &["1 +"]));
    assert!(matches!(
        first_step_error(&schema, &hooks),
        DagExecutionError::InvalidExpression { ref expr, ref message } if expr == "1 +" && message == "unexpected end of expression"
    ));
}

#[test]
fn reports_rules_missing_from_the_schema() {
    let schema = us1040_schema();
    let dag = build_execution_dag(&schema).unwrap();
    let empty = RuleSchema::new();
    let hooks = HookRegistry::new();
    let mut execution = Execution::start(&dag).unwrap();
    assert!(matches!(
        execution.next_step(&empty, &hooks),
        Err(DagExecutionError::MissingRuleSpec(ref id)) if id == "rule_L1"
    ));
}

#[test]
fn hook_rules_run_once_registered() {
    let mut schema = RuleSchema::new();
    let mut r = rule("r_hook", Some("L1"), "hook", &[]);
    r.hook = Some("demo::calc".to_string());
    schema.rules.push(r);
    let dag = build_execution_dag(&schema).unwrap();
    let mut hooks = HookRegistry::new();
    hooks.register_hook("demo::calc".to_string());
    let mut execution = Execution::start(&dag).unwrap();
    match execution.next_step(&schema, &hooks).unwrap() {
        Step::Run { action: RuleAction::Hook { hook_name, target }, .. } => {
            assert_eq!(hook_name, "demo::calc");
            assert_eq!(target.as_deref(), Some("L1"));
        }
        _ => panic!("expected the hook rule"),
    }
    assert!(matches!(execution.next_step(&schema, &hooks), Ok(Step::Finished)));
}

#[test]
fn every_edge_joins_two_nodes() {
    let schema = us1040_schema();
    let dag = build_execution_dag(&schema).unwrap();
    assert!(!dag.edges.is_empty());
    for edge in dag.edges.iter() {
        assert!(dag.nodes.contains_key(edge.from.as_str()), "{}", edge.from);
        assert!(dag.nodes.contains_key(edge.to.as_str()), "{}", edge.to);
    }
}

#[test]
fn finished_run_keeps_decisions_of_its_branch_rules_only() {
    let schema = us1040_schema();
    let dag = build_execution_dag(&schema).unwrap();
    let hooks = HookRegistry::new();
    let mut execution = Execution::start(&dag).unwrap();
    let mut branch_rules: Vec<String> = Vec::new();
    loop {
        assert!(!execution.awaits_decision());
        match execution.next_step(&schema, &hooks).unwrap() {
            Step::Finished => break,
            Step::Run { rule_index, action } => {
                if let RuleAction::Branch { .. } = action {
                    assert!(execution.awaits_decision());
                    branch_rules.push(schema.rules[rule_index].id.clone());
                    execution.record_branch(false);
                    assert!(!execution.awaits_decision());
                }
            }
        }
    }
    let executed = execution.executed_rules().clone();
    assert_eq!(
        executed,
        vec!["rule_L1".to_string(), "rule_L9".to_string(), "rule_refund_or_due".to_string(), "rule_due_L37".to_string()]
    );
    let decisions = execution.branch_decisions();
    assert_eq!(decisions.len(), 1);
    assert_eq!(decisions.key_at(0), "rule_refund_or_due");
    assert_eq!(*decisions.value_at(0), false);
    assert_eq!(branch_rules, vec!["rule_refund_or_due".to_string()]);
    assert!(matches!(execution.next_step(&schema, &hooks), Ok(Step::Finished)));
}

#[test]
fn a_decision_with_none_owed_changes_nothing() {
    let schema = us1040_schema();
    let dag = build_execution_dag(&schema).unwrap();
    let mut execution = Execution::start(&dag).unwrap();
    execution.record_branch(true);
    assert_eq!(execution.branch_decisions().len(), 0);
    assert!(execution.executed_rules().is_empty());
}

#[test]
fn failing_rule_comes_up_again() {
    let mut schema = RuleSchema::new();
    schema.rules.push(rule("r_ok", Some("A"), "sum", &["1"]));
    schema.rules.push(rule("r_sum", None, "sum", &["A"]));
    let dag = build_execution_dag(&schema).unwrap();
    let hooks = HookRegistry::new();
    let mut execution = Execution::start(&dag).unwrap();
    assert!(matches!(execution.next_step(&schema, &hooks), Ok(Step::Run { rule_index: 0, .. })));
    for _ in 0..2 {
        assert!(matches!(
            execution.next_step(&schema, &hooks),
            Err(DagExecutionError::MissingRuleTarget(ref id)) if id == "r_sum"
        ));
    }
    assert_eq!(execution.executed_rules(), &vec!["r_ok".to_string()]);
}
