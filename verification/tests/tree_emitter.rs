use emit::patterns::decision_tree::{AccessPath, ChainTest, Check, Decision, PathSegment, PatternBinding, SwitchBranch, SwitchKind, SwitchShape};
use emit::patterns::tree_emitter::{
    bindings_are_hoistable, build_chain_plan, capture_diverge, chain_last_is_catchall,
    collect_reachable_arms, decision_needs_stdlib, decision_top_bindings,
    group_chain_tests_by_condition, split_with_default_lift, ChainBranch,
};
use emit::plan::bodies::{ElseArm, LoweredBlock, LoweredStatement};

fn success(i: usize) -> Decision {
    Decision::Success { arm_index: i, bindings: vec![] }
}

fn bound(i: usize, names: &[&str]) -> Decision {
    Decision::Success {
        arm_index: i,
        bindings: names
            .iter()
            .map(|n| PatternBinding { lisette_name: n.to_string(), go_name: Some(n.to_string()), path: AccessPath::root() })
            .collect(),
    }
}

fn test_of(d: Decision) -> ChainTest {
    ChainTest { checks: vec![], decision: d }
}

fn branch(label: &str, needs: bool, d: Decision) -> SwitchBranch {
    SwitchBranch { case_label: label.to_string(), needs_stdlib: needs, decision: d }
}

#[test]
fn chain_catchall_needs_unreachable_fallback_and_two_tests() {
    let two = vec![test_of(success(0)), test_of(success(1))];
    assert!(chain_last_is_catchall(&two, &Decision::Unreachable));
    assert!(!chain_last_is_catchall(&two[..1], &Decision::Unreachable));
    assert!(!chain_last_is_catchall(&two, &success(2)));
}

#[test]
fn default_lift_takes_the_last_branch_without_fallback() {
    let branches = vec![branch("A", false, success(0)), branch("B", false, success(1))];
    let (rest, default) = split_with_default_lift(&branches, None);
    assert_eq!(rest.len(), 1);
    assert_eq!(rest[0].case_label, "A");
    assert!(matches!(default, Some(Decision::Success { arm_index: 1, .. })));
    let fallback = success(9);
    let (rest, default) = split_with_default_lift(&branches, Some(&fallback));
    assert_eq!(rest.len(), 2);
    assert!(matches!(default, Some(Decision::Success { arm_index: 9, .. })));
    let (rest, default) = split_with_default_lift(&[], None);
    assert!(rest.is_empty() && default.is_none());
}

#[test]
fn top_bindings_of_success_and_guard_only() {
    assert_eq!(decision_top_bindings(&bound(0, &["a", "b"])).len(), 2);
    let guard = Decision::Guard {
        arm_index: 1,
        bindings: vec![PatternBinding { lisette_name: "g".to_string(), go_name: None, path: AccessPath::root() }],
        success: Box::new(success(1)),
        failure: Box::new(Decision::Unreachable),
    };
    assert_eq!(decision_top_bindings(&guard)[0].lisette_name, "g");
    assert!(decision_top_bindings(&Decision::Unreachable).is_empty());
    let chain = Decision::Chain { tests: vec![test_of(bound(0, &["a"]))], fallback: Box::new(Decision::Unreachable) };
    assert!(decision_top_bindings(&chain).is_empty());
}

#[test]
fn capture_diverge_moves_statements_and_reports_divergence() {
    let mut out = vec![LoweredStatement::RawGo("x := 1".to_string())];
    let diverges = capture_diverge(
        vec![LoweredStatement::RawGo("f()".to_string()), LoweredStatement::Break { label: None }],
        &mut out,
    );
    assert!(diverges);
    assert_eq!(out.len(), 3);
    assert!(matches!(out[2], LoweredStatement::Break { .. }));
    let mut out2 = Vec::new();
    assert!(!capture_diverge(vec![LoweredStatement::RawGo("f()".to_string())], &mut out2));
    assert!(!capture_diverge(vec![], &mut out2));
    assert_eq!(out2.len(), 1);
}

fn chain_branch(cond: &str) -> ChainBranch {
    ChainBranch { condition: cond.to_string(), body: LoweredBlock { statements: vec![LoweredStatement::RawGo(cond.to_uppercase())] } }
}

#[test]
fn chain_plan_nests_else_ifs_in_order() {
    let plan = build_chain_plan(
        vec![chain_branch("a"), chain_branch("b"), chain_branch("c")],
        ElseArm::Else { body: LoweredBlock { statements: vec![] }, inline: false },
    );
    assert_eq!(plan.condition, "a");
    assert!(plan.condition_setup.is_empty());
    let ElseArm::ElseIf(second) = plan.else_arm else { panic!("expected else if") };
    assert_eq!(second.condition, "b");
    let ElseArm::ElseIf(third) = second.else_arm else { panic!("expected else if") };
    assert_eq!(third.condition, "c");
    assert!(matches!(third.then_body.statements[0], LoweredStatement::RawGo(ref t) if t == "C"));
    assert!(matches!(third.else_arm, ElseArm::Else { inline: false, .. }));
    let single = build_chain_plan(vec![chain_branch("only")], ElseArm::NoElse);
    assert_eq!(single.condition, "only");
    assert!(matches!(single.else_arm, ElseArm::NoElse));
}

#[test]
fn stdlib_need_is_found_anywhere_in_the_tree() {
    let plain = Decision::Switch {
        path: AccessPath::root(),
        kind: SwitchKind::EnumTag,
        shape: SwitchShape::Binary,
        branches: vec![branch("A", false, success(0)), branch("B", false, success(1))],
        fallback: None,
    };
    assert!(!decision_needs_stdlib(&plain));
    let nested = Decision::Chain {
        tests: vec![test_of(success(0)), test_of(Decision::Switch {
            path: AccessPath::root(),
            kind: SwitchKind::EnumTag,
            shape: SwitchShape::SingleArm,
            branches: vec![branch("prelude.OptionSome", true, success(1))],
            fallback: Some(Box::new(success(2))),
        })],
        fallback: Box::new(Decision::Unreachable),
    };
    assert!(decision_needs_stdlib(&nested));
    let guarded = Decision::Guard {
        arm_index: 0,
        bindings: vec![],
        success: Box::new(success(0)),
        failure: Box::new(nested),
    };
    assert!(decision_needs_stdlib(&guarded));
}

#[test]
fn reachable_arms_are_collected_once_in_walk_order() {
    let tree = Decision::Guard {
        arm_index: 2,
        bindings: vec![],
        success: Box::new(success(2)),
        failure: Box::new(Decision::Switch {
            path: AccessPath::root(),
            kind: SwitchKind::Value,
            shape: SwitchShape::Multi,
            branches: vec![branch("1", false, success(0)), branch("2", false, success(3))],
            fallback: Some(Box::new(Decision::Chain {
                tests: vec![test_of(success(0)), test_of(success(4))],
                fallback: Box::new(Decision::Unreachable),
            })),
        }),
    };
    let mut out = vec![3];
    collect_reachable_arms(&tree, &mut out);
    assert_eq!(out, vec![3, 2, 0, 4]);
    let mut empty = Vec::new();
    collect_reachable_arms(&Decision::Unreachable, &mut empty);
    assert!(empty.is_empty());
}

#[test]
fn bindings_hoist_only_when_all_binding_tests_agree() {
    let tests = vec![test_of(bound(0, &["x"])), test_of(success(1)), test_of(bound(2, &["x"])), test_of(bound(3, &["y"]))];
    assert!(bindings_are_hoistable(&tests, &[0, 1, 2]));
    assert!(!bindings_are_hoistable(&tests, &[0, 3]));
    assert!(!bindings_are_hoistable(&tests, &[0]));
    assert!(!bindings_are_hoistable(&tests, &[1, 1]));
    assert!(bindings_are_hoistable(&tests, &[1, 2]));
    let moved = vec![
        test_of(bound(0, &["x"])),
        test_of(Decision::Success {
            arm_index: 1,
            bindings: vec![PatternBinding {
                lisette_name: "x".to_string(),
                go_name: Some("x".to_string()),
                path: AccessPath { segments: vec![PathSegment::Field("V".to_string())] },
            }],
        }),
    ];
    assert!(!bindings_are_hoistable(&moved, &[0, 1]));
}

#[test]
fn equal_neighbouring_conditions_are_grouped() {
    let conditions = vec![
        Some("a".to_string()),
        Some("a".to_string()),
        None,
        Some("b".to_string()),
        Some("a".to_string()),
        Some(String::new()),
    ];
    let groups = group_chain_tests_by_condition(&conditions);
    assert_eq!(groups, vec![("a", vec![0, 1]), ("", vec![2]), ("b", vec![3]), ("a", vec![4]), ("", vec![5])]);
    assert!(group_chain_tests_by_condition(&[]).is_empty());
    let _ = Check::Or { alternatives: vec![] };
}
