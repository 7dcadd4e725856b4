use emit::effects::EmitEffects;
use emit::patterns::decision_tree::{
    arm_is_interface_or_with_extras, build_chain, build_tree, classify_switch_shape,
    decision_is_exhaustive, expand_interface_or_checks, extract_root_assertion, paths_equal,
    pick_switch_kind, render_condition, tree_has_unguarded_terminal, try_build_switch,
    type_assertion_to_check, validate_switch_arms, AccessPath, ArmInfo, Check, ChainTest,
    Decision, PathSegment, PatternBinding, PatternCollector, PatternInfo, SwitchBranch,
    SwitchKind, SwitchShape, TypeAssertion,
};

fn path(segments: Vec<PathSegment>) -> AccessPath {
    AccessPath { segments }
}

fn field(name: &str) -> AccessPath {
    path(vec![PathSegment::Field(name.to_string())])
}

fn tag(p: AccessPath, constant: &str) -> Check {
    Check::EnumTag { path: p, tag_constant: constant.to_string(), needs_stdlib: false }
}

fn lit(p: AccessPath, value: &str) -> Check {
    Check::Literal { path: p, go_literal: value.to_string() }
}

fn type_assert(go_type: &str) -> Check {
    Check::TypeAssert { path: AccessPath::root(), go_type: go_type.to_string() }
}

fn arm(index: usize, checks: Vec<Check>) -> ArmInfo {
    ArmInfo { arm_index: index, root_assertion: None, checks, bindings: vec![], has_guard: false }
}

fn binding(name: &str, go: Option<&str>, p: AccessPath) -> PatternBinding {
    PatternBinding { lisette_name: name.to_string(), go_name: go.map(|g| g.to_string()), path: p }
}

#[test]
fn access_path_renders_fields_indices_and_slices() {
    let p = path(vec![
        PathSegment::Field("Value".to_string()),
        PathSegment::Index(2),
        PathSegment::SliceFrom(1),
    ]);
    assert_eq!(p.render("s"), "s.Value[2][1:]");
    assert_eq!(AccessPath::root().render("subject"), "subject");
}

#[test]
fn access_path_renders_derefs() {
    let tail = path(vec![PathSegment::Deref]);
    assert_eq!(tail.render("s"), "*s");
    assert_eq!(tail.render_composable("s"), "(*s)");
    let inner = path(vec![PathSegment::Deref, PathSegment::Field("Next".to_string())]);
    assert_eq!(inner.render("s"), "(*s).Next");
    assert_eq!(inner.render_composable("s"), "(*s).Next");
}

#[test]
fn access_path_renders_casts_and_assertions() {
    assert_eq!(path(vec![PathSegment::NewtypeCast("*Node".to_string())]).render("s"), "(*Node)(s)");
    assert_eq!(path(vec![PathSegment::NewtypeCast("MyInt".to_string())]).render("s"), "MyInt(s)");
    assert_eq!(
        path(vec![PathSegment::ArraySliceFrom { offset: 1, go_type: "[]int".to_string() }]).render("s"),
        "[]int(s[1:])"
    );
    assert_eq!(path(vec![PathSegment::AssertedAs("Shape".to_string())]).render("s"), "s.(Shape)");
}

#[test]
fn access_path_deferred_evaluation_and_root() {
    assert!(!path(vec![PathSegment::Field("A".to_string()), PathSegment::Index(0)]).contains_deferred_evaluation());
    assert!(path(vec![PathSegment::Deref]).contains_deferred_evaluation());
    assert!(path(vec![PathSegment::AssertedAs("T".to_string())]).contains_deferred_evaluation());
    let root = AccessPath::root();
    assert!(root.is_root());
    let pushed = root.push(PathSegment::Field("A".to_string()));
    assert!(!pushed.is_root());
    assert!(root.is_root());
    assert_eq!(pushed.render("s"), "s.A");
    assert!(paths_equal(&pushed, &field("A")));
    assert!(!paths_equal(&pushed, &field("B")));
}

#[test]
fn checks_render_and_negate() {
    let root = AccessPath::root;
    assert_eq!(tag(root(), "ColorRed").render("s"), "s.Tag == ColorRed");
    assert_eq!(tag(root(), "ColorRed").render_negated("s"), "s.Tag != ColorRed");
    assert_eq!(lit(root(), "true").render("s"), "s");
    assert_eq!(lit(root(), "true").render_negated("s"), "!s");
    assert_eq!(lit(root(), "false").render("s"), "!s");
    assert_eq!(lit(root(), "false").render_negated("s"), "s");
    assert_eq!(lit(field("N"), "3").render("s"), "s.N == 3");
    assert_eq!(lit(field("N"), "3").render_negated("s"), "s.N != 3");
    let eq = Check::SliceLenEq { path: root(), length: 2 };
    assert_eq!(eq.render("xs"), "len(xs) == 2");
    assert_eq!(eq.render_negated("xs"), "len(xs) != 2");
    let ge = Check::SliceLenGe { path: root(), min_length: 1 };
    assert_eq!(ge.render("xs"), "len(xs) >= 1");
    assert_eq!(ge.render_negated("xs"), "len(xs) < 1");
    assert_eq!(type_assert("int").render("v"), "func() bool { _, ok := v.(int); return ok }()");
    assert_eq!(type_assert("int").render_negated("v"), "!(func() bool { _, ok := v.(int); return ok }())");
}

#[test]
fn or_checks_render_with_parentheses() {
    let two = Check::Or { alternatives: vec![vec![lit(AccessPath::root(), "1")], vec![lit(AccessPath::root(), "2")]] };
    assert_eq!(two.render("s"), "(s == 1 || s == 2)");
    assert_eq!(two.render_negated("s"), "!((s == 1 || s == 2))");
    let one = Check::Or { alternatives: vec![vec![lit(AccessPath::root(), "1")]] };
    assert_eq!(one.render("s"), "s == 1");
    let conj = Check::Or {
        alternatives: vec![vec![lit(field("A"), "1"), lit(field("B"), "2")], vec![lit(field("A"), "3")]],
    };
    assert_eq!(conj.render("s"), "((s.A == 1 && s.B == 2) || s.A == 3)");
}

#[test]
fn check_accessors() {
    let t = tag(field("K"), "KindA");
    assert_eq!(t.as_enum_tag(), Some(("KindA", false)));
    assert_eq!(t.as_literal(), None);
    assert_eq!(t.path(), Some(&field("K")));
    let l = lit(AccessPath::root(), "7");
    assert_eq!(l.as_literal(), Some("7"));
    assert_eq!(l.as_enum_tag(), None);
    let or = Check::Or { alternatives: vec![] };
    assert_eq!(or.path(), None);
}

#[test]
fn render_condition_joins_checks() {
    assert_eq!(render_condition(&[], "s"), "true");
    let checks = vec![tag(AccessPath::root(), "OptionSome"), lit(field("Value"), "0")];
    assert_eq!(render_condition(&checks, "s"), "s.Tag == OptionSome && s.Value == 0");
}

#[test]
fn empty_and_catchall_trees() {
    assert!(matches!(build_tree(vec![]), Decision::Unreachable));
    let tree = build_tree(vec![arm(0, vec![]), arm(1, vec![lit(AccessPath::root(), "1")])]);
    assert!(matches!(tree, Decision::Success { arm_index: 0, .. }));
    assert!(decision_is_exhaustive(&tree));
}

#[test]
fn guarded_catchall_falls_through_to_the_rest() {
    let mut first = arm(0, vec![]);
    first.has_guard = true;
    first.bindings = vec![binding("x", Some("x"), AccessPath::root())];
    let tree = build_tree(vec![first, arm(1, vec![])]);
    match tree {
        Decision::Guard { arm_index, bindings, success, failure } => {
            assert_eq!(arm_index, 0);
            assert_eq!(bindings.len(), 1);
            assert!(matches!(*success, Decision::Success { arm_index: 0, ref bindings } if bindings.is_empty()));
            assert!(matches!(*failure, Decision::Success { arm_index: 1, .. }));
        }
        other => panic!("unexpected tree {:?}", other),
    }
}

#[test]
fn enum_tags_build_a_multi_switch() {
    let arms = vec![
        arm(0, vec![tag(AccessPath::root(), "ShapeCircle")]),
        arm(1, vec![tag(AccessPath::root(), "ShapeSquare")]),
        arm(2, vec![]),
    ];
    let tree = build_tree(arms);
    match &tree {
        Decision::Switch { path, kind, shape, branches, fallback } => {
            assert!(path.is_root());
            assert_eq!(*kind, SwitchKind::EnumTag);
            assert_eq!(*shape, SwitchShape::Multi);
            assert_eq!(branches.len(), 2);
            assert_eq!(branches[0].case_label, "ShapeCircle");
            assert_eq!(branches[1].case_label, "ShapeSquare");
            assert!(matches!(branches[0].decision, Decision::Success { arm_index: 0, .. }));
            assert!(matches!(fallback.as_deref(), Some(Decision::Success { arm_index: 2, .. })));
        }
        other => panic!("unexpected tree {:?}", other),
    }
    assert!(decision_is_exhaustive(&tree));
    assert!(tree_has_unguarded_terminal(&tree));
}

#[test]
fn boolean_literals_build_a_bool_switch() {
    let arms = vec![arm(0, vec![lit(AccessPath::root(), "false")]), arm(1, vec![lit(AccessPath::root(), "true")])];
    match build_tree(arms) {
        Decision::Switch { kind, shape, fallback, branches, .. } => {
            assert_eq!(kind, SwitchKind::Value);
            assert_eq!(shape, SwitchShape::Bool);
            assert!(fallback.is_none());
            assert_eq!(branches[0].case_label, "false");
        }
        other => panic!("unexpected tree {:?}", other),
    }
}

#[test]
fn same_label_arms_share_a_case_and_splice_the_fallback() {
    let arms = vec![
        arm(0, vec![tag(AccessPath::root(), "OptSome"), lit(field("Value"), "1")]),
        arm(1, vec![tag(AccessPath::root(), "OptSome")]),
        arm(2, vec![]),
    ];
    match build_tree(arms) {
        Decision::Switch { branches, fallback, shape, .. } => {
            assert_eq!(branches.len(), 1);
            assert_eq!(shape, SwitchShape::SingleArm);
            assert!(fallback.is_some());
            match &branches[0].decision {
                Decision::Switch { path, kind, shape, branches, fallback } => {
                    assert_eq!(*path, field("Value"));
                    assert_eq!(*kind, SwitchKind::Value);
                    assert_eq!(*shape, SwitchShape::SingleArm);
                    assert_eq!(branches[0].case_label, "1");
                    assert!(matches!(branches[0].decision, Decision::Success { arm_index: 0, .. }));
                    assert!(matches!(fallback.as_deref(), Some(Decision::Success { arm_index: 1, .. })));
                }
                other => panic!("unexpected case body {:?}", other),
            }
        }
        other => panic!("unexpected tree {:?}", other),
    }
}

#[test]
fn unswitchable_checks_build_a_chain() {
    let arms = vec![
        arm(0, vec![Check::SliceLenEq { path: AccessPath::root(), length: 0 }]),
        arm(1, vec![Check::SliceLenGe { path: AccessPath::root(), min_length: 1 }]),
    ];
    assert!(try_build_switch(&arms).is_none());
    let tree = build_tree(arms);
    match &tree {
        Decision::Chain { tests, fallback } => {
            assert_eq!(tests.len(), 2);
            assert!(matches!(**fallback, Decision::Unreachable));
        }
        other => panic!("unexpected tree {:?}", other),
    }
    assert!(decision_is_exhaustive(&tree));
    assert!(tree_has_unguarded_terminal(&tree));
}

#[test]
fn chain_stops_at_the_first_unguarded_catchall() {
    let mut root_asserted = arm(0, vec![]);
    root_asserted.root_assertion = Some(TypeAssertion { path: AccessPath::root(), go_types: vec!["int".to_string()] });
    let tree = build_chain(vec![root_asserted, arm(1, vec![]), arm(2, vec![])]);
    match tree {
        Decision::Chain { tests, fallback } => {
            assert_eq!(tests.len(), 1);
            assert_eq!(tests[0].checks, vec![type_assert("int")]);
            assert!(matches!(*fallback, Decision::Success { arm_index: 1, .. }));
        }
        other => panic!("unexpected tree {:?}", other),
    }
    assert!(matches!(build_chain(vec![arm(4, vec![])]), Decision::Success { arm_index: 4, .. }));
}

#[test]
fn guarded_switch_arms_are_refused_outside_type_switches() {
    let mut guarded = arm(0, vec![tag(AccessPath::root(), "A")]);
    guarded.has_guard = true;
    let arms = vec![guarded, arm(1, vec![tag(AccessPath::root(), "B")])];
    assert_eq!(validate_switch_arms(&arms, &SwitchKind::EnumTag, &AccessPath::root()), None);
    let plain = vec![arm(0, vec![tag(AccessPath::root(), "A")]), arm(1, vec![tag(field("X"), "B")])];
    assert_eq!(validate_switch_arms(&plain, &SwitchKind::EnumTag, &AccessPath::root()), None);
    let same = vec![arm(0, vec![tag(AccessPath::root(), "A")]), arm(1, vec![])];
    assert_eq!(validate_switch_arms(&same, &SwitchKind::EnumTag, &AccessPath::root()), Some(()));
}

#[test]
fn switch_kind_comes_from_the_first_check() {
    let mut asserted = arm(0, vec![]);
    asserted.root_assertion = Some(TypeAssertion { path: AccessPath::root(), go_types: vec!["string".to_string()] });
    assert!(matches!(pick_switch_kind(&asserted), Some((SwitchKind::TypeSwitch, _))));
    assert!(matches!(pick_switch_kind(&arm(0, vec![tag(field("F"), "A")])), Some((SwitchKind::EnumTag, ref p)) if *p == field("F")));
    assert!(matches!(pick_switch_kind(&arm(0, vec![lit(AccessPath::root(), "1")])), Some((SwitchKind::Value, _))));
    assert!(pick_switch_kind(&arm(0, vec![Check::SliceLenEq { path: AccessPath::root(), length: 1 }])).is_none());
    assert!(pick_switch_kind(&arm(0, vec![])).is_none());
}

fn branch(label: &str) -> SwitchBranch {
    SwitchBranch { case_label: label.to_string(), needs_stdlib: false, decision: Decision::Unreachable }
}

#[test]
fn switch_shapes() {
    let none = None;
    let some = Some(Box::new(Decision::Unreachable));
    assert_eq!(classify_switch_shape(&SwitchKind::TypeSwitch, &[branch("int")], &none), SwitchShape::TypeSwitch);
    assert_eq!(classify_switch_shape(&SwitchKind::Value, &[branch("true"), branch("false")], &none), SwitchShape::Bool);
    assert_eq!(classify_switch_shape(&SwitchKind::EnumTag, &[branch("true"), branch("false")], &none), SwitchShape::Binary);
    assert_eq!(classify_switch_shape(&SwitchKind::Value, &[branch("1"), branch("2")], &none), SwitchShape::Binary);
    assert_eq!(classify_switch_shape(&SwitchKind::Value, &[branch("1"), branch("2")], &some), SwitchShape::Multi);
    assert_eq!(classify_switch_shape(&SwitchKind::Value, &[branch("1")], &some), SwitchShape::SingleArm);
    assert_eq!(classify_switch_shape(&SwitchKind::Value, &[branch("1"), branch("2"), branch("3")], &none), SwitchShape::Multi);
}

#[test]
fn type_assertions_become_checks_again() {
    let single = TypeAssertion { path: AccessPath::root(), go_types: vec!["int".to_string()] };
    assert_eq!(type_assertion_to_check(single), type_assert("int"));
    let many = TypeAssertion { path: AccessPath::root(), go_types: vec!["int".to_string(), "string".to_string()] };
    assert_eq!(
        type_assertion_to_check(many),
        Check::Or { alternatives: vec![vec![type_assert("int")], vec![type_assert("string")]] }
    );
}

#[test]
fn root_assertions_are_lifted_out_of_checks() {
    let mut checks = vec![lit(field("A"), "1"), type_assert("int")];
    let lifted = extract_root_assertion(&mut checks);
    assert_eq!(lifted, Some(TypeAssertion { path: AccessPath::root(), go_types: vec!["int".to_string()] }));
    assert_eq!(checks, vec![lit(field("A"), "1")]);

    let mut or_checks = vec![Check::Or { alternatives: vec![vec![type_assert("A")], vec![type_assert("B")]] }];
    let lifted = extract_root_assertion(&mut or_checks);
    assert_eq!(lifted, Some(TypeAssertion { path: AccessPath::root(), go_types: vec!["A".to_string(), "B".to_string()] }));
    assert!(or_checks.is_empty());

    let mut nested = vec![Check::TypeAssert { path: field("X"), go_type: "int".to_string() }];
    assert_eq!(extract_root_assertion(&mut nested), None);
    assert_eq!(nested.len(), 1);
}

#[test]
fn interface_or_patterns_with_extras_expand_per_alternative() {
    let or = Check::Or {
        alternatives: vec![vec![type_assert("A"), lit(field("N"), "1")], vec![type_assert("B")]],
    };
    let wide = arm(3, vec![or]);
    assert!(arm_is_interface_or_with_extras(&wide));
    assert!(!arm_is_interface_or_with_extras(&arm(0, vec![lit(AccessPath::root(), "1")])));
    let expanded = expand_interface_or_checks(vec![arm(0, vec![lit(AccessPath::root(), "1")]), wide]);
    assert_eq!(expanded.len(), 3);
    assert_eq!(expanded[0].arm_index, 0);
    assert_eq!(expanded[1].arm_index, 3);
    assert_eq!(expanded[1].root_assertion, Some(TypeAssertion { path: AccessPath::root(), go_types: vec!["A".to_string()] }));
    assert_eq!(expanded[1].checks, vec![lit(field("N"), "1")]);
    assert_eq!(expanded[2].root_assertion, Some(TypeAssertion { path: AccessPath::root(), go_types: vec!["B".to_string()] }));
    assert!(expanded[2].checks.is_empty());
}

#[test]
fn unguarded_terminal_and_exhaustiveness() {
    let guard_only = Decision::Guard {
        arm_index: 0,
        bindings: vec![],
        success: Box::new(Decision::Success { arm_index: 0, bindings: vec![] }),
        failure: Box::new(Decision::Unreachable),
    };
    assert!(!tree_has_unguarded_terminal(&guard_only));
    assert!(!decision_is_exhaustive(&guard_only));
    let single_test_chain = Decision::Chain {
        tests: vec![ChainTest { checks: vec![], decision: Decision::Success { arm_index: 0, bindings: vec![] } }],
        fallback: Box::new(Decision::Unreachable),
    };
    assert!(!decision_is_exhaustive(&single_test_chain));
    assert!(tree_has_unguarded_terminal(&single_test_chain));
}

#[test]
fn pattern_info_and_collector() {
    let info = PatternInfo {
        root_assertion: None,
        checks: vec![],
        bindings: vec![binding("x", None, AccessPath::root())],
        effects: EmitEffects::default(),
    };
    assert!(!info.requires_asserted_subject());
    let used = PatternInfo {
        root_assertion: None,
        checks: vec![],
        bindings: vec![binding("x", Some("x_1"), AccessPath::root())],
        effects: EmitEffects::default(),
    };
    assert!(used.requires_asserted_subject());
    let checked = PatternInfo {
        root_assertion: None,
        checks: vec![lit(AccessPath::root(), "1")],
        bindings: vec![],
        effects: EmitEffects::default(),
    };
    assert!(checked.requires_asserted_subject());
    let collector = PatternCollector::new();
    assert!(collector.checks.is_empty() && collector.bindings.is_empty());
    assert!(!collector.effects.needs_stdlib && collector.effects.go_imports.is_empty());
}

#[test]
fn pushing_a_segment_renders_on_the_composable_form() {
    let deref = path(vec![PathSegment::Deref]);
    for (seg, suffix) in [
        (PathSegment::Field("X".to_string()), ".X"),
        (PathSegment::Index(3), "[3]"),
        (PathSegment::SliceFrom(2), "[2:]"),
    ] {
        let expected = format!("{}{}", deref.render_composable("s"), suffix);
        let seg_copy = match &seg {
            PathSegment::Field(f) => PathSegment::Field(f.clone()),
            PathSegment::Index(i) => PathSegment::Index(*i),
            PathSegment::SliceFrom(o) => PathSegment::SliceFrom(*o),
            _ => unreachable!(),
        };
        assert_eq!(deref.push(seg_copy).render("s"), expected);
        assert_eq!(field("A").push(seg).render("s"), format!("s.A{}", suffix));
    }
}

fn check_holds(c: &Check, tag: &str, len: usize) -> bool {
    match c {
        Check::EnumTag { tag_constant, .. } => tag_constant == tag,
        Check::Literal { go_literal, .. } => go_literal == tag,
        Check::SliceLenEq { length, .. } => len == *length,
        Check::SliceLenGe { min_length, .. } => len >= *min_length,
        _ => false,
    }
}

fn run(d: &Decision, tag: &str, len: usize, guard: &dyn Fn(usize) -> bool) -> Option<usize> {
    match d {
        Decision::Success { arm_index, .. } => Some(*arm_index),
        Decision::Guard { arm_index, success, failure, .. } => {
            if guard(*arm_index) { run(success, tag, len, guard) } else { run(failure, tag, len, guard) }
        }
        Decision::Switch { branches, fallback, .. } => match branches.iter().find(|b| b.case_label == tag) {
            Some(b) => run(&b.decision, tag, len, guard),
            None => fallback.as_ref().and_then(|f| run(f, tag, len, guard)),
        },
        Decision::Chain { tests, fallback } => match tests.iter().find(|t| t.checks.iter().all(|c| check_holds(c, tag, len))) {
            Some(t) => run(&t.decision, tag, len, guard),
            None => run(fallback, tag, len, guard),
        },
        Decision::Unreachable => None,
    }
}

fn in_order(arms: &[ArmInfo], tag: &str, len: usize, guard: &dyn Fn(usize) -> bool) -> Option<usize> {
    arms.iter()
        .find(|a| a.checks.iter().all(|c| check_holds(c, tag, len)) && (!a.has_guard || guard(a.arm_index)))
        .map(|a| a.arm_index)
}

fn copy_arm(a: &ArmInfo) -> ArmInfo {
    ArmInfo {
        arm_index: a.arm_index,
        root_assertion: None,
        checks: a.checks.iter().map(|c| c.copy()).collect(),
        bindings: vec![],
        has_guard: a.has_guard,
    }
}

#[test]
fn simple_arms_select_in_source_order() {
    let mut guarded = arm(1, vec![tag(AccessPath::root(), "B")]);
    guarded.has_guard = true;
    let mut guarded_len = arm(0, vec![Check::SliceLenEq { path: AccessPath::root(), length: 0 }]);
    guarded_len.has_guard = true;
    let mut last_guarded = arm(3, vec![]);
    last_guarded.has_guard = true;
    let cases: Vec<Vec<ArmInfo>> = vec![
        vec![arm(0, vec![tag(AccessPath::root(), "A")]), arm(1, vec![tag(AccessPath::root(), "B")]), arm(2, vec![tag(AccessPath::root(), "A")]), arm(3, vec![])],
        vec![arm(0, vec![tag(AccessPath::root(), "A")]), guarded, arm(2, vec![tag(AccessPath::root(), "B")])],
        vec![guarded_len, arm(1, vec![Check::SliceLenGe { path: AccessPath::root(), min_length: 1 }]), arm(2, vec![Check::SliceLenEq { path: AccessPath::root(), length: 0 }]), last_guarded],
        vec![arm(0, vec![lit(AccessPath::root(), "1")]), arm(1, vec![lit(AccessPath::root(), "2")])],
    ];
    for arms in &cases {
        let tree = build_tree(arms.iter().map(copy_arm).collect());
        for tag_value in ["A", "B", "C", "1", "2"] {
            for len in [0, 1, 2] {
                for guard_value in [true, false] {
                    let guard = move |_: usize| guard_value;
                    assert_eq!(run(&tree, tag_value, len, &guard), in_order(arms, tag_value, len, &guard));
                }
            }
        }
    }
}
