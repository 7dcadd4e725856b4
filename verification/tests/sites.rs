use emit::patterns::binding_emit::compose_refutable_condition;
use emit::patterns::decision_tree::{AccessPath, Check, PathSegment};
use emit::patterns::emit_plan::{is_empty_emit_decision, EmitDecision};
use emit::patterns::matching::is_plain_go_identifier;
use emit::patterns::sites::{assemble_if_else_chain, ResolvedSubject};
use emit::plan::bodies::{ElseArm, LoweredBlock, LoweredStatement};

#[test]
fn composite_subject_declares_its_variable_on_demand() {
    let subject = ResolvedSubject::Composite { var: "subject_1".to_string(), expression: "f(x)".to_string() };
    assert_eq!(subject.var(), "subject_1");
    let mut out = String::from("// head\n");
    subject.emit_declaration(&mut out, true);
    assert_eq!(out, "// head\nsubject_1 := f(x)\n");
    let unused = ResolvedSubject::Composite { var: "subject_2".to_string(), expression: "g()".to_string() };
    let mut out = String::new();
    unused.emit_declaration(&mut out, false);
    assert_eq!(out, "_ = g()\n");
}

#[test]
fn existing_subject_declares_nothing() {
    let subject = ResolvedSubject::Existing { var: "v".to_string() };
    assert_eq!(subject.var(), "v");
    let mut out = String::from("x");
    subject.emit_declaration(&mut out, true);
    assert_eq!(out, "x");
}

fn block(text: &str) -> LoweredBlock {
    LoweredBlock { statements: vec![LoweredStatement::RawGo(text.to_string())] }
}

#[test]
fn if_else_chain_is_folded_from_pieces() {
    let statement = assemble_if_else_chain(
        vec![("a > 0".to_string(), block("pos")), ("a < 0".to_string(), block("neg"))],
        block("zero"),
    );
    let LoweredStatement::If(plan) = statement else { panic!("expected if") };
    assert_eq!(plan.condition, "a > 0");
    let ElseArm::ElseIf(second) = plan.else_arm else { panic!("expected else if") };
    assert_eq!(second.condition, "a < 0");
    let ElseArm::Else { body, inline } = second.else_arm else { panic!("expected else") };
    assert!(!inline);
    assert!(matches!(body.statements[0], LoweredStatement::RawGo(ref t) if t == "zero"));
    let single = assemble_if_else_chain(vec![("ok".to_string(), block("yes"))], block("no"));
    let LoweredStatement::If(plan) = single else { panic!("expected if") };
    assert!(matches!(plan.else_arm, ElseArm::Else { .. }));
}

#[test]
fn plain_go_identifiers() {
    assert!(is_plain_go_identifier("foo_1"));
    assert!(is_plain_go_identifier("_x"));
    assert!(is_plain_go_identifier("X"));
    assert!(!is_plain_go_identifier("1a"));
    assert!(!is_plain_go_identifier(""));
    assert!(!is_plain_go_identifier("a.b"));
    assert!(!is_plain_go_identifier("f(x)"));
    assert!(!is_plain_go_identifier("é"));
}

#[test]
fn refutable_conditions_combine_ok_and_checks() {
    let check = Check::Literal { path: AccessPath { segments: vec![PathSegment::Field("N".to_string())] }, go_literal: "2".to_string() };
    assert_eq!(compose_refutable_condition(None, &[], "s"), "true");
    assert_eq!(compose_refutable_condition(Some("ok"), &[], "s"), "ok");
    assert_eq!(compose_refutable_condition(None, &[check], "s"), "s.N == 2");
    let check = Check::Literal { path: AccessPath { segments: vec![PathSegment::Field("N".to_string())] }, go_literal: "2".to_string() };
    assert_eq!(compose_refutable_condition(Some("ok_1"), &[check], "s"), "ok_1 && s.N == 2");
}

#[test]
fn empty_emit_decisions() {
    let quiet = EmitDecision::Success { arm_index: 0, bindings: vec![], leaf_emits_no_output: true };
    let loud = EmitDecision::Success { arm_index: 0, bindings: vec![], leaf_emits_no_output: false };
    assert!(is_empty_emit_decision(&quiet));
    assert!(!is_empty_emit_decision(&loud));
    assert!(!is_empty_emit_decision(&EmitDecision::Unreachable));
}
