use emit::plan::bodies::{
    directed, ElseArm, IfPlan, LoopPlan, LoweredBlock, LoweredStatement, SelectArmPlan,
    SelectStatementPlan, WhileLetPlan,
};
use emit::plan::invariants::{validate, walk_block, walk_else, walk_if, walk_loop, walk_statement};
use emit::plan::placement::simple_assign;
use emit::plan::values::ValuePlan;
use emit::plan::bodies::AssignForm;

fn block(statements: Vec<LoweredStatement>) -> LoweredBlock {
    LoweredBlock { statements }
}

fn raw(t: &str) -> LoweredStatement {
    LoweredStatement::RawGo(t.to_string())
}

fn if_plan(cond: &str, then: Vec<LoweredStatement>, else_arm: ElseArm) -> IfPlan {
    IfPlan { condition_setup: vec![], condition: cond.to_string(), then_body: block(then), else_arm }
}

fn brk() -> LoweredStatement {
    LoweredStatement::Break { label: None }
}

#[test]
fn blocks_end_in_divergence_only_through_their_last_statement() {
    assert!(!block(vec![]).ends_with_diverge());
    assert!(block(vec![]).is_empty());
    assert!(block(vec![raw("f()"), brk()]).ends_with_diverge());
    assert!(!block(vec![brk(), raw("f()")]).ends_with_diverge());
    assert!(block(vec![LoweredStatement::UnreachablePanic]).ends_with_diverge());
    assert!(block(vec![LoweredStatement::DivergingRawGo("panic(x)".to_string())]).ends_with_diverge());
    assert!(!block(vec![raw("f()")]).is_empty());
}

#[test]
fn if_diverges_only_when_every_branch_does() {
    let no_else = if_plan("c", vec![brk()], ElseArm::NoElse);
    assert!(!no_else.ends_with_diverge());
    let both = if_plan("c", vec![brk()], ElseArm::Else { body: block(vec![LoweredStatement::Continue { label: None }]), inline: false });
    assert!(both.ends_with_diverge());
    let chained = if_plan("c", vec![brk()], ElseArm::ElseIf(Box::new(if_plan(
        "d",
        vec![brk()],
        ElseArm::Else { body: block(vec![brk()]), inline: true },
    ))));
    assert!(chained.ends_with_diverge());
    let mut with_setup = if_plan("d", vec![brk()], ElseArm::Else { body: block(vec![brk()]), inline: false });
    with_setup.condition_setup = vec![raw("x := g()")];
    let guarded = if_plan("c", vec![brk()], ElseArm::ElseIf(Box::new(with_setup)));
    assert!(!guarded.ends_with_diverge());
    assert!(LoweredStatement::If(both).ends_with_diverge());
}

#[test]
fn while_let_never_blocks_fallthrough() {
    let loop_body = LoweredStatement::WhileLet(WhileLetPlan { body: block(vec![brk()]) });
    assert!(loop_body.ends_with_diverge());
    assert!(!loop_body.blocks_fallthrough());
    let directed_break = directed("//go:directive".to_string(), brk());
    assert!(directed_break.ends_with_diverge());
    assert!(directed_break.blocks_fallthrough());
    assert!(matches!(directed(String::new(), brk()), LoweredStatement::Break { .. }));
    assert!(matches!(directed("//x".to_string(), brk()), LoweredStatement::Directed { .. }));
}

#[test]
fn select_diverges_when_all_arms_do() {
    let arms = vec![
        SelectArmPlan::Receive { receive_vars: None, channel: "ch".to_string(), body: block(vec![brk()]) },
        SelectArmPlan::Default { body: block(vec![LoweredStatement::UnreachablePanic]) },
    ];
    let select = SelectStatementPlan { setup: vec![], retry_loop: false, arms, postlude: vec![] };
    assert!(select.all_arms_diverge());
    assert!(select.ends_with_diverge());
    assert!(matches!(select.arms[0].body().statements[0], LoweredStatement::Break { .. }));
    let empty = SelectStatementPlan { setup: vec![], retry_loop: true, arms: vec![], postlude: vec![] };
    assert!(!empty.all_arms_diverge());
    assert!(!empty.ends_with_diverge());
    let postlude = SelectStatementPlan {
        setup: vec![],
        retry_loop: false,
        arms: vec![SelectArmPlan::Send { operation: "ch <- 1".to_string(), body: block(vec![]) }],
        postlude: vec![LoweredStatement::UnreachablePanic],
    };
    assert!(!postlude.all_arms_diverge());
    assert!(postlude.ends_with_diverge());
}

#[test]
fn validate_reports_empty_conditions_and_headers_with_paths() {
    let good = block(vec![LoweredStatement::If(if_plan("x", vec![raw("f()")], ElseArm::NoElse))]);
    assert!(validate(&good).is_empty());
    let bad_loop = LoweredStatement::Loop(LoopPlan {
        prologue: vec![],
        label: None,
        header: String::new(),
        body: block(vec![LoweredStatement::If(if_plan("", vec![], ElseArm::NoElse))]),
    });
    let bad = block(vec![
        raw("a"),
        LoweredStatement::If(if_plan("", vec![bad_loop], ElseArm::ElseIf(Box::new(if_plan("", vec![], ElseArm::NoElse))))),
    ]);
    assert_eq!(
        validate(&bad),
        vec![
            "block.statements[1]/If: empty condition".to_string(),
            "block.statements[1]/If.then.statements[0]/Loop: empty header".to_string(),
            "block.statements[1]/If.then.statements[0]/Loop.body.statements[0]/If: empty condition".to_string(),
            "block.statements[1]/If.else: empty condition".to_string(),
        ]
    );
}

#[test]
fn walkers_append_to_existing_issues() {
    let mut issues = vec!["earlier".to_string()];
    walk_if(&if_plan("", vec![], ElseArm::NoElse), &mut issues, "p");
    walk_loop(&LoopPlan { prologue: vec![], label: None, header: String::new(), body: block(vec![]) }, &mut issues, "q");
    walk_else(&ElseArm::Else { body: block(vec![LoweredStatement::If(if_plan("", vec![], ElseArm::NoElse))]), inline: false }, &mut issues, "r");
    walk_statement(&LoweredStatement::Block(block(vec![LoweredStatement::If(if_plan("", vec![], ElseArm::NoElse))])), &mut issues, "s");
    walk_block(&block(vec![raw("x")]), &mut issues, "t");
    assert_eq!(
        issues,
        vec![
            "earlier".to_string(),
            "p: empty condition".to_string(),
            "q: empty header".to_string(),
            "r.statements[0]/If: empty condition".to_string(),
            "s/Block.statements[0]/If: empty condition".to_string(),
        ]
    );
}

#[test]
fn simple_assign_builds_a_plain_assignment() {
    let statement = simple_assign("out", ValuePlan::literal("1".to_string()));
    match statement {
        LoweredStatement::Assign(plan) => match plan.form {
            AssignForm::Simple { target_capture, target_str, value } => {
                assert!(target_capture.is_empty());
                assert_eq!(target_str, "out");
                assert_eq!(value.rendered(), "1");
            }
            _ => panic!("expected a simple assignment"),
        },
        _ => panic!("expected an assignment"),
    }
}
