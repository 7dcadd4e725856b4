use emit::plan::bodies::LoweredStatement;
use emit::plan::values::{
    render_unary, CaptureBoundary, EvaluationEffect, EvaluationFacts, GoExpression, OperandForm,
    SequencedValues, Stability, ValuePlan,
};

fn name(n: &str) -> GoExpression {
    GoExpression::name(n.to_string())
}

#[test]
fn expressions_render_as_go_text() {
    let call = GoExpression::call(
        GoExpression::selector(name("fmt"), "Println".to_string()),
        vec![GoExpression::literal("1".to_string()), name("x")],
    );
    assert_eq!(call.rendered(), "fmt.Println(1, x)");
    assert_eq!(GoExpression::receive(name("ch")).rendered(), "<-ch");
    assert_eq!(GoExpression::binary(name("a"), "+".to_string(), name("b")).rendered(), "a + b");
    assert_eq!(GoExpression::compact_binary(name("a"), "*".to_string(), name("b")).rendered(), "a*b");
    assert_eq!(GoExpression::index(name("xs"), GoExpression::literal("0".to_string())).rendered(), "xs[0]");
    let one = GoExpression::literal("1".to_string());
    let n = name("n");
    assert_eq!(GoExpression::slice(name("xs"), Some(&one), Some(&n), Some(&n)).rendered(), "xs[1:n:n]");
    assert_eq!(GoExpression::slice(name("xs"), None, None, None).rendered(), "xs[:]");
    assert_eq!(GoExpression::call(name("f"), vec![]).rendered(), "f()");
    assert_eq!(GoExpression::composite_literal("T{}".to_string(), false).rendered(), "T{}");
}

#[test]
fn deferred_evaluation_tracks_calls_and_marked_text() {
    assert!(!name("x").contains_deferred_evaluation());
    assert!(GoExpression::call(name("f"), vec![]).contains_deferred_evaluation());
    assert!(GoExpression::receive(name("ch")).contains_deferred_evaluation());
    assert!(!GoExpression::opaque("x".to_string()).contains_deferred_evaluation());
    assert!(GoExpression::opaque_with_deferred_evaluation("x".to_string(), true).contains_deferred_evaluation());
    let sum = GoExpression::binary(name("a"), "+".to_string(), GoExpression::call(name("g"), vec![]));
    assert!(sum.contains_deferred_evaluation());
    let f = GoExpression::call(name("f"), vec![]);
    assert!(GoExpression::slice(name("xs"), None, Some(&f), None).contains_deferred_evaluation());
}

#[test]
fn unary_minus_does_not_fuse_signs() {
    assert_eq!(render_unary("-", "-x"), "-(-x)");
    assert_eq!(render_unary("-", "x"), "-x");
    assert_eq!(render_unary("!", "-x"), "!-x");
}

#[test]
fn effects_combine_to_the_strongest() {
    let (pure, pure_call, effectful) = (EvaluationEffect::Pure, EvaluationEffect::PureCall, EvaluationEffect::EffectfulCall);
    assert_eq!(pure.combine(pure_call), pure_call);
    assert_eq!(effectful.combine(pure_call), effectful);
    assert_eq!(pure.combine(pure), pure);
    assert_eq!(pure_call.combine(effectful), effectful.combine(pure_call));
    assert!(!pure.has_call() && pure_call.has_call() && effectful.has_call());
    assert!(!pure_call.has_effectful_call() && effectful.has_effectful_call());
}

#[test]
fn stability_and_capture_boundaries() {
    assert!(Stability::Literal.is_literal() && !Stability::Literal.is_observable());
    assert!(Stability::Observable.is_observable() && !Stability::Observable.is_stable_across_calls());
    assert!(Stability::StableAcrossCalls.is_stable_across_calls() && Stability::StableAcrossCalls.is_observable());
    assert_eq!(CaptureBoundary::default(), CaptureBoundary::SiblingSequence);
    assert!(!CaptureBoundary::SiblingSequence.requires_value_capture(Stability::Observable));
    assert!(CaptureBoundary::DeferSite.requires_value_capture(Stability::Observable));
    assert!(!CaptureBoundary::TaskSite.requires_value_capture(Stability::Literal));
}

#[test]
fn evaluation_fact_constructors() {
    assert_eq!(
        EvaluationFacts::literal(),
        EvaluationFacts { form: OperandForm::Literal, stability: Stability::Literal, effect: EvaluationEffect::Pure }
    );
    assert_eq!(EvaluationFacts::name(true).stability, Stability::StableAcrossCalls);
    assert_eq!(EvaluationFacts::name(false).stability, Stability::Observable);
    assert_eq!(EvaluationFacts::value(EvaluationEffect::PureCall).form, OperandForm::Other);
    let call = EvaluationFacts::call(EvaluationEffect::EffectfulCall);
    assert_eq!(call.form, OperandForm::Call);
    assert_eq!(call.stability, Stability::StableAcrossCalls);
    assert_eq!(call.with_stability(Stability::Observable).stability, Stability::Observable);
    assert_eq!(
        EvaluationFacts::new(OperandForm::Name, Stability::Literal, EvaluationEffect::Pure).form,
        OperandForm::Name
    );
}

#[test]
fn value_plan_constructors() {
    let lit = ValuePlan::literal("42".to_string());
    assert_eq!(lit.rendered(), "42");
    assert_eq!(lit.evaluation, EvaluationFacts::literal());
    let n = ValuePlan::name(vec![], "x".to_string(), true);
    assert_eq!(n.evaluation.stability, Stability::StableAcrossCalls);
    let cap = ValuePlan::captured(vec![], "tmp_1".to_string());
    assert_eq!(cap.evaluation.stability, Stability::Literal);
    let obs = ValuePlan::observable_call(vec![], GoExpression::call(name("f"), vec![]), EvaluationEffect::EffectfulCall);
    assert_eq!(obs.evaluation.stability, Stability::Observable);
    assert_eq!(obs.evaluation.form, OperandForm::Call);
    let plain = ValuePlan::plain_call(vec![], GoExpression::call(name("f"), vec![]), EvaluationEffect::PureCall);
    assert_eq!(plain.evaluation.stability, Stability::StableAcrossCalls);
    let ev = ValuePlan::evaluated_literal(vec![LoweredStatement::RawGo("f()".to_string())], "1".to_string(), EvaluationEffect::EffectfulCall);
    assert_eq!(ev.evaluation.stability, Stability::Observable);
    assert_eq!(ev.setup.len(), 1);
    let id = ValuePlan::from_identifier_expression(GoExpression::call(name("f"), vec![]), false);
    assert_eq!(id.evaluation.form, OperandForm::Call);
    assert_eq!(id.evaluation.effect, EvaluationEffect::PureCall);
    let sel = ValuePlan::from_identifier_expression(GoExpression::selector(name("p"), "X".to_string()), true);
    assert_eq!(sel.evaluation.form, OperandForm::Other);
    assert_eq!(sel.evaluation.stability, Stability::StableAcrossCalls);
    assert!(ValuePlan::opaque(String::new()).is_empty());
    assert!(!ValuePlan::opaque("x".to_string()).is_empty());
    assert!(!ValuePlan::literal(String::new()).is_empty());
}

#[test]
fn value_plan_wrappers_adjust_facts() {
    let call = ValuePlan::plain_call(vec![], GoExpression::call(name("f"), vec![]), EvaluationEffect::PureCall);
    let paren = call.parenthesized();
    assert_eq!(paren.rendered(), "(f())");
    assert_eq!(paren.evaluation.form, OperandForm::Other);
    assert_eq!(paren.evaluation.stability, Stability::Observable);
    let stable_name = ValuePlan::name(vec![], "x".to_string(), true).parenthesized();
    assert_eq!(stable_name.evaluation.stability, Stability::StableAcrossCalls);

    let conv = ValuePlan::literal("1".to_string()).conversion("int64".to_string());
    assert_eq!(conv.rendered(), "int64(1)");
    assert_eq!(conv.evaluation.stability, Stability::Observable);
    let neg = ValuePlan::name(vec![], "x".to_string(), true).unary("-");
    assert_eq!(neg.rendered(), "-x");
    assert_eq!(neg.evaluation.stability, Stability::Observable);

    let mut pinned = ValuePlan::plain_call(vec![], GoExpression::call(name("f"), vec![]), EvaluationEffect::EffectfulCall);
    pinned.replace_with_pinned_name("tmp_2".to_string());
    assert_eq!(pinned.rendered(), "tmp_2");
    assert_eq!(pinned.evaluation.form, OperandForm::Name);
    assert_eq!(pinned.evaluation.effect, EvaluationEffect::Pure);

    let ctor = ValuePlan::plain_call(vec![], GoExpression::call(name("New"), vec![]), EvaluationEffect::Pure)
        .with_pure_constructor_evaluation();
    assert_eq!(ctor.evaluation.effect, EvaluationEffect::PureCall);
    assert_eq!(ctor.evaluation.stability, Stability::StableAcrossCalls);

    let mut lit = ValuePlan::literal("1".to_string());
    lit.make_observable_computed();
    assert_eq!(lit.evaluation.form, OperandForm::Other);
    assert_eq!(lit.evaluation.stability, Stability::Observable);
    let stable = ValuePlan::literal("1".to_string()).stable_across_calls_if(true);
    assert_eq!(stable.evaluation.stability, Stability::StableAcrossCalls);
    let (setup, text) = ValuePlan::name(vec![LoweredStatement::RawGo("x := 1".to_string())], "x".to_string(), false).into_parts();
    assert_eq!(setup.len(), 1);
    assert_eq!(text, "x");
}

#[test]
fn map_rendered_rebuilds_from_text() {
    let plan = ValuePlan::plain_call(vec![], GoExpression::call(name("f"), vec![]), EvaluationEffect::PureCall);
    let mapped = plan.map_rendered_as_computed(|setup, text, deferred| {
        assert!(deferred);
        (setup, GoExpression::opaque(format!("len({})", text)))
    });
    assert_eq!(mapped.rendered(), "len(f())");
    assert_eq!(mapped.evaluation.form, OperandForm::Other);
    assert_eq!(mapped.evaluation.stability, Stability::StableAcrossCalls);
}

#[test]
fn sequenced_values_render_in_order() {
    let seq = SequencedValues {
        setup: vec![],
        values: vec![name("a"), GoExpression::call(name("g"), vec![name("b")])],
        effect: EvaluationEffect::PureCall,
    };
    assert!(seq.contains_deferred_evaluation());
    let (setup, rendered) = seq.into_rendered();
    assert!(setup.is_empty());
    assert_eq!(rendered, vec!["a".to_string(), "g(b)".to_string()]);
}
