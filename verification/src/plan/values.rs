//! Structured Go value expressions and the evaluation facts the planner
//! tracks for each planned value (its operand form, stability and effect).
use vstd::prelude::*;

use crate::plan::bodies::LoweredStatement;
use crate::text::{join, join_strings, push_char, starts_with_char, str_eq, strings_view};

verus! {

/// A Go identifier, already resolved.
#[derive(Clone, Debug, PartialEq, Eq)]
pub struct GoIdentifier(pub String);

/// A Go expression, kept structured until rendered.
#[derive(Debug, PartialEq, Eq)]
pub enum GoExpression {
    Name(GoIdentifier),
    Literal(String),
    Call { callee: Box<GoExpression>, arguments: Vec<GoExpression> },
    Receive(Box<GoExpression>),
    Parenthesized(Box<GoExpression>),
    Unary { operator: String, inner: Box<GoExpression> },
    Binary {
        left: Box<GoExpression>,
        operator: String,
        right: Box<GoExpression>,
        spaces_around_operator: bool,
    },
    Selector { base: Box<GoExpression>, field: GoIdentifier },
    Index { base: Box<GoExpression>, index: Box<GoExpression> },
    Conversion { go_type: String, value: Box<GoExpression> },
    CompositeLiteral { rendered: String, contains_deferred_evaluation: bool },
    OpaqueRaw { rendered: String, contains_deferred_evaluation: bool },
}

/// `op` applied to `value`; a negation of a value that already starts with
/// `-` is parenthesized so the two signs do not fuse into `--`.
pub open spec fn unary_text(op: Seq<char>, value: Seq<char>) -> Seq<char> {
    if op == seq!['-'] && value.len() > 0 && value[0] == '-' {
        seq!['-', '('] + value + seq![')']
    } else {
        op + value
    }
}

/// The Go source text of an expression.
pub open spec fn go_text(e: GoExpression) -> Seq<char>
    decreases e, 0nat,
{
    match e {
        GoExpression::Name(id) => id.0@,
        GoExpression::Literal(r) => r@,
        GoExpression::Call { callee, arguments } => go_text(*callee) + seq!['('] + join(
            arguments_text(arguments@),
            seq![',', ' '],
        ) + seq![')'],
        GoExpression::Receive(ch) => seq!['<', '-'] + go_text(*ch),
        GoExpression::Parenthesized(inner) => seq!['('] + go_text(*inner) + seq![')'],
        GoExpression::Unary { operator, inner } => unary_text(operator@, go_text(*inner)),
        GoExpression::Binary { left, operator, right, spaces_around_operator } => {
            let sep = if spaces_around_operator { seq![' '] } else { Seq::empty() };
            go_text(*left) + sep + operator@ + sep + go_text(*right)
        },
        GoExpression::Selector { base, field } => go_text(*base) + seq!['.'] + field.0@,
        GoExpression::Index { base, index } => go_text(*base) + seq!['['] + go_text(*index) + seq![']'],
        GoExpression::CompositeLiteral { rendered, .. } => rendered@,
        GoExpression::OpaqueRaw { rendered, .. } => rendered@,
        GoExpression::Conversion { go_type, value } => go_type@ + seq!['('] + go_text(*value) + seq![')'],
    }
}

/// The text of each call argument.
pub open spec fn arguments_text(args: Seq<GoExpression>) -> Seq<Seq<char>>
    decreases args, 0nat,
{
    if args.len() == 0 {
        Seq::empty()
    } else {
        arguments_text(args.drop_last()).push(go_text(args.last()))
    }
}

pub proof fn lemma_arguments_text(args: Seq<GoExpression>)
    ensures
        arguments_text(args).len() == args.len(),
        forall|i: int| 0 <= i < args.len() ==> #[trigger] arguments_text(args)[i] == go_text(args[i]),
    decreases args.len(),
{
    if args.len() > 0 {
        lemma_arguments_text(args.drop_last());
    }
}

/// Whether evaluating the expression may run code whose timing matters
/// (calls, receives, conversions, or opaque text marked as such).
pub open spec fn defers(e: GoExpression) -> bool
    decreases e,
{
    match e {
        GoExpression::Name(_) | GoExpression::Literal(_) => false,
        GoExpression::Call { .. } | GoExpression::Receive(_) => true,
        GoExpression::Parenthesized(_) | GoExpression::Conversion { .. } => true,
        GoExpression::Unary { inner, .. } => defers(*inner),
        GoExpression::Binary { left, right, .. } => defers(*left) || defers(*right),
        GoExpression::Selector { base, .. } => defers(*base),
        GoExpression::Index { base, index } => defers(*base) || defers(*index),
        GoExpression::CompositeLiteral { contains_deferred_evaluation, .. } => contains_deferred_evaluation,
        GoExpression::OpaqueRaw { contains_deferred_evaluation, .. } => contains_deferred_evaluation,
    }
}

/// Renders `op` applied to `value`.
pub fn render_unary(op: &str, value: &str) -> (r: String)
    ensures
        r@ == unary_text(op@, value@),
{
    proof {
        reveal_strlit("-");
        assert("-"@ =~= seq!['-']);
    }
    let mut s = String::new();
    if str_eq(op, "-") && starts_with_char(value, '-') {
        push_char(&mut s, '-');
        push_char(&mut s, '(');
        s.append(value);
        push_char(&mut s, ')');
    } else {
        s.append(op);
        s.append(value);
    }
    s
}

impl GoExpression {
    pub fn name(value: String) -> (r: Self)
        ensures
            r == GoExpression::Name(GoIdentifier(value)),
    {
        GoExpression::Name(GoIdentifier(value))
    }

    pub fn opaque(rendered: String) -> (r: Self)
        ensures
            r == (GoExpression::OpaqueRaw { rendered, contains_deferred_evaluation: false }),
    {
        Self::opaque_with_deferred_evaluation(rendered, false)
    }

    pub fn opaque_with_deferred_evaluation(rendered: String, contains_deferred_evaluation: bool) -> (r: Self)
        ensures
            r == (GoExpression::OpaqueRaw { rendered, contains_deferred_evaluation }),
    {
        GoExpression::OpaqueRaw { rendered, contains_deferred_evaluation }
    }

    pub fn literal(rendered: String) -> (r: Self)
        ensures
            r == GoExpression::Literal(rendered),
    {
        GoExpression::Literal(rendered)
    }

    pub fn call(callee: GoExpression, arguments: Vec<GoExpression>) -> (r: Self)
        ensures
            r == (GoExpression::Call { callee: Box::new(callee), arguments }),
    {
        GoExpression::Call { callee: Box::new(callee), arguments }
    }

    pub fn receive(channel: GoExpression) -> (r: Self)
        ensures
            r == GoExpression::Receive(Box::new(channel)),
    {
        GoExpression::Receive(Box::new(channel))
    }

    /// `left op right` with spaces around the operator.
    pub fn binary(left: GoExpression, operator: String, right: GoExpression) -> (r: Self)
        ensures
            r == (GoExpression::Binary {
                left: Box::new(left),
                operator,
                right: Box::new(right),
                spaces_around_operator: true,
            }),
    {
        GoExpression::Binary {
            left: Box::new(left),
            operator,
            right: Box::new(right),
            spaces_around_operator: true,
        }
    }

    /// `left op right` with no spaces around the operator.
    pub fn compact_binary(left: GoExpression, operator: String, right: GoExpression) -> (r: Self)
        ensures
            r == (GoExpression::Binary {
                left: Box::new(left),
                operator,
                right: Box::new(right),
                spaces_around_operator: false,
            }),
    {
        GoExpression::Binary {
            left: Box::new(left),
            operator,
            right: Box::new(right),
            spaces_around_operator: false,
        }
    }

    pub fn selector(base: GoExpression, field: String) -> (r: Self)
        ensures
            r == (GoExpression::Selector { base: Box::new(base), field: GoIdentifier(field) }),
    {
        GoExpression::Selector { base: Box::new(base), field: GoIdentifier(field) }
    }

    pub fn index(base: GoExpression, index: GoExpression) -> (r: Self)
        ensures
            r == (GoExpression::Index { base: Box::new(base), index: Box::new(index) }),
    {
        GoExpression::Index { base: Box::new(base), index: Box::new(index) }
    }

    /// `base[start:end]`, or `base[start:end:capacity]`; missing bounds render empty.
    pub fn slice(
        base: GoExpression,
        start: Option<&GoExpression>,
        end: Option<&GoExpression>,
        capacity: Option<&GoExpression>,
    ) -> (r: Self)
        ensures
            match r {
                GoExpression::Index { base: b, index } => *b == base && match *index {
                    GoExpression::OpaqueRaw { rendered, contains_deferred_evaluation } => rendered@
                        == slice_range_text(start, end, capacity) && contains_deferred_evaluation == (
                    opt_defers(start) || opt_defers(end) || opt_defers(capacity)),
                    _ => false,
                },
                _ => false,
            },
    {
        let mut range = String::new();
        match start {
            Some(s) => range.append(s.rendered().as_str()),
            None => {},
        }
        push_char(&mut range, ':');
        match end {
            Some(e) => range.append(e.rendered().as_str()),
            None => {},
        }
        if let Some(capacity) = capacity {
            push_char(&mut range, ':');
            range.append(capacity.rendered().as_str());
        }
        let mut deferred = false;
        if let Some(s) = start {
            deferred = deferred || s.contains_deferred_evaluation();
        }
        if let Some(e) = end {
            deferred = deferred || e.contains_deferred_evaluation();
        }
        if let Some(c) = capacity {
            deferred = deferred || c.contains_deferred_evaluation();
        }
        Self::index(base, Self::opaque_with_deferred_evaluation(range, deferred))
    }

    pub fn composite_literal(rendered: String, contains_deferred_evaluation: bool) -> (r: Self)
        ensures
            r == (GoExpression::CompositeLiteral { rendered, contains_deferred_evaluation }),
    {
        GoExpression::CompositeLiteral { rendered, contains_deferred_evaluation }
    }

    /// The Go source text of this expression.
    pub fn rendered(&self) -> (r: String)
        ensures
            r@ == go_text(*self),
        decreases self,
    {
        match self {
            GoExpression::Name(identifier) => identifier.0.clone(),
            GoExpression::Literal(rendered) => rendered.clone(),
            GoExpression::Call { callee, arguments } => {
                let mut parts: Vec<String> = Vec::new();
                let mut i: usize = 0;
                while i < arguments.len()
                    invariant
                        i <= arguments@.len(),
                        *self is Call,
                        *arguments == self->arguments,
                        strings_view(parts@) =~= arguments_text(arguments@.subrange(0, i as int)),
                    decreases arguments.len() - i,
                {
                    proof {
                        assert(decreases_to!(*self => self->arguments));
                        vstd::std_specs::vec::axiom_vec_index_decreases(self->arguments, i as int);
                    }
                    let t = arguments[i].rendered();
                    proof {
                        assert(arguments@.subrange(0, i + 1).drop_last() =~= arguments@.subrange(0, i as int));
                    }
                    parts.push(t);
                    i += 1;
                }
                proof {
                    assert(arguments@.subrange(0, i as int) =~= arguments@);
                    reveal_strlit(", ");
                    assert(", "@ =~= seq![',', ' ']);
                }
                let mut s = callee.rendered();
                push_char(&mut s, '(');
                s.append(join_strings(&parts, ", ").as_str());
                push_char(&mut s, ')');
                s
            },
            GoExpression::Receive(channel) => {
                let mut s = String::new();
                push_char(&mut s, '<');
                push_char(&mut s, '-');
                s.append(channel.rendered().as_str());
                s
            },
            GoExpression::Parenthesized(inner) => {
                let mut s = String::new();
                push_char(&mut s, '(');
                s.append(inner.rendered().as_str());
                push_char(&mut s, ')');
                s
            },
            GoExpression::Unary { operator, inner } => {
                let v = inner.rendered();
                render_unary(operator.as_str(), v.as_str())
            },
            GoExpression::Binary { left, operator, right, spaces_around_operator } => {
                let mut s = left.rendered();
                if *spaces_around_operator {
                    push_char(&mut s, ' ');
                }
                s.append(operator.as_str());
                if *spaces_around_operator {
                    push_char(&mut s, ' ');
                }
                s.append(right.rendered().as_str());
                proof {
                    let sep: Seq<char> = if *spaces_around_operator { seq![' '] } else { Seq::empty() };
                    assert(s@ =~= go_text(**left) + sep + operator@ + sep + go_text(**right));
                }
                s
            },
            GoExpression::Selector { base, field } => {
                let mut s = base.rendered();
                push_char(&mut s, '.');
                s.append(field.0.as_str());
                s
            },
            GoExpression::Index { base, index } => {
                let mut s = base.rendered();
                push_char(&mut s, '[');
                s.append(index.rendered().as_str());
                push_char(&mut s, ']');
                s
            },
            GoExpression::CompositeLiteral { rendered, .. } => rendered.clone(),
            GoExpression::OpaqueRaw { rendered, .. } => rendered.clone(),
            GoExpression::Conversion { go_type, value } => {
                let mut s = go_type.clone();
                push_char(&mut s, '(');
                s.append(value.rendered().as_str());
                push_char(&mut s, ')');
                s
            },
        }
    }

    /// Whether evaluating this expression may run timing-sensitive code.
    pub fn contains_deferred_evaluation(&self) -> (r: bool)
        ensures
            r == defers(*self),
        decreases self,
    {
        match self {
            GoExpression::Name(_) | GoExpression::Literal(_) => false,
            GoExpression::Call { .. } | GoExpression::Receive(_) => true,
            GoExpression::Parenthesized(_) | GoExpression::Conversion { .. } => true,
            GoExpression::Unary { inner, .. } => inner.contains_deferred_evaluation(),
            GoExpression::Binary { left, right, .. } => left.contains_deferred_evaluation()
                || right.contains_deferred_evaluation(),
            GoExpression::Selector { base, .. } => base.contains_deferred_evaluation(),
            GoExpression::Index { base, index } => base.contains_deferred_evaluation()
                || index.contains_deferred_evaluation(),
            GoExpression::CompositeLiteral { contains_deferred_evaluation, .. } => *contains_deferred_evaluation,
            GoExpression::OpaqueRaw { contains_deferred_evaluation, .. } => *contains_deferred_evaluation,
        }
    }
}

/// The text of an optional bound.
pub open spec fn opt_text(e: Option<&GoExpression>) -> Seq<char> {
    match e {
        Some(x) => go_text(*x),
        None => Seq::empty(),
    }
}

/// Whether an optional bound defers evaluation.
pub open spec fn opt_defers(e: Option<&GoExpression>) -> bool {
    match e {
        Some(x) => defers(*x),
        None => false,
    }
}

/// The `start:end[:capacity]` text of a slice expression.
pub open spec fn slice_range_text(
    start: Option<&GoExpression>,
    end: Option<&GoExpression>,
    capacity: Option<&GoExpression>,
) -> Seq<char> {
    opt_text(start) + seq![':'] + opt_text(end) + match capacity {
        Some(c) => seq![':'] + go_text(*c),
        None => Seq::empty(),
    }
}


/// The syntactic form of a planned operand.
#[derive(Debug, Clone, Copy, PartialEq, Eq, Structural)]
pub enum OperandForm {
    Literal,
    Name,
    Call,
    Other,
}

/// Whether a value can change between its evaluation and its use.
#[derive(Debug, Clone, Copy, PartialEq, Eq, Structural)]
pub enum Stability {
    Literal,
    Observable,
    StableAcrossCalls,
}

impl Stability {
    pub fn is_literal(self) -> (r: bool)
        ensures
            r == (self == Stability::Literal),
    {
        matches!(self, Stability::Literal)
    }

    pub fn is_observable(self) -> (r: bool)
        ensures
            r == (self != Stability::Literal),
    {
        !self.is_literal()
    }

    pub fn is_stable_across_calls(self) -> (r: bool)
        ensures
            r == (self == Stability::StableAcrossCalls),
    {
        matches!(self, Stability::StableAcrossCalls)
    }
}

/// What evaluating a value may do, ordered from least to most effect.
#[derive(Debug, Clone, Copy, PartialEq, Eq, Structural)]
pub enum EvaluationEffect {
    Pure,
    PureCall,
    EffectfulCall,
}

/// The position of an effect in the order `Pure < PureCall < EffectfulCall`.
pub open spec fn effect_rank(e: EvaluationEffect) -> nat {
    match e {
        EvaluationEffect::Pure => 0,
        EvaluationEffect::PureCall => 1,
        EvaluationEffect::EffectfulCall => 2,
    }
}

/// The stronger of two effects.
pub open spec fn effect_max(a: EvaluationEffect, b: EvaluationEffect) -> EvaluationEffect {
    if effect_rank(a) >= effect_rank(b) {
        a
    } else {
        b
    }
}

impl EvaluationEffect {
    /// The stronger of the two effects.
    pub fn combine(self, other: Self) -> (r: Self)
        ensures
            r == effect_max(self, other),
    {
        let a: u8 = match self {
            EvaluationEffect::Pure => 0,
            EvaluationEffect::PureCall => 1,
            EvaluationEffect::EffectfulCall => 2,
        };
        let b: u8 = match other {
            EvaluationEffect::Pure => 0,
            EvaluationEffect::PureCall => 1,
            EvaluationEffect::EffectfulCall => 2,
        };
        if a >= b {
            self
        } else {
            other
        }
    }

    pub fn has_call(self) -> (r: bool)
        ensures
            r == (self != EvaluationEffect::Pure),
    {
        !matches!(self, EvaluationEffect::Pure)
    }

    pub fn has_effectful_call(self) -> (r: bool)
        ensures
            r == (self == EvaluationEffect::EffectfulCall),
    {
        matches!(self, EvaluationEffect::EffectfulCall)
    }
}

/// Combining effects is commutative, associative and idempotent, with `Pure`
/// as identity: the effect of a sequence of values does not depend on how
/// their effects are grouped or ordered.
pub proof fn law_combine_is_a_join(a: EvaluationEffect, b: EvaluationEffect, c: EvaluationEffect)
    ensures
        effect_max(a, b) == effect_max(b, a),
        effect_max(effect_max(a, b), c) == effect_max(a, effect_max(b, c)),
        effect_max(a, a) == a,
        effect_max(EvaluationEffect::Pure, a) == a,
        effect_rank(effect_max(a, b)) >= effect_rank(a),
{
}

/// The boundary across which a value is used after its evaluation.
#[derive(Debug, Clone, Copy, PartialEq, Eq, Structural)]
pub enum CaptureBoundary {
    SiblingSequence,
    DeferSite,
    TaskSite,
    LoopLifetime,
    AssignmentRightHandSide,
}

impl Default for CaptureBoundary {
    fn default() -> (r: Self)
        ensures
            r == CaptureBoundary::SiblingSequence,
    {
        CaptureBoundary::SiblingSequence
    }
}

impl CaptureBoundary {
    /// A value must be captured into a temp when it can change and is used
    /// across any boundary other than its sibling sequence.
    pub fn requires_value_capture(self, stability: Stability) -> (r: bool)
        ensures
            r == (self != CaptureBoundary::SiblingSequence && stability != Stability::Literal),
    {
        !matches!(self, CaptureBoundary::SiblingSequence) && stability.is_observable()
    }
}

/// What the planner knows about evaluating a value.
#[derive(Debug, Clone, Copy, PartialEq, Eq, Structural)]
pub struct EvaluationFacts {
    pub form: OperandForm,
    pub stability: Stability,
    pub effect: EvaluationEffect,
}

impl EvaluationFacts {
    pub fn new(form: OperandForm, stability: Stability, effect: EvaluationEffect) -> (r: Self)
        ensures
            r == (EvaluationFacts { form, stability, effect }),
    {
        EvaluationFacts { form, stability, effect }
    }

    pub fn literal() -> (r: Self)
        ensures
            r == (EvaluationFacts {
                form: OperandForm::Literal,
                stability: Stability::Literal,
                effect: EvaluationEffect::Pure,
            }),
    {
        Self::new(OperandForm::Literal, Stability::Literal, EvaluationEffect::Pure)
    }

    pub fn name(stable_across_calls: bool) -> (r: Self)
        ensures
            r == (EvaluationFacts {
                form: OperandForm::Name,
                stability: if stable_across_calls {
                    Stability::StableAcrossCalls
                } else {
                    Stability::Observable
                },
                effect: EvaluationEffect::Pure,
            }),
    {
        Self::new(
            OperandForm::Name,
            if stable_across_calls {
                Stability::StableAcrossCalls
            } else {
                Stability::Observable
            },
            EvaluationEffect::Pure,
        )
    }

    pub fn value(effect: EvaluationEffect) -> (r: Self)
        ensures
            r == (EvaluationFacts { form: OperandForm::Other, stability: Stability::Observable, effect }),
    {
        Self::new(OperandForm::Other, Stability::Observable, effect)
    }

    pub fn call(effect: EvaluationEffect) -> (r: Self)
        ensures
            r == (EvaluationFacts { form: OperandForm::Call, stability: Stability::StableAcrossCalls, effect }),
    {
        Self::new(OperandForm::Call, Stability::StableAcrossCalls, effect)
    }

    pub fn with_stability(self, stability: Stability) -> (r: Self)
        ensures
            r == (EvaluationFacts { stability, ..self }),
    {
        EvaluationFacts { stability, ..self }
    }
}

/// A planned value: setup statements to run first, the expression, and what
/// is known about its evaluation.
pub struct ValuePlan {
    pub setup: Vec<LoweredStatement>,
    pub expression: GoExpression,
    pub evaluation: EvaluationFacts,
}

/// Several planned values, in evaluation order, with shared setup.
pub struct SequencedValues {
    pub setup: Vec<LoweredStatement>,
    pub values: Vec<GoExpression>,
    pub effect: EvaluationEffect,
}

/// The text of each value.
pub open spec fn values_text(values: Seq<GoExpression>) -> Seq<Seq<char>> {
    values.map_values(|v: GoExpression| go_text(v))
}

impl SequencedValues {
    /// The setup and the rendered values.
    pub fn into_rendered(self) -> (r: (Vec<LoweredStatement>, Vec<String>))
        ensures
            r.0 == self.setup,
            strings_view(r.1@) == values_text(self.values@),
    {
        let SequencedValues { setup, values, .. } = self;
        let mut rendered: Vec<String> = Vec::new();
        let mut i: usize = 0;
        while i < values.len()
            invariant
                i <= values@.len(),
                strings_view(rendered@) =~= values_text(values@.subrange(0, i as int)),
            decreases values.len() - i,
        {
            let t = values[i].rendered();
            let ghost before = rendered@;
            rendered.push(t);
            proof {
                assert(strings_view(rendered@) =~= strings_view(before).push(t@));
                assert(values_text(values@.subrange(0, i + 1)) =~= values_text(values@.subrange(0, i as int)).push(
                    go_text(values@[i as int]),
                ));
            }
            i += 1;
        }
        proof {
            assert(values@.subrange(0, i as int) =~= values@);
        }
        (setup, rendered)
    }

    /// Whether any of the values defers evaluation.
    pub fn contains_deferred_evaluation(&self) -> (r: bool)
        ensures
            r == exists|i: int| 0 <= i < self.values@.len() && defers(#[trigger] self.values@[i]),
    {
        let mut i: usize = 0;
        while i < self.values.len()
            invariant
                i <= self.values@.len(),
                forall|k: int| 0 <= k < i ==> !defers(#[trigger] self.values@[k]),
            decreases self.values.len() - i,
        {
            if self.values[i].contains_deferred_evaluation() {
                return true;
            }
            i += 1;
        }
        false
    }
}

impl ValuePlan {
    pub fn from_facts(setup: Vec<LoweredStatement>, expression: GoExpression, evaluation: EvaluationFacts) -> (r: Self)
        ensures
            r == (ValuePlan { setup, expression, evaluation }),
    {
        ValuePlan { setup, expression, evaluation }
    }

    /// A literal value: no setup, stable, pure.
    pub fn literal(rendered: String) -> (r: Self)
        ensures
            r.setup@.len() == 0,
            r.expression == GoExpression::Literal(rendered),
            r.evaluation == (EvaluationFacts {
                form: OperandForm::Literal,
                stability: Stability::Literal,
                effect: EvaluationEffect::Pure,
            }),
    {
        Self::from_facts(Vec::new(), GoExpression::literal(rendered), EvaluationFacts::literal())
    }

    /// A literal whose setup had effects, so its value is observable.
    pub fn evaluated_literal(setup: Vec<LoweredStatement>, rendered: String, effect: EvaluationEffect) -> (r: Self)
        ensures
            r == (ValuePlan {
                setup,
                expression: GoExpression::Literal(rendered),
                evaluation: EvaluationFacts { form: OperandForm::Literal, stability: Stability::Observable, effect },
            }),
    {
        Self::from_facts(
            setup,
            GoExpression::literal(rendered),
            EvaluationFacts::new(OperandForm::Literal, Stability::Observable, effect),
        )
    }

    /// A variable reference.
    pub fn name(setup: Vec<LoweredStatement>, name: String, stable_across_calls: bool) -> (r: Self)
        ensures
            r.setup == setup,
            r.expression == GoExpression::Name(GoIdentifier(name)),
            r.evaluation == (EvaluationFacts {
                form: OperandForm::Name,
                stability: if stable_across_calls {
                    Stability::StableAcrossCalls
                } else {
                    Stability::Observable
                },
                effect: EvaluationEffect::Pure,
            }),
    {
        Self::from_facts(setup, GoExpression::name(name), EvaluationFacts::name(stable_across_calls))
    }

    /// A name bound to an already-captured value: as stable as a literal.
    pub fn captured(setup: Vec<LoweredStatement>, name: String) -> (r: Self)
        ensures
            r == (ValuePlan {
                setup,
                expression: GoExpression::Name(GoIdentifier(name)),
                evaluation: EvaluationFacts {
                    form: OperandForm::Name,
                    stability: Stability::Literal,
                    effect: EvaluationEffect::Pure,
                },
            }),
    {
        Self::from_facts(
            setup,
            GoExpression::name(name),
            EvaluationFacts::new(OperandForm::Name, Stability::Literal, EvaluationEffect::Pure),
        )
    }

    /// A computed (non-name, non-call) value.
    pub fn computed(setup: Vec<LoweredStatement>, expression: GoExpression, effect: EvaluationEffect) -> (r: Self)
        ensures
            r == (ValuePlan {
                setup,
                expression,
                evaluation: EvaluationFacts { form: OperandForm::Other, stability: Stability::Observable, effect },
            }),
    {
        Self::from_facts(setup, expression, EvaluationFacts::value(effect))
    }

    /// The plan of an expression that resolved an identifier.
    pub fn from_identifier_expression(expression: GoExpression, stable_across_calls: bool) -> (r: Self)
        ensures
            r.setup@.len() == 0,
            r.expression == expression,
            r.evaluation == identifier_facts(expression, stable_across_calls),
    {
        let evaluation = match &expression {
            GoExpression::Literal(_) | GoExpression::CompositeLiteral { .. } => EvaluationFacts::literal(),
            GoExpression::Call { .. } => EvaluationFacts::call(EvaluationEffect::PureCall),
            GoExpression::Name(_) => EvaluationFacts::name(stable_across_calls),
            _ => EvaluationFacts::value(EvaluationEffect::Pure).with_stability(
                if stable_across_calls {
                    Stability::StableAcrossCalls
                } else {
                    Stability::Observable
                },
            ),
        };
        Self::from_facts(Vec::new(), expression, evaluation)
    }

    /// A plain call: its result does not change across later calls.
    pub fn plain_call(setup: Vec<LoweredStatement>, expression: GoExpression, effect: EvaluationEffect) -> (r: Self)
        ensures
            r == (ValuePlan {
                setup,
                expression,
                evaluation: EvaluationFacts { form: OperandForm::Call, stability: Stability::StableAcrossCalls, effect },
            }),
    {
        Self::from_facts(setup, expression, EvaluationFacts::call(effect))
    }

    /// A call whose result can be observed to change.
    pub fn observable_call(setup: Vec<LoweredStatement>, expression: GoExpression, effect: EvaluationEffect) -> (r: Self)
        ensures
            r == (ValuePlan {
                setup,
                expression,
                evaluation: EvaluationFacts { form: OperandForm::Call, stability: Stability::Observable, effect },
            }),
    {
        Self::from_facts(setup, expression, EvaluationFacts::call(effect).with_stability(Stability::Observable))
    }

    /// Pre-rendered text treated as a pure computed value.
    pub fn opaque(value: String) -> (r: Self)
        ensures
            r.setup@.len() == 0,
            r.expression == (GoExpression::OpaqueRaw { rendered: value, contains_deferred_evaluation: false }),
            r.evaluation == (EvaluationFacts {
                form: OperandForm::Other,
                stability: Stability::Observable,
                effect: EvaluationEffect::Pure,
            }),
    {
        Self::computed(Vec::new(), GoExpression::opaque(value), EvaluationEffect::Pure)
    }

    /// Rebuilds the expression from its rendered text; the setup is handed to
    /// `transform` and the facts are kept.
    pub fn map_rendered<F: FnOnce(Vec<LoweredStatement>, String, bool) -> (Vec<LoweredStatement>, GoExpression)>(
        self,
        transform: F,
    ) -> (r: Self)
        requires
            forall|text: String| #[trigger] transform.requires((self.setup, text, defers(self.expression))),
        ensures
            exists|text: String|
                text@ == go_text(self.expression) && #[trigger] transform.ensures(
                    (self.setup, text, defers(self.expression)),
                    (r.setup, r.expression),
                ),
            r.evaluation == self.evaluation,
    {
        let contains_deferred_evaluation = self.expression.contains_deferred_evaluation();
        let ValuePlan { setup, expression, evaluation } = self;
        let text = expression.rendered();
        let (setup, expression) = transform(setup, text, contains_deferred_evaluation);
        Self::from_facts(setup, expression, evaluation)
    }

    /// `map_rendered`, then the value counts as computed.
    pub fn map_rendered_as_computed<F: FnOnce(Vec<LoweredStatement>, String, bool) -> (Vec<LoweredStatement>, GoExpression)>(
        self,
        transform: F,
    ) -> (r: Self)
        requires
            forall|text: String| #[trigger] transform.requires((self.setup, text, defers(self.expression))),
        ensures
            exists|text: String|
                text@ == go_text(self.expression) && #[trigger] transform.ensures(
                    (self.setup, text, defers(self.expression)),
                    (r.setup, r.expression),
                ),
            r.evaluation == (EvaluationFacts { form: OperandForm::Other, ..self.evaluation }),
    {
        let mut plan = self.map_rendered(transform);
        plan.evaluation.form = OperandForm::Other;
        plan
    }

    /// `map_rendered`, then the value counts as a name.
    pub fn map_rendered_as_name<F: FnOnce(Vec<LoweredStatement>, String, bool) -> (Vec<LoweredStatement>, GoExpression)>(
        self,
        transform: F,
    ) -> (r: Self)
        requires
            forall|text: String| #[trigger] transform.requires((self.setup, text, defers(self.expression))),
        ensures
            exists|text: String|
                text@ == go_text(self.expression) && #[trigger] transform.ensures(
                    (self.setup, text, defers(self.expression)),
                    (r.setup, r.expression),
                ),
            r.evaluation == (EvaluationFacts { form: OperandForm::Name, ..self.evaluation }),
    {
        let mut plan = self.map_rendered(transform);
        plan.evaluation.form = OperandForm::Name;
        plan
    }

    /// `map_rendered`, then the value counts as an observable computed value.
    pub fn map_rendered_as_observable_computed<F: FnOnce(Vec<LoweredStatement>, String, bool) -> (Vec<LoweredStatement>, GoExpression)>(
        self,
        transform: F,
    ) -> (r: Self)
        requires
            forall|text: String| #[trigger] transform.requires((self.setup, text, defers(self.expression))),
        ensures
            exists|text: String|
                text@ == go_text(self.expression) && #[trigger] transform.ensures(
                    (self.setup, text, defers(self.expression)),
                    (r.setup, r.expression),
                ),
            r.evaluation == (EvaluationFacts {
                form: OperandForm::Other,
                stability: Stability::Observable,
                ..self.evaluation
            }),
    {
        let mut plan = self.map_rendered_as_computed(transform);
        plan.make_observable();
        plan
    }

    pub fn make_observable(&mut self)
        ensures
            final(self).setup == old(self).setup,
            final(self).expression == old(self).expression,
            final(self).evaluation == (EvaluationFacts { stability: Stability::Observable, ..old(self).evaluation }),
    {
        self.evaluation.stability = Stability::Observable;
    }

    pub fn stable_across_calls_if(self, stable_across_calls: bool) -> (r: Self)
        ensures
            r.setup == self.setup,
            r.expression == self.expression,
            r.evaluation == if stable_across_calls {
                EvaluationFacts { stability: Stability::StableAcrossCalls, ..self.evaluation }
            } else {
                self.evaluation
            },
    {
        let mut plan = self;
        if stable_across_calls {
            plan.evaluation.stability = Stability::StableAcrossCalls;
        }
        plan
    }

    pub fn make_observable_computed(&mut self)
        ensures
            final(self).setup == old(self).setup,
            final(self).expression == old(self).expression,
            final(self).evaluation == (EvaluationFacts {
                form: OperandForm::Other,
                stability: Stability::Observable,
                ..old(self).evaluation
            }),
    {
        self.evaluation.form = OperandForm::Other;
        self.make_observable();
    }

    /// Replaces the expression with a reference to a pinned temp.
    pub fn replace_with_pinned_name(&mut self, name: String)
        ensures
            final(self).setup == old(self).setup,
            final(self).expression == GoExpression::Name(GoIdentifier(name)),
            final(self).evaluation == (EvaluationFacts {
                form: OperandForm::Name,
                effect: EvaluationEffect::Pure,
                ..old(self).evaluation
            }),
    {
        self.expression = GoExpression::name(name);
        self.evaluation.form = OperandForm::Name;
        self.evaluation.effect = EvaluationEffect::Pure;
    }

    /// The value as the result of a pure constructor call.
    pub fn with_pure_constructor_evaluation(self) -> (r: Self)
        ensures
            r.setup == self.setup,
            r.expression == self.expression,
            r.evaluation == (EvaluationFacts {
                form: self.evaluation.form,
                stability: if self.evaluation.form == OperandForm::Call {
                    Stability::StableAcrossCalls
                } else {
                    Stability::Observable
                },
                effect: effect_max(EvaluationEffect::PureCall, self.evaluation.effect),
            }),
    {
        let mut plan = self;
        plan.evaluation.effect = EvaluationEffect::PureCall.combine(plan.evaluation.effect);
        plan.evaluation.stability = if matches!(plan.evaluation.form, OperandForm::Call) {
            Stability::StableAcrossCalls
        } else {
            Stability::Observable
        };
        plan
    }

    pub fn rendered(&self) -> (r: String)
        ensures
            r@ == go_text(self.expression),
    {
        self.expression.rendered()
    }

    /// Whether the value is opaque text that renders empty.
    pub fn is_empty(&self) -> (r: bool)
        ensures
            r == (self.expression matches GoExpression::OpaqueRaw { rendered, .. } && rendered@.len() == 0),
    {
        match &self.expression {
            GoExpression::OpaqueRaw { rendered, .. } => rendered.as_str().unicode_len() == 0,
            _ => false,
        }
    }

    pub fn into_parts(self) -> (r: (Vec<LoweredStatement>, String))
        ensures
            r.0 == self.setup,
            r.1@ == go_text(self.expression),
    {
        let text = self.expression.rendered();
        (self.setup, text)
    }

    /// The value wrapped in parentheses; a call, or a non-name value stable
    /// across calls, becomes observable once wrapped.
    pub fn parenthesized(self) -> (r: Self)
        ensures
            r.setup == self.setup,
            r.expression == GoExpression::Parenthesized(Box::new(self.expression)),
            r.evaluation == (EvaluationFacts {
                form: OperandForm::Other,
                stability: if self.evaluation.form == OperandForm::Call || (self.evaluation.stability
                    == Stability::StableAcrossCalls && self.evaluation.form != OperandForm::Name) {
                    Stability::Observable
                } else {
                    self.evaluation.stability
                },
                effect: self.evaluation.effect,
            }),
    {
        let ValuePlan { setup, expression, mut evaluation } = self;
        if matches!(evaluation.form, OperandForm::Call) || (evaluation.stability.is_stable_across_calls()
            && !matches!(evaluation.form, OperandForm::Name)) {
            evaluation.stability = Stability::Observable;
        }
        evaluation.form = OperandForm::Other;
        ValuePlan { setup, expression: GoExpression::Parenthesized(Box::new(expression)), evaluation }
    }

    /// The value converted to `go_type`.
    pub fn conversion(self, go_type: String) -> (r: Self)
        ensures
            r.setup == self.setup,
            r.expression == (GoExpression::Conversion { go_type, value: Box::new(self.expression) }),
            r.evaluation == (EvaluationFacts {
                form: OperandForm::Other,
                stability: if self.evaluation.stability == Stability::StableAcrossCalls {
                    Stability::StableAcrossCalls
                } else {
                    Stability::Observable
                },
                effect: self.evaluation.effect,
            }),
    {
        let ValuePlan { setup, expression, mut evaluation } = self;
        evaluation.form = OperandForm::Other;
        if !evaluation.stability.is_stable_across_calls() {
            evaluation.stability = Stability::Observable;
        }
        ValuePlan { setup, expression: GoExpression::Conversion { go_type, value: Box::new(expression) }, evaluation }
    }

    /// `operator` applied to the value.
    pub fn unary(self, operator: &str) -> (r: Self)
        ensures
            r.setup == self.setup,
            r.expression matches GoExpression::Unary { operator: op, inner } && op@ == operator@ && *inner
                == self.expression,
            r.evaluation == (EvaluationFacts {
                form: OperandForm::Other,
                stability: Stability::Observable,
                effect: self.evaluation.effect,
            }),
    {
        let ValuePlan { setup, expression, mut evaluation } = self;
        evaluation.form = OperandForm::Other;
        evaluation.stability = Stability::Observable;
        ValuePlan {
            setup,
            expression: GoExpression::Unary { operator: String::from_str(operator), inner: Box::new(expression) },
            evaluation,
        }
    }
}

/// The facts of an expression that resolved an identifier: literals stay
/// literal, calls are pure calls, names and other values are as stable as
/// the identifier.
pub open spec fn identifier_facts(e: GoExpression, stable_across_calls: bool) -> EvaluationFacts {
    match e {
        GoExpression::Literal(_) | GoExpression::CompositeLiteral { .. } => EvaluationFacts {
            form: OperandForm::Literal,
            stability: Stability::Literal,
            effect: EvaluationEffect::Pure,
        },
        GoExpression::Call { .. } => EvaluationFacts {
            form: OperandForm::Call,
            stability: Stability::StableAcrossCalls,
            effect: EvaluationEffect::PureCall,
        },
        _ => EvaluationFacts {
            form: if e is Name { OperandForm::Name } else { OperandForm::Other },
            stability: if stable_across_calls {
                Stability::StableAcrossCalls
            } else {
                Stability::Observable
            },
            effect: EvaluationEffect::Pure,
        },
    }
}

} // verus!
