//! Lowered body IR: the typed statements the planner produces and the
//! renderer consumes. `RawGo` holds pre-rendered Go.
use vstd::prelude::*;

use crate::plan::values::ValuePlan;

verus! {

pub struct LoweredBlock {
    pub statements: Vec<LoweredStatement>,
}

pub enum LoweredStatement {
    If(IfPlan),
    Loop(LoopPlan),
    Block(LoweredBlock),
    Break { label: Option<String> },
    Continue { label: Option<String> },
    Const(ConstPlan),
    Return(ReturnStatementPlan),
    BreakValue(BreakValuePlan),
    Let(LetPlan),
    Assign(AssignPlan),
    Expression(ExpressionStatementPlan),
    Match(MatchStatementPlan),
    Select(SelectStatementPlan),
    Switch(SwitchStatementPlan),
    WhileLet(WhileLetPlan),
    /// Eval-order temp capture: `name := value`.
    TempBind { name: String, value: String },
    /// `var name go_type` (with `= value` when `value` is set).
    VarDecl { name: String, go_type: String, value: Option<String> },
    /// `name := <closure_open><body><closure_close>`.
    ClosureBind { name: String, closure_open: String, body: LoweredBlock, closure_close: String },
    /// A statement preceded by a sourcemap `//line` directive.
    Directed { directive: String, inner: Box<LoweredStatement> },
    RawGo(String),
    /// Raw Go whose tail diverges (a never-typed call such as `panic(...)`).
    DivergingRawGo(String),
    /// `panic("unreachable")` after a non-exhaustive branch in return position.
    UnreachablePanic,
}

/// A source `const` (or `var` when the value is not Go-const-eligible).
pub struct ConstPlan {
    pub is_const: bool,
    pub name: String,
    pub ty_str: String,
    pub value: ValuePlan,
}

/// A source `return expr` statement.
pub struct ReturnStatementPlan {
    pub form: ReturnForm,
}

pub enum ReturnForm {
    Plain { value: ValuePlan },
    /// Bare `return` for a unit-typed function; `side_effect` runs first.
    Unit { side_effect: Option<LoweredBlock> },
    /// `return v0, v1, ...` for a lowered multi-value return.
    Multi { values: Vec<String> },
    LoweredAbi { body: LoweredBlock },
    Wrapped { body: LoweredBlock },
}

/// `break value`.
pub struct BreakValuePlan {
    pub value: ValuePlan,
    pub disposition: BreakValueDisposition,
    pub label: Option<String>,
}

pub enum BreakValueDisposition {
    Diverged,
    UnitCallIntoResult { result_var: String },
    AssignToResult { result_var: String },
    Discard,
}

/// A `let` binding, classified by shape.
pub struct LetPlan {
    pub form: LetForm,
}

pub enum LetForm {
    Never { declaration: Option<Box<LoweredStatement>>, body: LoweredBlock },
    SimpleIdentifier { body: LoweredBlock },
    Discard { body: LoweredBlock },
    ComplexPattern { body: LoweredBlock },
    MultiValueCall { body: LoweredBlock },
    LetElse { body: LoweredBlock },
}

/// An assignment statement, structured by shape.
pub struct AssignPlan {
    pub form: AssignForm,
}

pub enum AssignForm {
    Compound { target_capture: Vec<LoweredStatement>, target_str: String, kind: CompoundKind },
    Simple { target_capture: Vec<LoweredStatement>, target_str: String, value: ValuePlan },
    NilClear { target_capture: Vec<LoweredStatement>, target_str: String },
    Discard { body: LoweredBlock },
    NeverTyped { body: LoweredBlock },
}

pub enum CompoundKind {
    Increment,
    Decrement,
    OpAssign { op_text: String, rhs: ValuePlan },
}

/// A bare expression statement.
pub struct ExpressionStatementPlan {
    pub form: ExpressionStatementForm,
}

pub enum ExpressionStatementForm {
    Async { value: ValuePlan },
    AsyncBlock { keyword: String, body: LoweredBlock },
    Propagate { body: LoweredBlock },
    Discard { body: LoweredBlock },
}

pub struct MatchStatementPlan {
    pub body: LoweredBlock,
}

/// A `switch` statement (value or type switch).
pub struct SwitchStatementPlan {
    pub kind: SwitchKind,
    pub cases: Vec<SwitchCasePlan>,
    pub default: Option<LoweredBlock>,
    /// Statements after the switch, such as an unreachable panic.
    pub postlude: Vec<LoweredStatement>,
}

pub enum SwitchKind {
    Value { subject: String },
    Type { subject: String, binding: Option<String> },
}

pub struct SwitchCasePlan {
    pub labels: String,
    pub body: LoweredBlock,
}

/// A `select` statement with hoisted setup, arms and postlude.
pub struct SelectStatementPlan {
    pub setup: Vec<LoweredStatement>,
    pub retry_loop: bool,
    pub arms: Vec<SelectArmPlan>,
    pub postlude: Vec<LoweredStatement>,
}

pub enum SelectArmPlan {
    Receive { receive_vars: Option<String>, channel: String, body: LoweredBlock },
    Send { operation: String, body: LoweredBlock },
    Default { body: LoweredBlock },
}

pub struct WhileLetPlan {
    pub body: LoweredBlock,
}

/// A statement-position loop.
pub struct LoopPlan {
    pub prologue: Vec<LoweredStatement>,
    pub label: Option<String>,
    pub header: String,
    pub body: LoweredBlock,
}

pub struct IfPlan {
    pub condition_setup: Vec<LoweredStatement>,
    pub condition: String,
    pub then_body: LoweredBlock,
    pub else_arm: ElseArm,
}

pub enum ElseArm {
    NoElse,
    ElseIf(Box<IfPlan>),
    /// `inline`: the body emits unwrapped after `}` when the preceding branch diverges.
    Else { body: LoweredBlock, inline: bool },
}

/// The body block of a `let` form.
pub open spec fn let_body(f: LetForm) -> LoweredBlock {
    match f {
        LetForm::Never { body, .. } => body,
        LetForm::SimpleIdentifier { body } => body,
        LetForm::Discard { body } => body,
        LetForm::ComplexPattern { body } => body,
        LetForm::MultiValueCall { body } => body,
        LetForm::LetElse { body } => body,
    }
}

/// The body block of a `select` arm.
pub open spec fn arm_body(a: SelectArmPlan) -> LoweredBlock {
    match a {
        SelectArmPlan::Receive { body, .. } => body,
        SelectArmPlan::Send { body, .. } => body,
        SelectArmPlan::Default { body } => body,
    }
}

/// Whether a block's last statement diverges (`break`, `continue`,
/// `return`, or `panic(...)`).
pub open spec fn block_diverges(b: LoweredBlock) -> bool
    decreases b, 1nat,
{
    list_diverges(b.statements@)
}

/// Whether the last statement of a list diverges.
pub open spec fn list_diverges(s: Seq<LoweredStatement>) -> bool
    decreases s, 0nat,
{
    s.len() > 0 && statement_diverges(s.last())
}

/// Whether control cannot fall through past the statement.
pub open spec fn statement_diverges(s: LoweredStatement) -> bool
    decreases s, 0nat,
{
    match s {
        LoweredStatement::If(plan) => if_diverges(plan),
        LoweredStatement::Loop(_) | LoweredStatement::Block(_) | LoweredStatement::Const(_) => false,
        LoweredStatement::Break { .. } | LoweredStatement::Continue { .. } => true,
        LoweredStatement::Return(_) => true,
        LoweredStatement::BreakValue(_) => true,
        LoweredStatement::Let(plan) => match plan.form {
            LetForm::Never { body, .. } => block_diverges(body),
            LetForm::SimpleIdentifier { body } => block_diverges(body),
            LetForm::Discard { body } => block_diverges(body),
            LetForm::ComplexPattern { body } => block_diverges(body),
            LetForm::MultiValueCall { body } => block_diverges(body),
            LetForm::LetElse { body } => block_diverges(body),
        },
        LoweredStatement::Assign(plan) => match plan.form {
            AssignForm::Discard { body } => block_diverges(body),
            AssignForm::NeverTyped { body } => block_diverges(body),
            _ => false,
        },
        LoweredStatement::Expression(plan) => match plan.form {
            ExpressionStatementForm::Propagate { body } => block_diverges(body),
            ExpressionStatementForm::Discard { body } => block_diverges(body),
            _ => false,
        },
        LoweredStatement::Match(plan) => block_diverges(plan.body),
        LoweredStatement::Select(plan) => list_diverges(plan.postlude@) || (plan.arms@.len() > 0
            && arms_all_diverge(plan.arms@)),
        LoweredStatement::Switch(plan) => list_diverges(plan.postlude@),
        LoweredStatement::WhileLet(plan) => block_diverges(plan.body),
        LoweredStatement::TempBind { .. } | LoweredStatement::VarDecl { .. }
        | LoweredStatement::ClosureBind { .. } => false,
        LoweredStatement::Directed { inner, .. } => statement_diverges(*inner),
        LoweredStatement::RawGo(_) => false,
        LoweredStatement::DivergingRawGo(_) | LoweredStatement::UnreachablePanic => true,
    }
}

/// Whether every arm body diverges.
pub open spec fn arms_all_diverge(arms: Seq<SelectArmPlan>) -> bool
    decreases arms, 0nat,
{
    arms.len() == 0 || (arms_all_diverge(arms.drop_last()) && match arms.last() {
        SelectArmPlan::Receive { body, .. } => block_diverges(body),
        SelectArmPlan::Send { body, .. } => block_diverges(body),
        SelectArmPlan::Default { body } => block_diverges(body),
    })
}

/// Whether both branches of an `if` (and of any `else if` chain without
/// hoisted setup) diverge.
pub open spec fn if_diverges(p: IfPlan) -> bool
    decreases p, 0nat,
{
    block_diverges(p.then_body) && match p.else_arm {
        ElseArm::NoElse => false,
        ElseArm::ElseIf(inner) => inner.condition_setup@.len() == 0 && if_diverges(*inner),
        ElseArm::Else { body, .. } => block_diverges(body),
    }
}

/// Wraps `stmt` in a line directive unless the directive is empty.
pub fn directed(directive: String, stmt: LoweredStatement) -> (r: LoweredStatement)
    ensures
        directive@.len() == 0 ==> r == stmt,
        directive@.len() > 0 ==> r == (LoweredStatement::Directed { directive, inner: Box::new(stmt) }),
        statement_diverges(r) == statement_diverges(stmt),
{
    if directive.as_str().unicode_len() == 0 {
        stmt
    } else {
        LoweredStatement::Directed { directive, inner: Box::new(stmt) }
    }
}

impl LetForm {
    pub fn body(&self) -> (r: &LoweredBlock)
        ensures
            *r == let_body(*self),
    {
        match self {
            LetForm::Never { body, .. } | LetForm::SimpleIdentifier { body } | LetForm::Discard { body }
            | LetForm::ComplexPattern { body } | LetForm::MultiValueCall { body } | LetForm::LetElse {
                body,
            } => body,
        }
    }
}

impl SelectArmPlan {
    pub fn body(&self) -> (r: &LoweredBlock)
        ensures
            *r == arm_body(*self),
    {
        match self {
            SelectArmPlan::Receive { body, .. } | SelectArmPlan::Send { body, .. } | SelectArmPlan::Default {
                body,
            } => body,
        }
    }
}

/// Whether the last statement of `s` diverges.
fn list_ends_with_diverge(s: &Vec<LoweredStatement>) -> (r: bool)
    ensures
        r == list_diverges(s@),
    decreases s@, 1nat,
{
    let n = s.len();
    if n == 0 {
        false
    } else {
        proof {
            vstd::std_specs::vec::axiom_vec_index_decreases(*s, n - 1);
        }
        s[n - 1].ends_with_diverge()
    }
}

impl SwitchStatementPlan {
    pub fn ends_with_diverge(&self) -> (r: bool)
        ensures
            r == list_diverges(self.postlude@),
        decreases self.postlude@, 2nat,
    {
        list_ends_with_diverge(&self.postlude)
    }
}

impl SelectStatementPlan {
    pub fn ends_with_diverge(&self) -> (r: bool)
        ensures
            r == (list_diverges(self.postlude@) || (self.arms@.len() > 0 && arms_all_diverge(self.arms@))),
        decreases *self, 1nat,
    {
        list_ends_with_diverge(&self.postlude) || self.all_arms_diverge()
    }

    /// Whether there is an arm and every arm body diverges.
    pub fn all_arms_diverge(&self) -> (r: bool)
        ensures
            r == (self.arms@.len() > 0 && arms_all_diverge(self.arms@)),
        decreases *self, 0nat,
    {
        if self.arms.len() == 0 {
            return false;
        }
        let mut i: usize = 0;
        while i < self.arms.len()
            invariant
                i <= self.arms@.len(),
                arms_all_diverge(self.arms@.subrange(0, i as int)),
            decreases self.arms.len() - i,
        {
            proof {
                vstd::std_specs::vec::axiom_vec_index_decreases(self.arms, i as int);
                assert(self.arms@.subrange(0, i + 1).drop_last() =~= self.arms@.subrange(0, i as int));
                assert(decreases_to!(self.arms@[i as int] => arm_body(self.arms@[i as int])));
            }
            if !self.arms[i].body().ends_with_diverge() {
                proof {
                    lemma_arms_all_diverge_prefix(self.arms@, i as int);
                }
                return false;
            }
            i += 1;
        }
        proof {
            assert(self.arms@.subrange(0, i as int) =~= self.arms@);
        }
        true
    }
}

/// If every arm diverges, so does every prefix; so an arm that does not
/// diverge refutes the whole list.
pub proof fn lemma_arms_all_diverge_prefix(arms: Seq<SelectArmPlan>, i: int)
    requires
        0 <= i < arms.len(),
        !block_diverges(arm_body(arms[i])),
    ensures
        !arms_all_diverge(arms),
    decreases arms.len(),
{
    if i < arms.len() - 1 {
        lemma_arms_all_diverge_prefix(arms.drop_last(), i);
    }
}

impl LoweredBlock {
    /// Whether the block's last statement diverges.
    pub fn ends_with_diverge(&self) -> (r: bool)
        ensures
            r == block_diverges(*self),
        decreases self, 0nat,
    {
        list_ends_with_diverge(&self.statements)
    }

    pub fn is_empty(&self) -> (r: bool)
        ensures
            r == (self.statements@.len() == 0),
    {
        self.statements.len() == 0
    }
}

impl LoweredStatement {
    /// Whether control cannot fall through past this statement.
    pub fn ends_with_diverge(&self) -> (r: bool)
        ensures
            r == statement_diverges(*self),
        decreases self, 0nat,
    {
        match self {
            LoweredStatement::If(plan) => plan.ends_with_diverge(),
            LoweredStatement::Loop(_) | LoweredStatement::Block(_) | LoweredStatement::Const(_) => false,
            LoweredStatement::Break { .. } | LoweredStatement::Continue { .. } => true,
            LoweredStatement::Return(_) => true,
            LoweredStatement::BreakValue(_) => true,
            LoweredStatement::Let(plan) => plan.form.body().ends_with_diverge(),
            LoweredStatement::Assign(plan) => match &plan.form {
                AssignForm::Compound { .. } | AssignForm::Simple { .. } | AssignForm::NilClear { .. } => false,
                AssignForm::Discard { body } | AssignForm::NeverTyped { body } => body.ends_with_diverge(),
            },
            LoweredStatement::Expression(plan) => match &plan.form {
                ExpressionStatementForm::Async { .. } | ExpressionStatementForm::AsyncBlock { .. } => false,
                ExpressionStatementForm::Propagate { body } | ExpressionStatementForm::Discard { body } => {
                    body.ends_with_diverge()
                },
            },
            LoweredStatement::Match(plan) => plan.body.ends_with_diverge(),
            LoweredStatement::Select(plan) => plan.ends_with_diverge(),
            LoweredStatement::Switch(plan) => plan.ends_with_diverge(),
            LoweredStatement::WhileLet(plan) => plan.body.ends_with_diverge(),
            LoweredStatement::TempBind { .. } | LoweredStatement::VarDecl { .. }
            | LoweredStatement::ClosureBind { .. } => false,
            LoweredStatement::Directed { inner, .. } => inner.ends_with_diverge(),
            LoweredStatement::RawGo(_) => false,
            LoweredStatement::DivergingRawGo(_) | LoweredStatement::UnreachablePanic => true,
        }
    }

    /// Whether nothing after this statement can run: it diverges, and it is
    /// not a `while let` (whose loop can exit).
    pub fn blocks_fallthrough(&self) -> (r: bool)
        ensures
            r == statement_blocks_fallthrough(*self),
        decreases self,
    {
        if let LoweredStatement::Directed { inner, .. } = self {
            return inner.blocks_fallthrough();
        }
        !matches!(self, LoweredStatement::WhileLet(_)) && self.ends_with_diverge()
    }
}

/// Whether nothing after the statement can run.
pub open spec fn statement_blocks_fallthrough(s: LoweredStatement) -> bool
    decreases s,
{
    match s {
        LoweredStatement::Directed { inner, .. } => statement_blocks_fallthrough(*inner),
        LoweredStatement::WhileLet(_) => false,
        _ => statement_diverges(s),
    }
}

/// A statement that blocks fallthrough diverges.
pub proof fn law_blocks_fallthrough_implies_diverges(s: LoweredStatement)
    ensures
        statement_blocks_fallthrough(s) ==> statement_diverges(s),
    decreases s,
{
    if let LoweredStatement::Directed { inner, .. } = s {
        law_blocks_fallthrough_implies_diverges(*inner);
    }
}

/// A statement that leaves the enclosing code (`return` of any form,
/// `break`, `continue`, a value `break`, raw Go with a diverging tail, the
/// unreachable panic) diverges, also behind a line directive; nothing after
/// it can run; and any block whose last statement it is ends with
/// divergence, whatever comes before it.
pub proof fn law_exits_diverge(prefix: Seq<LoweredStatement>, s: LoweredStatement, directive: String, b: LoweredBlock)
    requires
        s is Return || s is BreakValue || s is Break || s is Continue || s is DivergingRawGo
            || s is UnreachablePanic,
        b.statements@.len() > 0,
        b.statements@.last() == s,
    ensures
        statement_diverges(s),
        statement_diverges(LoweredStatement::Directed { directive, inner: Box::new(s) }),
        statement_blocks_fallthrough(s),
        list_diverges(prefix.push(s)),
        block_diverges(b),
{
    assert(statement_diverges(s));
    let d = LoweredStatement::Directed { directive, inner: Box::new(s) };
    assert(statement_diverges(d) == statement_diverges(s));
}

/// A statement that only computes or declares (plain raw Go, a temp or
/// variable binding, a closure binding, a `const`, a nested block or loop)
/// lets control fall through, and so does a block that ends in one, or an
/// empty block: such blocks do not end with divergence.
pub proof fn law_plain_statements_fall_through(prefix: Seq<LoweredStatement>, s: LoweredStatement, b: LoweredBlock)
    requires
        s is RawGo || s is TempBind || s is VarDecl || s is ClosureBind || s is Const || s is Block
            || s is Loop,
        b.statements@.len() == 0 || b.statements@.last() == s,
    ensures
        !statement_diverges(s),
        !statement_blocks_fallthrough(s),
        !list_diverges(prefix.push(s)),
        !list_diverges(Seq::<LoweredStatement>::empty()),
        !block_diverges(b),
{
}

impl IfPlan {
    /// Whether both branches diverge.
    pub fn ends_with_diverge(&self) -> (r: bool)
        ensures
            r == if_diverges(*self),
        decreases self, 0nat,
    {
        if !self.then_body.ends_with_diverge() {
            return false;
        }
        match &self.else_arm {
            ElseArm::NoElse => false,
            ElseArm::ElseIf(inner) => {
                if inner.condition_setup.len() == 0 {
                    inner.ends_with_diverge()
                } else {
                    false
                }
            },
            ElseArm::Else { body, .. } => body.ends_with_diverge(),
        }
    }
}

} // verus!
