//! The render-ready form of a match: decisions whose conditions, case
//! labels and binding accesses are already Go text.
use vstd::prelude::*;

verus! {

/// A pattern binding with its access path already rendered.
#[derive(Debug, Clone)]
pub struct EmitBinding {
    pub lisette_name: String,
    pub go_name: Option<String>,
    pub rendered_access: String,
}

/// A decision tree node with every condition rendered to Go text.
pub enum EmitDecision {
    Success { arm_index: usize, bindings: Vec<EmitBinding>, leaf_emits_no_output: bool },
    Guard {
        arm_index: usize,
        bindings: Vec<EmitBinding>,
        success: Box<EmitDecision>,
        failure: Box<EmitDecision>,
    },
    IfElse {
        cond: String,
        then_branch: Box<EmitDecision>,
        else_branch: Option<Box<EmitDecision>>,
    },
    /// Exhaustive single-variant enum: no condition wrapper.
    InlineBranch { branch: Box<EmitDecision> },
    Switch { expr: String, cases: Vec<EmitCase>, default: Option<Box<EmitDecision>> },
    TypeSwitch { base: String, cases: Vec<EmitCase>, default: Option<Box<EmitDecision>> },
    Chain { tests: Vec<EmitChainTest>, fallback: Box<EmitDecision>, last_is_catchall: bool },
    Unreachable,
}

/// One test of a rendered chain; `cond` is `None` for a catch-all test.
pub struct EmitChainTest {
    pub cond: Option<String>,
    pub decision: Box<EmitDecision>,
}

/// One `case` of a rendered switch.
pub struct EmitCase {
    pub case_label: String,
    pub decision: Box<EmitDecision>,
}

/// True for a success leaf that emits nothing.
pub fn is_empty_emit_decision(d: &EmitDecision) -> (r: bool)
    ensures
        r == (*d matches EmitDecision::Success { leaf_emits_no_output, .. } && leaf_emits_no_output),
{
    match d {
        EmitDecision::Success { leaf_emits_no_output, .. } => *leaf_emits_no_output,
        _ => false,
    }
}

} // verus!
