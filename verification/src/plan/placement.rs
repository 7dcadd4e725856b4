//! Statements that place a value into a target.
use vstd::prelude::*;

use crate::plan::bodies::{AssignForm, AssignPlan, LoweredStatement};
use crate::plan::values::ValuePlan;

verus! {

/// A `target = value` assignment with no capture of the target.
pub fn simple_assign(target_var: &str, value: ValuePlan) -> (r: LoweredStatement)
    ensures
        r matches LoweredStatement::Assign(plan) && plan.form matches AssignForm::Simple {
            target_capture,
            target_str,
            value: v,
        } && target_capture@.len() == 0 && target_str@ == target_var@ && v == value,
{
    LoweredStatement::Assign(
        AssignPlan {
            form: AssignForm::Simple {
                target_capture: Vec::new(),
                target_str: String::from_str(target_var),
                value,
            },
        },
    )
}

} // verus!
