//! Conditions for refutable bindings.
use vstd::prelude::*;

use crate::patterns::decision_tree::{Check, checks_model, condition_text, render_condition};
use crate::text::str_eq;

verus! {

/// The guard of a refutable binding: the rendered checks, preceded by the
/// `ok` variable of a type assertion when there is one.
pub open spec fn ok_text(ok_var: Option<&str>) -> Option<Seq<char>> {
    match ok_var {
        Some(ok) => Some(ok@),
        None => None,
    }
}

pub open spec fn refutable_condition(ok_var: Option<Seq<char>>, condition: Seq<char>) -> Seq<char> {
    match ok_var {
        None => condition,
        Some(ok) => if condition == seq!['t', 'r', 'u', 'e'] {
            ok
        } else {
            ok + seq![' ', '&', '&', ' '] + condition
        },
    }
}

/// Combines an optional `ok` variable with the rendered checks into one
/// guard condition; `"true"` when both are absent.
pub fn compose_refutable_condition(ok_var: Option<&str>, checks: &[Check], effective_subject: &str) -> (r:
    String)
    ensures
        r@ == refutable_condition(
            ok_text(ok_var),
            condition_text(checks_model(checks@), effective_subject@),
        ),
{
    let condition = render_condition(checks, effective_subject);
    match ok_var {
        None => condition,
        Some(ok) => {
            proof {
                reveal_strlit("true");
                reveal_strlit(" && ");
                assert("true"@ =~= seq!['t', 'r', 'u', 'e']);
                assert(" && "@ =~= seq![' ', '&', '&', ' ']);
            }
            if str_eq(condition.as_str(), "true") {
                String::from_str(ok)
            } else {
                let mut out = String::from_str(ok);
                out.append(" && ");
                out.append(condition.as_str());
                out
            }
        },
    }
}

} // verus!
