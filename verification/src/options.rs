//! Emission options and small per-definition hints.
use vstd::prelude::*;

use crate::text::str_eq;

verus! {

/// Options that callers pass to the emitter.
#[derive(Clone, Debug)]
pub struct EmitOptions {
    pub debug: bool,
}

impl Default for EmitOptions {
    fn default() -> (r: Self)
        ensures
            !r.debug,
    {
        EmitOptions { debug: false }
    }
}

/// The sentinel a definition's hints ask for: `-1` when one of them is
/// `sentinel_minus_one`, none otherwise.
pub fn sentinel_hint(hints: &[String]) -> (r: Option<i64>)
    ensures
        r == if exists|k: int| 0 <= k < hints@.len() && (#[trigger] hints@[k])@ == "sentinel_minus_one"@ {
            Some(-1i64)
        } else {
            None
        },
{
    let mut i: usize = 0;
    while i < hints.len()
        invariant
            i <= hints@.len(),
            forall|k: int| 0 <= k < i ==> (#[trigger] hints@[k])@ != "sentinel_minus_one"@,
        decreases hints@.len() - i,
    {
        if str_eq(hints[i].as_str(), "sentinel_minus_one") {
            return Some(-1);
        }
        i += 1;
    }
    None
}

} // verus!
