//! Slicing by a range-typed variable.
use vstd::prelude::*;

use crate::text::str_eq;

verus! {

/// The range types a variable can hold when it indexes a slice.
pub open spec fn is_range_kind(kind: Seq<char>) -> bool {
    kind == "Range"@ || kind == "RangeInclusive"@ || kind == "RangeFrom"@ || kind == "RangeTo"@
        || kind == "RangeToInclusive"@
}

/// The Go start and end bounds read from range variable `v` of `kind`.
pub open spec fn range_bounds(v: Seq<char>, kind: Seq<char>) -> (Option<Seq<char>>, Option<Seq<char>>) {
    if kind == "Range"@ {
        (Some(v + ".Start"@), Some(v + ".End"@))
    } else if kind == "RangeInclusive"@ {
        (Some(v + ".Start"@), Some(v + ".End+1"@))
    } else if kind == "RangeFrom"@ {
        (Some(v + ".Start"@), None)
    } else if kind == "RangeTo"@ {
        (None, Some(v + ".End"@))
    } else {
        (None, Some(v + ".End+1"@))
    }
}

pub open spec fn opt_text(o: Option<String>) -> Option<Seq<char>> {
    match o {
        Some(s) => Some(s@),
        None => None,
    }
}

fn suffixed(v: &str, suffix: &str) -> (r: String)
    ensures
        r@ == v@ + suffix@,
{
    let mut out = String::from_str(v);
    out.append(suffix);
    out
}

/// The start and end bounds of a slice taken with range variable
/// `range_var` of type `range_kind`.
pub fn range_var_bounds(range_var: &str, range_kind: &str) -> (r: (Option<String>, Option<String>))
    requires
        is_range_kind(range_kind@),
    ensures
        (opt_text(r.0), opt_text(r.1)) == range_bounds(range_var@, range_kind@),
{
    if str_eq(range_kind, "Range") {
        (Some(suffixed(range_var, ".Start")), Some(suffixed(range_var, ".End")))
    } else if str_eq(range_kind, "RangeInclusive") {
        (Some(suffixed(range_var, ".Start")), Some(suffixed(range_var, ".End+1")))
    } else if str_eq(range_kind, "RangeFrom") {
        (Some(suffixed(range_var, ".Start")), None)
    } else if str_eq(range_kind, "RangeTo") {
        (None, Some(suffixed(range_var, ".End")))
    } else {
        (None, Some(suffixed(range_var, ".End+1")))
    }
}

pub open spec fn text_or_empty(o: Option<Seq<char>>) -> Seq<char> {
    match o {
        Some(t) => t,
        None => Seq::empty(),
    }
}

/// `base[start:end]`, or with `needs_cap` the three-index form
/// `base[start:bound:bound]` whose bound is the end, or `len(base)` when
/// the range has no end.
pub open spec fn range_slice_text(base: Seq<char>, range: Seq<char>, kind: Seq<char>, needs_cap: bool) -> Seq<char> {
    let start = text_or_empty(range_bounds(range, kind).0);
    let end = text_or_empty(range_bounds(range, kind).1);
    if !needs_cap {
        base + "["@ + start + ":"@ + end + "]"@
    } else {
        let bound = if end.len() == 0 {
            "len("@ + base + ")"@
        } else {
            end
        };
        base + "["@ + start + ":"@ + bound + ":"@ + bound + "]"@
    }
}

/// The slice expression for `base` indexed by range variable `range`; the
/// capacity bound blocks appends through the alias.
pub fn emit_range_var_slice(base: &str, range: &str, range_kind: &str, needs_cap: bool) -> (r: String)
    requires
        is_range_kind(range_kind@),
    ensures
        r@ == range_slice_text(base@, range@, range_kind@, needs_cap),
{
    let (start, end) = range_var_bounds(range, range_kind);
    let start_str = match &start {
        Some(s) => s.as_str(),
        None => "",
    };
    let end_str = match &end {
        Some(e) => e.as_str(),
        None => "",
    };
    proof {
        reveal_strlit("");
        assert(start_str@ == text_or_empty(range_bounds(range@, range_kind@).0));
        assert(end_str@ == text_or_empty(range_bounds(range@, range_kind@).1));
    }
    let mut out = String::from_str(base);
    out.append("[");
    out.append(start_str);
    out.append(":");
    if !needs_cap {
        out.append(end_str);
        out.append("]");
        return out;
    }
    let bound = if end_str.unicode_len() == 0 {
        let mut b = String::from_str("len(");
        b.append(base);
        b.append(")");
        b
    } else {
        String::from_str(end_str)
    };
    out.append(bound.as_str());
    out.append(":");
    out.append(bound.as_str());
    out.append("]");
    out
}

} // verus!
