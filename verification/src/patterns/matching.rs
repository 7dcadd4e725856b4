//! Match-subject helpers.
use vstd::prelude::*;

use crate::text::chars_of;

verus! {

pub open spec fn is_ascii_alpha(c: char) -> bool {
    ('a' <= c && c <= 'z') || ('A' <= c && c <= 'Z')
}

pub open spec fn is_ascii_alnum(c: char) -> bool {
    is_ascii_alpha(c) || ('0' <= c && c <= '9')
}

/// A plain Go identifier: an ASCII letter or `_`, then ASCII letters,
/// digits or `_`.
pub open spec fn plain_go_identifier(s: Seq<char>) -> bool {
    &&& s.len() > 0
    &&& is_ascii_alpha(s[0]) || s[0] == '_'
    &&& forall|i: int| 1 <= i < s.len() ==> is_ascii_alnum(#[trigger] s[i]) || s[i] == '_'
}

/// Whether `value` is a plain Go identifier, which can stand as a match
/// subject without a temporary.
pub fn is_plain_go_identifier(value: &str) -> (r: bool)
    ensures
        r == plain_go_identifier(value@),
{
    let chars = chars_of(value);
    if chars.len() == 0 {
        return false;
    }
    let first = chars[0];
    if !((first >= 'a' && first <= 'z') || (first >= 'A' && first <= 'Z') || first == '_') {
        return false;
    }
    let mut i: usize = 1;
    while i < chars.len()
        invariant
            1 <= i <= chars@.len(),
            chars@ == value@,
            forall|k: int| 1 <= k < i ==> is_ascii_alnum(#[trigger] chars@[k]) || chars@[k] == '_',
        decreases chars@.len() - i,
    {
        let c = chars[i];
        if !((c >= 'a' && c <= 'z') || (c >= 'A' && c <= 'Z') || (c >= '0' && c <= '9') || c == '_') {
            return false;
        }
        i += 1;
    }
    true
}

} // verus!
