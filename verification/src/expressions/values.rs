//! Classification of emitted Go value text.
use vstd::prelude::*;

use crate::text::{chars_of, str_eq};

verus! {

/// The Unicode `White_Space` characters (`char::is_whitespace`).
pub open spec fn is_white_space(c: char) -> bool {
    ('\u{9}' <= c && c <= '\u{d}') || c == ' ' || c == '\u{85}' || c == '\u{a0}' || c == '\u{1680}'
        || ('\u{2000}' <= c && c <= '\u{200a}') || c == '\u{2028}' || c == '\u{2029}' || c
        == '\u{202f}' || c == '\u{205f}' || c == '\u{3000}'
}

fn white_space(c: char) -> (r: bool)
    ensures
        r == is_white_space(c),
{
    (c >= '\u{9}' && c <= '\u{d}') || c == ' ' || c == '\u{85}' || c == '\u{a0}' || c == '\u{1680}'
        || (c >= '\u{2000}' && c <= '\u{200a}') || c == '\u{2028}' || c == '\u{2029}' || c
        == '\u{202f}' || c == '\u{205f}' || c == '\u{3000}'
}

/// The number of white-space characters that begin `s`.
pub open spec fn leading_space(s: Seq<char>) -> nat
    decreases s.len(),
{
    if s.len() > 0 && is_white_space(s[0]) {
        1 + leading_space(s.drop_first())
    } else {
        0
    }
}

/// The number of white-space characters that end `s`.
pub open spec fn trailing_space(s: Seq<char>) -> nat
    decreases s.len(),
{
    if s.len() > 0 && is_white_space(s.last()) {
        1 + trailing_space(s.drop_last())
    } else {
        0
    }
}

/// `s` without trailing white space (`str::trim_end`).
pub open spec fn trim_end(s: Seq<char>) -> Seq<char> {
    s.take(s.len() - trailing_space(s))
}

/// `s` without leading or trailing white space (`str::trim`).
pub open spec fn trim(s: Seq<char>) -> Seq<char> {
    trim_end(s.skip(leading_space(s) as int))
}

/// The position of the first `c` in `s`.
pub open spec fn first_index(s: Seq<char>, c: char) -> Option<int>
    decreases s.len(),
{
    if s.len() == 0 {
        None
    } else if s[0] == c {
        Some(0)
    } else {
        match first_index(s.drop_first(), c) {
            Some(i) => Some(i + 1),
            None => None,
        }
    }
}

/// Go builtins that look like calls but are not plain calls.
pub open spec fn is_go_builtin(name: Seq<char>) -> bool {
    name == "len"@ || name == "cap"@ || name == "append"@ || name == "copy"@ || name == "new"@
        || name == "make"@ || name == "complex"@ || name == "real"@ || name == "imag"@
}

/// Where a scan of Go text stands: in code, or inside a string, raw string
/// or rune literal (and just after a backslash in one).
#[derive(PartialEq, Eq, Structural, Clone, Copy, Debug)]
pub enum LexState {
    Code,
    Str,
    StrEscape,
    Raw,
    Rune,
    RuneEscape,
}

/// The scan state after reading `c` in state `st`.
pub open spec fn lex_step(st: LexState, c: char) -> LexState {
    match st {
        LexState::Code => if c == '"' {
            LexState::Str
        } else if c == '`' {
            LexState::Raw
        } else if c == '\'' {
            LexState::Rune
        } else {
            LexState::Code
        },
        LexState::Str => if c == '\\' {
            LexState::StrEscape
        } else if c == '"' {
            LexState::Code
        } else {
            LexState::Str
        },
        LexState::StrEscape => LexState::Str,
        LexState::Raw => if c == '`' {
            LexState::Code
        } else {
            LexState::Raw
        },
        LexState::Rune => if c == '\\' {
            LexState::RuneEscape
        } else if c == '\'' {
            LexState::Code
        } else {
            LexState::Rune
        },
        LexState::RuneEscape => LexState::Rune,
    }
}

/// The bracket depth after reading `c` in state `st` at depth `d`: only
/// brackets in code count.
pub open spec fn depth_step(st: LexState, c: char, d: int) -> int {
    if st == LexState::Code && c == '(' {
        d + 1
    } else if st == LexState::Code && c == ')' {
        d - 1
    } else {
        d
    }
}

/// Reading `s` from state `st` at depth `d`, the depth stays above zero
/// until the last character, which brings it back to zero.
pub open spec fn closes_at_end(s: Seq<char>, st: LexState, d: int) -> bool
    decreases s.len(),
{
    if s.len() == 0 {
        false
    } else {
        let d2 = depth_step(st, s[0], d);
        if s.len() == 1 {
            d2 == 0
        } else {
            d2 > 0 && closes_at_end(s.drop_first(), lex_step(st, s[0]), d2)
        }
    }
}

/// Whether the Go text is a single call of a non-builtin callee: the text
/// before its first `(` (without trailing space) is non-empty, does not
/// start with `[`, and is not a builtin, and the `(` is closed by the last
/// character (brackets inside string and rune literals do not count).
pub open spec fn plain_go_call(emitted: Seq<char>) -> bool {
    let t = trim(emitted);
    t.len() > 0 && t.last() == ')' && match first_index(t, '(') {
        None => false,
        Some(open) => {
            let callee = trim_end(t.take(open));
            callee.len() > 0 && callee[0] != '[' && !is_go_builtin(callee) && closes_at_end(
                t.skip(open),
                LexState::Code,
                0,
            )
        },
    }
}

fn lex_next(st: LexState, c: char) -> (r: LexState)
    ensures
        r == lex_step(st, c),
{
    match st {
        LexState::Code => if c == '"' {
            LexState::Str
        } else if c == '`' {
            LexState::Raw
        } else if c == '\'' {
            LexState::Rune
        } else {
            LexState::Code
        },
        LexState::Str => if c == '\\' {
            LexState::StrEscape
        } else if c == '"' {
            LexState::Code
        } else {
            LexState::Str
        },
        LexState::StrEscape => LexState::Str,
        LexState::Raw => if c == '`' {
            LexState::Code
        } else {
            LexState::Raw
        },
        LexState::Rune => if c == '\\' {
            LexState::RuneEscape
        } else if c == '\'' {
            LexState::Code
        } else {
            LexState::Rune
        },
        LexState::RuneEscape => LexState::Rune,
    }
}

/// Whether the bracket at `chars[from]` is closed by `chars[to - 1]`.
fn bracket_closes_at_end(chars: &Vec<char>, from: usize, to: usize) -> (r: bool)
    requires
        from <= to <= chars@.len(),
    ensures
        r == closes_at_end(chars@.subrange(from as int, to as int), LexState::Code, 0),
{
    if from == to {
        return false;
    }
    let mut k = from;
    let mut st = LexState::Code;
    let mut d: usize = 0;
    while k < to
        invariant
            from <= k <= to <= chars@.len(),
            from < to,
            d <= k - from,
            k == from ==> (st == LexState::Code && d == 0),
            k > from ==> d > 0,
            closes_at_end(chars@.subrange(from as int, to as int), LexState::Code, 0)
                == closes_at_end(chars@.subrange(k as int, to as int), st, d as int),
        decreases to - k,
    {
        let c = chars[k];
        let ghost s = chars@.subrange(k as int, to as int);
        proof {
            assert(s[0] == c);
        }
        let is_code = match st {
            LexState::Code => true,
            _ => false,
        };
        let d2: usize;
        if is_code && c == '(' {
            d2 = d + 1;
        } else if is_code && c == ')' {
            if d == 0 {
                return false;
            }
            d2 = d - 1;
        } else {
            d2 = d;
        }
        assert(d2 as int == depth_step(st, c, d as int));
        if k + 1 == to {
            return d2 == 0;
        }
        if d2 == 0 {
            return false;
        }
        proof {
            assert(s.drop_first() =~= chars@.subrange(k + 1, to as int));
        }
        st = lex_next(st, c);
        d = d2;
        k += 1;
    }
    false
}

proof fn lemma_leading_space(s: Seq<char>, k: int)
    requires
        0 <= k <= s.len(),
        forall|i: int| 0 <= i < k ==> is_white_space(#[trigger] s[i]),
        k == s.len() || !is_white_space(s[k]),
    ensures
        leading_space(s) == k,
    decreases k,
{
    if k > 0 {
        lemma_leading_space(s.drop_first(), k - 1);
    }
}

proof fn lemma_trailing_space(s: Seq<char>, k: int)
    requires
        0 <= k <= s.len(),
        forall|i: int| s.len() - k <= i < s.len() ==> is_white_space(#[trigger] s[i]),
        k == s.len() || !is_white_space(s[s.len() - k - 1]),
    ensures
        trailing_space(s) == k,
    decreases k,
{
    if k > 0 {
        lemma_trailing_space(s.drop_last(), k - 1);
    }
}

proof fn lemma_first_index(s: Seq<char>, c: char, k: int)
    requires
        0 <= k <= s.len(),
        forall|i: int| 0 <= i < k ==> s[i] != c,
        k == s.len() || s[k] == c,
    ensures
        first_index(s, c) == if k == s.len() {
            None::<int>
        } else {
            Some(k)
        },
    decreases k,
{
    if k > 0 {
        lemma_first_index(s.drop_first(), c, k - 1);
    }
}

/// Index just past the last non-space character of `chars[from..to]`
/// (`from` when all are space).
fn trimmed_end(chars: &Vec<char>, from: usize, to: usize) -> (e: usize)
    requires
        from <= to <= chars@.len(),
    ensures
        from <= e <= to,
        trim_end(chars@.subrange(from as int, to as int)) == chars@.subrange(from as int, e as int),
{
    let mut e = to;
    while e > from && white_space(chars[e - 1])
        invariant
            from <= e <= to <= chars@.len(),
            forall|i: int| e <= i < to ==> is_white_space(#[trigger] chars@[i]),
        decreases e - from,
    {
        e -= 1;
    }
    proof {
        let s = chars@.subrange(from as int, to as int);
        let k = to - e;
        assert forall|i: int| s.len() - k <= i < s.len() implies is_white_space(#[trigger] s[i]) by {
            assert(s[i] == chars@[from + i]);
        }
        if k < s.len() {
            assert(s[s.len() - k - 1] == chars@[e - 1]);
        }
        lemma_trailing_space(s, k as int);
        assert(s.take(s.len() - k) =~= chars@.subrange(from as int, e as int));
    }
    e
}

/// Whether emitted Go text is a single plain non-builtin call, which can
/// follow `go` or `defer` and is evaluated in order among sibling operands.
pub fn is_plain_go_call(emitted: &str) -> (r: bool)
    ensures
        r == plain_go_call(emitted@),
{
    let chars = chars_of(emitted);
    let n = chars.len();
    let mut start: usize = 0;
    while start < n && white_space(chars[start])
        invariant
            start <= n == chars@.len(),
            forall|i: int| 0 <= i < start ==> is_white_space(#[trigger] chars@[i]),
        decreases n - start,
    {
        start += 1;
    }
    proof {
        lemma_leading_space(chars@, start as int);
        assert(chars@.skip(start as int) =~= chars@.subrange(start as int, n as int));
    }
    let end = trimmed_end(&chars, start, n);
    let ghost t = chars@.subrange(start as int, end as int);
    proof {
        assert(trim(emitted@) == t);
    }
    if end == start || chars[end - 1] != ')' {
        return false;
    }
    let mut open = start;
    while open < end && chars[open] != '('
        invariant
            start <= open <= end <= n == chars@.len(),
            forall|i: int| start <= i < open ==> chars@[i] != '(',
        decreases end - open,
    {
        open += 1;
    }
    proof {
        let k = open - start;
        assert forall|i: int| 0 <= i < k implies t[i] != '(' by {
            assert(t[i] == chars@[start + i]);
        }
        if open < end {
            assert(t[k as int] == chars@[open as int]);
        }
        lemma_first_index(t, '(', k as int);
    }
    if open == end {
        return false;
    }
    let callee_end = trimmed_end(&chars, start, open);
    proof {
        assert(t.take(open - start) =~= chars@.subrange(start as int, open as int));
    }
    if callee_end == start || chars[start] == '[' {
        return false;
    }
    let closes = bracket_closes_at_end(&chars, open, end);
    proof {
        assert(t.skip(open - start) =~= chars@.subrange(open as int, end as int));
    }
    if !closes {
        return false;
    }
    let mut callee = String::new();
    let mut i = start;
    while i < callee_end
        invariant
            start <= i <= callee_end <= chars@.len(),
            callee@ == chars@.subrange(start as int, i as int),
        decreases callee_end - i,
    {
        crate::text::push_char(&mut callee, chars[i]);
        proof {
            assert(callee@ =~= chars@.subrange(start as int, i + 1));
        }
        i += 1;
    }
    let c = callee.as_str();
    !(str_eq(c, "len") || str_eq(c, "cap") || str_eq(c, "append") || str_eq(c, "copy") || str_eq(
        c,
        "new",
    ) || str_eq(c, "make") || str_eq(c, "complex") || str_eq(c, "real") || str_eq(c, "imag"))
}

} // verus!
