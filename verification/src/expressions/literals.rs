//! Go renderings of Lisette string and character literals.
use vstd::prelude::*;

use crate::text::{chars_of, push_char};

verus! {

/// The Go escape of one character inside a double-quoted string made from
/// raw text.
pub open spec fn quote_char(c: char) -> Seq<char> {
    if c == '\\' {
        seq!['\\', '\\']
    } else if c == '"' {
        seq!['\\', '"']
    } else if c == '\r' {
        seq!['\\', 'r']
    } else if c == '\n' {
        seq!['\\', 'n']
    } else {
        seq![c]
    }
}

/// Every character of `v` escaped with `quote_char`.
pub open spec fn quote_escaped(v: Seq<char>) -> Seq<char>
    decreases v.len(),
{
    if v.len() == 0 {
        Seq::empty()
    } else {
        quote_escaped(v.drop_last()) + quote_char(v.last())
    }
}

/// A raw string literal in Go: a backtick string when the text holds no
/// backtick and no carriage return (Go drops `\r` from raw strings), else a
/// double-quoted string with `\`, `"`, `\r` and `\n` escaped.
pub open spec fn raw_string_text(v: Seq<char>) -> Seq<char> {
    if !v.contains('`') && !v.contains('\r') {
        seq!['`'] + v + seq!['`']
    } else {
        seq!['"'] + quote_escaped(v) + seq!['"']
    }
}

/// Renders a Lisette raw string literal as a Go string literal.
pub fn emit_raw_string(value: &str) -> (r: String)
    ensures
        r@ == raw_string_text(value@),
{
    let chars = chars_of(value);
    let mut plain = true;
    let mut i: usize = 0;
    while i < chars.len()
        invariant
            i <= chars@.len(),
            chars@ == value@,
            plain == forall|k: int| 0 <= k < i ==> chars@[k] != '`' && chars@[k] != '\r',
        decreases chars@.len() - i,
    {
        if chars[i] == '`' || chars[i] == '\r' {
            plain = false;
        }
        i += 1;
    }
    let mut out = String::new();
    if plain {
        proof {
            assert(!value@.contains('`') && !value@.contains('\r')) by {
                if value@.contains('`') {
                    let k = choose|k: int| 0 <= k < value@.len() && value@[k] == '`';
                    assert(chars@[k] != '`');
                }
                if value@.contains('\r') {
                    let k = choose|k: int| 0 <= k < value@.len() && value@[k] == '\r';
                    assert(chars@[k] != '\r');
                }
            }
        }
        push_char(&mut out, '`');
        out.append(value);
        push_char(&mut out, '`');
        proof {
            assert(out@ =~= seq!['`'] + value@ + seq!['`']);
        }
        return out;
    }
    proof {
        let k = choose|k: int| 0 <= k < chars@.len() && !(chars@[k] != '`' && chars@[k] != '\r');
        if chars@[k] == '`' {
            assert(value@.contains('`'));
        } else {
            assert(value@.contains('\r'));
        }
    }
    push_char(&mut out, '"');
    let mut j: usize = 0;
    while j < chars.len()
        invariant
            j <= chars@.len(),
            chars@ == value@,
            out@ == seq!['"'] + quote_escaped(chars@.take(j as int)),
        decreases chars@.len() - j,
    {
        let c = chars[j];
        if c == '\\' {
            push_char(&mut out, '\\');
            push_char(&mut out, '\\');
        } else if c == '"' {
            push_char(&mut out, '\\');
            push_char(&mut out, '"');
        } else if c == '\r' {
            push_char(&mut out, '\\');
            push_char(&mut out, 'r');
        } else if c == '\n' {
            push_char(&mut out, '\\');
            push_char(&mut out, 'n');
        } else {
            push_char(&mut out, c);
        }
        proof {
            assert(chars@.take(j + 1).drop_last() =~= chars@.take(j as int));
            assert(chars@.take(j + 1).last() == c);
        }
        j += 1;
    }
    push_char(&mut out, '"');
    proof {
        assert(chars@.take(j as int) =~= value@);
    }
    out
}

pub open spec fn is_octal_digit(c: char) -> bool {
    '0' <= c && c <= '7'
}

/// How many octal digits (at most three) start `s`.
pub open spec fn octal_run(s: Seq<char>) -> int {
    if s.len() > 0 && is_octal_digit(s[0]) {
        if s.len() > 1 && is_octal_digit(s[1]) {
            if s.len() > 2 && is_octal_digit(s[2]) {
                3
            } else {
                2
            }
        } else {
            1
        }
    } else {
        0
    }
}

/// The value of a digit character, counted from `'0'`.
pub open spec fn digit_value(c: char) -> int {
    (c as int) - ('0' as int)
}

/// The number that the octal digits `d` spell.
pub open spec fn octal_value(d: Seq<char>) -> int
    decreases d.len(),
{
    if d.len() == 0 {
        0
    } else {
        octal_value(d.drop_last()) * 8 + digit_value(d.last())
    }
}

pub open spec fn is_hex_digit(c: char) -> bool {
    ('0' <= c && c <= '9') || ('a' <= c && c <= 'f') || ('A' <= c && c <= 'F')
}

/// The value of a hexadecimal digit, in either case.
pub open spec fn hex_digit_value(c: char) -> int {
    if '0' <= c && c <= '9' {
        (c as int) - ('0' as int)
    } else if 'a' <= c && c <= 'f' {
        (c as int) - ('a' as int) + 10
    } else {
        (c as int) - ('A' as int) + 10
    }
}

/// The number that the hexadecimal digits `d` spell.
pub open spec fn hex_number(d: Seq<char>) -> int
    decreases d.len(),
{
    if d.len() == 0 {
        0
    } else {
        hex_number(d.drop_last()) * 16 + hex_digit_value(d.last())
    }
}

/// `u32::from_str_radix(s, 16)`, as its documentation states it: an
/// optional `+`, then one or more hexadecimal digits whose value fits in a
/// `u32`; anything else is an error.
pub open spec fn parse_hex_u32(s: Seq<char>) -> Option<u32> {
    let d = if s.len() > 0 && s[0] == '+' {
        s.drop_first()
    } else {
        s
    };
    if d.len() > 0 && (forall|i: int| 0 <= i < d.len() ==> is_hex_digit(#[trigger] d[i]))
        && hex_number(d) <= u32::MAX {
        Some(hex_number(d) as u32)
    } else {
        None
    }
}

/// Parses `s` as a hexadecimal `u32` (`u32::from_str_radix` with radix 16).
#[verifier::external_body]
fn hex_u32(s: &str) -> (r: Option<u32>)
    ensures
        r == parse_hex_u32(s@),
{
    u32::from_str_radix(s, 16).ok()
}

/// The hexadecimal digit for `d` (0 to 15), upper or lower case.
pub open spec fn hex_char(d: nat, upper: bool) -> char {
    if d < 10 {
        (('0' as int) + d) as char
    } else if upper {
        (('A' as int) + d - 10) as char
    } else {
        (('a' as int) + d - 10) as char
    }
}

/// Hexadecimal digits of `n`, most significant first, without leading zeros.
pub open spec fn hex_text(n: nat, upper: bool) -> Seq<char>
    decreases n,
{
    if n < 16 {
        seq![hex_char(n, upper)]
    } else {
        hex_text(n / 16, upper).push(hex_char(n % 16, upper))
    }
}

/// `t` with zeros in front up to `width` characters.
pub open spec fn zero_padded(t: Seq<char>, width: nat) -> Seq<char> {
    if t.len() >= width {
        t
    } else {
        Seq::new((width - t.len()) as nat, |i: int| '0') + t
    }
}

fn hex_digit(d: u32, upper: bool) -> (c: char)
    requires
        d < 16,
    ensures
        c == hex_char(d as nat, upper),
{
    if d == 0 { '0' } else if d == 1 { '1' } else if d == 2 { '2' } else if d == 3 { '3' }
    else if d == 4 { '4' } else if d == 5 { '5' } else if d == 6 { '6' } else if d == 7 { '7' }
    else if d == 8 { '8' } else if d == 9 { '9' }
    else if upper {
        if d == 10 { 'A' } else if d == 11 { 'B' } else if d == 12 { 'C' } else if d == 13 { 'D' }
        else if d == 14 { 'E' } else { 'F' }
    } else {
        if d == 10 { 'a' } else if d == 11 { 'b' } else if d == 12 { 'c' } else if d == 13 { 'd' }
        else if d == 14 { 'e' } else { 'f' }
    }
}

/// Sixteen to the power `k`.
pub open spec fn p16(k: nat) -> nat
    decreases k,
{
    if k == 0 {
        1
    } else {
        16 * p16((k - 1) as nat)
    }
}

proof fn lemma_hex_len_le(n: nat, k: nat, upper: bool)
    requires
        k >= 1,
        n < p16(k),
    ensures
        hex_text(n, upper).len() <= k,
    decreases k,
{
    if n >= 16 {
        if k == 1 {
            assert(p16(1) == 16 * p16(0));
        }
        let x = p16((k - 1) as nat);
        assert(n / 16 < x) by (nonlinear_arith)
            requires
                n < 16 * x,
        ;
        lemma_hex_len_le(n / 16, (k - 1) as nat, upper);
    }
}

fn hex_len(n: u32, upper: bool) -> (c: usize)
    ensures
        c == hex_text(n as nat, upper).len(),
        c <= 8,
    decreases n,
{
    proof {
        reveal_with_fuel(p16, 9);
        lemma_hex_len_le(n as nat, 8, upper);
    }
    if n < 16 {
        1
    } else {
        let k = hex_len(n / 16, upper);
        k + 1
    }
}

fn push_hex_digits(s: &mut String, n: u32, upper: bool)
    ensures
        final(s)@ == old(s)@ + hex_text(n as nat, upper),
    decreases n,
{
    if n < 16 {
        push_char(s, hex_digit(n, upper));
    } else {
        push_hex_digits(s, n / 16, upper);
        push_char(s, hex_digit(n % 16, upper));
    }
}

/// Appends `n` in hexadecimal, zero-padded to `width` digits.
fn push_hex(s: &mut String, n: u32, width: usize, upper: bool)
    ensures
        final(s)@ == old(s)@ + zero_padded(hex_text(n as nat, upper), width as nat),
{
    let len = hex_len(n, upper);
    let ghost start = s@;
    if len < width {
        let mut k: usize = len;
        while k < width
            invariant
                len <= k <= width,
                s@ == start + Seq::new((k - len) as nat, |i: int| '0'),
            decreases width - k,
        {
            push_char(s, '0');
            proof {
                assert(s@ =~= start + Seq::new((k + 1 - len) as nat, |i: int| '0'));
            }
            k += 1;
        }
    }
    let ghost mid = s@;
    push_hex_digits(s, n, upper);
    proof {
        if len < width {
            assert(s@ =~= start + zero_padded(hex_text(n as nat, upper), width as nat));
        } else {
            assert(mid == start);
        }
    }
}

/// The length of the text before the first `}` (all of it when none).
pub open spec fn brace_index(body: Seq<char>) -> nat
    decreases body.len(),
{
    if body.len() == 0 || body[0] == '}' {
        0
    } else {
        1 + brace_index(body.drop_first())
    }
}

proof fn lemma_brace_index(body: Seq<char>, k: int)
    requires
        0 <= k <= body.len(),
        forall|i: int| 0 <= i < k ==> body[i] != '}',
        k == body.len() || body[k] == '}',
    ensures
        brace_index(body) == k,
    decreases k,
{
    if k > 0 {
        lemma_brace_index(body.drop_first(), k - 1);
    }
}

/// A Unicode escape `\u{...}`: the code point, or 0 when the digits do not
/// parse, as `\uXXXX` up to `FFFF` and as `\UXXXXXXXX` above.
pub open spec fn unicode_escape(hex: Seq<char>) -> Seq<char> {
    let cp: nat = match parse_hex_u32(hex) {
        Some(v) => v as nat,
        None => 0,
    };
    if cp <= 0xFFFF {
        seq!['\\', 'u'] + zero_padded(hex_text(cp, true), 4)
    } else {
        seq!['\\', 'U'] + zero_padded(hex_text(cp, true), 8)
    }
}

/// Lisette escape sequences rewritten for a Go literal: `\\` stays, octal
/// `\NNN` (up to three digits) becomes `\xHH`, `\u{H..}` becomes `\uHHHH` or
/// `\UHHHHHHHH`, raw newlines and carriage returns are escaped, and
/// everything else is copied.
pub open spec fn escape_text(s: Seq<char>) -> Seq<char>
    decreases s.len(),
{
    if s.len() == 0 {
        Seq::empty()
    } else if s[0] == '\\' {
        if s.len() > 1 && s[1] == '\\' {
            seq!['\\', '\\'] + escape_text(s.skip(2))
        } else if s.len() > 1 && is_octal_digit(s[1]) {
            let n = octal_run(s.skip(1));
            seq!['\\', 'x'] + zero_padded(hex_text(octal_value(s.skip(1).take(n)) as nat, false), 2)
                + escape_text(s.skip(1 + n))
        } else if s.len() > 2 && s[1] == 'u' && s[2] == '{' {
            let body = s.skip(3);
            let k = brace_index(body) as int;
            unicode_escape(body.take(k)) + if k < body.len() {
                escape_text(body.skip(k + 1))
            } else {
                Seq::empty()
            }
        } else {
            seq!['\\'] + escape_text(s.skip(1))
        }
    } else if s[0] == '\n' {
        seq!['\\', 'n'] + escape_text(s.skip(1))
    } else if s[0] == '\r' {
        seq!['\\', 'r'] + escape_text(s.skip(1))
    } else {
        seq![s[0]] + escape_text(s.skip(1))
    }
}

proof fn lemma_zero_padded_no_breaks(t: Seq<char>, width: nat)
    requires
        !t.contains('\n') && !t.contains('\r'),
    ensures
        !zero_padded(t, width).contains('\n') && !zero_padded(t, width).contains('\r'),
{
    let z = zero_padded(t, width);
    if t.len() < width {
        let pad = Seq::new((width - t.len()) as nat, |i: int| '0');
        assert forall|i: int| 0 <= i < z.len() implies z[i] != '\n' && z[i] != '\r' by {
            if i < pad.len() {
                assert(z[i] == '0');
            } else {
                assert(z[i] == t[i - pad.len()]);
            }
        }
    }
}

proof fn lemma_hex_text_digits(n: nat, upper: bool)
    ensures
        !hex_text(n, upper).contains('\n') && !hex_text(n, upper).contains('\r'),
    decreases n,
{
    if n >= 16 {
        lemma_hex_text_digits(n / 16, upper);
        let t = hex_text(n, upper);
        assert forall|i: int| 0 <= i < t.len() implies t[i] != '\n' && t[i] != '\r' by {
            if i < t.len() - 1 {
                assert(t[i] == hex_text(n / 16, upper)[i]);
            }
        }
    }
}

proof fn lemma_no_breaks_concat(a: Seq<char>, b: Seq<char>)
    requires
        !a.contains('\n') && !a.contains('\r'),
        !b.contains('\n') && !b.contains('\r'),
    ensures
        !(a + b).contains('\n') && !(a + b).contains('\r'),
{
    assert forall|i: int| 0 <= i < (a + b).len() implies (a + b)[i] != '\n' && (a + b)[i] != '\r' by {
        if i < a.len() {
            assert((a + b)[i] == a[i]);
        } else {
            assert((a + b)[i] == b[i - a.len()]);
        }
    }
}

/// Converted text never holds a raw newline or carriage return, so it can
/// stand inside a one-line Go string or rune literal.
pub proof fn law_escaped_text_has_no_line_breaks(s: Seq<char>)
    ensures
        !escape_text(s).contains('\n'),
        !escape_text(s).contains('\r'),
    decreases s.len(),
{
    if s.len() > 0 {
        if s[0] == '\\' {
            if s.len() > 1 && s[1] == '\\' {
                law_escaped_text_has_no_line_breaks(s.skip(2));
                lemma_no_breaks_concat(seq!['\\', '\\'], escape_text(s.skip(2)));
            } else if s.len() > 1 && is_octal_digit(s[1]) {
                let n = octal_run(s.skip(1));
                let h = hex_text(octal_value(s.skip(1).take(n)) as nat, false);
                lemma_hex_text_digits(octal_value(s.skip(1).take(n)) as nat, false);
                lemma_zero_padded_no_breaks(h, 2);
                law_escaped_text_has_no_line_breaks(s.skip(1 + n));
                lemma_no_breaks_concat(seq!['\\', 'x'], zero_padded(h, 2));
                lemma_no_breaks_concat(seq!['\\', 'x'] + zero_padded(h, 2), escape_text(s.skip(1 + n)));
            } else if s.len() > 2 && s[1] == 'u' && s[2] == '{' {
                let body = s.skip(3);
                let k = brace_index(body) as int;
                let cp: nat = match parse_hex_u32(body.take(k)) {
                    Some(v) => v as nat,
                    None => 0,
                };
                lemma_hex_text_digits(cp, true);
                lemma_zero_padded_no_breaks(hex_text(cp, true), 4);
                lemma_zero_padded_no_breaks(hex_text(cp, true), 8);
                lemma_no_breaks_concat(seq!['\\', 'u'], zero_padded(hex_text(cp, true), 4));
                lemma_no_breaks_concat(seq!['\\', 'U'], zero_padded(hex_text(cp, true), 8));
                let rest = if k < body.len() {
                    escape_text(body.skip(k + 1))
                } else {
                    Seq::empty()
                };
                if k < body.len() {
                    law_escaped_text_has_no_line_breaks(body.skip(k + 1));
                }
                lemma_no_breaks_concat(unicode_escape(body.take(k)), rest);
            } else {
                law_escaped_text_has_no_line_breaks(s.skip(1));
                lemma_no_breaks_concat(seq!['\\'], escape_text(s.skip(1)));
            }
        } else if s[0] == '\n' {
            law_escaped_text_has_no_line_breaks(s.skip(1));
            lemma_no_breaks_concat(seq!['\\', 'n'], escape_text(s.skip(1)));
        } else if s[0] == '\r' {
            law_escaped_text_has_no_line_breaks(s.skip(1));
            lemma_no_breaks_concat(seq!['\\', 'r'], escape_text(s.skip(1)));
        } else {
            law_escaped_text_has_no_line_breaks(s.skip(1));
            lemma_no_breaks_concat(seq![s[0]], escape_text(s.skip(1)));
        }
    }
}

/// Escaping reads the text from the front, one piece at a time: an escaped
/// backslash is copied whole and never starts another escape, whatever
/// follows it; a raw newline or carriage return becomes `\n` or `\r`; any
/// other character but a backslash is copied; and a backslash before a
/// character that starts no escape is kept, the character being read again.
pub proof fn law_escape_reads_from_the_front(t: Seq<char>, c: char)
    ensures
        escape_text(seq!['\\', '\\'] + t) == seq!['\\', '\\'] + escape_text(t),
        escape_text(seq!['\n'] + t) == seq!['\\', 'n'] + escape_text(t),
        escape_text(seq!['\r'] + t) == seq!['\\', 'r'] + escape_text(t),
        c != '\\' && c != '\n' && c != '\r' ==> escape_text(seq![c] + t) == seq![c] + escape_text(t),
        c != '\\' && !is_octal_digit(c) && c != 'u' ==> escape_text(seq!['\\', c] + t) == seq!['\\']
            + escape_text(seq![c] + t),
{
    let s1 = seq!['\\', '\\'] + t;
    assert(s1[0] == '\\' && s1[1] == '\\');
    assert(s1.skip(2) =~= t);
    let s2 = seq!['\n'] + t;
    assert(s2[0] == '\n');
    assert(s2.skip(1) =~= t);
    let s3 = seq!['\r'] + t;
    assert(s3[0] == '\r');
    assert(s3.skip(1) =~= t);
    let s4 = seq![c] + t;
    assert(s4[0] == c);
    assert(s4.skip(1) =~= t);
    let s5 = seq!['\\', c] + t;
    assert(s5[0] == '\\' && s5[1] == c);
    assert(s5.skip(1) =~= seq![c] + t);
}

/// A backslash with a single octal digit (not followed by another octal
/// digit) becomes a two-digit Go hex escape of the same value, and the rest
/// is escaped on its own: `\7x` becomes `\x07x`.
pub proof fn law_single_octal_digit_escape(d: char, t: Seq<char>)
    requires
        is_octal_digit(d),
        t.len() == 0 || !is_octal_digit(t[0]),
    ensures
        escape_text(seq!['\\', d] + t) == seq!['\\', 'x', '0', d] + escape_text(t),
{
    let s = seq!['\\', d] + t;
    assert(s[0] == '\\' && s[1] == d);
    let r = s.skip(1);
    assert(r =~= seq![d] + t);
    assert(r[0] == d);
    if r.len() > 1 {
        assert(r[1] == t[0]);
    }
    assert(octal_run(r) == 1);
    assert(r.take(1) =~= seq![d]);
    assert(seq![d].drop_last() =~= Seq::<char>::empty());
    let v = octal_value(seq![d]);
    assert(seq![d].last() == d);
    assert(octal_value(seq![d].drop_last()) == 0);
    assert(v == digit_value(d));
    assert(0 <= v < 8);
    assert(hex_text(v as nat, false) == seq![hex_char(v as nat, false)]);
    assert(hex_char(v as nat, false) == d);
    let z = zero_padded(seq![d], 2);
    assert(z =~= seq!['0', d]);
    assert(s.skip(2) =~= t);
    assert(seq!['\\', 'x'] + z + escape_text(t) =~= seq!['\\', 'x', '0', d] + escape_text(t));
}

/// Text with no backslash, newline or carriage return is left as it is.
pub proof fn law_plain_text_is_unchanged(s: Seq<char>)
    requires
        !s.contains('\\'),
        !s.contains('\n'),
        !s.contains('\r'),
    ensures
        escape_text(s) == s,
    decreases s.len(),
{
    if s.len() > 0 {
        assert(s[0] != '\\' && s[0] != '\n' && s[0] != '\r');
        let t = s.skip(1);
        assert forall|i: int| 0 <= i < t.len() implies t[i] != '\\' && t[i] != '\n' && t[i] != '\r' by {
            assert(t[i] == s[i + 1]);
        }
        law_plain_text_is_unchanged(t);
        assert(seq![s[0]] + t =~= s);
    }
}

/// A rendered raw string never carries a carriage return (Go would drop it
/// from a backtick string), and the backtick form holds the text unchanged.
pub proof fn law_raw_string_has_no_carriage_return(v: Seq<char>)
    ensures
        !raw_string_text(v).contains('\r'),
        !v.contains('`') && !v.contains('\r') ==> raw_string_text(v) == seq!['`'] + v + seq!['`'],
{
    let r = raw_string_text(v);
    if !(!v.contains('`') && !v.contains('\r')) {
        lemma_quote_escaped_no_cr(v);
        lemma_no_breaks_concat_cr(seq!['"'], quote_escaped(v));
        lemma_no_breaks_concat_cr(seq!['"'] + quote_escaped(v), seq!['"']);
    } else {
        assert forall|i: int| 0 <= i < r.len() implies r[i] != '\r' by {
            if 0 < i < r.len() - 1 {
                assert(r[i] == v[i - 1]);
            }
        }
    }
}

proof fn lemma_no_breaks_concat_cr(a: Seq<char>, b: Seq<char>)
    requires
        !a.contains('\r'),
        !b.contains('\r'),
    ensures
        !(a + b).contains('\r'),
{
    assert forall|i: int| 0 <= i < (a + b).len() implies (a + b)[i] != '\r' by {
        if i < a.len() {
            assert((a + b)[i] == a[i]);
        } else {
            assert((a + b)[i] == b[i - a.len()]);
        }
    }
}

proof fn lemma_quote_escaped_no_cr(v: Seq<char>)
    ensures
        !quote_escaped(v).contains('\r'),
    decreases v.len(),
{
    if v.len() > 0 {
        lemma_quote_escaped_no_cr(v.drop_last());
        lemma_no_breaks_concat_cr(quote_escaped(v.drop_last()), quote_char(v.last()));
    }
}

fn is_octal(c: char) -> (r: bool)
    ensures
        r == is_octal_digit(c),
{
    c >= '0' && c <= '7'
}

/// Reads the octal digits after a backslash at `start` (at most three) and
/// appends their `\xHH` escape; returns the index after the digits.
fn push_octal_escape(out: &mut String, chars: &Vec<char>, start: usize) -> (end: usize)
    requires
        start < chars@.len(),
        is_octal_digit(chars@[start as int]),
    ensures
        end == start + octal_run(chars@.skip(start as int)),
        end <= chars@.len(),
        final(out)@ == old(out)@ + seq!['\\', 'x'] + zero_padded(
            hex_text(
                octal_value(chars@.skip(start as int).take(octal_run(chars@.skip(start as int))))
                    as nat,
                false,
            ),
            2,
        ),
{
    let ghost rest = chars@.skip(start as int);
    let mut value: u32 = 0;
    let mut j: usize = start;
    while j < chars.len() && j - start < 3 && is_octal(chars[j])
        invariant
            start <= j <= chars@.len(),
            j - start <= 3,
            rest == chars@.skip(start as int),
            forall|k: int| start <= k < j ==> is_octal_digit(#[trigger] chars@[k]),
            value == octal_value(chars@.subrange(start as int, j as int)),
        decreases chars@.len() - j,
    {
        proof {
            lemma_octal_value_bound(chars@.subrange(start as int, j as int));
        }
        let d = chars[j];
        value = value * 8 + ((d as u32) - ('0' as u32));
        proof {
            assert(chars@.subrange(start as int, j + 1).drop_last() =~= chars@.subrange(
                start as int,
                j as int,
            ));
            if j == start {
                assert(chars@.subrange(start as int, j as int) =~= Seq::<char>::empty());
            }
        }
        j += 1;
    }
    proof {
        let n = j - start;
        assert(rest.take(n as int) =~= chars@.subrange(start as int, j as int));
        assert(rest[0] == chars@[start as int]);
        if n >= 2 {
            assert(rest[1] == chars@[start + 1]);
        }
        if n == 3 {
            assert(rest[2] == chars@[start + 2]);
        }
        if n < 3 && j < chars@.len() {
            assert(rest[n as int] == chars@[j as int]);
        }
        assert(octal_run(rest) == n);
    }
    out.append("\\x");
    proof {
        reveal_strlit("\\x");
    }
    let ghost mid = out@;
    push_hex(out, value, 2, false);
    proof {
        assert(mid =~= old(out)@ + seq!['\\', 'x']);
    }
    j
}

proof fn lemma_octal_value_bound(d: Seq<char>)
    requires
        d.len() <= 3,
        forall|k: int| 0 <= k < d.len() ==> is_octal_digit(#[trigger] d[k]),
    ensures
        0 <= octal_value(d) < 8 * 8 * 8,
        d.len() <= 2 ==> octal_value(d) < 8 * 8,
        d.len() <= 1 ==> octal_value(d) < 8,
    decreases d.len(),
{
    if d.len() > 0 {
        lemma_octal_value_bound(d.drop_last());
        assert(is_octal_digit(d[d.len() - 1]));
    }
}

/// Reads the hexadecimal text of a `\u{...}` escape whose digits start at
/// `start`, up to the closing brace, and appends its Go escape; returns the
/// index after the brace (or the end when there is none).
fn push_unicode_escape(out: &mut String, chars: &Vec<char>, start: usize) -> (end: usize)
    requires
        start <= chars@.len(),
    ensures
        final(out)@ == old(out)@ + unicode_escape(
            chars@.skip(start as int).take(brace_index(chars@.skip(start as int)) as int),
        ),
        brace_index(chars@.skip(start as int)) < chars@.len() - start ==> end == start + brace_index(
            chars@.skip(start as int),
        ) + 1,
        brace_index(chars@.skip(start as int)) >= chars@.len() - start ==> end == chars@.len(),
{
    let ghost body = chars@.skip(start as int);
    let n = chars.len();
    let mut hex = String::new();
    let mut j: usize = start;
    while j < n && chars[j] != '}'
        invariant
            start <= j <= n,
            n == chars@.len(),
            body == chars@.skip(start as int),
            hex@ == chars@.subrange(start as int, j as int),
            forall|k: int| start <= k < j ==> chars@[k] != '}',
        decreases n - j,
    {
        push_char(&mut hex, chars[j]);
        proof {
            assert(hex@ =~= chars@.subrange(start as int, j + 1));
        }
        j += 1;
    }
    proof {
        let k = j - start;
        assert forall|x: int| 0 <= x < k implies body[x] != '}' by {
            assert(body[x] == chars@[start + x]);
        }
        if j < n {
            assert(body[k as int] == chars@[j as int]);
        }
        lemma_brace_index(body, k as int);
        assert(body.take(k as int) =~= hex@);
    }
    let cp: u32 = match hex_u32(hex.as_str()) {
        Some(v) => v,
        None => 0,
    };
    proof {
        reveal_strlit("\\u");
        reveal_strlit("\\U");
    }
    let ghost mid = out@;
    if cp <= 0xFFFF {
        out.append("\\u");
        push_hex(out, cp, 4, true);
        proof {
            assert(out@ =~= mid + (seq!['\\', 'u'] + zero_padded(hex_text(cp as nat, true), 4)));
        }
    } else {
        out.append("\\U");
        push_hex(out, cp, 8, true);
        proof {
            assert(out@ =~= mid + (seq!['\\', 'U'] + zero_padded(hex_text(cp as nat, true), 8)));
        }
    }
    if j < n {
        j + 1
    } else {
        n
    }
}

/// Rewrites Lisette escape sequences for a Go string or rune literal: `\\`
/// stays, octal `\NNN` becomes `\xHH`, `\u{H..}` becomes `\uHHHH` (or
/// `\UHHHHHHHH` above `FFFF`), and raw newlines and carriage returns are
/// escaped.
pub fn convert_escape_sequences(s: &str) -> (r: String)
    ensures
        r@ == escape_text(s@),
{
    let chars = chars_of(s);
    let n = chars.len();
    let mut result = String::new();
    let mut i: usize = 0;
    proof {
        assert(chars@.skip(0) =~= s@);
    }
    while i < n
        invariant
            i <= n,
            n == chars@.len(),
            chars@ == s@,
            result@ + escape_text(chars@.skip(i as int)) == escape_text(s@),
        decreases n - i,
    {
        let ghost rest = chars@.skip(i as int);
        let ghost before = result@;
        let c = chars[i];
        proof {
            assert(rest[0] == c);
        }
        if c == '\\' {
            if i + 1 < n && chars[i + 1] == '\\' {
                push_char(&mut result, '\\');
                push_char(&mut result, '\\');
                proof {
                    assert(rest[1] == chars@[i + 1]);
                    assert(rest.skip(2) =~= chars@.skip(i + 2));
                    assert(result@ =~= before + seq!['\\', '\\']);
                }
                i += 2;
            } else if i + 1 < n && is_octal(chars[i + 1]) {
                let end = push_octal_escape(&mut result, &chars, i + 1);
                proof {
                    assert(rest[1] == chars@[i + 1]);
                    assert(rest.skip(1) =~= chars@.skip(i + 1));
                    assert(rest.skip(1 + octal_run(rest.skip(1))) =~= chars@.skip(end as int));
                }
                i = end;
            } else if n - i > 2 && chars[i + 1] == 'u' && chars[i + 2] == '{' {
                let end = push_unicode_escape(&mut result, &chars, i + 3);
                proof {
                    assert(rest[1] == chars@[i + 1]);
                    assert(rest[2] == chars@[i + 2]);
                    let body = rest.skip(3);
                    assert(body =~= chars@.skip(i + 3));
                    let k = brace_index(body) as int;
                    if k < body.len() {
                        assert(body.skip(k + 1) =~= chars@.skip(end as int));
                    } else {
                        assert(chars@.skip(end as int) =~= Seq::<char>::empty());
                    }
                }
                i = end;
            } else {
                push_char(&mut result, '\\');
                proof {
                    if i + 1 < n {
                        assert(rest[1] == chars@[i + 1]);
                    }
                    if n - i > 2 {
                        assert(rest[2] == chars@[i + 2]);
                    }
                    assert(rest.skip(1) =~= chars@.skip(i + 1));
                }
                i += 1;
            }
        } else {
            if c == '\n' {
                push_char(&mut result, '\\');
                push_char(&mut result, 'n');
            } else if c == '\r' {
                push_char(&mut result, '\\');
                push_char(&mut result, 'r');
            } else {
                push_char(&mut result, c);
            }
            proof {
                assert(rest.skip(1) =~= chars@.skip(i + 1));
            }
            i += 1;
        }
    }
    result
}

} // verus!
