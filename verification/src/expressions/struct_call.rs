//! Go composite literals for struct construction.
use vstd::prelude::*;

use crate::text::{chars_of, join, join_strings, strings_view};

verus! {

/// One field initialiser on its own line: `name: value,`.
pub open spec fn field_line(f: (Seq<char>, Seq<char>)) -> Seq<char> {
    f.0 + ": "@ + f.1 + ","@
}

/// The composite literal: `T{}` with no fields, `T{ name: value }` with
/// one, and one `name: value,` line per field otherwise; in a condition a
/// generic type (its name holds `[`) is wrapped in parentheses.
pub open spec fn struct_literal_text(ty: Seq<char>, fields: Seq<(Seq<char>, Seq<char>)>, is_condition: bool) -> Seq<char> {
    let raw = if fields.len() == 0 {
        ty + "{}"@
    } else if fields.len() == 1 {
        ty + "{ "@ + fields[0].0 + ": "@ + fields[0].1 + " }"@
    } else {
        ty + "{\n"@ + join(fields.map_values(|f: (Seq<char>, Seq<char>)| field_line(f)), "\n"@)
            + "\n}"@
    };
    if is_condition && ty.contains('[') {
        "("@ + raw + ")"@
    } else {
        raw
    }
}

/// The plain view of `(name, value)` field pairs.
pub open spec fn fields_view(fields: Seq<(String, String)>) -> Seq<(Seq<char>, Seq<char>)> {
    fields.map_values(|f: (String, String)| (f.0@, f.1@))
}

fn contains_bracket(s: &str) -> (r: bool)
    ensures
        r == s@.contains('['),
{
    let chars = chars_of(s);
    let mut i: usize = 0;
    while i < chars.len()
        invariant
            i <= chars@.len(),
            chars@ == s@,
            forall|k: int| 0 <= k < i ==> chars@[k] != '[',
        decreases chars@.len() - i,
    {
        if chars[i] == '[' {
            proof {
                assert(s@[i as int] == '[');
            }
            return true;
        }
        i += 1;
    }
    false
}

/// Renders a struct literal of Go type `ty` with `(field, value)` pairs;
/// `is_condition` says whether it stands in an `if`, `for` or `switch`
/// header.
pub fn emit_struct_literal(ty: &str, fields: &[(String, String)], is_condition: bool) -> (r: String)
    ensures
        r@ == struct_literal_text(ty@, fields_view(fields@), is_condition),
{
    let ghost fv = fields_view(fields@);
    let mut raw = String::from_str(ty);
    if fields.len() == 0 {
        raw.append("{}");
    } else if fields.len() == 1 {
        raw.append("{ ");
        raw.append(fields[0].0.as_str());
        raw.append(": ");
        raw.append(fields[0].1.as_str());
        raw.append(" }");
        proof {
            assert(fv[0] == (fields@[0].0@, fields@[0].1@));
        }
    } else {
        let mut lines: Vec<String> = Vec::new();
        let mut i: usize = 0;
        while i < fields.len()
            invariant
                i <= fields@.len(),
                fv == fields_view(fields@),
                strings_view(lines@) == fv.take(i as int).map_values(
                    |f: (Seq<char>, Seq<char>)| field_line(f),
                ),
            decreases fields@.len() - i,
        {
            let mut line = String::from_str(fields[i].0.as_str());
            line.append(": ");
            line.append(fields[i].1.as_str());
            line.append(",");
            let ghost before = lines@;
            lines.push(line);
            proof {
                assert(fv[i as int] == (fields@[i as int].0@, fields@[i as int].1@));
                assert(strings_view(lines@) =~= strings_view(before).push(field_line(fv[i as int])));
                assert(fv.take(i + 1).map_values(|f: (Seq<char>, Seq<char>)| field_line(f))
                    =~= fv.take(i as int).map_values(|f: (Seq<char>, Seq<char>)| field_line(f)).push(
                    field_line(fv[i as int]),
                ));
            }
            i += 1;
        }
        proof {
            assert(fv.take(i as int) =~= fv);
        }
        let body = join_strings(&lines, "\n");
        raw.append("{\n");
        raw.append(body.as_str());
        raw.append("\n}");
    }
    if is_condition && contains_bracket(ty) {
        let mut wrapped = String::from_str("(");
        wrapped.append(raw.as_str());
        wrapped.append(")");
        wrapped
    } else {
        raw
    }
}

} // verus!
