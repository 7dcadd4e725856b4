use emit::expressions::index_access::{emit_range_var_slice, range_var_bounds};
use emit::expressions::literals::{convert_escape_sequences, emit_raw_string};
use emit::expressions::struct_call::emit_struct_literal;
use emit::expressions::top_items::emit_doc;
use emit::expressions::values::is_plain_go_call;

#[test]
fn raw_strings_use_backticks_when_possible() {
    assert_eq!(emit_raw_string("a\\nb \"q\""), "`a\\nb \"q\"`");
    assert_eq!(emit_raw_string(""), "``");
    assert_eq!(emit_raw_string("tick`\\ \"x\"\n"), "\"tick`\\\\ \\\"x\\\"\\n\"");
    assert_eq!(emit_raw_string("cr\r"), "\"cr\\r\"");
}

#[test]
fn escapes_keep_backslashes_and_escape_line_breaks() {
    assert_eq!(convert_escape_sequences("plain"), "plain");
    assert_eq!(convert_escape_sequences("a\\\\b"), "a\\\\b");
    assert_eq!(convert_escape_sequences("line\nbreak\r"), "line\\nbreak\\r");
    assert_eq!(convert_escape_sequences("\\t\\q"), "\\t\\q");
    assert_eq!(convert_escape_sequences("end\\"), "end\\");
}

#[test]
fn octal_escapes_become_hex() {
    assert_eq!(convert_escape_sequences("\\101"), "\\x41");
    assert_eq!(convert_escape_sequences("\\0"), "\\x00");
    assert_eq!(convert_escape_sequences("\\777"), "\\x1ff");
    assert_eq!(convert_escape_sequences("\\1234"), "\\x534");
    assert_eq!(convert_escape_sequences("\\18"), "\\x018");
}

#[test]
fn unicode_escapes_are_padded() {
    assert_eq!(convert_escape_sequences("\\u{41}"), "\\u0041");
    assert_eq!(convert_escape_sequences("\\u{1F600}!"), "\\U0001F600!");
    assert_eq!(convert_escape_sequences("\\u{ffff}"), "\\uFFFF");
    assert_eq!(convert_escape_sequences("\\u{zz}x"), "\\u0000x");
    assert_eq!(convert_escape_sequences("\\u{+1f}"), "\\u001F");
    assert_eq!(convert_escape_sequences("\\u{}"), "\\u0000");
    assert_eq!(convert_escape_sequences("\\u{100000000}"), "\\u0000");
    assert_eq!(convert_escape_sequences("\\u{41"), "\\u0041");
    assert_eq!(convert_escape_sequences("\\u41"), "\\u41");
}

#[test]
fn range_variables_give_slice_bounds() {
    assert_eq!(range_var_bounds("r", "Range"), (Some("r.Start".to_string()), Some("r.End".to_string())));
    assert_eq!(range_var_bounds("r", "RangeInclusive"), (Some("r.Start".to_string()), Some("r.End+1".to_string())));
    assert_eq!(range_var_bounds("r", "RangeFrom"), (Some("r.Start".to_string()), None));
    assert_eq!(range_var_bounds("r", "RangeTo"), (None, Some("r.End".to_string())));
    assert_eq!(range_var_bounds("r", "RangeToInclusive"), (None, Some("r.End+1".to_string())));
}

#[test]
fn range_variable_slices_cap_capacity_when_asked() {
    assert_eq!(emit_range_var_slice("xs", "r", "Range", false), "xs[r.Start:r.End]");
    assert_eq!(emit_range_var_slice("xs", "r", "Range", true), "xs[r.Start:r.End:r.End]");
    assert_eq!(emit_range_var_slice("xs", "r", "RangeFrom", true), "xs[r.Start:len(xs):len(xs)]");
    assert_eq!(emit_range_var_slice("s", "r", "RangeFrom", false), "s[r.Start:]");
    assert_eq!(emit_range_var_slice("xs", "r", "RangeToInclusive", true), "xs[:r.End+1:r.End+1]");
}

#[test]
fn doc_comments_become_go_comments() {
    assert_eq!(emit_doc(&None), "");
    assert_eq!(emit_doc(&Some(String::new())), "");
    assert_eq!(emit_doc(&Some("hello\n\nworld".to_string())), "// hello\n//\n// world\n");
    assert_eq!(emit_doc(&Some("a\r\nb\n".to_string())), "// a\n// b\n");
    assert_eq!(emit_doc(&Some("x\r".to_string())), "// x\r\n");
    assert_eq!(emit_doc(&Some("\n".to_string())), "//\n");
}

#[test]
fn plain_go_calls() {
    assert!(is_plain_go_call("foo(x)"));
    assert!(is_plain_go_call("  pkg.Fn(a, b)\n"));
    assert!(is_plain_go_call("foo (x)"));
    assert!(!is_plain_go_call("len(x)"));
    assert!(!is_plain_go_call("make ([]int, 0)"));
    assert!(!is_plain_go_call("[]int(x)"));
    assert!(!is_plain_go_call("(x)"));
    assert!(!is_plain_go_call("foo"));
    assert!(!is_plain_go_call("f(x).g"));
    assert!(!is_plain_go_call("x)"));
    assert!(!is_plain_go_call(""));
}

#[test]
fn plain_go_call_is_a_single_call() {
    assert!(is_plain_go_call("pkg.F(x)"));
    assert!(is_plain_go_call("  f()  "));
    assert!(is_plain_go_call("f(g(x), h(y))"));
    assert!(is_plain_go_call("f(\")\", ')', `)`)"));
    assert!(is_plain_go_call("f(\"\\\")\")"));
    assert!(!is_plain_go_call("len(xs)"));
    assert!(!is_plain_go_call("make([]int, 0)"));
    assert!(!is_plain_go_call("x"));
    assert!(!is_plain_go_call("[]int(v)"));
    assert!(!is_plain_go_call("f(a) + g(b)"));
    assert!(!is_plain_go_call("f(a)(b)"));
    assert!(!is_plain_go_call("f(a))"));
    assert!(!is_plain_go_call("f(a, \")"));
}

fn fields(pairs: &[(&str, &str)]) -> Vec<(String, String)> {
    pairs.iter().map(|(n, v)| (n.to_string(), v.to_string())).collect()
}

#[test]
fn struct_literals_by_field_count() {
    assert_eq!(emit_struct_literal("Point", &[], false), "Point{}");
    assert_eq!(emit_struct_literal("Point", &fields(&[("X", "1")]), false), "Point{ X: 1 }");
    assert_eq!(emit_struct_literal("Point", &fields(&[("X", "1"), ("Y", "2")]), false), "Point{\nX: 1,\nY: 2,\n}");
}

#[test]
fn generic_struct_literals_are_wrapped_in_conditions() {
    assert_eq!(emit_struct_literal("Box[int]", &fields(&[("V", "1")]), true), "(Box[int]{ V: 1 })");
    assert_eq!(emit_struct_literal("Box[int]", &fields(&[("V", "1")]), false), "Box[int]{ V: 1 }");
    assert_eq!(emit_struct_literal("Point", &[], true), "Point{}");
}

#[test]
fn converted_text_never_holds_a_raw_line_break() {
    for input in ["a\nb", "\r\n", "\\\n", "\\u{a\n}", "\\\r\\12\n", "tab\there"] {
        let out = convert_escape_sequences(input);
        assert!(!out.contains('\n') && !out.contains('\r'), "{:?} -> {:?}", input, out);
    }
    assert_eq!(convert_escape_sequences("plain text, no escapes"), "plain text, no escapes");
}

#[test]
fn raw_strings_never_carry_a_carriage_return() {
    for input in ["a\rb", "`\r`", "x\r\n", "plain"] {
        assert!(!emit_raw_string(input).contains('\r'));
    }
    assert_eq!(emit_raw_string("keep \\ as is"), "`keep \\ as is`");
}
