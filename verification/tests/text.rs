use emit::text::{chars_of, join_strings, push_decimal, starts_with_char};

#[test]
fn decimal_rendering() {
    let mut s = String::from("n=");
    push_decimal(&mut s, 0);
    s.push(',');
    push_decimal(&mut s, 1207);
    assert_eq!(s, "n=0,1207");
}

#[test]
fn joining_and_comparing() {
    assert_eq!(join_strings(&vec![], ", "), "");
    assert_eq!(join_strings(&vec!["a".to_string()], ", "), "a");
    assert_eq!(join_strings(&vec!["a".to_string(), "b".to_string(), "c".to_string()], " && "), "a && b && c");
    assert!(starts_with_char("-x", '-'));
    assert!(!starts_with_char("", '-'));
    assert_eq!(chars_of("héllo"), vec!['h', 'é', 'l', 'l', 'o']);
}
