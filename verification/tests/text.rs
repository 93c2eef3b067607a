use zila::text::{push_decimal, push_signed_decimal, str_eq};

#[test]
fn decimal_numerals() {
    let mut out = String::from("n=");
    push_decimal(&mut out, 0);
    out.push(' ');
    push_decimal(&mut out, 7);
    out.push(' ');
    push_decimal(&mut out, 10);
    out.push(' ');
    push_decimal(&mut out, 1024);
    out.push(' ');
    push_decimal(&mut out, u128::MAX);
    assert_eq!(out, format!("n=0 7 10 1024 {}", u128::MAX));
}

#[test]
fn signed_numerals() {
    let mut out = String::new();
    push_signed_decimal(&mut out, 0);
    out.push(' ');
    push_signed_decimal(&mut out, -1);
    out.push(' ');
    push_signed_decimal(&mut out, 42);
    out.push(' ');
    push_signed_decimal(&mut out, i64::MIN);
    out.push(' ');
    push_signed_decimal(&mut out, i64::MAX);
    assert_eq!(out, "0 -1 42 -9223372036854775808 9223372036854775807");
}

#[test]
fn equal_texts() {
    assert!(str_eq("", ""));
    assert!(str_eq("dup", "dup"));
    assert!(!str_eq("dup", "dub"));
    assert!(!str_eq("dup", "du"));
    assert!(!str_eq("", "a"));
    assert!(str_eq("é", "é"));
}
