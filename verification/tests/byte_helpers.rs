use jar_remap::bytes::{bytes_eq, ends_with, extend_bytes, extend_range, find_byte, find_sub};

fn b(s: &str) -> Vec<u8> {
    s.as_bytes().to_vec()
}

#[test]
fn bytes_eq_compares_content() {
    assert!(bytes_eq(&b("abc"), &b("abc")));
    assert!(!bytes_eq(&b("abc"), &b("abd")));
    assert!(!bytes_eq(&b("abc"), &b("ab")));
    assert!(bytes_eq(&b(""), &b("")));
}

#[test]
fn ends_with_checks_the_suffix() {
    assert!(ends_with(&b("Main.java"), &b(".java")));
    assert!(!ends_with(&b("Main.javax"), &b(".java")));
    assert!(!ends_with(&b("va"), &b(".java")));
}

#[test]
fn find_byte_returns_first_hit_or_length() {
    assert_eq!(find_byte(&b("a,b,c"), 44u8, 0), 1);
    assert_eq!(find_byte(&b("a,b,c"), 44u8, 2), 3);
    assert_eq!(find_byte(&b("abc"), 44u8, 0), 3);
}

#[test]
fn find_sub_returns_leftmost_occurrence() {
    assert_eq!(find_sub(&b("my.jar.jar"), &b(".jar")), Some(2));
    assert_eq!(find_sub(&b("plain"), &b(".jar")), None);
    assert_eq!(find_sub(&b("x"), &b("")), Some(0));
}

#[test]
fn extend_helpers_append() {
    let mut out = b("ab");
    extend_range(&mut out, &b("0123456"), 2, 5);
    assert_eq!(out, b("ab234"));
    extend_bytes(&mut out, &b("!"));
    assert_eq!(out, b("ab234!"));
}
