use npurag::text::{
    hex16, join, nonblank, parse_usize, rsplit_once, split_once, strip_prefix, trim,
    trim_end_matches, trim_start_matches, usize_decimal,
};

#[test]
fn trimming_follows_unicode_whitespace() {
    assert_eq!(trim("  \t a b \n"), "a b");
    assert_eq!(trim("\u{3000}x\u{a0}"), "x");
    assert_eq!(trim("   "), "");
    assert_eq!(trim_end_matches("http://h/v1///", '/'), "http://h/v1");
    assert_eq!(trim_start_matches("//a/b", '/'), "a/b");
}

#[test]
fn splitting_finds_the_first_and_last_separator() {
    assert_eq!(split_once("a=b=c", '='), Some(("a".to_string(), "b=c".to_string())));
    assert_eq!(rsplit_once("a:b:c", ':'), Some(("a:b".to_string(), "c".to_string())));
    assert_eq!(split_once("abc", '='), None);
    assert_eq!(strip_prefix("Bearer x", "Bearer "), Some("x".to_string()));
    assert_eq!(strip_prefix("Bear", "Bearer "), None);
}

#[test]
fn numbers_parse_as_rust_parses_them() {
    assert_eq!(parse_usize("42"), Some(42));
    assert_eq!(parse_usize("+7"), Some(7));
    assert_eq!(parse_usize("007"), Some(7));
    assert_eq!(parse_usize(""), None);
    assert_eq!(parse_usize("+"), None);
    assert_eq!(parse_usize("-1"), None);
    assert_eq!(parse_usize("1.5"), None);
    assert_eq!(parse_usize("99999999999999999999999"), None);
    assert_eq!(parse_usize(&usize::MAX.to_string()), Some(usize::MAX));
}

#[test]
fn numbers_print_as_rust_prints_them() {
    for n in [0usize, 7, 10, 64, 1234567, usize::MAX] {
        assert_eq!(usize_decimal(n), n.to_string());
    }
    for h in [0u64, 1, 0xdead_beef, u64::MAX] {
        assert_eq!(hex16(h), format!("{h:016x}"));
    }
}

#[test]
fn joining_and_blank_arguments() {
    assert_eq!(join(&vec!["a".to_string(), "b".to_string()], ", "), "a, b");
    assert_eq!(join(&vec![], ", "), "");
    assert_eq!(nonblank("  x "), Some("x".to_string()));
    assert_eq!(nonblank("  "), None);
}
