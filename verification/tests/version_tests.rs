use core::cmp::Ordering;
use pubgrub_debian::debian_version::{DebianVersion, Token};

#[test]
fn test_tokenize_starts_with_digit() {
    let tokens = DebianVersion::tokenize_str("1.2");
    // Expected tokens: [Token::Str(""), Token::Num(1), Token::Str("."), Token::Num(2)]
    assert_eq!(tokens.len(), 4);

    match &tokens[0] {
        Token::Str(s) => assert!(s.is_empty(), "Expected first token to be empty"),
        _ => panic!("Expected first token to be a string"),
    }
    match tokens[1] {
        Token::Num(n) => assert_eq!(n, 1),
        _ => panic!("Expected second token to be a number"),
    }
    match &tokens[2] {
        Token::Str(s) => assert_eq!(s, "."),
        _ => panic!("Expected third token to be a string"),
    }
    match tokens[3] {
        Token::Num(n) => assert_eq!(n, 2),
        _ => panic!("Expected fourth token to be a number"),
    }
}

#[test]
fn test_ordering() {
    // Example ordering from the documentation:
    // "~~", "~", "~beta2", "~beta10", "0.1", "1.0~beta", "1.0", "1.0-test",
    // "1.0.1", "1.0.10", "dev", "trunk"
    let mut versions = vec![
        DebianVersion("1.0-test".to_string()),
        DebianVersion("1.0.10".to_string()),
        DebianVersion("1.0~beta".to_string()),
        DebianVersion("1.0".to_string()),
        DebianVersion("~beta2".to_string()),
        DebianVersion("trunk".to_string()),
        DebianVersion("0.1".to_string()),
        DebianVersion("dev".to_string()),
        DebianVersion("~~".to_string()),
        DebianVersion("1.0.1".to_string()),
        DebianVersion("~".to_string()),
        DebianVersion("~beta10".to_string()),
    ];

    versions.sort_by(|a, b| a.compare(b));

    let expected_order = vec![
        "~~", "~", "~beta2", "~beta10", "0.1", "1.0~beta", "1.0", "1.0-test", "1.0.1",
        "1.0.10", "dev", "trunk",
    ]
    .into_iter()
    .map(|s| s.to_string())
    .collect::<Vec<_>>();

    let sorted_versions = versions.iter().map(|v| v.0.clone()).collect::<Vec<_>>();

    assert_eq!(sorted_versions, expected_order);
}

#[test]
fn test_comparison_specific() {
    let v1 = DebianVersion("1.0~beta".to_string());
    let v2 = DebianVersion("1.0".to_string());
    // We expect "1.0~beta" to be less than "1.0"
    assert!(
        matches!(v1.compare(&v2), Ordering::Less),
        "Expected '1.0~beta' to be less than '1.0'"
    );
}

#[test]
fn test_epoch_dominance() {
    let a = DebianVersion("2:0.1".to_string());
    let b = DebianVersion("1:9.9".to_string());
    assert_eq!(a.compare(&b), Ordering::Greater);
    assert_eq!(b.compare(&a), Ordering::Less);
}

#[test]
fn test_compare_equal_decompositions() {
    // "1.0" and "1.0-0" decompose to the same parts, as do "0:1.0" and "1.0".
    let a = DebianVersion("1.0".to_string());
    let b = DebianVersion("1.0-0".to_string());
    let c = DebianVersion("0:1.0".to_string());
    assert_eq!(a.compare(&b), Ordering::Equal);
    assert_eq!(a.compare(&c), Ordering::Equal);
}

#[test]
fn test_split_fields() {
    let v = DebianVersion("1:7.9p1-10+deb10u2".to_string());
    let (epoch, upstream, revision) = v.split();
    assert_eq!(epoch, 1);
    assert_eq!(upstream, "7.9p1");
    assert_eq!(revision, "10+deb10u2");

    let w = DebianVersion("2.4.7".to_string());
    let (epoch, upstream, revision) = w.split();
    assert_eq!(epoch, 0);
    assert_eq!(upstream, "2.4.7");
    assert_eq!(revision, "0");
}

#[test]
fn test_numeric_overflow_reads_as_zero() {
    // A digit run too large for u64 reads as 0, as unwrap_or(0) did.
    let big = DebianVersion("99999999999999999999999".to_string());
    let one = DebianVersion("1".to_string());
    assert_eq!(big.compare(&one), Ordering::Less);
}

#[test]
fn test_letters_sort_before_non_letters() {
    let a = DebianVersion("1.0a".to_string());
    let b = DebianVersion("1.0+".to_string());
    assert_eq!(a.compare(&b), Ordering::Less);
}

#[test]
fn test_non_ascii_letters_sort_before_non_letters() {
    // '\u{e9}' is a letter outside ASCII: it still sorts before a
    // non-letter, although its codepoint is larger.
    let a = DebianVersion("1.0\u{e9}".to_string());
    let b = DebianVersion("1.0+".to_string());
    assert_eq!(a.compare(&b), Ordering::Less);
    assert_eq!(b.compare(&a), Ordering::Greater);
    // and two letters compare by codepoint
    let c = DebianVersion("1.0z".to_string());
    assert_eq!(c.compare(&a), Ordering::Less);
}

#[test]
fn test_unicode_whitespace_is_trimmed() {
    // '\u{a0}' is whitespace outside ASCII: it is trimmed before the
    // version is split, so the epoch is still read.
    let v = DebianVersion("\u{a0}1:2\u{2003}".to_string());
    let (epoch, upstream, revision) = v.split();
    assert_eq!(epoch, 1);
    assert_eq!(upstream, "2");
    assert_eq!(revision, "0");
    let w = DebianVersion("2:0".to_string());
    assert_eq!(v.compare(&w), Ordering::Less);
}
