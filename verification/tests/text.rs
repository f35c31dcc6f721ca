use hive::text::{decimal_text, lex_less, same_text};

#[test]
fn decimal_text_writes_plain_decimal() {
    assert_eq!(decimal_text(0), "0");
    assert_eq!(decimal_text(7), "7");
    assert_eq!(decimal_text(10), "10");
    assert_eq!(decimal_text(1234567), "1234567");
    assert_eq!(decimal_text(u64::MAX), "18446744073709551615");
}

#[test]
fn text_order_and_equality() {
    assert!(lex_less("apple", "banana"));
    assert!(!lex_less("banana", "apple"));
    assert!(lex_less("app", "apple"));
    assert!(!lex_less("same", "same"));
    assert!(same_text("pod", "pod"));
    assert!(!same_text("pod", "pods"));
}
