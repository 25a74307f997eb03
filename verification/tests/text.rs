use rust_labs::text::{decimal_i64, decimal_u64, same_text};

#[test]
fn decimal_of_signed_numbers() {
    assert_eq!(decimal_i64(0), "0");
    assert_eq!(decimal_i64(7), "7");
    assert_eq!(decimal_i64(-7), "-7");
    assert_eq!(decimal_i64(1234567890), "1234567890");
    assert_eq!(decimal_i64(i64::MAX), "9223372036854775807");
    assert_eq!(decimal_i64(i64::MIN), "-9223372036854775808");
}

#[test]
fn decimal_of_unsigned_numbers() {
    assert_eq!(decimal_u64(0), "0");
    assert_eq!(decimal_u64(10), "10");
    assert_eq!(decimal_u64(109), "109");
    assert_eq!(decimal_u64(u64::MAX), "18446744073709551615");
}

#[test]
fn same_text_compares_characters() {
    assert!(same_text("", ""));
    assert!(same_text("abc", "abc"));
    assert!(!same_text("abc", "abd"));
    assert!(!same_text("abc", "ab"));
    assert!(!same_text("", "a"));
    assert!(same_text("\u{17c}\u{f3}\u{142}w", "\u{17c}\u{f3}\u{142}w"));
    assert!(!same_text("\u{17c}", "\u{17b}"));
}
