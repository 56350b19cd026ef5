use imos::text::{contains_text, decimal_text, same_bytes};

#[test]
fn numbers_are_written_in_decimal() {
    assert_eq!(decimal_text(0), "0");
    assert_eq!(decimal_text(9), "9");
    assert_eq!(decimal_text(10), "10");
    assert_eq!(decimal_text(1234567890), "1234567890");
    assert_eq!(decimal_text(u64::MAX), "18446744073709551615");
}

#[test]
fn texts_are_found_in_lists() {
    let list = vec!["a".to_owned(), "b".to_owned()];
    assert!(contains_text(&list, &"b".to_owned()));
    assert!(!contains_text(&list, &"c".to_owned()));
    assert!(!contains_text(&[], &"a".to_owned()));
}

#[test]
fn byte_strings_are_compared() {
    assert!(same_bytes(b"ab", b"ab"));
    assert!(!same_bytes(b"ab", b"ac"));
    assert!(!same_bytes(b"ab", b"abc"));
    assert!(same_bytes(b"", b""));
}
