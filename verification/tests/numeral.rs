use jz::numeral::{is_digit_char, push_decimal, push_two_digits};

#[test]
fn push_decimal_writes_digits() {
    let mut s = String::from("n=");
    push_decimal(&mut s, 0);
    push_decimal(&mut s, 7);
    push_decimal(&mut s, 1234567890);
    assert_eq!(s, "n=071234567890");
    let mut t = String::new();
    push_decimal(&mut t, u128::MAX);
    assert_eq!(t, u128::MAX.to_string());
}

#[test]
fn push_two_digits_pads() {
    let mut s = String::new();
    push_two_digits(&mut s, 0);
    push_two_digits(&mut s, 7);
    push_two_digits(&mut s, 42);
    push_two_digits(&mut s, 99);
    assert_eq!(s, "00074299");
}

#[test]
fn digits_are_the_ascii_digits() {
    for c in '0'..='9' {
        assert!(is_digit_char(c));
    }
    assert!(!is_digit_char('/'));
    assert!(!is_digit_char(':'));
    assert!(!is_digit_char('a'));
    assert!(!is_digit_char('٣'));
}
