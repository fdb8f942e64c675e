use rustbrush::strings::{eq_ignore_ascii_case, hex_string, lower_ascii_char, push_decimal, push_signed};

#[test]
fn hex_codes_are_upper_case_two_digits_per_channel() {
    assert_eq!(hex_string(0, 0, 0), "000000");
    assert_eq!(hex_string(255, 10, 171), "FF0AAB");
    assert_eq!(hex_string(1, 2, 3), format!("{:02X}{:02X}{:02X}", 1, 2, 3));
}

#[test]
fn decimal_text_matches_display() {
    let mut s = String::from("n=");
    push_decimal(&mut s, 0);
    assert_eq!(s, "n=0");
    let mut s = String::new();
    push_decimal(&mut s, u64::MAX);
    assert_eq!(s, u64::MAX.to_string());
    for i in [0i32, 7, -7, 1234, -1234, i32::MIN, i32::MAX] {
        let mut s = String::new();
        push_signed(&mut s, i);
        assert_eq!(s, i.to_string());
    }
}

#[test]
fn ascii_case_folding() {
    assert!(eq_ignore_ascii_case("Rust Sign", "rUST sIGN"));
    assert!(!eq_ignore_ascii_case("abc", "abd"));
    assert!(!eq_ignore_ascii_case("abc", "abcd"));
    assert!(!eq_ignore_ascii_case("é", "É"));
    assert_eq!(lower_ascii_char('Q'), 'q');
    assert_eq!(lower_ascii_char('7'), '7');
}
