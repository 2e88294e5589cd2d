use evaluations::text::{
    compare_bytes, lines_of, parse_u64, push_decimal, text_lex_le,
    text_shortlex_le, trimmed_piece, KeyOrder, NumeralError,
};

#[test]
fn decimal_numerals() {
    for n in [0u64, 7, 1234567890, u64::MAX] {
        let mut s = String::new();
        push_decimal(&mut s, n);
        assert_eq!(s, n.to_string());
    }
    let mut s = String::from("x=");
    push_decimal(&mut s, 42);
    assert_eq!(s, "x=42");
}

#[test]
fn parse_u64_agrees_with_std() {
    for text in ["0", "42", "+7", "007", "18446744073709551615"] {
        assert_eq!(parse_u64(text).ok(), text.parse::<u64>().ok(), "{}", text);
    }
    assert_eq!(parse_u64("42"), Ok(42));
    assert_eq!(parse_u64("+7"), Ok(7));
    assert_eq!(parse_u64("18446744073709551615"), Ok(u64::MAX));
    assert_eq!(parse_u64(""), Err(NumeralError::Empty));
    assert_eq!(parse_u64("+"), Err(NumeralError::InvalidDigit));
    assert_eq!(parse_u64("-1"), Err(NumeralError::InvalidDigit));
    assert_eq!(parse_u64("12a"), Err(NumeralError::InvalidDigit));
    assert_eq!(parse_u64("18446744073709551616"), Err(NumeralError::Overflow));
}

#[test]
fn numeral_messages_are_std_messages() {
    for (text, kind) in [("", NumeralError::Empty), ("x", NumeralError::InvalidDigit), ("99999999999999999999", NumeralError::Overflow)] {
        let std_message = text.parse::<u64>().unwrap_err().to_string();
        assert_eq!(kind.message(), std_message);
        assert_eq!(parse_u64(text).unwrap_err().message(), std_message);
    }
}

#[test]
fn lines_follow_str_lines() {
    for text in ["", "a", "a\n", "a\nb", "a\r\nb\r\n", "\n\nx", "one\ttwo\nthree\r"] {
        let expected: Vec<String> = text.lines().map(str::to_string).collect();
        assert_eq!(lines_of(text), expected, "{:?}", text);
    }
}

#[test]
fn trimmed_pieces() {
    let v: Vec<char> = "  ab c \t".chars().collect();
    assert_eq!(trimmed_piece(&v, 0, v.len()), "ab c");
    assert_eq!(trimmed_piece(&v, 0, 2), "");
    assert_eq!(trimmed_piece(&v, 2, 4), "ab");
}

#[test]
fn text_orders() {
    assert!(text_lex_le("R(", "^("));
    assert!(!text_lex_le("^(", "R("));
    assert!(text_lex_le("ab", "abc"));
    assert!(text_lex_le("abc", "abc"));
    assert!(text_shortlex_le("^(0)", "R(^(#),0,0)"));
    assert!(!text_shortlex_le("R(^(#),0,0)", "^(0)"));
    assert!(text_shortlex_le("R(0)", "^(0)"));
    assert!(!text_shortlex_le("^(0)", "R(0)"));
}

#[test]
fn byte_comparison() {
    assert!(matches!(compare_bytes(b"a", b"b"), KeyOrder::Before));
    assert!(matches!(compare_bytes(b"b", b"a"), KeyOrder::After));
    assert!(matches!(compare_bytes(b"ab", b"ab"), KeyOrder::Same));
    assert!(matches!(compare_bytes(b"ab", b"abc"), KeyOrder::Before));
    assert!(matches!(compare_bytes(b"", b""), KeyOrder::Same));
}
