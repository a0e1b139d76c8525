use bitdispatch::literal::parse_bit_literal;

#[test]
fn plain_binary_literals_parse() {
    assert_eq!(parse_bit_literal("0"), Some(0));
    assert_eq!(parse_bit_literal("1"), Some(1));
    assert_eq!(parse_bit_literal("00"), Some(0));
    assert_eq!(parse_bit_literal("11"), Some(3));
    assert_eq!(parse_bit_literal("1010"), Some(10));
}

#[test]
fn prefixed_binary_literals_parse() {
    assert_eq!(parse_bit_literal("0b00"), Some(0));
    assert_eq!(parse_bit_literal("0b101"), Some(5));
    assert_eq!(parse_bit_literal("0B11"), Some(3));
}

#[test]
fn leading_zeros_do_not_change_the_value() {
    assert_eq!(parse_bit_literal("000101"), Some(5));
    assert_eq!(parse_bit_literal("0b0000000000000000000000000000000000000000000000000000000000000000000001"), Some(1));
}

#[test]
fn sixty_four_ones_is_the_largest_literal() {
    let ones: String = std::iter::repeat('1').take(64).collect();
    assert_eq!(parse_bit_literal(&ones), Some(u64::MAX));
    let mut too_big = String::from("1");
    too_big.push_str(&"0".repeat(64));
    assert_eq!(parse_bit_literal(&too_big), None);
}

#[test]
fn malformed_literals_are_rejected() {
    assert_eq!(parse_bit_literal(""), None);
    assert_eq!(parse_bit_literal("0b"), None);
    assert_eq!(parse_bit_literal("12"), None);
    assert_eq!(parse_bit_literal("0b0x1"), None);
    assert_eq!(parse_bit_literal("abc"), None);
}
