use bitdispatch::errors::ErrorKind;
use bitdispatch::pattern::{make_full_mask, parse_pattern};

#[test]
fn parse_exact_pattern() {
    let p = parse_pattern("00011000").unwrap();
    assert_eq!(p.bit_width, 8);
    assert_eq!(p.mask, 0xFF);
    assert_eq!(p.value, 0x18);
    assert_eq!(p.wildcard_bits, 0);
    assert_eq!(p.variables.len(), 0);
}

#[test]
fn parse_wildcard_pattern() {
    let p = parse_pattern("101000__").unwrap();
    assert_eq!(p.mask, 0b1111_1100);
    assert_eq!(p.value, 0b1010_0000);
    assert_eq!(p.wildcard_bits, 0b0000_0011);
    assert_eq!(p.variables.len(), 0);
}

#[test]
fn parse_dot_wildcard() {
    let p = parse_pattern("1010.._.").unwrap();
    assert_eq!(p.mask, 0b1111_0000);
    assert_eq!(p.value, 0b1010_0000);
    assert_eq!(p.wildcard_bits, 0b0000_1111);
}

#[test]
fn parse_variable_pattern() {
    let p = parse_pattern("11rr____").unwrap();
    assert_eq!(p.mask, 0b1100_0000);
    assert_eq!(p.value, 0b1100_0000);
    assert_eq!(p.wildcard_bits, 0b0000_1111);
    assert_eq!(p.variables.len(), 1);
    assert_eq!(p.variables[0].name, 'r');
    assert_eq!(p.variables[0].start, 4);
    assert_eq!(p.variables[0].width, 2);
}

#[test]
fn parse_two_variables() {
    let p = parse_pattern("10rrqq01").unwrap();
    assert_eq!(p.variables.len(), 2);
    assert_eq!(p.variables[0].name, 'r');
    assert_eq!(p.variables[0].start, 4);
    assert_eq!(p.variables[0].width, 2);
    assert_eq!(p.variables[1].name, 'q');
    assert_eq!(p.variables[1].start, 2);
    assert_eq!(p.variables[1].width, 2);
}

#[test]
fn parse_length_seven_fails() {
    assert_eq!(
        parse_pattern("0000000"),
        Err(ErrorKind::PatternLength { len: 7 })
    );
}

#[test]
fn parse_length_nine_fails() {
    assert_eq!(
        parse_pattern("000000000"),
        Err(ErrorKind::PatternLength { len: 9 })
    );
}

#[test]
fn parse_sixteen_bit_pattern() {
    let p = parse_pattern("0101010101010101").unwrap();
    assert_eq!(p.bit_width, 16);
    assert_eq!(p.mask, 0xFFFF);
    assert_eq!(p.value, 0x5555);
}

#[test]
fn parse_sixty_four_bit_pattern() {
    let mut s = String::new();
    for _ in 0..64 {
        s.push('1');
    }
    let p = parse_pattern(&s).unwrap();
    assert_eq!(p.bit_width, 64);
    assert_eq!(p.mask, u64::MAX);
    assert_eq!(p.value, u64::MAX);
}

#[test]
fn parse_invalid_character_fails() {
    assert_eq!(
        parse_pattern("000000Z0"),
        Err(ErrorKind::PatternChar { ch: 'Z' })
    );
    assert_eq!(
        parse_pattern("00000020"),
        Err(ErrorKind::PatternChar { ch: '2' })
    );
}

#[test]
fn parse_noncontiguous_variable_fails() {
    assert_eq!(
        parse_pattern("a00a____"),
        Err(ErrorKind::NonContiguousVariable { name: 'a' })
    );
}

#[test]
fn full_masks() {
    assert_eq!(make_full_mask(8), 0xFF);
    assert_eq!(make_full_mask(16), 0xFFFF);
    assert_eq!(make_full_mask(32), 0xFFFF_FFFF);
    assert_eq!(make_full_mask(64), 0xFFFF_FFFF_FFFF_FFFF);
}
