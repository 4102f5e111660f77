use memlib::{parse_base_address, parse_bracket_notation, parse_hex_or_dec, parse_offsets};

#[test]
fn test_parse_offsets() {
    assert_eq!(parse_offsets("0x3C4+0xC8+0x10").unwrap(), vec![0x3C4, 0xC8, 0x10]);
    assert_eq!(parse_offsets("0x3C4,0xC8,0x10").unwrap(), vec![0x3C4, 0xC8, 0x10]);
    assert_eq!(parse_offsets("100+200").unwrap(), vec![100, 200]);
    assert_eq!(parse_offsets("-0x10+0x20").unwrap(), vec![-0x10, 0x20]);
}

#[test]
fn test_parse_base_address() {
    assert_eq!(parse_base_address("1599610").unwrap(), 0x1599610);
    assert_eq!(parse_base_address("0x1599610").unwrap(), 0x1599610);
}

#[test]
fn offsets_in_bracket_notation() {
    assert_eq!(parse_offsets("[[[base]+0x40]+0x20]+0x0").unwrap(), vec![0x40, 0x20, 0x0]);
    assert_eq!(parse_offsets("  [[BASE]+0x40]+0x20]  ").unwrap(), vec![0x40, 0x20]);
    assert_eq!(parse_offsets("[[0x10]+0x8]+4").unwrap(), vec![0x10, 0x8, 4]);
    assert_eq!(parse_offsets("[[base]+0x8]+junk]+0x4").unwrap(), vec![0x8, 0x4]);
    assert_eq!(parse_offsets("[0x10").unwrap(), vec![0x10]);
    assert_eq!(parse_bracket_notation("[[base]++0x8]").unwrap(), vec![0x8]);
}

#[test]
fn offsets_in_plain_notation() {
    assert_eq!(parse_offsets("").unwrap(), Vec::<i64>::new());
    assert_eq!(parse_offsets("   ").unwrap(), Vec::<i64>::new());
    assert_eq!(parse_offsets("0x10 0x20,,0x30++").unwrap(), vec![0x10, 0x20, 0x30]);
    assert_eq!(parse_offsets("0x10\t+ 8").unwrap(), vec![0x10, 8]);
}

#[test]
fn offsets_first_error_is_reported() {
    assert_eq!(
        parse_offsets("0x10+zz+0xqq").unwrap_err(),
        "Invalid number: invalid digit found in string"
    );
    assert_eq!(
        parse_offsets("0x10+0xqq+zz").unwrap_err(),
        "Invalid hex: invalid digit found in string"
    );
}

#[test]
fn single_offsets() {
    assert_eq!(parse_hex_or_dec("0x10").unwrap(), 16);
    assert_eq!(parse_hex_or_dec("0XfF").unwrap(), 255);
    assert_eq!(parse_hex_or_dec("-0x10").unwrap(), -16);
    assert_eq!(parse_hex_or_dec(" 42 ").unwrap(), 42);
    assert_eq!(parse_hex_or_dec("+7").unwrap(), 7);
    assert_eq!(parse_hex_or_dec("--5").unwrap(), 5);
    assert_eq!(parse_hex_or_dec("0x-5").unwrap(), -5);
    assert_eq!(parse_hex_or_dec("9223372036854775807").unwrap(), i64::MAX);
    assert_eq!(parse_hex_or_dec("--9223372036854775808").unwrap(), i64::MIN);
}

#[test]
fn single_offset_errors() {
    assert_eq!(
        parse_hex_or_dec("").unwrap_err(),
        "Invalid number: cannot parse integer from empty string"
    );
    assert_eq!(parse_hex_or_dec("-").unwrap_err(), "Invalid number: cannot parse integer from empty string");
    assert_eq!(parse_hex_or_dec("+").unwrap_err(), "Invalid number: invalid digit found in string");
    assert_eq!(parse_hex_or_dec("0x").unwrap_err(), "Invalid hex: cannot parse integer from empty string");
    assert_eq!(parse_hex_or_dec("0xZZ").unwrap_err(), "Invalid hex: invalid digit found in string");
    assert_eq!(
        parse_hex_or_dec("99999999999999999999").unwrap_err(),
        "Invalid number: number too large to fit in target type"
    );
    assert_eq!(
        parse_hex_or_dec("-9223372036854775808").unwrap_err(),
        "Invalid number: number too large to fit in target type"
    );
    assert_eq!(
        parse_hex_or_dec("0x-8000000000000001").unwrap_err(),
        "Invalid hex: number too small to fit in target type"
    );
    assert_eq!(
        parse_hex_or_dec("99999999999999999999x").unwrap_err(),
        "Invalid number: number too large to fit in target type"
    );
    assert_eq!(parse_hex_or_dec("1x99999999999999999999").unwrap_err(), "Invalid number: invalid digit found in string");
}

#[test]
fn base_addresses() {
    assert_eq!(parse_base_address("10").unwrap(), 0x10);
    assert_eq!(parse_base_address(" 0XABCDEF ").unwrap(), 0xABCDEF);
    assert_eq!(parse_base_address("7FF6A1B2C3D0").unwrap(), 0x7FF6A1B2C3D0);
    assert_eq!(parse_base_address("18446744073709551615").unwrap(), u64::MAX);
    assert_eq!(parse_base_address("+ff").unwrap(), 0xff);
}

#[test]
fn base_address_errors() {
    assert_eq!(parse_base_address("").unwrap_err(), "Empty address");
    assert_eq!(parse_base_address("  \t ").unwrap_err(), "Empty address");
    assert_eq!(parse_base_address("0xZZ").unwrap_err(), "Invalid hex address: invalid digit found in string");
    assert_eq!(parse_base_address("zz").unwrap_err(), "Invalid address: invalid digit found in string");
    assert_eq!(parse_base_address("-5").unwrap_err(), "Invalid address: invalid digit found in string");
    assert_eq!(
        parse_base_address("0x10000000000000000").unwrap_err(),
        "Invalid hex address: number too large to fit in target type"
    );
    assert_eq!(
        parse_base_address("99999999999999999999").unwrap_err(),
        "Invalid address: number too large to fit in target type"
    );
}

#[test]
fn plus_and_comma_separate_alike() {
    for text in ["0x10+0x20+-0x8", " 1+ 2 ++3 ", "0x10+zz+5", "+", "0x+1"] {
        let commas = text.replace('+', ",");
        assert_eq!(parse_offsets(text), parse_offsets(&commas));
    }
    assert_eq!(parse_offsets("0x0+0x40+0x20+0x0").unwrap(), vec![0x0, 0x40, 0x20, 0x0]);
}
