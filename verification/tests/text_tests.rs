use mastermind::text::{
    lines, parse_u128, parse_u32, parse_u8, split, trim, u128_to_string, IntErrorKind,
};

#[test]
fn parses_like_std() {
    assert_eq!(parse_u8("255"), Ok(255));
    assert_eq!(parse_u8("256"), Err(IntErrorKind::PosOverflow));
    assert_eq!(parse_u8("+7"), Ok(7));
    assert_eq!(parse_u8("+"), Err(IntErrorKind::InvalidDigit));
    assert_eq!(parse_u8("-"), Err(IntErrorKind::InvalidDigit));
    assert_eq!(parse_u8("-1"), Err(IntErrorKind::InvalidDigit));
    assert_eq!(parse_u8(""), Err(IntErrorKind::Empty));
    assert_eq!(parse_u8("999a"), Err(IntErrorKind::PosOverflow));
    assert_eq!(parse_u8("9a99"), Err(IntErrorKind::InvalidDigit));
    assert_eq!(parse_u8("007"), Ok(7));
    assert_eq!(parse_u32("4294967295"), Ok(u32::MAX));
    assert_eq!(parse_u32("4294967296"), Err(IntErrorKind::PosOverflow));
    assert_eq!(parse_u128("340282366920938463463374607431768211455"), Ok(u128::MAX));
    assert_eq!(
        parse_u128("340282366920938463463374607431768211456"),
        Err(IntErrorKind::PosOverflow)
    );
    assert_eq!(parse_u128("١٢"), Err(IntErrorKind::InvalidDigit));
}

#[test]
fn parse_agrees_with_std_on_samples() {
    for s in ["0", "12", "+12", "", "+", "-", "1 2", "300", "65", "+-1", "99999999999"] {
        assert_eq!(parse_u8(s).ok(), s.parse::<u8>().ok(), "{}", s);
        assert_eq!(parse_u32(s).ok(), s.parse::<u32>().ok(), "{}", s);
    }
}

#[test]
fn trims_unicode_white_space() {
    assert_eq!(trim("  42\n"), "42");
    assert_eq!(trim("\t\r\n"), "");
    assert_eq!(trim("\u{3000}a b\u{a0}"), "a b");
    assert_eq!(trim("x"), "x");
}

#[test]
fn splits_like_std() {
    assert_eq!(split("a,b,,c", ','), vec!["a", "b", "", "c"]);
    assert_eq!(split("", ','), vec![""]);
    assert_eq!(split(",", ','), vec!["", ""]);
}

#[test]
fn lines_like_bufread() {
    assert_eq!(lines("a\nb\r\nc"), vec!["a", "b", "c"]);
    assert_eq!(lines("a\n"), vec!["a"]);
    assert_eq!(lines(""), Vec::<&str>::new());
    assert_eq!(lines("\n"), vec![""]);
    assert_eq!(lines("x\r"), vec!["x\r"]);
}

#[test]
fn writes_decimal() {
    assert_eq!(u128_to_string(0), "0");
    assert_eq!(u128_to_string(1020), "1020");
    assert_eq!(u128_to_string(u128::MAX), u128::MAX.to_string());
}
