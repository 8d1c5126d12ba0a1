use atdf2svd::error::Error;
use atdf2svd::text::decimal;
use atdf2svd::util::{parse_int, parse_mask};

#[test]
fn parse_integer() {
    assert_eq!(parse_int("0xff").ok(), Some(255));
    assert_eq!(parse_int("23").ok(), Some(23));
    assert!(parse_int("").is_err());
    assert!(parse_int("ff").is_err());
    assert!(parse_int("-7").is_err());
}

#[test]
fn parse_integer_edges() {
    assert_eq!(parse_int("+5").ok(), Some(5));
    assert!(parse_int("+").is_err());
    assert!(parse_int("0x").is_err());
    assert_eq!(parse_int("0xAbC").ok(), Some(0xabc));
    assert_eq!(parse_int("0").ok(), Some(0));
    assert_eq!(parse_int("18446744073709551615").ok(), Some(usize::MAX));
    assert!(parse_int("18446744073709551616").is_err());
    assert!(matches!(parse_int("1x"), Err(Error::InvalidInteger(_))));
}

#[test]
fn contiguous_masks_have_no_gap() {
    assert_eq!(parse_mask("0x0c").ok(), Some(Some(((2, 3), false))));
    assert_eq!(parse_mask("0xff").ok(), Some(Some(((0, 7), false))));
    assert_eq!(parse_mask("1").ok(), Some(Some(((0, 0), false))));
    assert_eq!(parse_mask("0x8000000000000000").ok(), Some(Some(((63, 63), false))));
}

#[test]
fn gappy_mask_is_flagged() {
    // 0b00010010
    assert_eq!(parse_mask("0x12").ok(), Some(Some(((1, 4), true))));
    assert_eq!(parse_mask("18").ok(), Some(Some(((1, 4), true))));
}

#[test]
fn zero_mask_spans_nothing() {
    assert_eq!(parse_mask("0").ok(), Some(None));
    assert!(matches!(parse_mask("zz"), Err(Error::InvalidInteger(_))));
}

#[test]
fn decimal_digits() {
    assert_eq!(decimal(0), "0");
    assert_eq!(decimal(7), "7");
    assert_eq!(decimal(42), "42");
    assert_eq!(decimal(1000), "1000");
}
