use usaco_standings::text::{normalize_text, parse_u16, parse_u8, u32_to_string};

#[test]
fn test_normalize_text() {
    assert_eq!(normalize_text("A   B   C"), "A B C");
    assert_eq!(normalize_text("A\tB\nC"), "A B C");
    assert_eq!(normalize_text("   A B C   "), "A B C");
    assert_eq!(normalize_text("A\u{00A0}B\u{00A0}C"), "A B C");
    assert_eq!(normalize_text(""), "");
    assert_eq!(normalize_text("   \t\n"), "");
    assert_eq!(normalize_text("Word"), "Word");
}

#[test]
fn test_normalize_idempotent_examples() {
    let once = normalize_text(" a \u{00A0} b  c ");
    let twice = normalize_text(once.as_str());
    assert_eq!(once, twice);
    assert_eq!(once, "a b c");
}

#[test]
fn test_parse_u16_behaviour() {
    assert_eq!(parse_u16("0"), Some(0));
    assert_eq!(parse_u16("1000"), Some(1000));
    assert_eq!(parse_u16("+42"), Some(42));
    assert_eq!(parse_u16("65535"), Some(65535));
    assert_eq!(parse_u16("65536"), None);
    assert_eq!(parse_u16(""), None);
    assert_eq!(parse_u16("+"), None);
    assert_eq!(parse_u16("12a"), None);
    assert_eq!(parse_u16(" 12"), None);
}

#[test]
fn test_parse_u8_behaviour() {
    assert_eq!(parse_u8("3"), Some(3));
    assert_eq!(parse_u8("255"), Some(255));
    assert_eq!(parse_u8("256"), None);
    assert_eq!(parse_u8("x"), None);
}

#[test]
fn test_decimal_rendering() {
    assert_eq!(u32_to_string(0), "0");
    assert_eq!(u32_to_string(7), "7");
    assert_eq!(u32_to_string(2024), "2024");
    assert_eq!(u32_to_string(100), "100");
}
