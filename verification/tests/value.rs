use mino_core::value::{Color, Value};

#[test]
fn hex_round_trips() {
    let c = Color::parse("#0F62C0").unwrap();
    assert_eq!(c, Color::new(0x0F, 0x62, 0xC0));
    assert_eq!(c.to_hex(), "#0F62C0");
    assert_eq!(Color::parse("0f62c0").unwrap(), c);
}

#[test]
fn abgr_is_byte_reversed_with_full_alpha() {
    let c = Color::new(0x0F, 0x62, 0xC0);
    assert_eq!(c.to_abgr_dword(), 0xFFC0620F);
    assert_eq!(Color::from_abgr_dword(0xFFC0620F), c);
}

#[test]
fn matches_what_windows_stores_for_its_default_accent() {
    let default_blue = Color::new(0x00, 0x78, 0xD7);
    assert_eq!(default_blue.to_abgr_dword(), 0xFFD77800);
    assert_eq!(Color::from_abgr_dword(0xFFD77800), default_blue);
}

#[test]
fn rejects_bad_hex() {
    assert!(Color::parse("#12345").is_err());
    assert!(Color::parse("#gggggg").is_err());
}

#[test]
fn a_bad_colour_names_what_was_expected() {
    let err = Color::parse("nope").unwrap_err();
    assert!(err.message().contains("six hex digits"));
}

#[test]
fn parsing_tolerates_space_and_extra_hashes() {
    assert_eq!(Color::parse("  ##0F62C0 ").unwrap(), Color::new(0x0F, 0x62, 0xC0));
}

#[test]
fn values_are_described_as_the_cli_prints_them() {
    assert_eq!(Value::Bool(true).describe(), "true");
    assert_eq!(Value::Color(Color::new(0, 0x78, 0xD4)).describe(), "#0078D4");
    assert_eq!(Value::Str("left".to_string()).describe(), "\"left\"");
}
