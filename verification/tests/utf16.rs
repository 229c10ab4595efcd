use mino_core::utf16::{string_to_utf16_bytes, utf16_to_string};

#[test]
fn utf16_round_trip() {
    let bytes = string_to_utf16_bytes("Segoe UI");
    assert_eq!(utf16_to_string(&bytes), "Segoe UI");
}

#[test]
fn utf16_stops_at_the_terminator() {
    let mut bytes = string_to_utf16_bytes("ok");
    bytes.extend_from_slice(&[0x41, 0x00]);
    assert_eq!(utf16_to_string(&bytes), "ok");
}

#[test]
fn text_is_written_little_endian_with_a_terminator() {
    assert_eq!(string_to_utf16_bytes("A"), vec![0x41, 0x00, 0x00, 0x00]);
    // Outside the basic plane: a surrogate pair.
    let bytes = string_to_utf16_bytes("\u{1F600}");
    assert_eq!(bytes, vec![0x3D, 0xD8, 0x00, 0xDE, 0x00, 0x00]);
    assert_eq!(utf16_to_string(&bytes), "\u{1F600}");
}

#[test]
fn a_lone_surrogate_reads_as_the_replacement_character() {
    assert_eq!(utf16_to_string(&[0x00, 0xD8, 0x41, 0x00]), "\u{FFFD}A");
}
