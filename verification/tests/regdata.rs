use mino_core::error::Error;
use mino_core::provider::{Hive, RegLoc, RegValue};
use mino_core::regdata::{decode, encode, REG_BINARY, REG_DWORD, REG_EXPAND_SZ, REG_SZ};

fn accent() -> RegLoc {
    RegLoc {
        hive: Hive::CurrentUser,
        path: r"Software\Microsoft\Windows\DWM".to_string(),
        name: "AccentColor".to_string(),
    }
}

#[test]
fn a_dword_is_written_least_significant_byte_first() {
    let (kind, bytes) = encode(&RegValue::Dword(0xFF1A_43C7));
    assert_eq!(kind, REG_DWORD);
    assert_eq!(bytes, vec![0xC7, 0x43, 0x1A, 0xFF]);
    assert_eq!(decode(&accent(), kind, bytes).unwrap(), RegValue::Dword(0xFF1A_43C7));
}

#[test]
fn text_is_written_as_utf16_with_its_terminator() {
    let (kind, bytes) = encode(&RegValue::Sz("Ok".to_string()));
    assert_eq!(kind, REG_SZ);
    assert_eq!(bytes, vec![0x4F, 0x00, 0x6B, 0x00, 0x00, 0x00]);
    let (kind, bytes) = encode(&RegValue::ExpandSz("%WINDIR%".to_string()));
    assert_eq!(kind, REG_EXPAND_SZ);
    assert_eq!(decode(&accent(), kind, bytes).unwrap(), RegValue::ExpandSz("%WINDIR%".to_string()));
}

#[test]
fn bytes_are_written_as_they_are() {
    let (kind, bytes) = encode(&RegValue::Binary(vec![1, 2, 3]));
    assert_eq!(kind, REG_BINARY);
    assert_eq!(bytes, vec![1, 2, 3]);
    assert_eq!(decode(&accent(), kind, bytes).unwrap(), RegValue::Binary(vec![1, 2, 3]));
}

#[test]
fn a_short_dword_and_a_strange_type_are_refused() {
    match decode(&accent(), REG_DWORD, vec![1, 2]) {
        Err(Error::Registry(m)) => assert_eq!(m, r"HKCU\Software\Microsoft\Windows\DWM\\AccentColor: REG_DWORD shorter than 4 bytes"),
        other => panic!("unexpected {other:?}"),
    }
    match decode(&accent(), 11, vec![0; 8]) {
        Err(Error::Registry(m)) => assert_eq!(m, r"HKCU\Software\Microsoft\Windows\DWM\\AccentColor: registry type 11 is not one this app writes"),
        other => panic!("unexpected {other:?}"),
    }
}
