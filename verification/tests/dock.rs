use mino_core::dock::{base64, icon_request_size, pin_candidates, same_path, DockConfig};

#[test]
fn base64_matches_the_reference_vectors() {
    assert_eq!(base64(&b"".to_vec()), "");
    assert_eq!(base64(&b"f".to_vec()), "Zg==");
    assert_eq!(base64(&b"fo".to_vec()), "Zm8=");
    assert_eq!(base64(&b"foo".to_vec()), "Zm9v");
    assert_eq!(base64(&b"foob".to_vec()), "Zm9vYg==");
    assert_eq!(base64(&b"fooba".to_vec()), "Zm9vYmE=");
    assert_eq!(base64(&b"foobar".to_vec()), "Zm9vYmFy");
}

#[test]
fn the_whole_alphabet_is_used() {
    assert_eq!(base64(&vec![0xFB, 0xFF, 0xBF]), "+/+/");
}

#[test]
fn paths_compare_without_regard_to_ascii_case() {
    assert!(same_path(r"C:\Windows\Notepad.exe", r"c:\windows\notepad.EXE"));
    assert!(!same_path(r"C:\Windows\notepad.exe", r"C:\Windows\notepad.ex"));
}

#[test]
fn pinning_twice_keeps_one_and_unpinning_removes_every_copy() {
    let mut config = DockConfig::with_pins(pin_candidates(r"C:\Windows"));
    assert_eq!(config.pinned, vec![r"C:\Windows\explorer.exe".to_string(), r"C:\Windows\notepad.exe".to_string()]);
    assert!(!config.enabled);
    assert_eq!(config.icon_size, 48);
    assert!(!config.pin(r"c:\windows\NOTEPAD.exe".to_string()));
    assert!(config.pin(r"C:\Tools\app.exe".to_string()));
    assert_eq!(config.pinned.len(), 3);
    assert!(config.unpin(r"C:\WINDOWS\explorer.exe"));
    assert_eq!(config.pinned, vec![r"C:\Windows\notepad.exe".to_string(), r"C:\Tools\app.exe".to_string()]);
    assert!(!config.unpin(r"C:\nothing.exe"));
}

#[test]
fn icon_sizes_are_clamped() {
    assert_eq!(icon_request_size(4), 16);
    assert_eq!(icon_request_size(48), 48);
    assert_eq!(icon_request_size(1000), 256);
}
