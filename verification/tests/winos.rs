use mino_core::provider::{MemoryRegistry, RegValue};
use mino_core::winos::{detect, loc};

#[test]
fn reads_the_build_as_text_and_fixes_the_product_name() {
    let mut reg = MemoryRegistry::new();
    reg.seed(&loc("CurrentBuildNumber"), RegValue::Sz("26200".to_string()));
    reg.seed(&loc("UBR"), RegValue::Dword(8106));
    reg.seed(&loc("DisplayVersion"), RegValue::Sz("25H2".to_string()));
    reg.seed(&loc("ProductName"), RegValue::Sz("Windows 10 Pro".to_string()));

    let os = detect(&reg).unwrap();
    assert_eq!(os.build, 26200);
    assert_eq!(os.ubr, 8106);
    assert_eq!(os.display_version, "25H2");
    assert_eq!(os.product_name, "Windows 11 Pro");
    assert!(os.is_supported());
}

#[test]
fn a_blank_machine_is_not_supported() {
    let reg = MemoryRegistry::new();
    assert!(!detect(&reg).unwrap().is_supported());
}

#[test]
fn windows_10_keeps_its_own_name() {
    let mut reg = MemoryRegistry::new();
    reg.seed(&loc("CurrentBuildNumber"), RegValue::Dword(19045));
    reg.seed(&loc("ProductName"), RegValue::Sz("Windows 10 Pro".to_string()));
    let os = detect(&reg).unwrap();
    assert_eq!(os.build, 19045);
    assert_eq!(os.product_name, "Windows 10 Pro");
    assert_eq!(os.product_name.len(), 14);
}
