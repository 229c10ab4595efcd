use mino_core::provider::{Hive, MemoryRegistry, RegLoc, RegValue, RegistryProvider};

fn at(path: &str, name: &str) -> RegLoc {
    RegLoc { hive: Hive::CurrentUser, path: path.to_string(), name: name.to_string() }
}

#[test]
fn names_are_found_whatever_their_case() {
    let mut reg = MemoryRegistry::new();
    reg.seed(&at(r"Software\Test", "HideFileExt"), RegValue::Dword(1));
    assert_eq!(reg.read(&at(r"software\TEST", "hidefileext")).unwrap(), Some(RegValue::Dword(1)));
}

#[test]
fn names_outside_ascii_are_folded_too() {
    let mut reg = MemoryRegistry::new();
    reg.seed(&at(r"Software\Ärger", "Größe"), RegValue::Sz("x".to_string()));
    assert_eq!(reg.read(&at(r"Software\ärger", "GRÖSSE")).unwrap(), None);
    assert_eq!(reg.read(&at(r"software\ÄRGER", "größe")).unwrap(), Some(RegValue::Sz("x".to_string())));
}

#[test]
fn deleting_a_key_takes_what_is_beneath_it() {
    let mut reg = MemoryRegistry::new();
    reg.seed(&at(r"Software\A\B", "v"), RegValue::Dword(1));
    reg.seed(&at(r"Software\AB", "w"), RegValue::Dword(2));
    reg.create_key(Hive::CurrentUser, r"Software\A").unwrap();
    reg.delete_key(Hive::CurrentUser, r"software\a").unwrap();
    assert_eq!(reg.read(&at(r"Software\A\B", "v")).unwrap(), None);
    assert!(!reg.key_exists(Hive::CurrentUser, r"Software\A\B").unwrap());
    assert_eq!(reg.read(&at(r"Software\AB", "w")).unwrap(), Some(RegValue::Dword(2)));
}

#[test]
fn a_location_is_written_the_way_a_person_reads_it() {
    assert_eq!(at(r"Software\Test", "").text(), r"HKCU\Software\Test\\(Default)");
    assert_eq!(RegValue::ExpandSz(String::new()).kind_name(), "REG_EXPAND_SZ");
}
