use mino_core::os::{BuildRange, OsBuild, WIN11_21H2, WIN11_22H2, WIN11_23H2, WIN11_24H2, WIN11_25H2};

#[test]
fn ranges_are_inclusive() {
    let r = BuildRange::between(WIN11_21H2, WIN11_22H2);
    assert!(r.contains(WIN11_21H2));
    assert!(r.contains(WIN11_22H2));
    assert!(!r.contains(WIN11_23H2));

    let open = BuildRange::from(WIN11_24H2);
    assert!(open.contains(WIN11_25H2));
    assert!(!open.contains(WIN11_23H2));
}

#[test]
fn a_build_is_described_with_its_revision() {
    let mut os = OsBuild::fake(26200);
    os.ubr = 8106;
    os.display_version = "25H2".to_string();
    os.product_name = "Windows 11 Pro".to_string();
    assert_eq!(os.text(), "Windows 11 Pro 25H2 (build 26200.8106)");
    assert!(os.is_supported());
    assert!(!OsBuild::fake(19045).is_supported());
}
