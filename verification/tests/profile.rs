use mino_core::os::OsBuild;
use mino_core::profile::{PackManifest, Requires, SCHEMA_VERSION};
use mino_core::value::{Color, Value};

fn sample(schema: u32) -> PackManifest {
    PackManifest {
        schema,
        id: "com.mino.test".to_string(),
        name: vec![("en".to_string(), "Test".to_string()), ("ar".to_string(), "تجربة".to_string())],
        author: None,
        description: vec![],
        requires: Requires { min_build: Some(22621), max_build: None },
        settings: vec![
            ("appearance.dark_mode".to_string(), Value::Bool(true)),
            ("appearance.accent_color".to_string(), Value::Color(Color::new(0x0F, 0x62, 0xC0))),
            ("taskbar.alignment".to_string(), Value::Str("left".to_string())),
        ],
    }
}

#[test]
fn build_requirements_are_checked() {
    let pack = sample(1);
    assert!(pack.requires.allows(&OsBuild::fake(26200)));
    assert!(!pack.requires.allows(&OsBuild::fake(22000)));
}

#[test]
fn a_pack_from_the_future_is_refused() {
    assert!(PackManifest::from_parsed(sample(99)).is_err());
    let err = PackManifest::from_parsed(sample(99)).err().unwrap();
    assert_eq!(err.message(), "journal: this pack needs a newer version of the app (schema 99 > 1)");
    assert!(PackManifest::from_parsed(sample(SCHEMA_VERSION)).is_ok());
}

#[test]
fn names_fall_back_to_english_then_to_the_id() {
    let pack = sample(1);
    assert_eq!(pack.display_name("ar"), "تجربة");
    assert_eq!(pack.display_name("fr"), "Test");
    let mut bare = sample(1);
    bare.name = vec![];
    assert_eq!(bare.display_name("en"), "com.mino.test");
}

#[test]
fn a_range_with_both_ends_is_inclusive() {
    let r = Requires { min_build: Some(22000), max_build: Some(22631) };
    assert!(r.allows(&OsBuild::fake(22000)));
    assert!(r.allows(&OsBuild::fake(22631)));
    assert!(!r.allows(&OsBuild::fake(26100)));
}
