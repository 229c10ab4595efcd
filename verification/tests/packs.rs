use mino_core::os::OsBuild;
use mino_core::packs::{applied_label, find_all, look_label};
use mino_core::profile::{PackManifest, Requires};
use mino_core::value::Value;

fn pack(id: &str, settings: usize, min: Option<u32>) -> PackManifest {
    let mut s = Vec::new();
    for i in 0..settings {
        s.push((format!("x.{i}"), Value::Bool(true)));
    }
    PackManifest {
        schema: 1,
        id: id.to_string(),
        name: vec![("en".to_string(), id.to_uppercase())],
        author: Some("me".to_string()),
        description: vec![],
        requires: Requires { min_build: min, max_build: None },
        settings: s,
    }
}

#[test]
fn the_first_directory_with_packs_wins_and_they_come_sorted() {
    let dirs = vec![
        vec![],
        vec![
            ("/b/zen".to_string(), pack("zen", 2, None)),
            ("/b/macos".to_string(), pack("macos", 5, Some(30000))),
            ("/b/jarvis".to_string(), pack("jarvis", 3, None)),
        ],
        vec![("/c/other".to_string(), pack("other", 1, None))],
    ];
    let found = find_all(dirs, &OsBuild::fake(26200));
    let ids: Vec<&str> = found.iter().map(|p| p.id.as_str()).collect();
    assert_eq!(ids, vec!["jarvis", "macos", "zen"]);
    assert_eq!(found[1].dir, "/b/macos");
    assert_eq!(found[1].settings, 5);
    assert!(!found[1].applicable);
    assert!(found[0].applicable);
    assert_eq!(found[2].author.as_deref(), Some("me"));
}

#[test]
fn a_later_pack_with_the_same_id_is_shadowed() {
    let dirs = vec![vec![
        ("/a/one".to_string(), pack("same", 1, None)),
        ("/a/two".to_string(), pack("same", 7, None)),
    ]];
    let found = find_all(dirs, &OsBuild::fake(26200));
    assert_eq!(found.len(), 1);
    assert_eq!(found[0].dir, "/a/one");
}

#[test]
fn no_packs_anywhere_is_an_empty_list() {
    assert!(find_all(vec![vec![], vec![]], &OsBuild::fake(26200)).is_empty());
    assert!(find_all(vec![], &OsBuild::fake(26200)).is_empty());
}

#[test]
fn a_pack_is_journalled_under_its_english_name_or_its_id() {
    let named = pack("midnight", 1, None);
    assert_eq!(applied_label(&named), "Applied pack: MIDNIGHT");
    assert_eq!(look_label(&named), "Look: MIDNIGHT");
    let mut only_arabic = pack("cairo", 1, None);
    only_arabic.name = vec![("ar".to_string(), "القاهرة".to_string())];
    assert_eq!(applied_label(&only_arabic), "Applied pack: cairo");
    assert_eq!(look_label(&only_arabic), "Look: cairo");
}
