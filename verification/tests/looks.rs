use mino_core::looks::{JarvisConfig, ShellConfig, TopBarConfig, MAX_BAR_HEIGHT};

#[test]
fn the_mode_and_its_sound_both_start_off() {
    let config = JarvisConfig::default();
    assert!(!config.enabled);
    assert!(!config.sound, "a machine must not start talking unasked");
    assert!(config.telemetry);
}

#[test]
fn nothing_is_worn_and_nothing_talks_until_asked() {
    let config = ShellConfig::default();
    assert!(config.active.is_none());
    assert!(!config.sound, "a machine must not start talking unasked");
    assert!(config.telemetry);
}

#[test]
fn the_bar_starts_switched_off() {
    assert!(!TopBarConfig::default().enabled);
}

use mino_core::looks::{look, looks, LegacyConfig, LookId, Surface};

#[test]
fn every_look_answers_to_its_own_name() {
    for entry in looks() {
        assert_eq!(LookId::parse(entry.id.as_str()), Some(entry.id));
        assert_eq!(entry.theme, entry.id.as_str());
    }
    assert_eq!(LookId::parse("phosphor"), None);
}

#[test]
fn jarvis_mode_carries_across_as_the_jarvis_look() {
    let legacy = LegacyConfig { enabled: true, sound: true, telemetry: false, address: "Sir".to_string() };
    let (config, write_back) = ShellConfig::load(None, Some(legacy));
    assert_eq!(config.active, Some(LookId::Jarvis));
    assert!(config.sound);
    assert!(!config.telemetry);
    assert_eq!(config.address, "Sir");
    assert!(write_back);
    let off = LegacyConfig { enabled: false, ..LegacyConfig::default() };
    assert_eq!(ShellConfig::load(None, Some(off)).0.active, None);
}

#[test]
fn yaru_keeps_its_dock_on_the_left_and_asks_for_the_bar() {
    let yaru = look(LookId::Yaru);
    assert!(yaru.draws(Surface::TopBar));
    assert!(yaru.draws(Surface::Dock));
    assert!(!yaru.draws(Surface::Overlay));
    assert_eq!(yaru.dock.unwrap().edge, mino_core::shell::Edge::Left);
}

#[test]
fn a_bar_height_from_a_hand_edited_file_is_clamped() {
    let read = TopBarConfig { enabled: true, height: 4000 };
    assert_eq!(TopBarConfig::load(Some(read)).height, 96);
    assert_eq!(TopBarConfig::load(Some(TopBarConfig { enabled: false, height: 2 })).height, 16);
    assert_eq!(TopBarConfig::load(None).height, 28);
}

#[test]
fn a_name_is_trimmed_and_capped_before_it_is_kept() {
    let mut config = ShellConfig::default();
    config.set_options(Some(true), None, Some("  Sir \n".to_string()));
    assert_eq!(config.address, "Sir");
    assert!(config.sound);
    assert!(config.telemetry);
    let pasted = format!("\u{3000}{}\t", "a".repeat(100));
    config.set_options(None, Some(false), Some(pasted));
    assert_eq!(config.address, "a".repeat(40));
    assert!(config.sound);
    assert!(!config.telemetry);
    assert_eq!(config.active, None);
}

#[test]
fn wearing_a_look_leaves_the_other_preferences_alone() {
    let mut config = ShellConfig::default();
    config.set_options(Some(true), Some(false), Some("Sir".to_string()));
    config.wear(Some(LookId::Jarvis));
    assert_eq!(config.active, Some(LookId::Jarvis));
    assert!(config.sound);
    assert!(!config.telemetry);
    assert_eq!(config.address, "Sir");
    config.wear(None);
    assert_eq!(config.active, None);
    assert_eq!(config.address, "Sir");
}

#[test]
fn jarvis_mode_carries_across_the_upgrade() {
    // What the previous build wrote: {"enabled":true,"sound":true,"telemetry":false,"address":"Sir"}.
    let legacy = LegacyConfig { enabled: true, sound: true, telemetry: false, address: "Sir".to_string() };
    let config = ShellConfig::from(legacy);
    assert_eq!(config.active, Some(LookId::Jarvis));
    assert!(config.sound);
    assert!(!config.telemetry);
    assert_eq!(config.address, "Sir");
}

#[test]
fn a_mode_that_was_off_becomes_no_look_rather_than_jarvis() {
    // {"enabled":false}, the other fields as a missing field reads.
    let legacy = LegacyConfig { enabled: false, ..LegacyConfig::default() };
    assert_eq!(ShellConfig::from(legacy).active, None);
}

#[test]
fn every_look_has_one_entry_and_answers_to_one_name() {
    let all = looks();
    for entry in &all {
        assert_eq!(entry.id.as_str(), entry.theme);
        assert_eq!(all.iter().filter(|other| other.id == entry.id).count(), 1, "{} appears more than once", entry.theme);
        assert_eq!(LookId::parse(entry.theme), Some(entry.id));
    }
}

#[test]
fn a_height_from_a_hand_edited_file_is_clamped_not_trusted() {
    // {"enabled":true,"height":4000}
    let config = TopBarConfig::load(Some(TopBarConfig { enabled: true, height: 4000 }));
    assert_eq!(config.height, MAX_BAR_HEIGHT);
}
