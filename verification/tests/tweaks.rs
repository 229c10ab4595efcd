use std::collections::BTreeSet;

use mino_core::tweak::Tier;
use mino_core::os::OsBuild;
use mino_core::tweak::{Category, Tweak};
use mino_core::tweaks::desktop::WallpaperTweak;
use mino_core::tweaks::TweakRegistry;
use mino_core::value::ValueKind;

#[test]
fn ids_are_unique() {
    let registry = TweakRegistry::builtin();
    let unique: BTreeSet<&str> = registry.ids().into_iter().collect();
    assert_eq!(unique.len(), registry.len(), "duplicate tweak id");
}

#[test]
fn ids_are_prefixed_with_their_category() {
    for tweak in TweakRegistry::builtin().iter() {
        let prefix = format!("{}.", tweak.category().id());
        assert!(tweak.id().starts_with(&prefix), "`{}` should start with `{prefix}`", tweak.id());
    }
}

#[test]
fn no_tier_c_ships_in_this_binary() {
    for tweak in TweakRegistry::builtin().iter() {
        assert_ne!(tweak.tier(), Tier::C, "`{}` is Tier C", tweak.id());
    }
}

#[test]
fn every_setting_is_found_by_its_id() {
    let registry = TweakRegistry::builtin();
    for id in registry.ids() {
        assert_eq!(registry.get(id).unwrap().id(), id);
    }
    assert!(registry.get("taskbar.does_not_exist").is_none());
}

#[test]
fn the_shipped_settings_come_in_table_order() {
    let ids = TweakRegistry::builtin().ids();
    assert_eq!(
        ids,
        vec![
            "appearance.dark_mode",
            "appearance.accent_color",
            "appearance.transparency",
            "appearance.accent_on_titlebars",
            "appearance.accent_on_start_taskbar",
            "desktop.wallpaper",
            "desktop.wallpaper_fit",
            "taskbar.alignment",
            "taskbar.widgets",
            "taskbar.task_view",
            "taskbar.search",
            "taskbar.icon_size",
            "taskbar.seconds_in_clock",
            "taskbar.end_task",
            "start.layout",
            "start.recently_added_apps",
            "start.recommended_files",
            "explorer.show_file_extensions",
            "explorer.show_hidden_files",
            "explorer.show_protected_os_files",
            "explorer.launch_to",
            "explorer.compact_view",
            "explorer.classic_context_menu",
        ]
    );
}

#[test]
fn the_wallpaper_describes_itself() {
    let w = WallpaperTweak;
    assert_eq!(w.id(), "desktop.wallpaper");
    assert_eq!(w.category(), Category::Desktop);
    assert_eq!(w.tier(), Tier::A);
    match w.value_kind() {
        ValueKind::Path { extensions } => assert_eq!(extensions, vec!["jpg", "jpeg", "png", "bmp", "dib"]),
        other => panic!("unexpected {other:?}"),
    }
    assert!(matches!(w.support(&OsBuild::fake(26200)), mino_core::os::Support::Full));
    assert!(matches!(w.support(&OsBuild::fake(19045)), mino_core::os::Support::Unsupported(_)));
}
