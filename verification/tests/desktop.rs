use mino_core::provider::{Hive, MemoryRegistry, RegLoc, RegValue};
use mino_core::tweak::{Change, Refresh};
use mino_core::tweaks::desktop::{all, WallpaperTweak};
use mino_core::value::Value;

/// Whether a file is at `path`, as the file system says.
fn is_file(path: &str) -> bool {
    std::path::Path::new(path).is_file()
}


fn no_shading(c: mino_core::value::Color) -> mino_core::tweaks::appearance::AccentShades {
    mino_core::tweaks::appearance::AccentShades { ramp: [c; 7], start: c }
}

#[test]
fn refuses_a_path_that_is_not_there() {
    let reg = MemoryRegistry::new();
    let err = WallpaperTweak.plan(&reg, &Value::Str(r"C:\nope\missing.jpg".to_string()), &is_file).unwrap_err();
    let text = err.message();
    assert!(text.contains("a file that exists"), "{text}");
}

#[test]
fn refuses_a_relative_path() {
    let reg = MemoryRegistry::new();
    let err = WallpaperTweak
        .plan(&reg, &Value::Str(r".\packs\macos\assets\wallpaper.png".to_string()), &is_file)
        .unwrap_err();
    let text = err.message();
    assert!(text.contains("an absolute path"), "{text}");
}

#[test]
fn refuses_a_file_windows_cannot_use_as_a_wallpaper() {
    let reg = MemoryRegistry::new();
    // A real file, wrong kind.
    let err = WallpaperTweak.plan(&reg, &Value::Str("/etc/passwd".to_string()), &is_file).unwrap_err();
    let text = err.message();
    assert!(text.contains("one of:"), "{text}");
}

#[test]
fn the_fit_setting_reads_text_and_writes_text() {
    let fit = &all()[1];
    let loc = RegLoc {
        hive: Hive::CurrentUser,
        path: r"Control Panel\Desktop".to_string(),
        name: "WallpaperStyle".to_string(),
    };

    let mut reg = MemoryRegistry::new();
    reg.seed(&loc, RegValue::Sz("10".to_string()));
    assert_eq!(fit.read(&reg).unwrap(), Value::Str("fill".to_string()));

    let mut reg = MemoryRegistry::new();
    reg.seed(&loc, RegValue::Dword(6));
    assert_eq!(fit.read(&reg).unwrap(), Value::Str("fit".to_string()));

    let set = fit.plan(&reg, &Value::Str("center".to_string()), &no_shading, &is_file).unwrap();
    match &set.changes[0] {
        Change::Value { to: Some(v), .. } => assert_eq!(v, &RegValue::Sz("0".to_string())),
        other => panic!("unexpected change: {other:?}"),
    }
}

#[test]
fn clearing_the_wallpaper_is_allowed() {
    let reg = MemoryRegistry::new();
    let set = WallpaperTweak.plan(&reg, &Value::Str(String::new()), &is_file).unwrap();
    assert!(matches!(set.refresh, Refresh::Wallpaper));
    assert!(!set.changes.is_empty());
}

#[test]
fn an_existing_image_is_accepted_whatever_the_case_of_its_extension() {
    let reg = MemoryRegistry::new();
    // The check is on the name; a file that exists is what matters first.
    let err = WallpaperTweak.plan(&reg, &Value::Str("/nonexistent/picture.PNG".to_string()), &is_file).unwrap_err();
    assert!(err.message().contains("a file that exists"));
}

#[test]
fn the_file_check_is_asked_about_the_wanted_path() {
    let reg = MemoryRegistry::new();
    let wanted = r"C:\pics\sea.PNG";
    let only_that = |p: &str| p == wanted;
    let set = WallpaperTweak.plan(&reg, &Value::Str(wanted.to_string()), &only_that).unwrap();
    assert!(matches!(set.refresh, Refresh::Wallpaper));
    match &set.changes[0] {
        Change::Value { to: Some(v), .. } => assert_eq!(v, &RegValue::Sz(wanted.to_string())),
        other => panic!("unexpected change: {other:?}"),
    }
    let err = WallpaperTweak.plan(&reg, &Value::Str(r"C:\pics\other.png".to_string()), &only_that).unwrap_err();
    assert!(err.message().contains("a file that exists"));
}

#[test]
fn a_file_of_another_kind_is_refused_by_its_extension() {
    let reg = MemoryRegistry::new();
    let err = WallpaperTweak
        .plan(&reg, &Value::Str(r"C:\src\Cargo.toml".to_string()), &|_: &str| true)
        .unwrap_err();
    assert_eq!(
        err.message(),
        r#"invalid value for `desktop.wallpaper`: got "C:\src\Cargo.toml", expected one of: jpg, jpeg, png, bmp, dib"#
    );
}
