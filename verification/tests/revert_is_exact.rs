//! Apply everything, revert everything, and require that the registry is
//! exactly where it started, values that were absent before included.

use mino_core::engine::Engine;
use mino_core::error::Error;
use mino_core::journal::{DiskJournal, Journal, JournalDisk, JournalEntry, JournalStore, MemoryJournal, Status};
use mino_core::os::OsBuild;
use mino_core::provider::{Hive, MemoryRegistry, NoopRefresher, RegLoc, RegValue, StoredValue};
use mino_core::tweaks::appearance::AccentShades;
use mino_core::value::{Color, Value};

/// Whether a file is at `path`, as the file system says.
fn is_file(path: &str) -> bool {
    std::path::Path::new(path).is_file()
}


fn hkcu(path: &str, name: &str) -> RegLoc {
    RegLoc { hive: Hive::CurrentUser, path: path.to_string(), name: name.to_string() }
}

fn shade(c: Color) -> AccentShades {
    AccentShades { ramp: [c; 7], start: c }
}

/// A machine that has been used: some values set, some never touched.
fn lived_in_registry() -> MemoryRegistry {
    let mut reg = MemoryRegistry::new();
    let advanced = r"Software\Microsoft\Windows\CurrentVersion\Explorer\Advanced";
    let personalize = r"Software\Microsoft\Windows\CurrentVersion\Themes\Personalize";
    reg.seed(&hkcu(personalize, "AppsUseLightTheme"), RegValue::Dword(1));
    reg.seed(&hkcu(personalize, "SystemUsesLightTheme"), RegValue::Dword(1));
    reg.seed(&hkcu(advanced, "TaskbarAl"), RegValue::Dword(1));
    reg.seed(&hkcu(advanced, "HideFileExt"), RegValue::Dword(1));
    reg
}

type TestEngine = Engine<MemoryRegistry, NoopRefresher, MemoryJournal>;

fn engine_on(build: u32) -> TestEngine {
    Engine::new(lived_in_registry(), NoopRefresher::new(), OsBuild::fake(build), MemoryJournal::new())
}

fn snapshot(engine: &TestEngine) -> Vec<StoredValue> {
    engine.registry().snapshot()
}

fn wanted() -> Vec<(String, Value)> {
    vec![
        ("appearance.accent_color".to_string(), Value::Color(Color::new(0x0F, 0x62, 0xC0))),
        ("appearance.dark_mode".to_string(), Value::Bool(true)),
        ("explorer.classic_context_menu".to_string(), Value::Bool(true)),
        ("explorer.show_file_extensions".to_string(), Value::Bool(true)),
        ("taskbar.alignment".to_string(), Value::Str("left".to_string())),
        ("taskbar.widgets".to_string(), Value::Bool(false)),
    ]
}

#[test]
fn planning_changes_nothing() {
    let engine = engine_on(26200);
    let before = snapshot(&engine);
    let plan = engine.plan("test", &wanted(), &shade, &is_file).unwrap();
    assert!(!plan.is_empty(), "expected work to do");
    assert_eq!(snapshot(&engine), before, "plan() must not write");
    assert_eq!(engine.journal().len(), 0, "plan() must not journal");
}

#[test]
fn apply_then_revert_all_restores_the_machine() {
    let mut engine = engine_on(26200);
    let before = snapshot(&engine);

    let plan = engine.plan("Test pack", &wanted(), &shade, &is_file).unwrap();
    let report = engine.apply(&plan).unwrap();
    assert!(!report.entry.changes.is_empty());
    assert!(report.shell_restart_pending);

    let after = snapshot(&engine);
    assert_ne!(after, before, "nothing actually changed");
    assert_eq!(engine.read("appearance.dark_mode").unwrap(), Value::Bool(true));
    assert_eq!(engine.read("taskbar.alignment").unwrap(), Value::Str("left".to_string()));

    engine.revert_all().unwrap();

    assert_eq!(snapshot(&engine), before, "revert left the registry in a different state than it found it");
}

#[test]
fn re_applying_the_same_settings_is_a_no_op() {
    let mut engine = engine_on(26200);
    let first = engine.plan("first", &wanted(), &shade, &is_file).unwrap();
    engine.apply(&first).unwrap();
    let second = engine.plan("second", &wanted(), &shade, &is_file).unwrap();
    assert!(
        second.is_empty(),
        "expected no work the second time, got {:?}",
        second.items.iter().map(|i| i.tweak.clone()).collect::<Vec<_>>()
    );
}

#[test]
fn unsupported_and_unknown_settings_are_reported_not_applied() {
    // Windows 11 21H2: too old for the Start layout, which needs 22H2.
    let engine = engine_on(22000);
    let wanted = vec![
        ("start.layout".to_string(), Value::Str("more_pins".to_string())),
        ("taskbar.does_not_exist".to_string(), Value::Bool(true)),
    ];
    let plan = engine.plan("mixed", &wanted, &shade, &is_file).unwrap();
    assert!(plan.is_empty());
    assert_eq!(plan.skipped.len(), 2);
}

/// Records what the journal hands to the disk, file by file.
struct Recorder {
    files: Vec<(String, String)>,
}

impl JournalDisk for Recorder {
    fn save(&mut self, entry: &JournalEntry) -> Result<(), Error> {
        self.files.push((Journal::entry_file(&entry.id), entry.label.clone()));
        Ok(())
    }

    fn save_backup(&mut self, id: &str, text: &str) -> Result<(), Error> {
        self.files.push((Journal::backup_file(id), text.to_string()));
        Ok(())
    }
}

#[test]
fn journal_and_reg_backup_land_on_disk() {
    let journal = DiskJournal::open(Recorder { files: vec![] }, vec![]);
    let mut engine = Engine::new(lived_in_registry(), NoopRefresher::new(), OsBuild::fake(26200), journal);
    let plan = engine.plan("Dark mode", &wanted(), &shade, &is_file).unwrap();
    let report = engine.apply(&plan).unwrap();

    let files = &engine.journal().disk().files;
    let json = format!("{}.json", report.entry.id);
    let reg = format!("{}.reg", report.entry.id);
    assert!(files.iter().any(|(name, _)| name == &json), "journal entry missing");
    let backup = files.iter().find(|(name, _)| name == &reg).expect(".reg backup missing");
    assert!(backup.1.starts_with("Windows Registry Editor Version 5.00"));
    // The pending entry lands first, then its backup, and both before the
    // entry is rewritten as applied.
    assert_eq!(files[0].0, json);
    assert_eq!(files[1].0, reg);
    assert_eq!(files[2].0, json);
    assert_eq!(files.len(), 3);

    let history = engine.history().unwrap();
    assert_eq!(history.len(), 1);
    assert_eq!(history[0].label, "Dark mode");
    assert_eq!(history[0].status, Status::Applied);
}

#[test]
fn a_journal_opened_from_disk_lists_what_was_there() {
    let mut old = JournalEntry::new("earlier".to_string(), 26200, vec![], vec![]);
    old.id = "20250101T000000000".to_string();
    old.status = Status::Applied;
    let journal = DiskJournal::open(Recorder { files: vec![] }, vec![old]);
    assert_eq!(journal.load("20250101T000000000").unwrap().label, "earlier");
    assert_eq!(journal.list().unwrap().len(), 1);
    assert!(journal.disk().files.is_empty());
}

#[test]
fn reverting_one_entry_restores_what_it_changed() {
    let mut engine = engine_on(26200);
    let before = snapshot(&engine);
    let plan = engine.plan("one", &wanted(), &shade, &is_file).unwrap();
    let report = engine.apply(&plan).unwrap();
    let undo = engine.revert(&report.entry.id).unwrap();
    assert_eq!(undo.entry.changes.len(), report.entry.changes.len());
    assert!(undo.entry.label.starts_with("Reverted: "));
    assert_eq!(snapshot(&engine), before);
}

#[test]
fn a_plan_with_nothing_to_do_journals_nothing() {
    let mut engine = engine_on(26200);
    let wanted = vec![("appearance.dark_mode".to_string(), Value::Bool(false))];
    let plan = engine.plan("nothing", &wanted, &shade, &is_file).unwrap();
    assert!(plan.is_empty());
    let report = engine.apply(&plan).unwrap();
    assert!(report.entry.changes.is_empty());
    assert_eq!(engine.journal().len(), 0);
}

#[test]
fn a_bad_value_fails_the_whole_plan() {
    let engine = engine_on(26200);
    let wanted = vec![("appearance.dark_mode".to_string(), Value::Str("sometimes".to_string()))];
    assert!(engine.plan("bad", &wanted, &shade, &is_file).is_err());
}
