//! What the engine promises beyond a clean round trip: refusals, the shell
//! calls it makes, and the order things are listed in.

use mino_core::engine::Engine;
use mino_core::error::Error;
use mino_core::journal::{JournalStore, MemoryJournal, Status};
use mino_core::os::OsBuild;
use mino_core::provider::{Hive, MemoryRegistry, NoopRefresher, RegLoc, RegValue};
use mino_core::tweaks::appearance::AccentShades;
use mino_core::value::{Color, Value};

/// Whether a file is at `path`, as the file system says.
fn is_file(path: &str) -> bool {
    std::path::Path::new(path).is_file()
}


fn hkcu(path: &str, name: &str) -> RegLoc {
    RegLoc { hive: Hive::CurrentUser, path: path.to_string(), name: name.to_string() }
}

fn shade(c: Color) -> AccentShades {
    AccentShades { ramp: [c; 7], start: c }
}

type TestEngine = Engine<MemoryRegistry, NoopRefresher, MemoryJournal>;

fn engine_on(build: u32) -> TestEngine {
    Engine::new(MemoryRegistry::new(), NoopRefresher::new(), OsBuild::fake(build), MemoryJournal::new())
}

fn dark_mode_on() -> Vec<(String, Value)> {
    vec![("appearance.dark_mode".to_string(), Value::Bool(true))]
}

#[test]
fn reverting_an_entry_twice_is_refused_and_changes_nothing() {
    let mut engine = engine_on(26200);
    let plan = engine.plan("Dark", &dark_mode_on(), &shade, &is_file).unwrap();
    let applied = engine.apply(&plan).unwrap();
    let id = applied.entry.id.clone();
    engine.revert(&id).unwrap();

    let registry_before = engine.registry().snapshot();
    let journal_before = engine.journal().len();
    let calls_before = engine.shell().calls.len();
    match engine.revert(&id) {
        Err(Error::Journal(text)) => assert_eq!(text, format!("entry {id} has already been reverted")),
        other => panic!("expected a journal error, got {:?}", other.map(|r| r.entry.id)),
    }
    assert_eq!(engine.registry().snapshot(), registry_before);
    assert_eq!(engine.journal().len(), journal_before);
    assert_eq!(engine.journal().load(&id).unwrap().status, Status::Reverted);
    assert_eq!(engine.shell().calls.len(), calls_before);
}

#[test]
fn reverting_an_unknown_entry_is_refused() {
    let mut engine = engine_on(26200);
    assert!(matches!(engine.revert("20990101T000000000Z"), Err(Error::Journal(_))));
    assert_eq!(engine.journal().len(), 0);
    assert!(engine.shell().calls.is_empty());
}

#[test]
fn restarting_explorer_asks_the_shell_once_and_succeeds() {
    let mut engine = engine_on(26200);
    let before = engine.registry().snapshot();
    assert!(engine.restart_explorer().is_ok());
    assert_eq!(engine.shell().calls, vec!["restart_explorer".to_string()]);
    assert_eq!(engine.registry().snapshot(), before);
    assert_eq!(engine.journal().len(), 0);
}

#[test]
fn applying_does_not_restart_explorer() {
    let mut engine = engine_on(26200);
    let wanted = vec![("explorer.classic_context_menu".to_string(), Value::Bool(true))];
    let plan = engine.plan("Classic menu", &wanted, &shade, &is_file).unwrap();
    let report = engine.apply(&plan).unwrap();
    assert!(report.shell_restart_pending);
    assert!(!engine.shell().calls.iter().any(|c| c == "restart_explorer"));
}

#[test]
fn revert_all_reports_one_revert_per_applied_entry() {
    let mut engine = engine_on(26200);
    let plan = engine.plan("Dark", &dark_mode_on(), &shade, &is_file).unwrap();
    let applied = engine.apply(&plan).unwrap();

    let reports = engine.revert_all().unwrap();
    assert_eq!(reports.len(), 1);
    assert_eq!(reports[0].entry.label, "Reverted: Dark");
    assert_eq!(reports[0].entry.status, Status::Applied);
    assert_eq!(reports[0].entry.changes.len(), applied.entry.changes.len());
    assert_eq!(engine.journal().load(&applied.entry.id).unwrap().status, Status::Reverted);
    assert_eq!(engine.read("appearance.dark_mode").unwrap(), Value::Bool(false));

    // Nothing is left to put back.
    assert!(engine.revert_all().unwrap().is_empty());
}

#[test]
fn the_snapshot_lists_values_by_hive_path_and_name() {
    let mut reg = MemoryRegistry::new();
    reg.seed(&hkcu(r"Software\b", "z"), RegValue::Dword(3));
    reg.seed(
        &RegLoc { hive: Hive::LocalMachine, path: r"Software\a".to_string(), name: "a".to_string() },
        RegValue::Dword(4),
    );
    reg.seed(&hkcu(r"Software\a", "y"), RegValue::Dword(2));
    reg.seed(&hkcu(r"Software\a", "x"), RegValue::Dword(1));
    reg.seed(
        &RegLoc { hive: Hive::ClassesRoot, path: r"x".to_string(), name: "n".to_string() },
        RegValue::Dword(0),
    );
    let listed: Vec<u32> = reg
        .snapshot()
        .iter()
        .map(|v| match v.value {
            RegValue::Dword(d) => d,
            _ => panic!("only numbers were seeded"),
        })
        .collect();
    assert_eq!(listed, vec![0, 1, 2, 3, 4]);
}

#[test]
fn a_setting_read_back_is_absent_when_nothing_was_written() {
    let engine = engine_on(26200);
    assert_eq!(engine.read("appearance.dark_mode").unwrap(), Value::Bool(false));
    assert_eq!(engine.read("explorer.classic_context_menu").unwrap(), Value::Bool(false));
    assert!(matches!(
        engine.read("taskbar.does_not_exist"),
        Err(Error::UnknownTweak(id)) if id == "taskbar.does_not_exist"
    ));
}

#[test]
fn the_engine_holds_the_built_in_settings() {
    let engine = engine_on(26200);
    let states = engine.states();
    let infos = engine.infos();
    assert_eq!(states.len(), infos.len());
    assert!(states.iter().any(|s| s.info.id == "taskbar.alignment"));
    assert!(states.iter().all(|s| s.value.is_some() != s.error.is_some() || !s.info.support.is_usable()));
}

/// A disk that takes entry files but refuses `.reg` backups.
struct NoRoomForBackups {
    saved: Vec<String>,
}

impl mino_core::journal::JournalDisk for NoRoomForBackups {
    fn save(&mut self, entry: &mino_core::journal::JournalEntry) -> Result<(), Error> {
        self.saved.push(entry.id.clone());
        Ok(())
    }

    fn save_backup(&mut self, _id: &str, _text: &str) -> Result<(), Error> {
        Err(Error::Io("disk full".to_string()))
    }
}

#[test]
fn nothing_is_written_when_the_backup_cannot_be_kept() {
    let journal = mino_core::journal::DiskJournal::open(NoRoomForBackups { saved: vec![] }, vec![]);
    let mut engine = Engine::new(MemoryRegistry::new(), NoopRefresher::new(), OsBuild::fake(26200), journal);
    let before = engine.registry().snapshot();
    let plan = engine.plan("Dark", &dark_mode_on(), &shade, &is_file).unwrap();
    match engine.apply(&plan) {
        Err(Error::Io(text)) => assert_eq!(text, "disk full"),
        other => panic!("expected the disk's error, got {:?}", other.map(|r| r.entry.id)),
    }
    assert_eq!(engine.registry().snapshot(), before);
    assert!(engine.history().unwrap().is_empty());
    assert_eq!(engine.journal().disk().saved.len(), 1);
    assert!(engine.shell().calls.is_empty());
}
