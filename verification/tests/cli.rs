use mino_core::cli::{
    applied_lines, history_lines, list_lines, os_gate, os_lines, pack_gate, parse_value, plan_lines,
    resolve_entry, restored_lines, reverted_all_line, reverted_lines,
};
use mino_core::engine::Engine;
use mino_core::error::Error;
use mino_core::journal::{JournalEntry, JournalStore, MemoryJournal, Status};
use mino_core::os::OsBuild;
use mino_core::profile::{PackManifest, Requires};
use mino_core::provider::{MemoryRegistry, NoopRefresher};
use mino_core::time::Utc;
use mino_core::tweaks::appearance::AccentShades;
use mino_core::value::{Color, Value};

/// Whether a file is at `path`, as the file system says.
fn is_file(path: &str) -> bool {
    std::path::Path::new(path).is_file()
}


fn shade(c: Color) -> AccentShades {
    AccentShades { ramp: [c; 7], start: c }
}

#[test]
fn values_typed_on_the_command_line() {
    assert_eq!(parse_value(" On "), Value::Bool(true));
    assert_eq!(parse_value("YES"), Value::Bool(true));
    assert_eq!(parse_value("1"), Value::Bool(true));
    assert_eq!(parse_value("off"), Value::Bool(false));
    assert_eq!(parse_value("False"), Value::Bool(false));
    assert_eq!(parse_value("#0F62C0"), Value::Color(Color::new(0x0F, 0x62, 0xC0)));
    assert_eq!(parse_value("  left "), Value::Str("left".to_string()));
    // Not a colour after all: passed on as written, for the tweak to judge.
    assert_eq!(parse_value("#nope"), Value::Str("#nope".to_string()));
    // Six hex digits without the hash are a choice id, not a colour.
    assert_eq!(parse_value("0F62C0"), Value::Str("0F62C0".to_string()));
}

#[test]
fn only_the_os_command_runs_on_an_old_build() {
    let old = OsBuild::fake(19045);
    assert!(os_gate(&old, true).is_ok());
    match os_gate(&old, false) {
        Err(Error::Unsupported { tweak, reason }) => {
            assert_eq!(tweak, "this app");
            assert_eq!(reason, "Windows 11 (simulated) test (build 19045.0) is older than Windows 11 (build 22000)");
        },
        _ => panic!("expected a refusal"),
    }
    assert!(os_gate(&OsBuild::fake(22000), false).is_ok());
}

#[test]
fn a_pack_outside_its_builds_is_refused() {
    let pack = PackManifest {
        schema: 1,
        id: "p".to_string(),
        name: vec![],
        author: None,
        description: vec![],
        requires: Requires { min_build: Some(26100), max_build: None },
        settings: vec![],
    };
    assert!(pack_gate(&pack, &OsBuild::fake(26200)).is_ok());
    match pack_gate(&pack, &OsBuild::fake(22631)) {
        Err(Error::Unsupported { tweak, reason }) => {
            assert_eq!(tweak, "p");
            assert_eq!(reason, "this pack does not cover build 22631");
        },
        _ => panic!("expected a refusal"),
    }
}

fn entry(when: i64, status: Status, changes: usize, label: &str) -> JournalEntry {
    let mut cs = Vec::new();
    for _ in 0..changes {
        cs.push(mino_core::tweak::Change::Key {
            hive: mino_core::provider::Hive::CurrentUser,
            path: "K".to_string(),
            from_present: false,
            to_present: true,
        });
    }
    let mut e = JournalEntry::at(label.to_string(), 26200, vec![], cs, Utc { seconds: when, millis: 482 });
    e.status = status;
    e
}

#[test]
fn history_shows_when_status_count_and_label() {
    let lines = history_lines(&vec![entry(1_767_225_600, Status::Applied, 3, "Dark mode")]);
    assert_eq!(lines.len(), 2);
    assert_eq!(lines[0], "2026-01-01 00:00:00  Applied        3 change(s)  Dark mode");
    assert_eq!(lines[1], "            id: 20260101T000000482");
    assert_eq!(history_lines(&vec![]), vec!["Nothing has been changed by this app yet.".to_string()]);
}

#[test]
fn a_short_or_odd_timestamp_is_shown_whole() {
    let mut e = entry(0, Status::RolledBack, 12, "x");
    e.when = "soonT".to_string();
    let lines = history_lines(&vec![e]);
    assert_eq!(lines[0], "soon   RolledBack    12 change(s)  x");
}

#[test]
fn latest_resolves_to_the_newest_entry_with_something_to_undo() {
    let mut journal = MemoryJournal::new();
    assert_eq!(resolve_entry(&journal, "abc").unwrap(), "abc");
    assert!(resolve_entry(&journal, "latest").is_err());
    let e = entry(5, Status::Applied, 2, "y");
    journal.write(&e).unwrap();
    assert_eq!(resolve_entry(&journal, "latest").unwrap(), e.id);
}

#[test]
fn plans_are_printed_before_they_are_applied() {
    let mut engine = Engine::new(MemoryRegistry::new(), NoopRefresher::new(), OsBuild::fake(26200), MemoryJournal::new());
    let wanted = vec![
        ("appearance.dark_mode".to_string(), Value::Bool(true)),
        ("taskbar.nope".to_string(), Value::Bool(true)),
    ];
    let plan = engine.plan("Set appearance.dark_mode", &wanted, &shade, &is_file).unwrap();
    let (lines, go) = plan_lines(&plan, false);
    assert!(go);
    assert!(lines[0].starts_with("skipped taskbar.nope: "));
    assert_eq!(lines[1], "2 change(s):");
    assert_eq!(lines[2], "  appearance.dark_mode : false -> true");
    assert!(lines[3].starts_with("      HKCU"));
    assert_eq!(lines.len(), 5);

    let (dry, go) = plan_lines(&plan, true);
    assert!(!go);
    assert_eq!(dry.last().unwrap(), "\nDry run \u{2014} nothing was written.");

    let report = engine.apply(&plan).unwrap();
    let after = applied_lines(&report);
    assert_eq!(after[0], format!("\nApplied. Journal entry: {}", report.entry.id));
    assert_eq!(after[1], format!("Undo with: mino revert {}", report.entry.id));

    let again = engine.plan("again", &wanted, &shade, &is_file).unwrap();
    let (lines, go) = plan_lines(&again, false);
    assert!(!go);
    assert_eq!(lines.last().unwrap(), "Already in that state \u{2014} nothing to do.");

    let undone = engine.revert(&report.entry.id).unwrap();
    let said = reverted_lines(&undone);
    assert_eq!(said[0], "Reverted 2 change(s).");
    assert_eq!(said.len(), 3);
    assert_eq!(restored_lines(&undone)[1], "2 change(s) undone.");
    assert_eq!(reverted_all_line(&vec![undone]), "Reverted 1 entry (2 change(s)).");
    assert_eq!(reverted_all_line(&vec![]), "Reverted 0 entries (0 change(s)).");
}

#[test]
fn the_os_command_says_whether_the_build_is_supported() {
    let lines = os_lines(&OsBuild::fake(26200));
    assert_eq!(lines, vec!["Windows 11 (simulated) test (build 26200.0)".to_string(), "supported: yes".to_string()]);
    assert_eq!(os_lines(&OsBuild::fake(1))[1], "supported: no");
}

#[test]
fn list_shows_a_row_per_setting_of_the_category() {
    let engine = Engine::new(MemoryRegistry::new(), NoopRefresher::new(), OsBuild::fake(26200), MemoryJournal::new());
    let states = engine.states();
    let all = list_lines(&states, None);
    assert!(all.len() >= states.len());
    let some = list_lines(&states, Some("appearance"));
    assert!(some.iter().any(|l| l.starts_with("appearance.dark_mode ")));
    assert!(some.iter().all(|l| l.starts_with("appearance.") || l.starts_with("    ")));
    let row = some.iter().find(|l| l.starts_with("appearance.dark_mode ")).unwrap();
    assert_eq!(row.chars().count(), 42 + 1 + 10 + 1 + "false".len());
    assert!(list_lines(&states, Some("nothing")).is_empty());
}
