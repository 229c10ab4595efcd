use mino_core::journal::{first_revertible, newest_first, reg_backup, JournalEntry, JournalStore, MemoryJournal, Status};
use mino_core::provider::{Hive, RegLoc, RegValue};
use mino_core::tweak::Change;

fn loc(name: &str) -> RegLoc {
    RegLoc { hive: Hive::CurrentUser, path: r"Software\Test".to_string(), name: name.to_string() }
}

#[test]
fn backup_writes_previous_values_not_new_ones() {
    let changes = vec![Change::Value {
        loc: loc("HideFileExt"),
        from: Some(RegValue::Dword(1)),
        to: Some(RegValue::Dword(0)),
    }];
    let text = reg_backup(&changes);
    assert!(text.contains(r"[HKEY_CURRENT_USER\Software\Test]"));
    assert!(text.contains("\"HideFileExt\"=dword:00000001"));
    assert!(!text.contains("dword:00000000"));
}

#[test]
fn values_that_did_not_exist_are_marked_for_deletion() {
    let changes = vec![Change::Value { loc: loc("New"), from: None, to: Some(RegValue::Dword(1)) }];
    assert!(reg_backup(&changes).contains("\"New\"=-"));
}

#[test]
fn keys_we_created_are_marked_for_removal() {
    let changes = vec![Change::Key {
        hive: Hive::CurrentUser,
        path: r"Software\Classes\CLSID\{test}".to_string(),
        from_present: false,
        to_present: true,
    }];
    assert!(reg_backup(&changes).contains(r"[-HKEY_CURRENT_USER\Software\Classes\CLSID\{test}]"));
}

#[test]
fn undo_is_reversed_and_inverted() {
    let entry = JournalEntry::new(
        "test".to_string(),
        26200,
        vec!["a".to_string()],
        vec![
            Change::Value { loc: loc("first"), from: None, to: Some(RegValue::Dword(1)) },
            Change::Value { loc: loc("second"), from: Some(RegValue::Dword(0)), to: Some(RegValue::Dword(1)) },
        ],
    );
    let undo = entry.undo_changes();
    match &undo[0] {
        Change::Value { loc, from, to } => {
            assert_eq!(loc.name, "second");
            assert_eq!(from, &Some(RegValue::Dword(1)));
            assert_eq!(to, &Some(RegValue::Dword(0)));
        },
        _ => panic!("expected a value change"),
    }
    match &undo[1] {
        Change::Value { loc, from, to } => {
            assert_eq!(loc.name, "first");
            assert_eq!(from, &Some(RegValue::Dword(1)));
            assert_eq!(to, &None);
        },
        _ => panic!("expected a value change"),
    }
}

#[test]
fn a_backup_starts_with_the_format_header() {
    let changes = vec![Change::Value { loc: loc("A"), from: Some(RegValue::Sz("x".to_string())), to: None }];
    let text = reg_backup(&changes);
    assert!(text.starts_with("Windows Registry Editor Version 5.00"));
    assert!(text.contains("\"A\"=\"x\""));
}

#[test]
fn backup_groups_values_under_their_key_once() {
    let changes = vec![
        Change::Value { loc: loc("A"), from: Some(RegValue::Dword(2)), to: None },
        Change::Value { loc: loc("B"), from: None, to: Some(RegValue::Dword(3)) },
    ];
    let text = reg_backup(&changes);
    assert_eq!(text.matches(r"[HKEY_CURRENT_USER\Software\Test]").count(), 1);
    assert!(text.contains("\"A\"=dword:00000002"));
    assert!(text.contains("\"B\"=-"));
}

fn entry_with(status: Status, changes: usize) -> JournalEntry {
    let mut cs = Vec::new();
    for _ in 0..changes {
        cs.push(Change::Value { loc: loc("v"), from: None, to: Some(RegValue::Dword(1)) });
    }
    let mut e = JournalEntry::new("e".to_string(), 26200, vec![], cs);
    e.status = status;
    e
}

#[test]
fn the_latest_revertible_entry_skips_reverted_and_empty_ones() {
    let list = vec![
        entry_with(Status::Reverted, 1),
        entry_with(Status::Applied, 0),
        entry_with(Status::RolledBack, 2),
        entry_with(Status::Pending, 3),
        entry_with(Status::Applied, 4),
    ];
    let found = first_revertible(list).unwrap();
    assert_eq!(found.status, Status::Pending);
    assert_eq!(found.changes.len(), 3);
    assert!(first_revertible(vec![entry_with(Status::Reverted, 1)]).is_none());
}

#[test]
fn a_memory_journal_gives_back_what_was_written() {
    let mut journal = MemoryJournal::new();
    let mut e = entry_with(Status::Applied, 2);
    e.id = "one".to_string();
    journal.write(&e).unwrap();
    let back = journal.load("one").unwrap();
    assert_eq!(back.changes.len(), 2);
    assert_eq!(back.status, Status::Applied);
    assert!(journal.load("two").is_err());
    assert_eq!(journal.len(), 1);
    let latest = journal.latest_revertible().unwrap().unwrap();
    assert_eq!(latest.id, "one");
}

fn at(id: &str, when: &str) -> JournalEntry {
    let mut e = entry_with(Status::Applied, 1);
    e.id = id.to_string();
    e.when = when.to_string();
    e
}

#[test]
fn entries_read_from_disk_are_listed_newest_first() {
    let read = vec![
        at("b", "2026-01-02T00:00:00.000Z"),
        at("a", "2025-12-31T23:59:59.000Z"),
        at("c", "2026-03-01T08:00:00.000Z"),
        at("b2", "2026-01-02T00:00:00.000Z"),
    ];
    let ids: Vec<String> = newest_first(read).into_iter().map(|e| e.id).collect();
    assert_eq!(ids, vec!["c", "b", "b2", "a"]);
}
