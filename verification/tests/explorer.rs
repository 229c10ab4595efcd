use mino_core::provider::MemoryRegistry;
use mino_core::tweak::Change;
use mino_core::tweaks::explorer::ClassicContextMenuTweak;
use mino_core::value::Value;

#[test]
fn enabling_creates_key_then_value() {
    let reg = MemoryRegistry::new();
    assert_eq!(ClassicContextMenuTweak.read(&reg).unwrap(), Value::Bool(false));

    let set = ClassicContextMenuTweak.plan(&reg, &Value::Bool(true)).unwrap();
    assert_eq!(set.changes.len(), 3);
    assert!(matches!(set.changes[0], Change::Key { .. }));
    assert!(matches!(set.changes[2], Change::Value { .. }));
}

#[test]
fn no_change_when_already_in_the_wanted_state() {
    let reg = MemoryRegistry::new();
    assert!(ClassicContextMenuTweak.plan(&reg, &Value::Bool(false)).unwrap().is_empty());
}
