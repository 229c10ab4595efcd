use mino_core::provider::{MemoryRegistry, RegValue};
use mino_core::tweak::Change;
use mino_core::tweaks::appearance::{AccentColorTweak, AccentShades, DarkModeTweak};
use mino_core::value::{Color, Value};

/// A shading that puts the base in the middle of the ramp and darker,
/// numbered shades around it, enough to see where each one lands.
fn shade(c: Color) -> AccentShades {
    let mut ramp = [c; 7];
    for (i, slot) in ramp.iter_mut().enumerate() {
        if i != 3 {
            *slot = Color::new(i as u8, i as u8, i as u8);
        }
    }
    AccentShades { ramp, start: Color::new(1, 2, 3) }
}

#[test]
fn palette_puts_the_base_at_index_three() {
    let base = Color::new(0x0F, 0x62, 0xC0);
    let bytes = AccentColorTweak::palette(&shade(base).ramp, &None);
    assert_eq!(bytes.len(), 32);
    assert_eq!(&bytes[12..16], &[base.r, base.g, base.b, 0x00]);
}

#[test]
fn the_eighth_palette_entry_is_preserved() {
    let previous = RegValue::Binary({
        let mut bytes = vec![0u8; 28];
        bytes.extend_from_slice(&[0x11, 0x22, 0x33, 0x00]);
        bytes
    });
    let bytes = AccentColorTweak::palette(&shade(Color::new(0x0F, 0x62, 0xC0)).ramp, &Some(previous));
    assert_eq!(&bytes[28..32], &[0x11, 0x22, 0x33, 0x00]);
}

#[test]
fn each_ramp_entry_takes_four_bytes_in_order() {
    let bytes = AccentColorTweak::palette(&shade(Color::new(9, 9, 9)).ramp, &None);
    for i in 0..7 {
        if i != 3 {
            assert_eq!(&bytes[i * 4..i * 4 + 4], &[i as u8, i as u8, i as u8, 0]);
        }
    }
    // With nothing to keep, the eighth entry is the one Windows ships with.
    assert_eq!(&bytes[28..32], &[0xF7, 0x63, 0x0C, 0x00]);
}

#[test]
fn dark_mode_defaults_to_light_when_unset() {
    let reg = MemoryRegistry::new();
    assert_eq!(DarkModeTweak.read(&reg).unwrap(), Value::Bool(false));
}

#[test]
fn dark_mode_writes_both_switches() {
    let reg = MemoryRegistry::new();
    let set = DarkModeTweak.plan(&reg, &Value::Bool(true)).unwrap();
    assert_eq!(set.changes.len(), 2);
}

#[test]
fn accent_plan_is_empty_when_already_applied() {
    let mut reg = MemoryRegistry::new();
    let want = Value::Color(Color::new(0x0F, 0x62, 0xC0));
    for change in AccentColorTweak.plan(&reg, &want, &shade).unwrap().changes {
        if let Change::Value { loc, to: Some(v), .. } = change {
            reg.seed(&loc, v);
        }
    }
    assert!(AccentColorTweak.plan(&reg, &want, &shade).unwrap().is_empty());
}

#[test]
fn accent_colour_is_stored_byte_reversed() {
    let mut reg = MemoryRegistry::new();
    let want = Value::Color(Color::new(0x0F, 0x62, 0xC0));
    for change in AccentColorTweak.plan(&reg, &want, &shade).unwrap().changes {
        if let Change::Value { loc, to: Some(v), .. } = change {
            reg.seed(&loc, v);
        }
    }
    assert_eq!(AccentColorTweak.read(&reg).unwrap(), want);
}
