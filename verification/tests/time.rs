use mino_core::time::Utc;

fn at(seconds: i64) -> String {
    Utc::from_seconds(seconds).rfc3339()
}

#[test]
fn the_epoch() {
    assert_eq!(at(0), "1970-01-01T00:00:00.000Z");
}

#[test]
fn known_instants() {
    assert_eq!(at(1_000_000_000), "2001-09-09T01:46:40.000Z");
    assert_eq!(at(1_772_000_000), "2026-02-25T06:13:20.000Z");
    assert_eq!(at(951_782_400), "2000-02-29T00:00:00.000Z");
    assert_eq!(at(1_709_164_800), "2024-02-29T00:00:00.000Z");
    assert_eq!(at(1_767_225_599), "2025-12-31T23:59:59.000Z");
    assert_eq!(at(1_767_225_600), "2026-01-01T00:00:00.000Z");
}

#[test]
fn millis_are_kept() {
    let t = Utc { seconds: 1_767_225_600, millis: 7 };
    assert_eq!(t.rfc3339(), "2026-01-01T00:00:00.007Z");
    assert_eq!(t.compact(), "20260101T000000007");
}

#[test]
fn strings_sort_in_time_order() {
    let mut stamps = [at(1_767_225_600), at(0), at(1_000_000_000)];
    stamps.sort();
    assert_eq!(stamps[0], at(0));
    assert_eq!(stamps[2], at(1_767_225_600));
}

#[test]
fn now_is_in_this_century() {
    let now = Utc::now().rfc3339();
    assert!(now.starts_with("20"), "unexpected clock reading: {now}");
}

#[test]
fn instants_before_the_epoch_count_back() {
    assert_eq!(at(-1), "1969-12-31T23:59:59.000Z");
    assert_eq!(at(-86_400), "1969-12-31T00:00:00.000Z");
}

#[test]
fn ids_sort_in_time_order_down_to_the_millisecond() {
    let earlier = Utc { seconds: 1_767_225_599, millis: 999 };
    let later = Utc { seconds: 1_767_225_600, millis: 0 };
    let same_second = Utc { seconds: 1_767_225_600, millis: 1 };
    assert!(earlier.compact() < later.compact());
    assert!(later.compact() < same_second.compact());
    assert!(earlier.rfc3339() < later.rfc3339());
    assert!(later.rfc3339() < same_second.rfc3339());
}

#[test]
fn a_clock_reading_becomes_an_instant() {
    assert_eq!(Utc::from_clock(Some((1_767_225_600, 7))), Utc { seconds: 1_767_225_600, millis: 7 });
    assert_eq!(Utc::from_clock(None), Utc { seconds: 0, millis: 0 });
}
