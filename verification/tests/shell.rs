use mino_core::shell::{
    area_of, bar_rect, deltas, display_name, monitor_area, path_buffer, rgba_from_bgra, shows_window, ticks, Edge, Icon, Rect, Sample,
    WindowFacts, WorkArea,
};
use mino_core::utf16::string_from_units;

const SCREEN: WorkArea = WorkArea { x: 0, y: 0, width: 1920, height: 1080 };

#[test]
fn a_top_bar_spans_the_width_and_sits_at_the_top() {
    let bar = bar_rect(SCREEN, Edge::Top, 26);
    assert_eq!(bar, WorkArea { x: 0, y: 0, width: 1920, height: 26 });
}

#[test]
fn the_other_three_edges_are_the_same_arithmetic() {
    assert_eq!(bar_rect(SCREEN, Edge::Bottom, 26).y, 1054);
    assert_eq!(bar_rect(SCREEN, Edge::Left, 64).width, 64);
    assert_eq!(bar_rect(SCREEN, Edge::Right, 64).x, 1856);
    assert_eq!(bar_rect(SCREEN, Edge::Left, 64).height, 1080);
    assert_eq!(bar_rect(SCREEN, Edge::Bottom, 26).width, 1920);
}

#[test]
fn a_monitor_that_does_not_start_at_the_origin_is_still_covered() {
    let secondary = WorkArea { x: -1920, y: 120, width: 1280, height: 720 };
    let bar = bar_rect(secondary, Edge::Top, 30);
    assert_eq!((bar.x, bar.y, bar.width, bar.height), (-1920, 120, 1280, 30));
}

#[test]
fn a_bar_cannot_be_thicker_than_the_screen_it_is_on() {
    assert_eq!(bar_rect(SCREEN, Edge::Top, 99_999).height, 1080);
    assert_eq!(bar_rect(SCREEN, Edge::Top, -5).height, 0);
}

#[test]
fn names_come_from_the_file_stem() {
    assert_eq!(display_name(r"C:\Windows\notepad.exe"), "Notepad");
    assert_eq!(display_name(r"C:\Windows\explorer.exe"), "Explorer");
    assert_eq!(display_name("weird"), "Weird");
}

#[test]
fn a_filetime_is_read_as_one_64_bit_number() {
    assert_eq!(ticks(0x0000_0002, 0x0000_0001), 0x0000_0001_0000_0002);
}

#[test]
fn counters_that_go_backwards_move_by_nothing() {
    let before = Sample { idle: 250, total: 1000, bytes_in: 5000, bytes_out: 10, at_ms: 1000 };
    let now = Sample { idle: 500, total: 2000, bytes_in: 1000, bytes_out: 30, at_ms: 3000 };
    let d = deltas(before, now);
    assert_eq!((d.elapsed_ms, d.total, d.idle, d.bytes_in, d.bytes_out), (2000, 1000, 250, 0, 20));
}

#[test]
fn pixels_come_back_as_rgba() {
    let bgra = vec![1, 2, 3, 200, 10, 20, 30, 0];
    assert_eq!(rgba_from_bgra(&bgra), vec![3, 2, 1, 200, 30, 20, 10, 0]);
}

#[test]
fn an_icon_without_alpha_is_made_opaque() {
    let bgra = vec![1, 2, 3, 0, 10, 20, 30, 0, 7];
    assert_eq!(rgba_from_bgra(&bgra), vec![3, 2, 1, 255, 30, 20, 10, 255, 7]);
    let icon: Icon = Icon::from_bitmap(2, 1, &bgra[..8].to_vec()).unwrap();
    assert_eq!((icon.width, icon.height), (2, 1));
    assert_eq!(icon.rgba, vec![3, 2, 1, 255, 30, 20, 10, 255]);
    assert!(Icon::from_bitmap(0, 16, &vec![]).is_none());
    assert!(Icon::from_bitmap(16, -16, &vec![]).is_none());
}

fn notepad() -> WindowFacts {
    WindowFacts {
        visible: true,
        owned: false,
        ex_style: 0x100,
        cloaked: false,
        title: "Untitled - Notepad".to_string(),
        pid: 4242,
    }
}

#[test]
fn only_somebody_elses_application_windows_are_shown() {
    assert!(shows_window(&notepad(), 7));
    assert!(!shows_window(&WindowFacts { visible: false, ..notepad() }, 7));
    assert!(!shows_window(&WindowFacts { owned: true, ..notepad() }, 7));
    assert!(!shows_window(&WindowFacts { ex_style: 0x80, ..notepad() }, 7));
    assert!(!shows_window(&WindowFacts { cloaked: true, ..notepad() }, 7));
    assert!(!shows_window(&WindowFacts { title: " \t ".to_string(), ..notepad() }, 7));
    assert!(!shows_window(&WindowFacts { pid: 0, ..notepad() }, 7));
    assert!(!shows_window(&notepad(), 4242));
}

#[test]
fn a_rectangle_covers_its_area_and_an_inverted_one_none() {
    let rc = Rect { left: 10, top: 20, right: 110, bottom: 70 };
    assert_eq!(area_of(rc), WorkArea { x: 10, y: 20, width: 100, height: 50 });
    let inverted = Rect { left: 110, top: 70, right: 10, bottom: 20 };
    assert_eq!(area_of(inverted), WorkArea { x: 110, y: 70, width: 0, height: 0 });
    assert_eq!(monitor_area(None), WorkArea { x: 0, y: 0, width: 1920, height: 1080 });
    assert_eq!(monitor_area(Some(rc)), WorkArea { x: 10, y: 20, width: 100, height: 50 });
}

#[test]
fn titles_are_read_from_utf16_with_lone_surrogates_replaced() {
    assert_eq!(string_from_units(&vec![0x48, 0x69, 0xD83D, 0xDE00]), "Hi\u{1F600}");
    assert_eq!(string_from_units(&vec![0x41, 0xD800, 0x42]), "A\u{FFFD}B");
}

#[test]
fn a_path_is_handed_over_in_a_terminated_buffer() {
    let buffer = path_buffer(r"C:\A.exe");
    assert_eq!(buffer.len(), 260);
    assert_eq!(&buffer[..8], &[0x43, 0x3A, 0x5C, 0x41, 0x2E, 0x65, 0x78, 0x65]);
    assert!(buffer[8..].iter().all(|&u| u == 0));
    let long = "x".repeat(300);
    let buffer = path_buffer(&long);
    assert_eq!(buffer.len(), 260);
    assert!(buffer[..259].iter().all(|&u| u == 0x78));
    assert_eq!(buffer[259], 0);
}
