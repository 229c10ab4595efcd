use mino_core::appbar::{
    action_for, edge_code, keep_thickness, proposal, AppBars, Bar, BarAction, ABN_POSCHANGED, CALLBACK_MESSAGE,
    WM_NCDESTROY,
};
use mino_core::shell::{Edge, Rect, WorkArea};

#[test]
fn a_negative_thickness_is_none() {
    assert_eq!(Bar::new(1, Edge::Top, -4).thickness, 0);
    assert_eq!(Bar::new(1, Edge::Top, 26).thickness, 26);
}

#[test]
fn two_windows_hold_two_strips() {
    let mut bars = AppBars::new();
    assert!(bars.hold(Bar::new(10, Edge::Top, 26)).is_none());
    assert!(bars.hold(Bar::new(20, Edge::Left, 64)).is_none());
    assert!(bars.is_registered(10));
    assert!(bars.is_registered(20));
    assert_eq!(bars.find(20).unwrap().edge, Edge::Left);
}

#[test]
fn registering_a_window_again_moves_its_strip_and_hands_back_the_old_one() {
    let mut bars = AppBars::new();
    bars.hold(Bar::new(10, Edge::Bottom, 48));
    bars.hold(Bar::new(20, Edge::Top, 26));
    let old = bars.hold(Bar::new(10, Edge::Left, 48)).unwrap();
    assert_eq!(old.edge, Edge::Bottom);
    assert_eq!(bars.find(10).unwrap().edge, Edge::Left);
    assert_eq!(bars.find(20).unwrap().edge, Edge::Top);
    assert_eq!(bars.take_all().len(), 2);
}

#[test]
fn unregistering_is_safe_for_a_window_that_holds_nothing() {
    let mut bars = AppBars::new();
    assert!(bars.take(99).is_none());
    bars.hold(Bar::new(1, Edge::Top, 26));
    assert_eq!(bars.take(1).unwrap().thickness, 26);
    assert!(!bars.is_registered(1));
}

#[test]
fn giving_everything_back_leaves_nothing_held() {
    let mut bars = AppBars::new();
    bars.hold(Bar::new(1, Edge::Top, 26));
    bars.hold(Bar::new(2, Edge::Right, 60));
    let all = bars.take_all();
    assert_eq!(all.iter().map(|b| b.hwnd).collect::<Vec<_>>(), vec![1, 2]);
    assert!(!bars.is_registered(1));
    assert!(!bars.is_registered(2));
}

#[test]
fn a_bar_asks_for_its_strip_and_keeps_its_thickness() {
    let monitor = WorkArea { x: 0, y: 0, width: 1920, height: 1080 };
    let top = Bar::new(1, Edge::Top, 26);
    assert_eq!(proposal(monitor, top), Rect { left: 0, top: 0, right: 1920, bottom: 26 });
    let dock = Bar::new(2, Edge::Left, 80);
    assert_eq!(proposal(monitor, dock), Rect { left: 0, top: 0, right: 80, bottom: 1080 });
    // Windows moved the top edge down past the taskbar at the top.
    let moved = Rect { left: 0, top: 48, right: 1920, bottom: 26 };
    assert_eq!(keep_thickness(moved, Edge::Top, 26), Rect { left: 0, top: 48, right: 1920, bottom: 74 });
    let moved = Rect { left: 0, top: 0, right: 1920, bottom: 1032 };
    assert_eq!(keep_thickness(moved, Edge::Bottom, 64), Rect { left: 0, top: 968, right: 1920, bottom: 1032 });
    let moved = Rect { left: 1800, top: 0, right: 1880, bottom: 1080 };
    assert_eq!(keep_thickness(moved, Edge::Right, 80), Rect { left: 1800, top: 0, right: 1880, bottom: 1080 });
}

#[test]
fn a_strip_window_answers_explorer_the_taskbar_and_its_own_end() {
    let created = 0xC0F3;
    assert_eq!(action_for(created, 0, created), BarAction::Readd);
    assert_eq!(action_for(CALLBACK_MESSAGE, ABN_POSCHANGED, created), BarAction::Reposition);
    assert_eq!(action_for(CALLBACK_MESSAGE, 2, created), BarAction::PassOn);
    assert_eq!(action_for(WM_NCDESTROY, 0, created), BarAction::Release);
    assert_eq!(action_for(0x0010, 0, created), BarAction::PassOn);
    assert_eq!((edge_code(Edge::Left), edge_code(Edge::Top), edge_code(Edge::Right), edge_code(Edge::Bottom)), (0, 1, 2, 3));
}
