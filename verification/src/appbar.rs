//! Which windows hold a reserved strip of the desktop.
//!
//! Two surfaces can hold a strip at once (a bar across the top and a dock down
//! the side), so registrations are kept per window. A second registration that
//! overwrote the first would leave the first strip reserved with nothing left
//! that knows how to give it back: each window holds at most one strip, and
//! registering one window never touches another's.

use vstd::prelude::*;
use crate::shell::{bar_area, bar_rect, rect_of, Edge, Rect, WorkArea};

verus! {

/// One reserved strip, and the window that holds it.
#[derive(Debug, Clone, Copy, PartialEq, Eq, Structural)]
pub struct Bar {
    pub hwnd: isize,
    pub edge: Edge,
    pub thickness: i32,
}

impl Bar {
    /// A strip of `thickness` pixels along `edge`; a negative thickness is none.
    pub fn new(hwnd: isize, edge: Edge, thickness: i32) -> (r: Self)
        ensures
            r.hwnd == hwnd,
            r.edge == edge,
            r.thickness == if thickness < 0 { 0 } else { thickness },
    {
        Bar { hwnd, edge, thickness: if thickness < 0 { 0 } else { thickness } }
    }
}

/// The rectangle `bar` asks Windows for on `monitor`: its strip along its
/// edge.
pub fn proposal(monitor: WorkArea, bar: Bar) -> (r: Rect)
    requires
        i32::MIN <= monitor.x + monitor.width <= i32::MAX,
        i32::MIN <= monitor.y + monitor.height <= i32::MAX,
    ensures
        ({
            let a = bar_area(monitor, bar.edge, bar.thickness);
            r == (Rect { left: a.x, top: a.y, right: (a.x + a.width) as i32, bottom: (a.y + a.height) as i32 })
        }),
{
    rect_of(bar_rect(monitor, bar.edge, bar.thickness))
}

/// What a bar keeps of the rectangle Windows proposes: Windows moves the
/// edge it asked for to clear whatever is there already, and the opposite
/// edge is then pinned to keep the strip's own thickness.
pub open spec fn kept(rc: Rect, edge: Edge, thickness: i32) -> Rect {
    match edge {
        Edge::Top => Rect { bottom: (rc.top + thickness) as i32, ..rc },
        Edge::Bottom => Rect { top: (rc.bottom - thickness) as i32, ..rc },
        Edge::Left => Rect { right: (rc.left + thickness) as i32, ..rc },
        Edge::Right => Rect { left: (rc.right - thickness) as i32, ..rc },
    }
}

/// [`kept`], computed.
pub fn keep_thickness(rc: Rect, edge: Edge, thickness: i32) -> (r: Rect)
    requires
        match edge {
            Edge::Top => i32::MIN <= rc.top + thickness <= i32::MAX,
            Edge::Bottom => i32::MIN <= rc.bottom - thickness <= i32::MAX,
            Edge::Left => i32::MIN <= rc.left + thickness <= i32::MAX,
            Edge::Right => i32::MIN <= rc.right - thickness <= i32::MAX,
        },
    ensures
        r == kept(rc, edge, thickness),
{
    match edge {
        Edge::Top => Rect { bottom: rc.top + thickness, ..rc },
        Edge::Bottom => Rect { top: rc.bottom - thickness, ..rc },
        Edge::Left => Rect { right: rc.left + thickness, ..rc },
        Edge::Right => Rect { left: rc.right - thickness, ..rc },
    }
}

/// The number Windows knows an edge by when a strip is asked for.
pub fn edge_code(edge: Edge) -> (r: u32)
    ensures
        r == match edge {
            Edge::Left => 0u32,
            Edge::Top => 1u32,
            Edge::Right => 2u32,
            Edge::Bottom => 3u32,
        },
{
    match edge {
        Edge::Left => 0,
        Edge::Top => 1,
        Edge::Right => 2,
        Edge::Bottom => 3,
    }
}

/// The message Windows sends a strip's window about its strip: ours to
/// choose, and only ever sent back to the window that registered it.
pub const CALLBACK_MESSAGE: u32 = 0x8040;

/// What that message says when the strip has been moved.
pub const ABN_POSCHANGED: u32 = 1;

/// The last message a window receives.
pub const WM_NCDESTROY: u32 = 0x0082;

/// What a window holding a strip does on a message.
#[derive(Debug, Clone, Copy, PartialEq, Eq, Structural)]
pub enum BarAction {
    /// Explorer came back and took every strip with it: register again from
    /// scratch.
    Readd,
    /// The taskbar moved: ask for the strip again.
    Reposition,
    /// The window is going: give its strip back, whatever else happened.
    Release,
    /// Anything else is handed on untouched.
    PassOn,
}

/// What to do on `message`, whose notification code is `notification`;
/// `taskbar_created` is the number Windows gave the broadcast it sends when
/// Explorer starts.
pub fn action_for(message: u32, notification: u32, taskbar_created: u32) -> (r: BarAction)
    ensures
        r == if message == taskbar_created {
            BarAction::Readd
        } else if message == CALLBACK_MESSAGE && notification == ABN_POSCHANGED {
            BarAction::Reposition
        } else if message == WM_NCDESTROY {
            BarAction::Release
        } else {
            BarAction::PassOn
        },
{
    if message == taskbar_created {
        BarAction::Readd
    } else if message == CALLBACK_MESSAGE && notification == ABN_POSCHANGED {
        BarAction::Reposition
    } else if message == WM_NCDESTROY {
        BarAction::Release
    } else {
        BarAction::PassOn
    }
}

/// Whether window `hwnd` holds a strip in `s`.
pub open spec fn held(s: Seq<Bar>, hwnd: isize) -> bool {
    exists|i: int| 0 <= i < s.len() && (#[trigger] s[i]).hwnd == hwnd
}

/// No window holds two strips.
pub open spec fn one_each(s: Seq<Bar>) -> bool {
    forall|i: int, j: int| 0 <= i < j < s.len() ==> (#[trigger] s[i]).hwnd != (#[trigger] s[j]).hwnd
}

/// `b` is the strip that `hwnd` holds in `s`, and `rest` is `s` without it.
pub open spec fn removed(s: Seq<Bar>, b: Bar, hwnd: isize, rest: Seq<Bar>) -> bool {
    b.hwnd == hwnd && exists|i: int| 0 <= i < s.len() && s[i] == b && rest == s.remove(i)
}

/// One of the calls that change which strips are held: [`AppBars::hold`],
/// [`AppBars::take`] and [`AppBars::take_all`].
pub enum BarCall {
    Hold(Bar),
    Take(isize),
    TakeAll,
}

/// What a call, by its contract, does to which windows hold a strip.
pub open spec fn call_effect(before: Seq<Bar>, call: BarCall, after: Seq<Bar>) -> bool {
    match call {
        BarCall::Hold(bar) => held(after, bar.hwnd) && forall|h: isize|
            h != bar.hwnd ==> held(after, h) == held(before, h),
        BarCall::Take(hwnd) => !held(after, hwnd) && forall|h: isize|
            h != hwnd ==> held(after, h) == held(before, h),
        BarCall::TakeAll => forall|h: isize| !held(after, h),
    }
}

/// Whether `hwnd` holds a strip after `calls`, starting from `initially`:
/// the last call that concerns it decides.
pub open spec fn held_after(calls: Seq<BarCall>, hwnd: isize, initially: bool) -> bool
    decreases calls.len(),
{
    if calls.len() == 0 {
        initially
    } else {
        match calls.last() {
            BarCall::Hold(bar) => if bar.hwnd == hwnd {
                true
            } else {
                held_after(calls.drop_last(), hwnd, initially)
            },
            BarCall::Take(h) => if h == hwnd {
                false
            } else {
                held_after(calls.drop_last(), hwnd, initially)
            },
            BarCall::TakeAll => false,
        }
    }
}

/// Over any run of calls, a window holds a strip exactly when the last call
/// that concerned it was a [`hold`](AppBars::hold) of its strip; calls about
/// other windows leave it as it was. `states[i]` is what was held before the
/// `i`-th call, and the last one what is held at the end.
pub proof fn law_held_follows_last_call(calls: Seq<BarCall>, states: Seq<Seq<Bar>>, hwnd: isize)
    requires
        states.len() == calls.len() + 1,
        forall|i: int| 0 <= i < calls.len() ==> call_effect(states[i], #[trigger] calls[i], states[i + 1]),
    ensures
        held(states.last(), hwnd) == held_after(calls, hwnd, held(states[0], hwnd)),
    decreases calls.len(),
{
    if calls.len() > 0 {
        let n = calls.len() - 1;
        let c2 = calls.drop_last();
        let s2 = states.drop_last();
        assert forall|i: int| 0 <= i < c2.len() implies call_effect(s2[i], #[trigger] c2[i], s2[i + 1]) by {
            assert(call_effect(states[i], calls[i], states[i + 1]));
        }
        law_held_follows_last_call(c2, s2, hwnd);
        assert(call_effect(states[n], calls[n], states[n + 1]));
        assert(s2.last() == states[n]);
    }
}

/// Every strip this process currently holds, in the order they were taken.
pub struct AppBars {
    bars: Vec<Bar>,
}

impl View for AppBars {
    type V = Seq<Bar>;

    closed spec fn view(&self) -> Seq<Bar> {
        self.bars@
    }
}

impl AppBars {
    pub closed spec fn wf(&self) -> bool {
        one_each(self.bars@)
    }

    pub fn new() -> (r: Self)
        ensures
            r.wf(),
            r@ == Seq::<Bar>::empty(),
    {
        AppBars { bars: Vec::new() }
    }

    fn index_of(&self, hwnd: isize) -> (r: Option<usize>)
        ensures
            match r {
                Some(i) => i < self@.len() && self@[i as int].hwnd == hwnd,
                None => !held(self@, hwnd),
            },
    {
        let mut i: usize = 0;
        while i < self.bars.len()
            invariant
                i <= self.bars@.len(),
                forall|j: int| 0 <= j < i ==> (#[trigger] self.bars@[j]).hwnd != hwnd,
            decreases self.bars@.len() - i,
        {
            if self.bars[i].hwnd == hwnd {
                return Some(i);
            }
            i += 1;
        }
        None
    }

    /// The strip `hwnd` holds, if any.
    pub fn find(&self, hwnd: isize) -> (r: Option<Bar>)
        requires
            self.wf(),
        ensures
            match r {
                Some(b) => b.hwnd == hwnd && self@.contains(b),
                None => !held(self@, hwnd),
            },
    {
        match self.index_of(hwnd) {
            Some(i) => Some(self.bars[i]),
            None => None,
        }
    }

    /// Whether this window currently holds a strip.
    pub fn is_registered(&self, hwnd: isize) -> (r: bool)
        ensures
            r == held(self@, hwnd),
    {
        self.index_of(hwnd).is_some()
    }

    /// Forgets the strip `hwnd` holds and hands it back, so it can be given
    /// back to Windows. Nothing happens for a window that holds none.
    pub fn take(&mut self, hwnd: isize) -> (r: Option<Bar>)
        requires
            old(self).wf(),
        ensures
            final(self).wf(),
            match r {
                Some(b) => removed(old(self)@, b, hwnd, final(self)@),
                None => !held(old(self)@, hwnd) && final(self)@ == old(self)@,
            },
            !held(final(self)@, hwnd),
            forall|h: isize| h != hwnd ==> held(final(self)@, h) == held(old(self)@, h),
    {
        match self.index_of(hwnd) {
            Some(i) => {
                let ghost before = self.bars@;
                let b = self.bars.remove(i);
                proof {
                    assert(self.bars@ == before.remove(i as int));
                    assert forall|h: isize| h != hwnd implies held(self.bars@, h) == held(before, h) by {
                        if held(before, h) {
                            let k = choose|k: int| 0 <= k < before.len() && (#[trigger] before[k]).hwnd == h;
                            if k < i {
                                assert(self.bars@[k] == before[k]);
                            } else {
                                assert(k != i);
                                assert(self.bars@[k - 1] == before[k]);
                            }
                        }
                        if held(self.bars@, h) {
                            let k = choose|k: int| 0 <= k < self.bars@.len() && (#[trigger] self.bars@[k]).hwnd == h;
                            if k < i {
                                assert(before[k] == self.bars@[k]);
                            } else {
                                assert(before[k + 1] == self.bars@[k]);
                            }
                        }
                    }
                    if held(self.bars@, hwnd) {
                        let k = choose|k: int| 0 <= k < self.bars@.len() && (#[trigger] self.bars@[k]).hwnd == hwnd;
                        if k < i {
                            assert(before[k].hwnd == before[i as int].hwnd);
                        } else {
                            assert(before[k + 1].hwnd == before[i as int].hwnd);
                        }
                    }
                    assert(one_each(self.bars@)) by {
                        assert forall|p: int, q: int| 0 <= p < q < self.bars@.len() implies (#[trigger] self.bars@[p]).hwnd
                            != (#[trigger] self.bars@[q]).hwnd by {
                            let pp = if p < i { p } else { p + 1 };
                            let qq = if q < i { q } else { q + 1 };
                            assert(self.bars@[p] == before[pp]);
                            assert(self.bars@[q] == before[qq]);
                        }
                    }
                }
                Some(b)
            },
            None => None,
        }
    }

    /// Records that `bar.hwnd` now holds `bar`. A strip the window held before
    /// is forgotten and handed back; every other window keeps its own.
    pub fn hold(&mut self, bar: Bar) -> (r: Option<Bar>)
        requires
            old(self).wf(),
        ensures
            final(self).wf(),
            match r {
                Some(b) => exists|rest: Seq<Bar>| removed(old(self)@, b, bar.hwnd, rest) && final(self)@ == rest.push(bar),
                None => !held(old(self)@, bar.hwnd) && final(self)@ == old(self)@.push(bar),
            },
            held(final(self)@, bar.hwnd),
            forall|h: isize| h != bar.hwnd ==> held(final(self)@, h) == held(old(self)@, h),
    {
        let ghost start = self.bars@;
        let prev = self.take(bar.hwnd);
        let ghost rest = self.bars@;
        self.bars.push(bar);
        proof {
            let n = rest.len();
            assert(self.bars@[n as int] == bar);
            assert forall|h: isize| h != bar.hwnd implies held(self.bars@, h) == held(rest, h) by {
                if held(rest, h) {
                    let k = choose|k: int| 0 <= k < rest.len() && (#[trigger] rest[k]).hwnd == h;
                    assert(self.bars@[k] == rest[k]);
                }
                if held(self.bars@, h) {
                    let k = choose|k: int| 0 <= k < self.bars@.len() && (#[trigger] self.bars@[k]).hwnd == h;
                    assert(k < n);
                    assert(rest[k] == self.bars@[k]);
                }
            }
            assert(one_each(self.bars@)) by {
                assert forall|p: int, q: int| 0 <= p < q < self.bars@.len() implies (#[trigger] self.bars@[p]).hwnd
                    != (#[trigger] self.bars@[q]).hwnd by {
                    if q == n {
                        assert(self.bars@[p] == rest[p]);
                    } else {
                        assert(self.bars@[p] == rest[p]);
                        assert(self.bars@[q] == rest[q]);
                    }
                }
            }
        }
        prev
    }

    /// Forgets every strip and hands them all back, in the order they were
    /// taken. What the process does on its way out.
    pub fn take_all(&mut self) -> (r: Vec<Bar>)
        requires
            old(self).wf(),
        ensures
            final(self).wf(),
            r@ == old(self)@,
            final(self)@ == Seq::<Bar>::empty(),
            forall|h: isize| !held(final(self)@, h),
    {
        let mut held_now: Vec<Bar> = Vec::new();
        std::mem::swap(&mut held_now, &mut self.bars);
        held_now
    }
}

} // verus!
