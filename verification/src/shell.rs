//! The shell layer: our own surfaces, drawn on top of Windows.
//!
//! Windows has no dock and no way to add one, so the dock is ours, drawn in a
//! window of our own. What is decided about it — where a bar goes, which
//! entries a dock shows and what they are called — is decided here; finding
//! the windows and drawing them is left to the program around the library.

use vstd::prelude::*;
use crate::text::{chars_of, fold_case, fold_case_str, lex_less, push_str, str_eq, str_less, string_of, trim, trim_chars};
use crate::tweaks::desktop::{file_name, is_mark, last_mark};
use crate::utf16::{units_of_text, utf16_units};

verus! {

/// A top-level window worth showing on a dock.
pub struct AppWindow {
    /// The raw window handle, passed back when the user clicks. Only
    /// meaningful while the window still exists.
    pub hwnd: isize,
    pub title: String,
    pub exe: String,
    pub minimized: bool,
    pub maximized: bool,
}

/// The extended window style of a tool window: a palette or floating
/// toolbar, never an application.
pub const WS_EX_TOOLWINDOW: u32 = 0x80;

/// What is known of a top-level window when deciding whether a surface of
/// ours should show it.
pub struct WindowFacts {
    pub visible: bool,
    /// Whether another window owns it: dialogs and palettes are owned.
    pub owned: bool,
    pub ex_style: u32,
    /// Windows keeps suspended Store apps around as cloaked, invisible
    /// windows; left in, they fill a dock with phantoms.
    pub cloaked: bool,
    pub title: String,
    /// The process it belongs to, `0` when Windows would not say.
    pub pid: u32,
}

/// The window is somebody else's application window: visible, not owned,
/// not a tool window, not cloaked, with a title that is more than white
/// space, and belonging to a known process other than `own_pid`, ours. Our
/// own windows have no business on our own surfaces.
pub open spec fn shows(f: WindowFacts, own_pid: u32) -> bool {
    &&& f.visible
    &&& !f.owned
    &&& f.ex_style & WS_EX_TOOLWINDOW == 0
    &&& !f.cloaked
    &&& trim(f.title@).len() > 0
    &&& f.pid != 0
    &&& f.pid != own_pid
}

/// Whether a surface shows the window: the dock lists it, and the bar puts
/// its name up when it is in front. One test for both, so a window the dock
/// refuses is not one the bar names either.
pub fn shows_window(f: &WindowFacts, own_pid: u32) -> (r: bool)
    ensures
        r == shows(*f, own_pid),
{
    f.visible && !f.owned && f.ex_style & WS_EX_TOOLWINDOW == 0 && !f.cloaked && trim_chars(
        &chars_of(f.title.as_str()),
    ).len() > 0 && f.pid != 0 && f.pid != own_pid
}

/// The length, in UTF-16 units, of a fixed Win32 path buffer.
pub const MAX_PATH: usize = 260;

/// The fixed buffer an executable's path is handed over in to have its icon
/// read: the path's UTF-16 units, as many as fit before the last unit, then
/// zeros, so the buffer always ends terminated.
pub open spec fn path_buffer_of(exe: Seq<char>) -> Seq<u16> {
    let u = utf16_units(exe);
    Seq::new(
        MAX_PATH as nat,
        |i: int|
            if i < MAX_PATH - 1 && i < u.len() {
                u[i]
            } else {
                0u16
            },
    )
}

/// [`path_buffer_of`], computed.
pub fn path_buffer(exe: &str) -> (r: Vec<u16>)
    ensures
        r@ == path_buffer_of(exe@),
{
    let units = units_of_text(exe);
    let mut out: Vec<u16> = Vec::new();
    let mut i: usize = 0;
    while i < MAX_PATH
        invariant
            units@ == utf16_units(exe@),
            i <= MAX_PATH,
            out@.len() == i,
            forall|j: int| 0 <= j < i ==> #[trigger] out@[j] == path_buffer_of(exe@)[j],
        decreases MAX_PATH - i,
    {
        if i < MAX_PATH - 1 && i < units.len() {
            out.push(units[i]);
        } else {
            out.push(0);
        }
        i += 1;
    }
    proof {
        assert(out@ =~= path_buffer_of(exe@));
    }
    out
}

/// Straight-alpha RGBA, top row first.
pub struct Icon {
    pub width: u32,
    pub height: u32,
    pub rgba: Vec<u8>,
}

/// Whether any whole pixel of `px` (four bytes each, alpha last) has an
/// alpha that is not zero.
pub open spec fn any_alpha(px: Seq<u8>) -> bool {
    exists|i: int| 0 <= i < px.len() / 4 && #[trigger] px[4 * i + 3] != 0
}

/// The `k`-th byte of `px` turned from blue, green, red, alpha into red,
/// green, blue, alpha, with every alpha made opaque when the image has none;
/// a byte past the last whole pixel stays as it is.
pub open spec fn rgba_byte(px: Seq<u8>, k: int) -> u8 {
    if k >= (px.len() / 4) * 4 {
        px[k]
    } else {
        let i = k / 4;
        let c = k % 4;
        if c == 0 {
            px[4 * i + 2]
        } else if c == 1 {
            px[4 * i + 1]
        } else if c == 2 {
            px[4 * i]
        } else if any_alpha(px) {
            px[4 * i + 3]
        } else {
            0xFF
        }
    }
}

/// Pixels as GDI hands them back (blue, green, red, alpha) as the straight
/// RGBA an [`Icon`] holds. Older icons carry no alpha channel at all; without
/// making them opaque they would come out fully transparent, which reads as
/// "the icon failed to load".
pub fn rgba_from_bgra(px: &Vec<u8>) -> (r: Vec<u8>)
    ensures
        r@.len() == px@.len(),
        forall|k: int| 0 <= k < px@.len() ==> #[trigger] r@[k] == rgba_byte(px@, k),
{
    let n = px.len() / 4;
    assert(n * 4 <= px@.len()) by (nonlinear_arith)
        requires
            n == px@.len() / 4,
    ;
    let mut alpha = false;
    let mut i: usize = 0;
    let mut base: usize = 0;
    while i < n
        invariant
            n == px@.len() / 4,
            n * 4 <= px.len(),
            i <= n,
            base == 4 * i,
            alpha <==> exists|j: int| 0 <= j < i && #[trigger] px@[4 * j + 3] != 0,
        decreases n - i,
    {
        if px[base + 3] != 0 {
            alpha = true;
        }
        i += 1;
        base += 4;
    }
    assert(alpha == any_alpha(px@));
    let mut out: Vec<u8> = Vec::new();
    let mut k: usize = 0;
    while k < px.len()
        invariant
            n == px@.len() / 4,
            n * 4 <= px@.len(),
            alpha == any_alpha(px@),
            k <= px@.len(),
            out@.len() == k,
            forall|j: int| 0 <= j < k ==> #[trigger] out@[j] == rgba_byte(px@, j),
        decreases px.len() - k,
    {
        let b = if k >= n * 4 {
            px[k]
        } else {
            let p = k / 4;
            let c = k % 4;
            if c == 0 {
                px[4 * p + 2]
            } else if c == 1 {
                px[4 * p + 1]
            } else if c == 2 {
                px[4 * p]
            } else if alpha {
                px[4 * p + 3]
            } else {
                0xFF
            }
        };
        out.push(b);
        k += 1;
    }
    out
}

impl Icon {
    /// An icon from a bitmap GDI reported as `width` by `height` and the
    /// pixels it handed back; `None` for a bitmap with no pixels. A negative
    /// size counts as none.
    pub fn from_bitmap(width: i32, height: i32, bgra: &Vec<u8>) -> (r: Option<Icon>)
        ensures
            match r {
                Some(icon) => width > 0 && height > 0 && icon.width == width && icon.height == height
                    && icon.rgba@.len() == bgra@.len() && forall|k: int|
                    0 <= k < bgra@.len() ==> #[trigger] icon.rgba@[k] == rgba_byte(bgra@, k),
                None => width <= 0 || height <= 0,
            },
    {
        if width <= 0 || height <= 0 {
            return None;
        }
        Some(Icon { width: width as u32, height: height as u32, rgba: rgba_from_bgra(bgra) })
    }
}

#[derive(Debug, Clone, Copy, PartialEq, Eq, Structural)]
pub struct WorkArea {
    pub x: i32,
    pub y: i32,
    pub width: i32,
    pub height: i32,
}

/// A Win32 rectangle: its left, top, right and bottom edges.
#[derive(Debug, Clone, Copy, PartialEq, Eq, Structural)]
pub struct Rect {
    pub left: i32,
    pub top: i32,
    pub right: i32,
    pub bottom: i32,
}

/// The area `rc` covers; an inverted rectangle covers nothing.
pub open spec fn rect_area(rc: Rect) -> WorkArea {
    WorkArea {
        x: rc.left,
        y: rc.top,
        width: (if rc.right > rc.left { rc.right - rc.left } else { 0 }) as i32,
        height: (if rc.bottom > rc.top { rc.bottom - rc.top } else { 0 }) as i32,
    }
}

/// The area `rc` covers.
pub fn area_of(rc: Rect) -> (r: WorkArea)
    requires
        rc.right - rc.left <= i32::MAX,
        rc.bottom - rc.top <= i32::MAX,
    ensures
        r == rect_area(rc),
{
    WorkArea {
        x: rc.left,
        y: rc.top,
        width: if rc.right > rc.left { rc.right - rc.left } else { 0 },
        height: if rc.bottom > rc.top { rc.bottom - rc.top } else { 0 },
    }
}

/// The rectangle around `a`.
pub fn rect_of(a: WorkArea) -> (r: Rect)
    requires
        i32::MIN <= a.x + a.width <= i32::MAX,
        i32::MIN <= a.y + a.height <= i32::MAX,
    ensures
        r == (Rect { left: a.x, top: a.y, right: (a.x + a.width) as i32, bottom: (a.y + a.height) as i32 }),
{
    Rect { left: a.x, top: a.y, right: a.x + a.width, bottom: a.y + a.height }
}

/// The primary monitor's area as Windows reports it (the whole of it, or
/// what the taskbar leaves), or a 1920 by 1080 screen at the origin when it
/// will not say.
pub fn monitor_area(reported: Option<Rect>) -> (r: WorkArea)
    requires
        reported matches Some(rc) ==> rc.right - rc.left <= i32::MAX && rc.bottom - rc.top <= i32::MAX,
    ensures
        r == match reported {
            Some(rc) => rect_area(rc),
            None => WorkArea { x: 0, y: 0, width: 1920, height: 1080 },
        },
{
    match reported {
        Some(rc) => area_of(rc),
        None => WorkArea { x: 0, y: 0, width: 1920, height: 1080 },
    }
}

/// Which side of the screen a surface sits on.
///
/// The appbar dance is identical for all four, and writing it once is what
/// makes a dock down the left side a placement rather than a rewrite.
#[derive(Debug, Clone, Copy, PartialEq, Eq, Structural)]
pub enum Edge {
    Top,
    Bottom,
    Left,
    Right,
}

impl Default for Edge {
    fn default() -> (r: Self)
        ensures
            r == Edge::Top,
    {
        Edge::Top
    }
}

/// `v` held between `lo` and `hi`.
pub open spec fn clamped(v: int, lo: int, hi: int) -> int {
    if v < lo {
        lo
    } else if v > hi {
        hi
    } else {
        v
    }
}

/// The rectangle a strip of `thickness` takes along `edge` of `monitor`: the
/// whole length of that edge, and the thickness held between nothing and the
/// monitor's own size.
pub open spec fn bar_area(monitor: WorkArea, edge: Edge, thickness: i32) -> WorkArea {
    let along_y = clamped(thickness as int, 0, if monitor.height > 0 { monitor.height as int } else { 0 });
    let along_x = clamped(thickness as int, 0, if monitor.width > 0 { monitor.width as int } else { 0 });
    match edge {
        Edge::Top => WorkArea { height: along_y as i32, ..monitor },
        Edge::Bottom => WorkArea {
            y: (monitor.y + monitor.height - along_y) as i32,
            height: along_y as i32,
            ..monitor
        },
        Edge::Left => WorkArea { width: along_x as i32, ..monitor },
        Edge::Right => WorkArea {
            x: (monitor.x + monitor.width - along_x) as i32,
            width: along_x as i32,
            ..monitor
        },
    }
}

/// The rectangle a strip of `thickness` wants along one edge of a monitor.
///
/// This is the arithmetic that puts a bar half off the screen when it is
/// wrong, which is why it stands on its own.
pub fn bar_rect(monitor: WorkArea, edge: Edge, thickness: i32) -> (r: WorkArea)
    requires
        i32::MIN <= monitor.y + monitor.height <= i32::MAX,
        i32::MIN <= monitor.x + monitor.width <= i32::MAX,
    ensures
        r == bar_area(monitor, edge, thickness),
{
    let max_y = if monitor.height > 0 {
        monitor.height
    } else {
        0
    };
    let max_x = if monitor.width > 0 {
        monitor.width
    } else {
        0
    };
    let along_y = if thickness < 0 {
        0
    } else if thickness > max_y {
        max_y
    } else {
        thickness
    };
    let along_x = if thickness < 0 {
        0
    } else if thickness > max_x {
        max_x
    } else {
        thickness
    };
    match edge {
        Edge::Top => WorkArea { height: along_y, ..monitor },
        Edge::Bottom => WorkArea {
            y: monitor.y + monitor.height - along_y,
            height: along_y,
            ..monitor
        },
        Edge::Left => WorkArea { width: along_x, ..monitor },
        Edge::Right => WorkArea {
            x: monitor.x + monitor.width - along_x,
            width: along_x,
            ..monitor
        },
    }
}

#[derive(Debug, Clone, Copy)]
pub struct Battery {
    pub percent: u8,
    pub charging: bool,
}

/// The battery a power status describes: none when the percentage is unknown
/// (255, what a desktop reports) or the flags say there is no battery.
pub fn battery_from(percent: u8, flags: u8, ac_line: u8) -> (r: Option<Battery>)
    ensures
        r matches Some(b) ==> b.percent == percent && b.charging == (ac_line == 1),
        r is Some <==> (percent <= 100 && flags & 128 == 0),
{
    if percent > 100 {
        return None;
    }
    // Bit 7 is "no system battery". Some virtual machines report a
    // percentage anyway.
    if flags & 128 != 0 {
        return None;
    }
    Some(Battery { percent, charging: ac_line == 1 })
}

/// A 64-bit tick count delivered in two halves.
pub fn ticks(low: u32, high: u32) -> (r: u64)
    ensures
        r == high as int * 0x1_0000_0000 + low as int,
{
    let r = ((high as u64) << 32) | (low as u64);
    assert(((high as u64) << 32) | (low as u64) == high as u64 * 0x1_0000_0000 + low as u64) by (bit_vector);
    r
}

/// `total - part`, or nothing when a counter has gone backwards.
pub fn used_of(total: u64, available: u64) -> (r: u64)
    ensures
        r == if total >= available { total - available } else { 0 },
{
    if total >= available {
        total - available
    } else {
        0
    }
}

/// One network interface as the counters report it.
pub struct Interface {
    /// The interface type; 24 is software loopback.
    pub kind: u32,
    /// 1 means up and carrying traffic.
    pub status: i32,
    pub bytes_in: u64,
    pub bytes_out: u64,
}

/// Whether an interface's traffic counts: it is up and it is not the loopback,
/// which moves gigabytes that never touch a wire.
pub open spec fn counts(i: Interface) -> bool {
    i.kind != 24 && i.status == 1
}

/// A sum that stops at the largest `u64` rather than wrapping.
pub open spec fn saturated(n: int) -> u64 {
    if n > u64::MAX {
        u64::MAX
    } else {
        n as u64
    }
}

/// The bytes in and out over the interfaces that count, each sum stopping at
/// the largest `u64`.
pub open spec fn octets(rows: Seq<Interface>) -> (u64, u64)
    decreases rows.len(),
{
    if rows.len() == 0 {
        (0, 0)
    } else {
        let (down, up) = octets(rows.drop_last());
        let r = rows.last();
        if counts(r) {
            (saturated(down + r.bytes_in), saturated(up + r.bytes_out))
        } else {
            (down, up)
        }
    }
}

/// Total bytes in and out across every connected, non-loopback interface.
pub fn network_octets(rows: &Vec<Interface>) -> (r: (u64, u64))
    ensures
        r == octets(rows@),
{
    let mut down: u64 = 0;
    let mut up: u64 = 0;
    let mut i: usize = 0;
    while i < rows.len()
        invariant
            i <= rows.len(),
            (down, up) == octets(rows@.take(i as int)),
        decreases rows.len() - i,
    {
        let row = &rows[i];
        proof {
            assert(rows@.take(i + 1).drop_last() =~= rows@.take(i as int));
        }
        if row.kind != 24 && row.status == 1 {
            down = down.saturating_add(row.bytes_in);
            up = up.saturating_add(row.bytes_out);
        }
        i += 1;
    }
    proof {
        assert(rows@.take(rows.len() as int) =~= rows@);
    }
    (down, up)
}

/// Two counter readings and the moment they were taken.
#[derive(Debug, Clone, Copy)]
pub struct Sample {
    /// 100ns ticks the processor spent idle, across all cores.
    pub idle: u64,
    /// 100ns ticks the processor spent doing anything at all, idle included.
    pub total: u64,
    pub bytes_in: u64,
    pub bytes_out: u64,
    /// Milliseconds since boot, the one clock here that cannot go backwards.
    pub at_ms: u64,
}

/// How far the counters moved between two readings. Counters can wrap or
/// reset (an adapter disabled and enabled again starts from zero), so one
/// that went backwards moved by nothing rather than by an enormous spike.
#[derive(Debug, Clone, Copy)]
pub struct Deltas {
    pub elapsed_ms: u64,
    pub total: u64,
    pub idle: u64,
    pub bytes_in: u64,
    pub bytes_out: u64,
}

/// `later - earlier`, or nothing when the counter went backwards.
pub open spec fn moved(earlier: u64, later: u64) -> u64 {
    if later >= earlier {
        (later - earlier) as u64
    } else {
        0
    }
}

pub fn deltas(before: Sample, now: Sample) -> (r: Deltas)
    ensures
        r.elapsed_ms == moved(before.at_ms, now.at_ms),
        r.total == moved(before.total, now.total),
        r.idle == moved(before.idle, now.idle),
        r.bytes_in == moved(before.bytes_in, now.bytes_in),
        r.bytes_out == moved(before.bytes_out, now.bytes_out),
{
    Deltas {
        elapsed_ms: now.at_ms.saturating_sub(before.at_ms),
        total: now.total.saturating_sub(before.total),
        idle: now.idle.saturating_sub(before.idle),
        bytes_in: now.bytes_in.saturating_sub(before.bytes_in),
        bytes_out: now.bytes_out.saturating_sub(before.bytes_out),
    }
}

/// Holds the previous sample so rates can be worked out between readings.
pub struct Sampler {
    previous: Option<Sample>,
}

impl Sampler {
    pub closed spec fn previous_view(&self) -> Option<Sample> {
        self.previous
    }

    pub fn new() -> (r: Self)
        ensures
            r.previous_view() is None,
    {
        Sampler { previous: None }
    }

    /// Keeps `now` for next time and hands back what was kept before: the
    /// first reading has nothing to compare against.
    pub fn remember(&mut self, now: Sample) -> (r: Option<Sample>)
        ensures
            r == old(self).previous_view(),
            final(self).previous_view() == Some(now),
    {
        let before = self.previous;
        self.previous = Some(now);
        before
    }
}

} // verus!

verus! {

/// The file name of `exe` without its extension; `exe` itself when it names
/// no file.
pub open spec fn stem_of(exe: Seq<char>) -> Seq<char> {
    let name = file_name(exe);
    if name.len() == 0 {
        exe
    } else {
        let dot = last_mark(name, true);
        if dot > 0 {
            name.take(dot)
        } else {
            name
        }
    }
}

/// `C:\Windows\notepad.exe` -> `Notepad`: the stem, its first character
/// upper-cased, following Windows' own habit of naming executables after the
/// program.
pub open spec fn display_text(exe: Seq<char>) -> Seq<char> {
    let stem = stem_of(exe);
    if stem.len() == 0 {
        stem
    } else {
        uppercase_first(stem)
    }
}

pub open spec fn uppercase_first(s: Seq<char>) -> Seq<char> {
    upper_char(s[0]) + s.drop_first()
}

/// What `char::to_uppercase` yields for `c`: for an ASCII character, the
/// letter raised (`a`-`z` to `A`-`Z`) and anything else kept, as its
/// documentation says; the Unicode mapping otherwise.
pub open spec fn upper_char(c: char) -> Seq<char> {
    if (c as int) < 128 {
        if 'a' <= c <= 'z' {
            seq![((c as int) - 32) as char]
        } else {
            seq![c]
        }
    } else {
        crate::text::uppercase(c)
    }
}

fn upper_first_char(c: char) -> (r: String)
    ensures
        r@ == upper_char(c),
{
    if (c as u32) < 128 {
        let mut out = String::new();
        if 'a' <= c && c <= 'z' {
            let b: u8 = (c as u32 - 32) as u8;
            crate::text::push_char(&mut out, b as char);
        } else {
            crate::text::push_char(&mut out, c);
        }
        assert(out@ =~= upper_char(c));
        out
    } else {
        crate::text::char_to_uppercase(c)
    }
}

fn mark_at(v: &Vec<char>, i: usize, dot: bool) -> (r: bool)
    requires
        i < v.len(),
    ensures
        r == is_mark(v@[i as int], dot),
{
    if dot {
        v[i] == '.'
    } else {
        v[i] == '\\' || v[i] == '/'
    }
}

/// Where the last mark in `v` is, as `last_mark` says, found by looking.
fn find_last_mark(v: &Vec<char>, dot: bool) -> (r: usize)
    ensures
        r as int == last_mark(v@, dot) + 1,
        r <= v.len(),
{
    let mut i: usize = v.len();
    while i > 0 && !mark_at(v, i - 1, dot)
        invariant
            i <= v.len(),
            forall|k: int| i <= k < v.len() ==> !is_mark(#[trigger] v@[k], dot),
        decreases i,
    {
        i -= 1;
    }
    proof {
        crate::tweaks::desktop::lemma_last_mark_at(v@, i as int, dot);
    }
    i
}

/// The name the dock shows for the executable `exe`.
pub fn display_name(exe: &str) -> (r: String)
    ensures
        r@ == display_text(exe@),
{
    let cs = chars_of(exe);
    let start = find_last_mark(&cs, false);
    let mut name: Vec<char> = Vec::new();
    let mut k: usize = start;
    while k < cs.len()
        invariant
            start <= k <= cs.len(),
            name@ == cs@.subrange(start as int, k as int),
        decreases cs.len() - k,
    {
        name.push(cs[k]);
        assert(cs@.subrange(start as int, k + 1) =~= cs@.subrange(start as int, k as int).push(cs@[k as int]));
        k += 1;
    }
    assert(name@ =~= file_name(exe@));
    let stem: Vec<char> = if name.len() == 0 {
        cs
    } else {
        let dot = find_last_mark(&name, true);
        if dot > 1 {
            let mut t: Vec<char> = Vec::new();
            let mut j: usize = 0;
            while j < dot - 1
                invariant
                    j <= dot - 1,
                    dot <= name.len(),
                    t@ == name@.take(j as int),
                decreases dot - 1 - j,
            {
                t.push(name[j]);
                assert(name@.take(j + 1) =~= name@.take(j as int).push(name@[j as int]));
                j += 1;
            }
            t
        } else {
            name
        }
    };
    assert(stem@ == stem_of(exe@));
    if stem.len() == 0 {
        return String::new();
    }
    let mut out = upper_first_char(stem[0]);
    let mut j: usize = 1;
    while j < stem.len()
        invariant
            1 <= j <= stem.len(),
            out@ == upper_char(stem@[0]) + stem@.subrange(1, j as int),
        decreases stem.len() - j,
    {
        crate::text::push_char(&mut out, stem[j]);
        assert(stem@.subrange(1, j + 1) =~= stem@.subrange(1, j as int).push(stem@[j as int]));
        j += 1;
    }
    assert(stem@.subrange(1, stem.len() as int) =~= stem@.drop_first());
    out
}

} // verus!

verus! {

/// An [`AppWindow`] as mathematics sees it.
pub struct WindowV {
    pub hwnd: isize,
    pub title: Seq<char>,
    pub exe: Seq<char>,
    pub minimized: bool,
    pub maximized: bool,
}

impl View for AppWindow {
    type V = WindowV;

    open spec fn view(&self) -> WindowV {
        WindowV {
            hwnd: self.hwnd,
            title: self.title@,
            exe: self.exe@,
            minimized: self.minimized,
            maximized: self.maximized,
        }
    }
}

impl AppWindow {
    pub fn duplicate(&self) -> (r: Self)
        ensures
            r@ == self@,
    {
        AppWindow {
            hwnd: self.hwnd,
            title: self.title.clone(),
            exe: self.exe.clone(),
            minimized: self.minimized,
            maximized: self.maximized,
        }
    }
}

pub open spec fn windows_view(ws: Seq<AppWindow>) -> Seq<WindowV> {
    ws.map_values(|w: AppWindow| w@)
}

/// One entry on the dock: an application, whether or not it is running.
///
/// Several windows of the same program collapse into one entry, the way a dock
/// works — the count is what the running indicator under the icon shows.
pub struct DockItem {
    /// The executable path, which is also the identity of the entry.
    pub exe: String,
    pub name: String,
    pub pinned: bool,
    pub windows: Vec<AppWindow>,
}

/// A [`DockItem`] as mathematics sees it.
pub struct DockItemV {
    pub exe: Seq<char>,
    pub name: Seq<char>,
    pub pinned: bool,
    pub windows: Seq<WindowV>,
}

impl View for DockItem {
    type V = DockItemV;

    open spec fn view(&self) -> DockItemV {
        DockItemV {
            exe: self.exe@,
            name: self.name@,
            pinned: self.pinned,
            windows: windows_view(self.windows@),
        }
    }
}

impl DockItem {
    pub fn running(&self) -> (r: bool)
        ensures
            r == (self.windows@.len() > 0),
    {
        self.windows.len() > 0
    }
}

/// The windows of the program `k` (its executable, case folded), in order.
pub open spec fn group(ws: Seq<WindowV>, k: Seq<char>) -> Seq<WindowV>
    decreases ws.len(),
{
    if ws.len() == 0 {
        Seq::empty()
    } else {
        group(ws.drop_last(), k) + if fold_case(ws.last().exe) == k {
            seq![ws.last()]
        } else {
            Seq::empty()
        }
    }
}

/// The programs that have windows.
pub open spec fn window_keys(ws: Seq<WindowV>) -> Set<Seq<char>> {
    Set::new(|k: Seq<char>| exists|i: int| 0 <= i < ws.len() && fold_case(#[trigger] ws[i].exe) == k)
}

/// The programs pinned before position `i`.
pub open spec fn pinned_keys(pinned: Seq<Seq<char>>, i: int) -> Set<Seq<char>> {
    Set::new(|k: Seq<char>| exists|j: int| 0 <= j < i && fold_case(#[trigger] pinned[j]) == k)
}

/// The entry of the `i`-th pinned program: its windows, unless an earlier pin
/// of the same program took them already.
pub open spec fn pinned_item(pinned: Seq<Seq<char>>, ws: Seq<WindowV>, i: int) -> DockItemV {
    DockItemV {
        exe: pinned[i],
        name: display_text(pinned[i]),
        pinned: true,
        windows: if pinned_keys(pinned, i).contains(fold_case(pinned[i])) {
            Seq::empty()
        } else {
            group(ws, fold_case(pinned[i]))
        },
    }
}

/// The entry of a running program nobody pinned.
pub open spec fn running_item(ws: Seq<WindowV>, k: Seq<char>) -> DockItemV {
    DockItemV {
        exe: group(ws, k)[0].exe,
        name: display_text(group(ws, k)[0].exe),
        pinned: false,
        windows: group(ws, k),
    }
}

/// The dock for these pins and windows, with the running programs nobody
/// pinned in the order `rest`.
pub open spec fn dock_of(pinned: Seq<Seq<char>>, ws: Seq<WindowV>, rest: Seq<Seq<char>>) -> Seq<
    DockItemV,
> {
    Seq::new(pinned.len(), |i: int| pinned_item(pinned, ws, i)) + rest.map_values(
        |k: Seq<char>| running_item(ws, k),
    )
}

pub open spec fn strings_of(v: Seq<String>) -> Seq<Seq<char>> {
    v.map_values(|s: String| s@)
}

pub open spec fn items_of(v: Seq<DockItem>) -> Seq<DockItemV> {
    v.map_values(|d: DockItem| d@)
}

pub open spec fn sorted_keys(ks: Seq<Seq<char>>) -> bool {
    forall|i: int, j: int| 0 <= i < j < ks.len() ==> lex_less(#[trigger] ks[i], #[trigger] ks[j])
}

proof fn lemma_group_push(ws: Seq<WindowV>, w: WindowV, k: Seq<char>)
    ensures
        group(ws.push(w), k) == group(ws, k) + if fold_case(w.exe) == k {
            seq![w]
        } else {
            Seq::empty()
        },
{
    assert(ws.push(w).drop_last() =~= ws);
}

proof fn lemma_group_empty(ws: Seq<WindowV>, k: Seq<char>)
    requires
        !window_keys(ws).contains(k),
    ensures
        group(ws, k).len() == 0,
    decreases ws.len(),
{
    if ws.len() > 0 {
        assert(!window_keys(ws.drop_last()).contains(k)) by {
            if window_keys(ws.drop_last()).contains(k) {
                let i = choose|i: int| 0 <= i < ws.drop_last().len() && fold_case(#[trigger] ws.drop_last()[i].exe) == k;
                assert(fold_case(ws[i].exe) == k);
            }
        }
        lemma_group_empty(ws.drop_last(), k);
        assert(fold_case(ws[ws.len() - 1].exe) != k);
    }
}

proof fn lemma_group_nonempty(ws: Seq<WindowV>, k: Seq<char>)
    requires
        window_keys(ws).contains(k),
    ensures
        group(ws, k).len() > 0,
    decreases ws.len(),
{
    if fold_case(ws.last().exe) != k {
        assert(window_keys(ws.drop_last()).contains(k)) by {
            let i = choose|i: int| 0 <= i < ws.len() && fold_case(#[trigger] ws[i].exe) == k;
            assert(i != ws.len() - 1);
            assert(fold_case(ws.drop_last()[i].exe) == k);
        }
        lemma_group_nonempty(ws.drop_last(), k);
    }
}

/// Builds the dock's contents: the pinned entries first, in the order they
/// were pinned, then every other running program, in the order of its
/// case-folded executable path.
pub fn dock_items(pinned: &Vec<String>, windows: &Vec<AppWindow>) -> (r: Vec<DockItem>)
    ensures
        exists|rest: Seq<Seq<char>>|
            sorted_keys(rest) && rest.to_set() == window_keys(windows_view(windows@)).difference(
                pinned_keys(strings_of(pinned@), pinned@.len() as int),
            ) && #[trigger] items_of(r@) == dock_of(
                strings_of(pinned@),
                windows_view(windows@),
                rest,
            ),
{
    let ghost ws = windows_view(windows@);
    let ghost ps = strings_of(pinned@);
    // The windows, grouped by program, in key order.
    let mut keys: Vec<String> = Vec::new();
    let mut members: Vec<Vec<AppWindow>> = Vec::new();
    let mut i: usize = 0;
    while i < windows.len()
        invariant
            i <= windows.len(),
            ws == windows_view(windows@),
            keys.len() == members.len(),
            sorted_keys(strings_of(keys@)),
            strings_of(keys@).to_set() == window_keys(ws.take(i as int)),
            forall|g: int| 0 <= g < keys.len() ==> windows_view(#[trigger] members@[g]@) == group(ws.take(i as int), keys@[g]@),
        decreases windows.len() - i,
    {
        let w = windows[i].duplicate();
        let key = fold_case_str(w.exe.as_str());
        let ghost before_keys = strings_of(keys@);
        let ghost before_members = members@;
        let ghost prefix = ws.take(i as int);
        let ghost next = ws.take(i + 1);
        proof {
            assert(next =~= prefix.push(w@));
        }
        let mut j: usize = 0;
        while j < keys.len() && str_less(keys[j].as_str(), key.as_str())
            invariant
                j <= keys.len(),
                before_keys == strings_of(keys@),
                forall|a: int| 0 <= a < j ==> lex_less(#[trigger] before_keys[a], key@),
            decreases keys.len() - j,
        {
            assert(before_keys[j as int] == keys@[j as int]@);
            j += 1;
        }
        if j < keys.len() && str_eq(keys[j].as_str(), key.as_str()) {
            let mut g = members.remove(j);
            g.push(w);
            members.insert(j, g);
            proof {
                assert(members@ =~= before_members.update(j as int, members@[j as int]));
                assert forall|x: int| 0 <= x < keys.len() implies windows_view(#[trigger] members@[x]@) == group(next, keys@[x]@) by {
                    lemma_group_push(prefix, w@, keys@[x]@);
                    if x == j {
                        assert(windows_view(members@[x]@) =~= windows_view(before_members[x]@).push(w@));
                    } else {
                        assert(before_keys[x] != before_keys[j as int]);
                        assert(members@[x] == before_members[x]);
                    }
                }
                assert(strings_of(keys@).to_set() =~= window_keys(next)) by {
                    assert forall|k: Seq<char>| window_keys(next).contains(k) implies strings_of(keys@).to_set().contains(k) by {
                        let a = choose|a: int| 0 <= a < next.len() && fold_case(#[trigger] next[a].exe) == k;
                        if a < i {
                            assert(window_keys(prefix).contains(k)) by {
                                assert(fold_case(prefix[a].exe) == k);
                            }
                        } else {
                            assert(strings_of(keys@)[j as int] == k);
                        }
                    }
                    assert forall|k: Seq<char>| strings_of(keys@).to_set().contains(k) implies window_keys(next).contains(k) by {
                        assert(window_keys(prefix).contains(k));
                        let a = choose|a: int| 0 <= a < prefix.len() && fold_case(#[trigger] prefix[a].exe) == k;
                        assert(fold_case(next[a].exe) == k);
                    }
                }
            }
        } else {
            proof {
                if j < keys.len() {
                    crate::text::lemma_lex_total(before_keys[j as int], key@);
                    assert(lex_less(key@, before_keys[j as int]));
                }
            }
            let ghost kv = key@;
            let mut g: Vec<AppWindow> = Vec::new();
            g.push(w);
            keys.insert(j, key);
            members.insert(j, g);
            proof {
                let after = strings_of(keys@);
                assert(after =~= before_keys.insert(j as int, kv));
                assert forall|b: int| j < b < after.len() implies lex_less(kv, #[trigger] after[b]) by {
                    if b - 1 > j {
                        crate::text::lemma_lex_transitive(kv, before_keys[j as int], before_keys[b - 1]);
                    }
                }
                assert forall|a: int, b: int| 0 <= a < b < after.len() implies lex_less(
                    #[trigger] after[a],
                    #[trigger] after[b],
                ) by {
                    if a < j && b > j {
                        crate::text::lemma_lex_transitive(after[a], kv, after[b]);
                    }
                }
                assert(!window_keys(prefix).contains(kv)) by {
                    if window_keys(prefix).contains(kv) {
                        assert(before_keys.to_set().contains(kv));
                        let x = choose|x: int| 0 <= x < before_keys.len() && before_keys[x] == kv;
                        if x < j {
                        } else if x == j {
                        } else {
                            crate::text::lemma_lex_transitive(before_keys[j as int], before_keys[x], before_keys[j as int]);
                            crate::text::lemma_lex_irreflexive(before_keys[j as int]);
                        }
                        crate::text::lemma_lex_irreflexive(kv);
                    }
                }
                assert forall|x: int| 0 <= x < keys.len() implies windows_view(#[trigger] members@[x]@) == group(next, keys@[x]@) by {
                    lemma_group_push(prefix, w@, keys@[x]@);
                    if x == j {
                        lemma_group_empty(prefix, kv);
                        assert(windows_view(members@[x]@) =~= seq![w@]);
                        assert(group(prefix, kv) =~= Seq::<WindowV>::empty());
                    } else if x < j {
                        assert(members@[x] == before_members[x]);
                        assert(keys@[x]@ == before_keys[x]);
                        assert(keys@[x]@ != kv) by {
                            crate::text::lemma_lex_irreflexive(kv);
                        }
                    } else {
                        assert(members@[x] == before_members[x - 1]);
                        assert(keys@[x]@ == before_keys[x - 1]);
                        assert(keys@[x]@ != kv) by {
                            crate::text::lemma_lex_irreflexive(kv);
                        }
                    }
                }
                assert(after.to_set() =~= window_keys(next)) by {
                    assert forall|k: Seq<char>| window_keys(next).contains(k) implies after.to_set().contains(k) by {
                        let a = choose|a: int| 0 <= a < next.len() && fold_case(#[trigger] next[a].exe) == k;
                        if a < i {
                            assert(window_keys(prefix).contains(k)) by {
                                assert(fold_case(prefix[a].exe) == k);
                            }
                            let x = choose|x: int| 0 <= x < before_keys.len() && before_keys[x] == k;
                            if x < j {
                                assert(after[x] == k);
                            } else {
                                assert(after[x + 1] == k);
                            }
                        } else {
                            assert(after[j as int] == k);
                        }
                    }
                    assert forall|k: Seq<char>| after.to_set().contains(k) implies window_keys(next).contains(k) by {
                        let x = choose|x: int| 0 <= x < after.len() && after[x] == k;
                        if x == j {
                            assert(fold_case(next[i as int].exe) == k);
                        } else {
                            let y = if x < j { x } else { x - 1 };
                            assert(before_keys[y] == k);
                            assert(window_keys(prefix).contains(k));
                            let a = choose|a: int| 0 <= a < prefix.len() && fold_case(#[trigger] prefix[a].exe) == k;
                            assert(fold_case(next[a].exe) == k);
                        }
                    }
                }
            }
        }
        i += 1;
    }
    proof {
        assert(ws.take(windows.len() as int) =~= ws);
    }
    let ghost all_keys = strings_of(keys@);
    // The pinned programs first, each taking its windows.
    let mut items: Vec<DockItem> = Vec::new();
    let mut p: usize = 0;
    while p < pinned.len()
        invariant
            p <= pinned.len(),
            ws == windows_view(windows@),
            ps == strings_of(pinned@),
            keys.len() == members.len(),
            sorted_keys(strings_of(keys@)),
            strings_of(keys@).to_set() == window_keys(ws).difference(pinned_keys(ps, p as int)),
            forall|g: int| 0 <= g < keys.len() ==> windows_view(#[trigger] members@[g]@) == group(ws, keys@[g]@),
            items_of(items@) == Seq::new(p as nat, |x: int| pinned_item(ps, ws, x)),
        decreases pinned.len() - p,
    {
        let exe = &pinned[p];
        let key = fold_case_str(exe.as_str());
        let ghost before_keys = strings_of(keys@);
        let ghost before_members = members@;
        let ghost before_items = items@;
        let mut j: usize = 0;
        while j < keys.len() && !str_eq(keys[j].as_str(), key.as_str())
            invariant
                j <= keys.len(),
                before_keys == strings_of(keys@),
                forall|a: int| 0 <= a < j ==> #[trigger] before_keys[a] != key@,
            decreases keys.len() - j,
        {
            assert(before_keys[j as int] == keys@[j as int]@);
            j += 1;
        }
        let taken: Vec<AppWindow> = if j < keys.len() {
            keys.remove(j);
            members.remove(j)
        } else {
            Vec::new()
        };
        proof {
            let k = key@;
            assert(k == fold_case(ps[p as int]));
            if j < before_keys.len() {
                assert(before_keys[j as int] == k);
                assert(before_keys.to_set().contains(k));
                assert(!pinned_keys(ps, p as int).contains(k));
                assert(windows_view(taken@) == group(ws, k));
            } else {
                assert(!before_keys.to_set().contains(k)) by {
                    if before_keys.to_set().contains(k) {
                        let x = choose|x: int| 0 <= x < before_keys.len() && before_keys[x] == k;
                        assert(before_keys[x] != k);
                    }
                }
                if !pinned_keys(ps, p as int).contains(k) {
                    assert(!window_keys(ws).contains(k));
                    lemma_group_empty(ws, k);
                }
                assert(windows_view(taken@) =~= if pinned_keys(ps, p as int).contains(k) {
                    Seq::<WindowV>::empty()
                } else {
                    group(ws, k)
                });
            }
            assert(pinned_keys(ps, p + 1) =~= pinned_keys(ps, p as int).insert(k)) by {
                assert forall|x: Seq<char>| pinned_keys(ps, p + 1).contains(x) implies pinned_keys(ps, p as int).insert(k).contains(x) by {
                    let y = choose|y: int| 0 <= y < p + 1 && fold_case(#[trigger] ps[y]) == x;
                    if y < p {
                        assert(pinned_keys(ps, p as int).contains(x));
                    }
                }
                assert forall|x: Seq<char>| pinned_keys(ps, p as int).insert(k).contains(x) implies pinned_keys(ps, p + 1).contains(x) by {
                    if x == k {
                        assert(fold_case(ps[p as int]) == x);
                    } else {
                        let y = choose|y: int| 0 <= y < p && fold_case(#[trigger] ps[y]) == x;
                        assert(fold_case(ps[y]) == x);
                    }
                }
            }
            let after = strings_of(keys@);
            if j < before_keys.len() {
                assert(after =~= before_keys.remove(j as int));
                assert forall|a: int, b: int| 0 <= a < b < after.len() implies lex_less(
                    #[trigger] after[a],
                    #[trigger] after[b],
                ) by {
                    let a0 = if a < j { a } else { a + 1 };
                    let b0 = if b < j { b } else { b + 1 };
                    assert(after[a] == before_keys[a0] && after[b] == before_keys[b0]);
                }
                assert forall|g: int| 0 <= g < keys.len() implies windows_view(#[trigger] members@[g]@) == group(ws, keys@[g]@) by {
                    let g0 = if g < j { g } else { g + 1 };
                    assert(members@[g] == before_members[g0]);
                    assert(keys@[g]@ == before_keys[g0]);
                }
                assert(after.to_set() =~= window_keys(ws).difference(pinned_keys(ps, p + 1))) by {
                    assert forall|x: Seq<char>| after.to_set().contains(x) implies window_keys(ws).difference(pinned_keys(ps, p + 1)).contains(x) by {
                        let y = choose|y: int| 0 <= y < after.len() && after[y] == x;
                        let y0 = if y < j { y } else { y + 1 };
                        assert(before_keys[y0] == x);
                        assert(before_keys.to_set().contains(x));
                        if x == k {
                            crate::text::lemma_lex_irreflexive(k);
                            if y0 < j {
                                assert(lex_less(before_keys[y0], before_keys[j as int]));
                            } else {
                                assert(lex_less(before_keys[j as int], before_keys[y0]));
                            }
                        }
                    }
                    assert forall|x: Seq<char>| window_keys(ws).difference(pinned_keys(ps, p + 1)).contains(x) implies after.to_set().contains(x) by {
                        assert(before_keys.to_set().contains(x));
                        let y = choose|y: int| 0 <= y < before_keys.len() && before_keys[y] == x;
                        assert(y != j);
                        if y < j {
                            assert(after[y] == x);
                        } else {
                            assert(after[y - 1] == x);
                        }
                    }
                }
            } else {
                assert(after.to_set() =~= window_keys(ws).difference(pinned_keys(ps, p + 1)));
            }
        }
        let item = DockItem { exe: exe.clone(), name: display_name(exe.as_str()), pinned: true, windows: taken };
        proof {
            assert(items_of(before_items).len() == p);
            assert(before_items.len() == p);
            assert(item@ == pinned_item(ps, ws, p as int));
        }
        items.push(item);
        proof {
            assert(items@ == before_items.push(item));
            assert(items_of(items@) =~= Seq::new((p + 1) as nat, |x: int| pinned_item(ps, ws, x))) by {
                assert forall|x: int| 0 <= x < p + 1 implies #[trigger] items_of(items@)[x] == pinned_item(ps, ws, x) by {
                    if x < p {
                        assert(items@[x] == before_items[x]);
                        assert(items_of(before_items)[x] == pinned_item(ps, ws, x));
                    }
                }
            }
        }
        p += 1;
    }
    // Then whatever else is running, in key order.
    let ghost rest = strings_of(keys@);
    let ghost pinned_part = items_of(items@);
    let mut g: usize = 0;
    let mut members = members;
    let mut remaining: Vec<Vec<AppWindow>> = Vec::new();
    while members.len() > 0
        invariant
            remaining.len() + members.len() == keys.len(),
            rest == strings_of(keys@),
            forall|x: int| 0 <= x < members.len() ==> windows_view(#[trigger] members@[x]@) == group(ws, keys@[remaining.len() + x]@),
            forall|x: int| 0 <= x < remaining.len() ==> windows_view(#[trigger] remaining@[x]@) == group(ws, keys@[x]@),
        decreases members.len(),
    {
        let ghost before = members@;
        let first = members.remove(0);
        remaining.push(first);
        proof {
            assert forall|x: int| 0 <= x < members.len() implies windows_view(#[trigger] members@[x]@) == group(ws, keys@[remaining.len() + x]@) by {
                assert(members@[x] == before[x + 1]);
            }
        }
    }
    let mut remaining = remaining;
    while g < keys.len()
        invariant
            g <= keys.len(),
            remaining.len() == keys.len() - g,
            rest == strings_of(keys@),
            ws == windows_view(windows@),
            strings_of(keys@).to_set() == window_keys(ws).difference(pinned_keys(ps, pinned@.len() as int)),
            forall|x: int| 0 <= x < remaining.len() ==> windows_view(#[trigger] remaining@[x]@) == group(ws, keys@[g + x]@),
            items_of(items@) == pinned_part + rest.take(g as int).map_values(|k: Seq<char>| running_item(ws, k)),
        decreases keys.len() - g,
    {
        let ghost before = remaining@;
        let ghost before_items = items@;
        let windows_of = remaining.remove(0);
        proof {
            assert(rest.to_set().contains(rest[g as int]));
            lemma_group_nonempty(ws, rest[g as int]);
            assert(windows_view(windows_of@) == group(ws, keys@[g as int]@));
        }
        let exe = windows_of[0].exe.clone();
        let name = display_name(exe.as_str());
        items.push(DockItem { exe, name, pinned: false, windows: windows_of });
        proof {
            assert forall|x: int| 0 <= x < remaining.len() implies windows_view(#[trigger] remaining@[x]@) == group(ws, keys@[g + 1 + x]@) by {
                assert(remaining@[x] == before[x + 1]);
            }
            assert(rest.take(g + 1).map_values(|k: Seq<char>| running_item(ws, k)) =~= rest.take(g as int).map_values(|k: Seq<char>| running_item(ws, k)).push(running_item(ws, rest[g as int])));
            assert(items_of(items@) =~= items_of(before_items).push(items@.last()@));
        }
        g += 1;
    }
    proof {
        assert(rest.take(keys.len() as int) =~= rest);
        assert(items_of(items@) =~= dock_of(ps, ws, rest));
    }
    items
}

} // verus!
