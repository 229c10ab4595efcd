//! The dock's preferences, and what it hands the page that draws it.

use vstd::prelude::*;
use crate::shell::{Icon, WorkArea};
use crate::text::{ascii_lower_char, chars_of, push_char, push_str, string_from};

verus! {

/// Windows paths are case-insensitive, and the same executable can arrive from
/// a pin (as typed) or from an enumerated window (as Windows reports it):
/// `str::eq_ignore_ascii_case`.
pub open spec fn same_path_text(a: Seq<char>, b: Seq<char>) -> bool {
    a.len() == b.len() && forall|i: int| 0 <= i < a.len() ==> ascii_lower_char(#[trigger] a[i]) == ascii_lower_char(b[i])
}

pub fn same_path(a: &str, b: &str) -> (r: bool)
    ensures
        r == same_path_text(a@, b@),
{
    let x = chars_of(a);
    let y = chars_of(b);
    if x.len() != y.len() {
        return false;
    }
    let mut i: usize = 0;
    while i < x.len()
        invariant
            i <= x.len(),
            x.len() == y.len(),
            x@ == a@,
            y@ == b@,
            forall|j: int| 0 <= j < i ==> ascii_lower_char(#[trigger] x@[j]) == ascii_lower_char(y@[j]),
        decreases x.len() - i,
    {
        if lower_ascii(x[i]) != lower_ascii(y[i]) {
            return false;
        }
        i += 1;
    }
    true
}

fn lower_ascii(c: char) -> (r: char)
    ensures
        r == ascii_lower_char(c),
{
    if 'A' <= c && c <= 'Z' {
        ((c as u8) + 32) as char
    } else {
        c
    }
}

pub struct DockConfig {
    pub enabled: bool,
    /// Executable paths, in the order they appear on the dock.
    pub pinned: Vec<String>,
    /// Height of an icon at rest, in logical pixels.
    pub icon_size: u32,
}

pub open spec fn strings(v: Seq<String>) -> Seq<Seq<char>> {
    v.map_values(|s: String| s@)
}

/// The two programs every Windows install has, under the Windows directory
/// `root`, so the dock is never empty on first run. Only those that are there
/// are pinned; looking is left to the caller.
pub fn pin_candidates(root: &str) -> (r: Vec<String>)
    ensures
        strings(r@) == seq![root@ + "\\explorer.exe"@, root@ + "\\notepad.exe"@],
{
    let mut a = string_from(root);
    push_str(&mut a, "\\explorer.exe");
    let mut b = string_from(root);
    push_str(&mut b, "\\notepad.exe");
    let mut v: Vec<String> = Vec::new();
    v.push(a);
    v.push(b);
    proof {
        assert(strings(v@) =~= seq![root@ + "\\explorer.exe"@, root@ + "\\notepad.exe"@]);
    }
    v
}

impl DockConfig {
    /// The dock as it starts: off, with these programs pinned.
    pub fn with_pins(pinned: Vec<String>) -> (r: Self)
        ensures
            !r.enabled,
            r.pinned@ == pinned@,
            r.icon_size == 48,
    {
        DockConfig { enabled: false, pinned, icon_size: 48 }
    }

    /// The preferences to start with: those read from the file, or the
    /// defaults with `pins` pinned. A missing or unreadable file is no error.
    pub fn load(read: Option<DockConfig>, pins: Vec<String>) -> (r: Self)
        ensures
            match read {
                Some(c) => r == c,
                None => !r.enabled && r.pinned@ == pins@ && r.icon_size == 48,
            },
    {
        match read {
            Some(c) => c,
            None => DockConfig::with_pins(pins),
        }
    }

    /// Pins `exe` at the end, unless it is pinned already. Says whether
    /// anything changed, so the caller knows to save.
    pub fn pin(&mut self, exe: String) -> (changed: bool)
        ensures
            changed == !(exists|i: int| 0 <= i < old(self).pinned@.len() && same_path_text(#[trigger] old(self).pinned@[i]@, exe@)),
            changed ==> final(self).pinned@ == old(self).pinned@.push(exe),
            !changed ==> final(self).pinned@ == old(self).pinned@,
            final(self).enabled == old(self).enabled,
            final(self).icon_size == old(self).icon_size,
    {
        let mut i: usize = 0;
        while i < self.pinned.len()
            invariant
                i <= self.pinned.len(),
                self.pinned@ == old(self).pinned@,
                self.enabled == old(self).enabled,
                self.icon_size == old(self).icon_size,
                forall|j: int| 0 <= j < i ==> !same_path_text(#[trigger] self.pinned@[j]@, exe@),
            decreases self.pinned.len() - i,
        {
            if same_path(self.pinned[i].as_str(), exe.as_str()) {
                return false;
            }
            i += 1;
        }
        self.pinned.push(exe);
        true
    }

    /// Unpins every entry that is `exe`. Says whether anything changed.
    pub fn unpin(&mut self, exe: &str) -> (changed: bool)
        ensures
            final(self).pinned@ == old(self).pinned@.filter(|p: String| !same_path_text(p@, exe@)),
            changed == (final(self).pinned@.len() != old(self).pinned@.len()),
            final(self).enabled == old(self).enabled,
            final(self).icon_size == old(self).icon_size,
    {
        let ghost before = self.pinned@;
        let mut kept: Vec<String> = Vec::new();
        let mut i: usize = 0;
        let n = self.pinned.len();
        while i < n
            invariant
                i <= n,
                n == before.len(),
                self.pinned@ == before,
                kept@ == before.take(i as int).filter(|p: String| !same_path_text(p@, exe@)),
            decreases n - i,
        {
            proof {
                assert(before.take(i + 1) =~= before.take(i as int).push(before[i as int]));
                before.take(i as int).lemma_filter_push(before[i as int], |p: String| !same_path_text(p@, exe@));
            }
            if !same_path(self.pinned[i].as_str(), exe) {
                kept.push(self.pinned[i].clone());
                proof {
                    assert(kept@.last() == before[i as int]);
                }
            }
            i += 1;
        }
        proof {
            assert(before.take(n as int) =~= before);
        }
        let changed = kept.len() != n;
        self.pinned = kept;
        changed
    }
}

/// Where the dock may go and how big its icons are.
pub struct DockLayout {
    pub work_x: i32,
    pub work_y: i32,
    pub work_width: i32,
    pub work_height: i32,
    pub icon_size: u32,
}

impl DockLayout {
    pub fn of(area: WorkArea, icon_size: u32) -> (r: Self)
        ensures
            r.work_x == area.x,
            r.work_y == area.y,
            r.work_width == area.width,
            r.work_height == area.height,
            r.icon_size == icon_size,
    {
        DockLayout {
            work_x: area.x,
            work_y: area.y,
            work_width: area.width,
            work_height: area.height,
            icon_size,
        }
    }
}

/// The size an icon is asked for at: between 16 and 256 pixels.
pub fn icon_request_size(size: u32) -> (r: u32)
    ensures
        r == if size < 16 {
            16
        } else if size > 256 {
            256
        } else {
            size
        },
{
    if size < 16 {
        16
    } else if size > 256 {
        256
    } else {
        size
    }
}

/// An icon as the page receives it: base64 of straight-alpha RGBA, turned into
/// an image once and kept, at a fifth of the size of a JSON array of numbers.
pub struct IconData {
    pub width: u32,
    pub height: u32,
    pub rgba_base64: String,
}

impl IconData {
    pub fn of(icon: &Icon) -> (r: Self)
        ensures
            r.width == icon.width,
            r.height == icon.height,
            r.rgba_base64@ == base64_text(icon.rgba@),
    {
        IconData { width: icon.width, height: icon.height, rgba_base64: base64(&icon.rgba) }
    }
}

/// The base64 alphabet of RFC 4648.
pub open spec fn b64_char(v: int) -> char {
    if v < 26 {
        (65 + v) as char
    } else if v < 52 {
        (97 + v - 26) as char
    } else if v < 62 {
        (48 + v - 52) as char
    } else if v == 62 {
        '+'
    } else {
        '/'
    }
}

/// RFC 4648 base64, padded with `=`.
pub open spec fn base64_text(bytes: Seq<u8>) -> Seq<char>
    decreases bytes.len(),
{
    if bytes.len() == 0 {
        Seq::empty()
    } else if bytes.len() == 1 {
        let n = bytes[0] * 65536;
        seq![b64_char(n / 262144 % 64), b64_char(n / 4096 % 64), '=', '=']
    } else if bytes.len() == 2 {
        let n = bytes[0] * 65536 + bytes[1] * 256;
        seq![b64_char(n / 262144 % 64), b64_char(n / 4096 % 64), b64_char(n / 64 % 64), '=']
    } else {
        let n = bytes[0] * 65536 + bytes[1] * 256 + bytes[2];
        seq![
            b64_char(n / 262144 % 64),
            b64_char(n / 4096 % 64),
            b64_char(n / 64 % 64),
            b64_char(n % 64),
        ] + base64_text(bytes.skip(3))
    }
}

fn b64_digit(v: u32) -> (c: char)
    requires
        v < 64,
    ensures
        c == b64_char(v as int),
{
    if v < 26 {
        (65 + v as u8) as char
    } else if v < 52 {
        (97 + (v - 26) as u8) as char
    } else if v < 62 {
        (48 + (v - 52) as u8) as char
    } else if v == 62 {
        '+'
    } else {
        '/'
    }
}

/// Base64 of `bytes`.
pub fn base64(bytes: &Vec<u8>) -> (r: String)
    ensures
        r@ == base64_text(bytes@),
{
    let mut out = String::new();
    let mut i: usize = 0;
    proof {
        assert(bytes@.skip(0) =~= bytes@);
        assert(out@ + base64_text(bytes@) =~= base64_text(bytes@));
    }
    while i < bytes.len()
        invariant
            i <= bytes.len(),
            out@ + base64_text(bytes@.skip(i as int)) == base64_text(bytes@),
        decreases bytes.len() - i,
    {
        let rest = bytes.len() - i;
        let b0 = bytes[i] as u32;
        let b1: u32 = if rest > 1 {
            bytes[i + 1] as u32
        } else {
            0
        };
        let b2: u32 = if rest > 2 {
            bytes[i + 2] as u32
        } else {
            0
        };
        let n: u32 = b0 * 65536 + b1 * 256 + b2;
        let ghost before = out@;
        let ghost tail = bytes@.skip(i as int);
        push_char(&mut out, b64_digit(n / 262144 % 64));
        push_char(&mut out, b64_digit(n / 4096 % 64));
        if rest > 1 {
            push_char(&mut out, b64_digit(n / 64 % 64));
        } else {
            push_char(&mut out, '=');
        }
        if rest > 2 {
            push_char(&mut out, b64_digit(n % 64));
        } else {
            push_char(&mut out, '=');
        }
        proof {
            assert(tail[0] == bytes@[i as int]);
            if rest > 1 {
                assert(tail[1] == bytes@[i + 1]);
            }
            if rest > 2 {
                assert(tail[2] == bytes@[i + 2]);
                assert(tail.skip(3) =~= bytes@.skip(i + 3));
                assert(out@ =~= before + seq![
                    b64_char((n / 262144 % 64) as int),
                    b64_char((n / 4096 % 64) as int),
                    b64_char((n / 64 % 64) as int),
                    b64_char((n % 64) as int),
                ]);
            } else {
                assert(bytes@.skip(bytes.len() as int) =~= Seq::<u8>::empty());
            }
        }
        i = if rest > 3 {
            i + 3
        } else {
            bytes.len()
        };
    }
    proof {
        assert(bytes@.skip(bytes.len() as int) =~= Seq::<u8>::empty());
        assert(out@ + Seq::<char>::empty() =~= out@);
    }
    out
}

} // verus!
