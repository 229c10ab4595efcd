//! Shell Looks: which desktop is being worn.
//!
//! There is exactly one Look worn at a time, so the preferences hold a
//! selection — `Option<LookId>` — and not a switch per look that could
//! disagree with the others about which one is on.
//!
//! Switching a Look on shows the surfaces it draws and re-skins the app; the
//! pack it offers writes to the registry, so it goes through the same
//! confirmation as every other change and is never applied from here.

use vstd::prelude::*;
use crate::shell::Edge;
use crate::text::{chars_of, push_char, str_eq, string_from, trim, trim_chars};

verus! {

/// Every Look this build has.
#[derive(Debug, Clone, Copy, PartialEq, Eq, Structural)]
pub enum LookId {
    Jarvis,
    Cupertino,
    Yaru,
}

/// The `data-theme` value of a Look, which is also its name in the
/// preferences file: one string, so the stylesheet, the file and the wire
/// format cannot disagree.
pub open spec fn look_name(id: LookId) -> Seq<char> {
    match id {
        LookId::Jarvis => "jarvis"@,
        LookId::Cupertino => "cupertino"@,
        LookId::Yaru => "yaru"@,
    }
}

/// The Look a name stands for, if this build has one by that name.
pub open spec fn look_named(raw: Seq<char>) -> Option<LookId> {
    if raw == "jarvis"@ {
        Some(LookId::Jarvis)
    } else if raw == "cupertino"@ {
        Some(LookId::Cupertino)
    } else if raw == "yaru"@ {
        Some(LookId::Yaru)
    } else {
        None
    }
}

impl LookId {
    pub fn as_str(self) -> (r: &'static str)
        ensures
            r@ == look_name(self),
    {
        match self {
            LookId::Jarvis => "jarvis",
            LookId::Cupertino => "cupertino",
            LookId::Yaru => "yaru",
        }
    }

    /// `None` for anything this build does not have: a preferences file from a
    /// newer build may name one, and that must not cost the user the rest.
    pub fn parse(raw: &str) -> (r: Option<LookId>)
        ensures
            r == look_named(raw@),
    {
        if str_eq(raw, "jarvis") {
            Some(LookId::Jarvis)
        } else if str_eq(raw, "cupertino") {
            Some(LookId::Cupertino)
        } else if str_eq(raw, "yaru") {
            Some(LookId::Yaru)
        } else {
            None
        }
    }
}

/// Each Look answers to its own name and to no other.
pub proof fn lemma_look_names(id: LookId, other: LookId)
    ensures
        look_named(look_name(id)) == Some(id),
        id != other ==> look_name(id) != look_name(other),
{
    reveal_strlit("jarvis");
    reveal_strlit("cupertino");
    reveal_strlit("yaru");
    assert("jarvis"@.len() == 6);
    assert("cupertino"@.len() == 9);
    assert("yaru"@.len() == 4);
    match id {
        LookId::Jarvis => {},
        LookId::Cupertino => {
            assert("cupertino"@ != "jarvis"@);
        },
        LookId::Yaru => {
            assert("yaru"@ != "jarvis"@);
            assert("yaru"@ != "cupertino"@);
        },
    }
}

/// One of our own windows. Not a Windows setting — a thing we draw.
#[derive(Debug, Clone, Copy, PartialEq, Eq, Structural)]
pub enum Surface {
    /// The full-screen click-through overlay. Ours to show without asking.
    Overlay,
    /// The dock. It has its own switch and its own preferences, so a Look that
    /// wants it has to ask.
    Dock,
    /// The bar. Asked for the same way: it takes a strip of the desktop away
    /// from every other window.
    TopBar,
}

/// How a Look wants the dock, if it wants one at all.
#[derive(Debug, Clone, Copy)]
pub struct DockWish {
    pub edge: Edge,
    /// Whether it waits at that edge until the pointer comes for it.
    pub hover: bool,
}

/// A Look is a description, not code: a theme name, the surfaces it draws, and
/// the pack it offers.
///
/// `surfaces` states what the Look wants, not permission to take it: the
/// overlay is ours, but the dock and the bar have their own switches and are
/// only offered.
pub struct Look {
    pub id: LookId,
    pub theme: &'static str,
    pub surfaces: Vec<Surface>,
    /// The pack offered when the Look is switched on. Never applied here.
    pub pack_id: Option<&'static str>,
    /// Only read when the dock is offered and accepted. A Look never moves a
    /// dock somebody already had.
    pub dock: Option<DockWish>,
}

impl Look {
    pub fn draws(&self, surface: Surface) -> (r: bool)
        ensures
            r == self.surfaces@.contains(surface),
    {
        let mut i: usize = 0;
        while i < self.surfaces.len()
            invariant
                i <= self.surfaces.len(),
                forall|j: int| 0 <= j < i ==> self.surfaces@[j] != surface,
            decreases self.surfaces.len() - i,
        {
            if self.surfaces[i] == surface {
                return true;
            }
            i += 1;
        }
        false
    }
}

/// What each Look is.
pub open spec fn look_spec(id: LookId) -> (Seq<Surface>, Option<Seq<char>>, Option<(Edge, bool)>) {
    match id {
        LookId::Jarvis => (seq![Surface::Overlay], Some("com.mino.jarvis"@), None),
        // The Look is called Cupertino and the pack is still called macOS: one
        // pack, already shipped and already with a wallpaper.
        LookId::Cupertino => (
            seq![Surface::TopBar, Surface::Dock],
            Some("com.mino.macos"@),
            Some((Edge::Bottom, true)),
        ),
        // Ubuntu's dock stands down the left and stays there.
        LookId::Yaru => (
            seq![Surface::TopBar, Surface::Dock],
            Some("com.mino.yaru"@),
            Some((Edge::Left, false)),
        ),
    }
}

/// `l` is the entry of the Look `id`.
pub open spec fn is_entry(l: Look, id: LookId) -> bool {
    let (surfaces, pack, dock) = look_spec(id);
    &&& l.id == id
    &&& l.theme@ == look_name(id)
    &&& l.surfaces@ == surfaces
    &&& match l.pack_id {
        Some(p) => pack == Some(p@),
        None => pack is None,
    }
    &&& match l.dock {
        Some(w) => dock == Some((w.edge, w.hover)),
        None => dock is None,
    }
}

fn surfaces_of(first: Surface, second: Option<Surface>) -> (r: Vec<Surface>)
    ensures
        r@ == match second {
            Some(s) => seq![first, s],
            None => seq![first],
        },
{
    let mut v: Vec<Surface> = Vec::new();
    v.push(first);
    match second {
        Some(s) => v.push(s),
        None => {},
    }
    proof {
        match second {
            Some(s) => assert(v@ =~= seq![first, s]),
            None => assert(v@ =~= seq![first]),
        }
    }
    v
}

/// The entry for a Look. Total: every `LookId` has one.
pub fn look(id: LookId) -> (r: Look)
    ensures
        is_entry(r, id),
{
    match id {
        LookId::Jarvis => Look {
            id,
            theme: "jarvis",
            surfaces: surfaces_of(Surface::Overlay, None),
            pack_id: Some("com.mino.jarvis"),
            dock: None,
        },
        LookId::Cupertino => Look {
            id,
            theme: "cupertino",
            surfaces: surfaces_of(Surface::TopBar, Some(Surface::Dock)),
            pack_id: Some("com.mino.macos"),
            dock: Some(DockWish { edge: Edge::Bottom, hover: true }),
        },
        LookId::Yaru => Look {
            id,
            theme: "yaru",
            surfaces: surfaces_of(Surface::TopBar, Some(Surface::Dock)),
            pack_id: Some("com.mino.yaru"),
            dock: Some(DockWish { edge: Edge::Left, hover: false }),
        },
    }
}

/// Every Look this build has, in the order the picker lists them: one entry
/// each.
pub fn looks() -> (r: Vec<Look>)
    ensures
        r@.len() == 3,
        is_entry(r@[0], LookId::Jarvis),
        is_entry(r@[1], LookId::Cupertino),
        is_entry(r@[2], LookId::Yaru),
{
    let mut v: Vec<Look> = Vec::new();
    v.push(look(LookId::Jarvis));
    v.push(look(LookId::Cupertino));
    v.push(look(LookId::Yaru));
    v
}

/// Which Look is worn and what it may do. A missing field in the file falls
/// back to the default, so a file written by an older build keeps every
/// preference it does have.
pub struct ShellConfig {
    /// Which Look is worn. `None` is plain Fluent — the app as it ships.
    pub active: Option<LookId>,
    /// Spoken greeting and interface sounds. Off by default — a machine that
    /// starts talking on its own in a meeting is a bug, whatever the intent.
    pub sound: bool,
    /// The live readouts.
    pub telemetry: bool,
    /// What the greeting calls you. Empty means it says nothing after the
    /// time of day.
    pub address: String,
}

impl Default for ShellConfig {
    fn default() -> (r: Self)
        ensures
            r.active is None,
            !r.sound,
            r.telemetry,
            r.address@.len() == 0,
    {
        ShellConfig { active: None, sound: false, telemetry: true, address: String::new() }
    }
}

/// A name as the greeting keeps it: without the white space around it, and
/// no longer than forty characters.
pub open spec fn kept_address(raw: Seq<char>) -> Seq<char> {
    let t = trim(raw);
    if t.len() <= 40 {
        t
    } else {
        t.take(40)
    }
}

/// The first `n` of `cs`, or all of them if there are fewer.
fn first_chars(cs: &Vec<char>, n: usize) -> (r: String)
    ensures
        r@ == (if cs@.len() <= n {
            cs@
        } else {
            cs@.take(n as int)
        }),
{
    let mut out = String::new();
    let mut i: usize = 0;
    while i < cs.len() && i < n
        invariant
            i <= cs.len(),
            i <= n,
            out@ == cs@.take(i as int),
        decreases cs.len() - i,
    {
        push_char(&mut out, cs[i]);
        proof {
            assert(cs@.take(i as int + 1) =~= cs@.take(i as int).push(cs@[i as int]));
        }
        i += 1;
    }
    proof {
        if cs@.len() <= n {
            assert(cs@.take(i as int) =~= cs@);
        }
    }
    out
}

impl ShellConfig {
    /// Wears the Look `id`, or takes the worn one off with `None`; the other
    /// preferences stay as they are.
    pub fn wear(&mut self, id: Option<LookId>)
        ensures
            final(self).active == id,
            final(self).sound == old(self).sound,
            final(self).telemetry == old(self).telemetry,
            final(self).address@ == old(self).address@,
    {
        self.active = id;
    }

    /// Changes the preferences given, and only those: never which Look is
    /// worn. A name is written into a spoken sentence, so it is trimmed and
    /// capped rather than passed through: the cap is what stops a paragraph
    /// pasted in from being read aloud.
    pub fn set_options(&mut self, sound: Option<bool>, telemetry: Option<bool>, address: Option<String>)
        ensures
            final(self).active == old(self).active,
            final(self).sound == (match sound {
                Some(b) => b,
                None => old(self).sound,
            }),
            final(self).telemetry == (match telemetry {
                Some(b) => b,
                None => old(self).telemetry,
            }),
            final(self).address@ == (match address {
                Some(a) => kept_address(a@),
                None => old(self).address@,
            }),
    {
        if let Some(sound) = sound {
            self.sound = sound;
        }
        if let Some(telemetry) = telemetry {
            self.telemetry = telemetry;
        }
        if let Some(address) = address {
            self.address = first_chars(&trim_chars(&chars_of(address.as_str())), 40);
        }
    }
}

/// JARVIS mode's preferences as they were written before Looks existed. Read
/// once, to carry a user's mode across the upgrade.
pub struct LegacyConfig {
    pub enabled: bool,
    pub sound: bool,
    pub telemetry: bool,
    pub address: String,
}

impl Default for LegacyConfig {
    fn default() -> (r: Self)
        ensures
            !r.enabled,
            !r.sound,
            r.telemetry,
            r.address@.len() == 0,
    {
        LegacyConfig { enabled: false, sound: false, telemetry: true, address: String::new() }
    }
}

/// The mode carried across: on becomes the JARVIS Look, off becomes no Look
/// rather than JARVIS, and the other preferences stay as they were.
pub open spec fn migrated(old: LegacyConfig) -> ShellConfig {
    ShellConfig {
        active: if old.enabled {
            Some(LookId::Jarvis)
        } else {
            None
        },
        sound: old.sound,
        telemetry: old.telemetry,
        address: old.address,
    }
}

impl From<LegacyConfig> for ShellConfig {
    fn from(old: LegacyConfig) -> (r: Self) {
        ShellConfig {
            active: if old.enabled {
                Some(LookId::Jarvis)
            } else {
                None
            },
            sound: old.sound,
            telemetry: old.telemetry,
            address: old.address,
        }
    }
}

impl vstd::std_specs::convert::FromSpecImpl<LegacyConfig> for ShellConfig {
    open spec fn obeys_from_spec() -> bool {
        true
    }

    open spec fn from_spec(old: LegacyConfig) -> Self {
        migrated(old)
    }
}

impl ShellConfig {
    /// The preferences to start with: those read from the file; failing that,
    /// JARVIS mode's carried across (and to be written out once, which the
    /// second half says); failing that, the defaults. A missing or malformed
    /// file is no error — starting with no Look beats not starting.
    pub fn load(current: Option<ShellConfig>, legacy: Option<LegacyConfig>) -> (r: (ShellConfig, bool))
        ensures
            match current {
                Some(c) => r.0 == c && !r.1,
                None => match legacy {
                    Some(l) => r.0 == migrated(l) && r.1,
                    None => r.0.active is None && !r.0.sound && r.0.telemetry && r.0.address@.len()
                        == 0 && !r.1,
                },
            },
    {
        match current {
            Some(c) => (c, false),
            None => match legacy {
                Some(l) => (ShellConfig::from(l), true),
                None => (ShellConfig::default(), false),
            },
        }
    }

    /// The entry for the Look being worn, if any.
    pub fn look(&self) -> (r: Option<Look>)
        ensures
            match self.active {
                Some(id) => r matches Some(l) && is_entry(l, id),
                None => r is None,
            },
    {
        match self.active {
            Some(id) => Some(look(id)),
            None => None,
        }
    }

    /// Whether the Look being worn draws `surface`.
    pub fn draws(&self, surface: Surface) -> (r: bool)
        ensures
            r == match self.active {
                Some(id) => look_spec(id).0.contains(surface),
                None => false,
            },
    {
        match self.look() {
            Some(l) => l.draws(surface),
            None => false,
        }
    }
}

/// The JARVIS overlay's preferences, from before it became one Look of several.
pub struct JarvisConfig {
    /// The whole mode: overlay, skin and all.
    pub enabled: bool,
    pub sound: bool,
    pub telemetry: bool,
    pub address: String,
}

impl Default for JarvisConfig {
    fn default() -> (r: Self)
        ensures
            !r.enabled,
            !r.sound,
            r.telemetry,
            r.address@.len() == 0,
    {
        JarvisConfig { enabled: false, sound: false, telemetry: true, address: String::new() }
    }
}

/// Tall enough for a name and a clock at the app's smallest readable size, and
/// no taller.
pub const DEFAULT_BAR_HEIGHT: u32 = 28;

pub const MIN_BAR_HEIGHT: u32 = 16;

/// Above this the bar stops being a bar: the height goes straight into a
/// reservation, and a file saying 4000 would hand the whole screen to a strip
/// nobody can click past.
pub const MAX_BAR_HEIGHT: u32 = 96;

pub struct TopBarConfig {
    pub enabled: bool,
    /// Logical pixels.
    pub height: u32,
}

impl Default for TopBarConfig {
    fn default() -> (r: Self)
        ensures
            !r.enabled,
            r.height == DEFAULT_BAR_HEIGHT,
    {
        TopBarConfig { enabled: false, height: DEFAULT_BAR_HEIGHT }
    }
}

impl TopBarConfig {
    /// The preferences to start with: those read from the file, or the
    /// defaults, with the height held to what a bar can be — a hand-edited
    /// file is clamped, not trusted.
    pub fn load(read: Option<TopBarConfig>) -> (r: TopBarConfig)
        ensures
            match read {
                Some(c) => r.enabled == c.enabled && r.height == if c.height < MIN_BAR_HEIGHT {
                    MIN_BAR_HEIGHT
                } else if c.height > MAX_BAR_HEIGHT {
                    MAX_BAR_HEIGHT
                } else {
                    c.height
                },
                None => !r.enabled && r.height == DEFAULT_BAR_HEIGHT,
            },
    {
        let mut config = match read {
            Some(c) => c,
            None => TopBarConfig::default(),
        };
        config.height = if config.height < MIN_BAR_HEIGHT {
            MIN_BAR_HEIGHT
        } else if config.height > MAX_BAR_HEIGHT {
            MAX_BAR_HEIGHT
        } else {
            config.height
        };
        config
    }
}

} // verus!
