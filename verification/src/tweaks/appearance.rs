//! Light and dark, the accent colour, and the switches that go with them.

use vstd::prelude::*;
use crate::error::Error;
use crate::os::{BuildRange, MIN_SUPPORTED_BUILD};
use crate::provider::{Hive, LocV, RegModel, RegSpec, RegValue, RegValueV, RegistryProvider};
use crate::tweak::{Category, Change, ChangeSet, ChangeV, Privilege, Refresh, Tier, Tweak, changes_view};
use crate::tweaks::helpers::{BoolTweak, plans_as, push_set, set_value};
use crate::value::{Color, Value, ValueKind, ValueV, abgr, is_bad_value};

verus! {

pub const PERSONALIZE: &'static str = "Software\\Microsoft\\Windows\\CurrentVersion\\Themes\\Personalize";

pub const DWM: &'static str = "Software\\Microsoft\\Windows\\DWM";

pub const ACCENT: &'static str = "Software\\Microsoft\\Windows\\CurrentVersion\\Explorer\\Accent";

pub const DESKTOP: &'static str = "Control Panel\\Desktop";

/// Windows' own default accent, used when nothing has been set yet.
pub open spec fn default_accent() -> Color {
    Color { r: 0x00, g: 0x78, b: 0xD4 }
}

pub fn all() -> (r: Vec<crate::tweaks::TweakKind>)
    ensures
        crate::tweaks::filed(r@, Category::Appearance),
        crate::tweaks::frame::places(r@) == crate::tweaks::frame::shipped_places().subrange(0, 12),
        crate::tweaks::frame::clear_of_menu(r@),
        crate::tweaks::ids_of(r@) == seq!["appearance.dark_mode"@, "appearance.accent_color"@, "appearance.transparency"@, "appearance.accent_on_titlebars"@, "appearance.accent_on_start_taskbar"@],
        crate::tweaks::appearance_table(r@),
{
    let mut v: Vec<crate::tweaks::TweakKind> = Vec::new();
    v.push(crate::tweaks::TweakKind::DarkMode(DarkModeTweak));
    v.push(crate::tweaks::TweakKind::Accent(AccentColorTweak));
    v.push(
        crate::tweaks::TweakKind::Bool(
            BoolTweak::new(
                "appearance.transparency",
                Category::Appearance,
                RegSpec::hkcu(PERSONALIZE, "EnableTransparency"),
                Refresh::Broadcast("ImmersiveColorSet"),
            ).default_on(true),
        ),
    );
    v.push(
        crate::tweaks::TweakKind::Bool(
            BoolTweak::new(
                "appearance.accent_on_titlebars",
                Category::Appearance,
                RegSpec::hkcu(DWM, "ColorPrevalence"),
                Refresh::Broadcast("ImmersiveColorSet"),
            ),
        ),
    );
    v.push(
        crate::tweaks::TweakKind::Bool(
            BoolTweak::new(
                "appearance.accent_on_start_taskbar",
                Category::Appearance,
                RegSpec::hkcu(PERSONALIZE, "ColorPrevalence"),
                Refresh::Broadcast("ImmersiveColorSet"),
            ).note("dark_mode_only", "Windows only shows this while dark mode is on."),
        ),
    );
    proof {
        reveal_strlit("appearance");
        reveal_strlit("appearance.dark_mode");
        reveal_strlit("appearance.accent_color");
        reveal_strlit("appearance.transparency");
        reveal_strlit("appearance.accent_on_titlebars");
        reveal_strlit("appearance.accent_on_start_taskbar");
        let p = crate::tweak::category_id(Category::Appearance).push('.');
        assert(v@[0].id_of().take(p.len() as int) =~= p);
        assert(v@[1].id_of().take(p.len() as int) =~= p);
        assert(v@[2].id_of().take(p.len() as int) =~= p);
        assert(v@[3].id_of().take(p.len() as int) =~= p);
        assert(v@[4].id_of().take(p.len() as int) =~= p);
        assert(v@[0].id_of().len() != v@[1].id_of().len());
        assert(v@[0].id_of().len() != v@[2].id_of().len());
        assert(v@[0].id_of().len() != v@[3].id_of().len());
        assert(v@[0].id_of().len() != v@[4].id_of().len());
        assert(v@[1].id_of()[11] != v@[2].id_of()[11]);
        assert(v@[1].id_of().len() != v@[3].id_of().len());
        assert(v@[1].id_of().len() != v@[4].id_of().len());
        assert(v@[2].id_of().len() != v@[3].id_of().len());
        assert(v@[2].id_of().len() != v@[4].id_of().len());
        assert(v@[3].id_of().len() != v@[4].id_of().len());
        assert(crate::tweaks::filed_under(v@[0], Category::Appearance));
        assert(crate::tweaks::filed_under(v@[1], Category::Appearance));
        assert(crate::tweaks::filed_under(v@[2], Category::Appearance));
        assert(crate::tweaks::filed_under(v@[3], Category::Appearance));
        assert(crate::tweaks::filed_under(v@[4], Category::Appearance));
        reveal_with_fuel(crate::tweaks::frame::places, 8);
        assert(crate::tweaks::frame::places(v@) =~= crate::tweaks::frame::shipped_places().subrange(0, 12));
        assert forall|i: int, a: int|
            0 <= i < v@.len() && !(v@[i] is ClassicMenu) && 0 <= a < v@[i].footprint().len()
                implies !crate::tweaks::frame::under_menu(#[trigger] v@[i].footprint()[a]) by {
            crate::tweaks::frame::lemma_path_off_menu(v@[i].footprint()[a]);
        }
        assert(crate::tweaks::appearance_table(v@));
        assert(crate::tweaks::ids_of(v@) =~= seq!["appearance.dark_mode"@, "appearance.accent_color"@, "appearance.transparency"@, "appearance.accent_on_titlebars"@, "appearance.accent_on_start_taskbar"@]);
    }
    v
}

/// `HKCU\Control Panel\Desktop` is not under `Software`, so it gets its own
/// helper rather than being mistyped somewhere.
pub fn desktop_spec(name: &'static str) -> (r: RegSpec)
    ensures
        r.hive == Hive::CurrentUser,
        r.path@ == DESKTOP@,
        r.name@ == name@,
{
    RegSpec { hive: Hive::CurrentUser, path: DESKTOP, name }
}

pub open spec fn hkcu_loc(path: &'static str, name: &'static str) -> LocV {
    LocV { hive: Hive::CurrentUser, path: path@, name: name@ }
}

/// The DWORD at `v`, or `default` when there is none.
pub open spec fn dword_or(v: Option<RegValueV>, default: u32) -> u32 {
    match v {
        Some(RegValueV::Dword(d)) => d,
        _ => default,
    }
}

/// Light and dark mode.
///
/// Windows keeps two switches — one for apps, one for the shell. We treat them
/// as one control; both are written together and both are journalled, so a
/// mixed setup is restored exactly as it was.
pub struct DarkModeTweak;

impl DarkModeTweak {
    pub open spec fn apps() -> LocV {
        hkcu_loc(PERSONALIZE, "AppsUseLightTheme")
    }

    pub open spec fn system() -> LocV {
        hkcu_loc(PERSONALIZE, "SystemUsesLightTheme")
    }

    /// Absent means light: that is Windows' own default on a fresh install.
    pub open spec fn reading(m: RegModel) -> ValueV {
        ValueV::Bool(dword_or(m.value_at(Self::apps()), 1) == 0)
    }

    pub open spec fn planned(m: RegModel, dark: bool) -> Seq<ChangeV> {
        let target = RegValueV::Dword(
            if dark {
                0
            } else {
                1
            },
        );
        set_value(m, Self::apps(), target) + set_value(m, Self::system(), target)
    }

    pub fn read<R: RegistryProvider>(&self, reg: &R) -> (r: Result<Value, Error>)
        requires
            reg.wf(),
        ensures
            reg.reliable() ==> r is Ok,
            r matches Ok(v) ==> v@ == Self::reading(reg.model()),
    {
        let loc = RegSpec::hkcu(PERSONALIZE, "AppsUseLightTheme").loc();
        let apps_light = match reg.read(&loc)? {
            Some(RegValue::Dword(d)) => d,
            _ => 1,
        };
        Ok(Value::Bool(apps_light == 0))
    }

    pub fn plan<R: RegistryProvider>(&self, reg: &R, want: &Value) -> (r: Result<ChangeSet, Error>)
        requires
            reg.wf(),
        ensures
            match want@ {
                ValueV::Bool(b) => {
                    &&& reg.reliable() ==> r is Ok
                    &&& r is Ok ==> plans_as(
                        r,
                        "appearance.dark_mode"@,
                        Self::planned(reg.model(), b),
                        Refresh::Broadcast("ImmersiveColorSet"),
                    )
                },
                _ => r matches Err(e) && is_bad_value(
                    e,
                    "appearance.dark_mode"@,
                    want@,
                    "a boolean"@,
                ),
            },
    {
        let dark = want.as_bool("appearance.dark_mode")?;
        let target: u32 = if dark {
            0
        } else {
            1
        };
        let mut changes: Vec<Change> = Vec::new();
        push_set(
            reg,
            &mut changes,
            RegSpec::hkcu(PERSONALIZE, "AppsUseLightTheme").loc(),
            RegValue::Dword(target),
        )?;
        push_set(
            reg,
            &mut changes,
            RegSpec::hkcu(PERSONALIZE, "SystemUsesLightTheme").loc(),
            RegValue::Dword(target),
        )?;
        proof {
            assert(changes_view(Seq::<Change>::empty()) =~= Seq::<ChangeV>::empty());
            assert(changes_view(changes@) =~= Self::planned(reg.model(), dark));
        }
        Ok(
            ChangeSet {
                tweak: crate::text::string_from("appearance.dark_mode"),
                changes,
                refresh: Refresh::Broadcast("ImmersiveColorSet"),
            },
        )
    }
}

impl Tweak for DarkModeTweak {
    open spec fn build_range(&self) -> BuildRange {
        BuildRange { min: MIN_SUPPORTED_BUILD, max: None }
    }

    fn id(&self) -> (r: &'static str)
        ensures
            r@ == "appearance.dark_mode"@,
    {
        "appearance.dark_mode"
    }

    fn category(&self) -> (r: Category)
        ensures
            r == Category::Appearance,
    {
        Category::Appearance
    }

    fn tier(&self) -> (r: Tier)
        ensures
            r == Tier::A,
    {
        Tier::A
    }

    fn value_kind(&self) -> (r: ValueKind)
        ensures
            r is Bool,
    {
        ValueKind::Bool
    }

    fn builds(&self) -> (r: BuildRange) {
        BuildRange::any()
    }

    fn refresh(&self) -> (r: Refresh)
        ensures
            r == Refresh::Broadcast("ImmersiveColorSet"),
    {
        Refresh::Broadcast("ImmersiveColorSet")
    }
}

/// The shades of an accent colour that Start and the taskbar read.
///
/// Working them out takes floating point, which has no place in this crate: the
/// caller computes them (seven shades lightest first, the base at index 3, and
/// the darker shade `StartColorMenu` uses) and the plan records them.
#[derive(Debug, Clone, Copy)]
pub struct AccentShades {
    pub ramp: [Color; 7],
    pub start: Color,
}

/// `ColorizationColor` carries an alpha byte; Windows itself writes 0xC4.
pub open spec fn colorization(c: Color) -> u32 {
    (0xC400_0000u32 as int + c.r as int * 0x1_0000 + c.g as int * 0x100 + c.b as int) as u32
}

/// The colorization DWORD is `0xC4RRGGBB`: the alpha byte 0xC4 on top, then
/// red, green and blue. Read back byte by byte it gives the colour, and its
/// red and blue bytes are those of the `AccentColor` DWORD (`0xAABBGGRR`)
/// the other way round.
pub proof fn law_colorization_bytes(c: Color)
    ensures
        colorization(c) / 0x100_0000 == 0xC4,
        (colorization(c) / 0x1_0000) % 0x100 == c.r,
        (colorization(c) / 0x100) % 0x100 == c.g,
        colorization(c) % 0x100 == c.b,
        colorization(c) % 0x100 == (crate::value::abgr(c) / 0x1_0000) % 0x100,
        (colorization(c) / 0x1_0000) % 0x100 == crate::value::abgr(c) % 0x100,
{
    let r = c.r as int;
    let g = c.g as int;
    let b = c.b as int;
    let v = 0xC400_0000int + r * 0x1_0000 + g * 0x100 + b;
    let a = 0xFF00_0000int + r + g * 0x100 + b * 0x1_0000;
    assert(0 <= v < 0x1_0000_0000) by (nonlinear_arith)
        requires
            v == 0xC400_0000int + r * 0x1_0000 + g * 0x100 + b,
            0 <= r < 256,
            0 <= g < 256,
            0 <= b < 256,
    ;
    assert(0 <= a < 0x1_0000_0000) by (nonlinear_arith)
        requires
            a == 0xFF00_0000int + r + g * 0x100 + b * 0x1_0000,
            0 <= r < 256,
            0 <= g < 256,
            0 <= b < 256,
    ;
    assert(colorization(c) as int == v);
    assert(crate::value::abgr(c) as int == a);
    assert(v / 0x100_0000 == 0xC4 && (v / 0x1_0000) % 0x100 == r && (v / 0x100) % 0x100 == g && v % 0x100
        == b) by (nonlinear_arith)
        requires
            v == 0xC400_0000int + r * 0x1_0000 + g * 0x100 + b,
            0 <= r < 256,
            0 <= g < 256,
            0 <= b < 256,
    ;
    assert((a / 0x1_0000) % 0x100 == b && a % 0x100 == r) by (nonlinear_arith)
        requires
            a == 0xFF00_0000int + r + g * 0x100 + b * 0x1_0000,
            0 <= r < 256,
            0 <= g < 256,
            0 <= b < 256,
    ;
}

/// The seven shades as `R, G, B, 00`, lightest first.
pub open spec fn ramp_bytes(ramp: Seq<Color>) -> Seq<u8>
    decreases ramp.len(),
{
    if ramp.len() == 0 {
        Seq::empty()
    } else {
        seq![ramp[0].r, ramp[0].g, ramp[0].b, 0u8] + ramp_bytes(ramp.drop_first())
    }
}

/// The eighth entry of `AccentPalette` is not part of the ramp: an existing one
/// is carried over untouched, and a missing one becomes Windows' default.
pub open spec fn eighth_entry(existing: Option<RegValueV>) -> Seq<u8> {
    match existing {
        Some(RegValueV::Binary(previous)) if previous.len() == 32 => previous.subrange(28, 32),
        _ => seq![0xF7u8, 0x63u8, 0x0Cu8, 0x00u8],
    }
}

/// The `AccentPalette` bytes: the ramp, then the eighth entry.
pub open spec fn palette_bytes(ramp: Seq<Color>, existing: Option<RegValueV>) -> Seq<u8> {
    ramp_bytes(ramp) + eighth_entry(existing)
}

/// The accent colour.
///
/// One user-visible colour, seven registry values: DWM keeps the colour the
/// window manager draws with, Explorer keeps a shade ramp that Start and the
/// taskbar read, and `AutoColorization` has to be turned off or Windows
/// overwrites the lot the next time the wallpaper changes.
pub struct AccentColorTweak;

impl AccentColorTweak {
    pub open spec fn accent_color() -> LocV {
        hkcu_loc(DWM, "AccentColor")
    }

    pub open spec fn colorization_loc() -> LocV {
        hkcu_loc(DWM, "ColorizationColor")
    }

    pub open spec fn afterglow() -> LocV {
        hkcu_loc(DWM, "ColorizationAfterglow")
    }

    pub open spec fn menu() -> LocV {
        hkcu_loc(ACCENT, "AccentColorMenu")
    }

    pub open spec fn start() -> LocV {
        hkcu_loc(ACCENT, "StartColorMenu")
    }

    pub open spec fn palette_loc() -> LocV {
        hkcu_loc(ACCENT, "AccentPalette")
    }

    pub open spec fn auto() -> LocV {
        hkcu_loc(DESKTOP, "AutoColorization")
    }

    pub open spec fn reading(m: RegModel) -> ValueV {
        match m.value_at(Self::accent_color()) {
            Some(RegValueV::Dword(d)) => ValueV::Color(
                Color { r: (d % 0x100) as u8, g: ((d / 0x100) % 0x100) as u8, b: ((d / 0x1_0000) % 0x100) as u8 },
            ),
            _ => ValueV::Color(default_accent()),
        }
    }

    /// Everything setting the accent to `base`, with these shades, changes.
    pub open spec fn planned(m: RegModel, base: Color, shades: AccentShades) -> Seq<ChangeV> {
        set_value(m, Self::accent_color(), RegValueV::Dword(abgr(base))) + set_value(
            m,
            Self::colorization_loc(),
            RegValueV::Dword(colorization(base)),
        ) + set_value(m, Self::afterglow(), RegValueV::Dword(colorization(base))) + set_value(
            m,
            Self::menu(),
            RegValueV::Dword(abgr(base)),
        ) + set_value(m, Self::start(), RegValueV::Dword(abgr(shades.start))) + set_value(
            m,
            Self::palette_loc(),
            RegValueV::Binary(palette_bytes(shades.ramp@, m.value_at(Self::palette_loc()))),
        ) + set_value(m, Self::auto(), RegValueV::Dword(0))
    }

    pub fn colorization(base: Color) -> (v: u32)
        ensures
            v == colorization(base),
    {
        let (r, g, b) = (base.r as u32, base.g as u32, base.b as u32);
        assert(0xC400_0000u32 | (r << 16) | (g << 8) | b == 0xC400_0000u32 + r * 0x1_0000 + g
            * 0x100 + b) by (bit_vector)
            requires
                r < 256 && g < 256 && b < 256,
        ;
        0xC400_0000u32 | (r << 16) | (g << 8) | b
    }

    /// Eight 4-byte entries of `R, G, B, 00`: the seven shades, then the
    /// eighth entry kept from what was there.
    pub fn palette(ramp: &[Color; 7], existing: &Option<RegValue>) -> (bytes: Vec<u8>)
        ensures
            bytes@ == palette_bytes(ramp@, crate::provider::opt_view(*existing)),
            bytes@.len() == 32,
    {
        let mut bytes: Vec<u8> = Vec::new();
        let mut i: usize = 0;
        proof {
            assert(ramp@.skip(0) =~= ramp@);
        }
        while i < 7
            invariant
                i <= 7,
                ramp@.len() == 7,
                bytes@ + ramp_bytes(ramp@.skip(i as int)) == ramp_bytes(ramp@),
                bytes@.len() == 4 * i,
            decreases 7 - i,
        {
            let c = ramp[i];
            proof {
                let rest = ramp@.skip(i as int);
                assert(rest[0] == c);
                assert(rest.drop_first() =~= ramp@.skip(i + 1));
                assert(ramp_bytes(rest) == seq![c.r, c.g, c.b, 0u8] + ramp_bytes(ramp@.skip(i + 1)));
            }
            let ghost before = bytes@;
            bytes.push(c.r);
            bytes.push(c.g);
            bytes.push(c.b);
            bytes.push(0);
            proof {
                assert(bytes@ =~= before + seq![c.r, c.g, c.b, 0u8]);
                assert(bytes@ + ramp_bytes(ramp@.skip(i + 1)) =~= before + (seq![c.r, c.g, c.b, 0u8] + ramp_bytes(ramp@.skip(i + 1))));
            }
            i += 1;
        }
        proof {
            assert(ramp@.skip(7) =~= Seq::<Color>::empty());
            assert(bytes@ + Seq::<u8>::empty() =~= bytes@);
        }
        let ghost ramp_part = bytes@;
        match existing {
            Some(RegValue::Binary(previous)) if previous.len() == 32 => {
                bytes.push(previous[28]);
                bytes.push(previous[29]);
                bytes.push(previous[30]);
                bytes.push(previous[31]);
                proof {
                    assert(bytes@ =~= ramp_part + previous@.subrange(28, 32));
                }
            },
            _ => {
                bytes.push(0xF7);
                bytes.push(0x63);
                bytes.push(0x0C);
                bytes.push(0x00);
                proof {
                    assert(bytes@ =~= ramp_part + seq![0xF7u8, 0x63u8, 0x0Cu8, 0x00u8]);
                }
            },
        }
        bytes
    }

    pub fn read<R: RegistryProvider>(&self, reg: &R) -> (r: Result<Value, Error>)
        requires
            reg.wf(),
        ensures
            reg.reliable() ==> r is Ok,
            r matches Ok(v) ==> v@ == Self::reading(reg.model()),
    {
        let loc = RegSpec::hkcu(DWM, "AccentColor").loc();
        let color = match reg.read(&loc)? {
            Some(RegValue::Dword(d)) => Color::from_abgr_dword(d),
            _ => Color::new(0x00, 0x78, 0xD4),
        };
        Ok(Value::Color(color))
    }

    /// The plan for `want`, given the shades of the colour it names.
    pub fn plan_with_shades<R: RegistryProvider>(
        &self,
        reg: &R,
        base: Color,
        shades: &AccentShades,
    ) -> (r: Result<ChangeSet, Error>)
        requires
            reg.wf(),
        ensures
            reg.reliable() ==> r is Ok,
            r is Ok ==> plans_as(
                r,
                "appearance.accent_color"@,
                Self::planned(reg.model(), base, *shades),
                Refresh::Broadcast("ImmersiveColorSet"),
            ),
    {
        let existing = reg.read(&RegSpec::hkcu(ACCENT, "AccentPalette").loc())?;
        let mut changes: Vec<Change> = Vec::new();
        let ghost m = reg.model();
        push_set(reg, &mut changes, RegSpec::hkcu(DWM, "AccentColor").loc(), RegValue::Dword(base.to_abgr_dword()))?;
        push_set(reg, &mut changes, RegSpec::hkcu(DWM, "ColorizationColor").loc(), RegValue::Dword(Self::colorization(base)))?;
        push_set(reg, &mut changes, RegSpec::hkcu(DWM, "ColorizationAfterglow").loc(), RegValue::Dword(Self::colorization(base)))?;
        push_set(reg, &mut changes, RegSpec::hkcu(ACCENT, "AccentColorMenu").loc(), RegValue::Dword(base.to_abgr_dword()))?;
        push_set(reg, &mut changes, RegSpec::hkcu(ACCENT, "StartColorMenu").loc(), RegValue::Dword(shades.start.to_abgr_dword()))?;
        push_set(reg, &mut changes, RegSpec::hkcu(ACCENT, "AccentPalette").loc(), RegValue::Binary(Self::palette(&shades.ramp, &existing)))?;
        // Without this, Windows recolours everything from the wallpaper again.
        push_set(reg, &mut changes, desktop_spec("AutoColorization").loc(), RegValue::Dword(0))?;
        proof {
            assert(changes_view(Seq::<Change>::empty()) =~= Seq::<ChangeV>::empty());
            assert(changes_view(changes@) =~= Self::planned(m, base, *shades));
        }
        Ok(
            ChangeSet {
                tweak: crate::text::string_from("appearance.accent_color"),
                changes,
                refresh: Refresh::Broadcast("ImmersiveColorSet"),
            },
        )
    }

    /// What planning the colour `base` gives, with these shades.
    pub open spec fn outcome(
        r: Result<ChangeSet, Error>,
        m: RegModel,
        reliable: bool,
        base: Color,
        shades: AccentShades,
    ) -> bool {
        &&& reliable ==> r is Ok
        &&& r is Ok ==> plans_as(
            r,
            "appearance.accent_color"@,
            Self::planned(m, base, shades),
            Refresh::Broadcast("ImmersiveColorSet"),
        )
    }

    /// Plans the colour `want`, asking `shade` for its shades.
    pub fn plan<R: RegistryProvider, F: Fn(Color) -> AccentShades>(
        &self,
        reg: &R,
        want: &Value,
        shade: &F,
    ) -> (r: Result<ChangeSet, Error>)
        requires
            reg.wf(),
            forall|c: Color| shade.requires((c,)),
        ensures
            match want@ {
                ValueV::Color(base) => exists|shades: AccentShades|
                    shade.ensures((base,), shades) && #[trigger] Self::outcome(
                        r,
                        reg.model(),
                        reg.reliable(),
                        base,
                        shades,
                    ),
                _ => r matches Err(e) && is_bad_value(
                    e,
                    "appearance.accent_color"@,
                    want@,
                    "a colour such as \"#0F62C0\""@,
                ),
            },
    {
        let base = want.as_color("appearance.accent_color")?;
        let shades = shade(base);
        let r = self.plan_with_shades(reg, base, &shades);
        assert(Self::outcome(r, reg.model(), reg.reliable(), base, shades));
        r
    }
}

impl Tweak for AccentColorTweak {
    open spec fn build_range(&self) -> BuildRange {
        BuildRange { min: MIN_SUPPORTED_BUILD, max: None }
    }

    fn id(&self) -> (r: &'static str)
        ensures
            r@ == "appearance.accent_color"@,
    {
        "appearance.accent_color"
    }

    fn category(&self) -> (r: Category)
        ensures
            r == Category::Appearance,
    {
        Category::Appearance
    }

    /// Tier B: `AccentPalette` is not a documented format.
    fn tier(&self) -> (r: Tier)
        ensures
            r == Tier::B,
    {
        Tier::B
    }

    fn value_kind(&self) -> (r: ValueKind)
        ensures
            r is Color,
    {
        ValueKind::Color
    }

    fn builds(&self) -> (r: BuildRange) {
        BuildRange::any()
    }

    fn refresh(&self) -> (r: Refresh)
        ensures
            r == Refresh::Broadcast("ImmersiveColorSet"),
    {
        Refresh::Broadcast("ImmersiveColorSet")
    }

    fn privilege(&self) -> (r: Privilege)
        ensures
            r == Privilege::User,
    {
        Privilege::User
    }
}

} // verus!
