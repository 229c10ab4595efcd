//! Every setting the app knows about.
//!
//! Adding one means adding a literal to the relevant `all()` below. If it needs
//! more than [`helpers::BoolTweak`] or [`helpers::ChoiceTweak`] can express, it
//! gets a type of its own and a variant in [`TweakKind`], with the key paths
//! kept inside it.

use vstd::prelude::*;
use crate::error::Error;
use crate::os::{BuildRange, OsBuild, Support, SupportNote, gate, MIN_SUPPORTED_BUILD, WIN11_21H2, WIN11_22H2, WIN11_24H2};
use crate::provider::{LocV, RegModel, RegistryProvider};
use crate::text::{starts_with, str_eq};
use crate::tweak::{Category, ChangeSet, Privilege, Refresh, Tier, Tweak, category_id};
use crate::tweaks::appearance::{hkcu_loc, AccentColorTweak, AccentShades, DarkModeTweak, DESKTOP, DWM, PERSONALIZE};
use crate::tweaks::taskbar::{ADVANCED, SEARCH};
use crate::tweaks::desktop::WallpaperTweak;
use crate::tweaks::explorer::ClassicContextMenuTweak;
use crate::tweaks::helpers::{BoolTweak, ChoiceTweak, names_joined, plans_as, reads_as};
use crate::value::{Color, Value, ValueKind, ValueV, is_bad_value};

pub mod appearance;
pub mod desktop;
pub mod explorer;
pub mod frame;
pub mod helpers;
pub mod settle;
pub mod start;
pub mod taskbar;

verus! {

/// One setting, of one of the shapes this crate knows how to read and write.
pub enum TweakKind {
    Bool(BoolTweak),
    Choice(ChoiceTweak),
    DarkMode(DarkModeTweak),
    Accent(AccentColorTweak),
    ClassicMenu(ClassicContextMenuTweak),
    Wallpaper(WallpaperTweak),
}

/// `Nothing` for a plan without changes, `refresh` otherwise.
pub open spec fn refresh_if(len: nat, refresh: Refresh) -> Refresh {
    if len == 0 {
        Refresh::Nothing
    } else {
        refresh
    }
}

impl TweakKind {
    pub open spec fn id_of(self) -> Seq<char> {
        match self {
            TweakKind::Bool(t) => t.id@,
            TweakKind::Choice(t) => t.id@,
            TweakKind::DarkMode(_) => "appearance.dark_mode"@,
            TweakKind::Accent(_) => "appearance.accent_color"@,
            TweakKind::ClassicMenu(_) => "explorer.classic_context_menu"@,
            TweakKind::Wallpaper(_) => "desktop.wallpaper"@,
        }
    }

    pub open spec fn category_of(self) -> Category {
        match self {
            TweakKind::Bool(t) => t.category,
            TweakKind::Choice(t) => t.category,
            TweakKind::DarkMode(_) => Category::Appearance,
            TweakKind::Accent(_) => Category::Appearance,
            TweakKind::ClassicMenu(_) => Category::Explorer,
            TweakKind::Wallpaper(_) => Category::Desktop,
        }
    }

    pub open spec fn tier_of(self) -> Tier {
        match self {
            TweakKind::Bool(t) => t.tier,
            TweakKind::Choice(t) => t.tier,
            TweakKind::DarkMode(_) => Tier::A,
            TweakKind::Accent(_) => Tier::B,
            TweakKind::ClassicMenu(_) => Tier::B,
            TweakKind::Wallpaper(_) => Tier::A,
        }
    }

    pub open spec fn builds_of(self) -> BuildRange {
        match self {
            TweakKind::Bool(t) => t.builds,
            TweakKind::Choice(t) => t.builds,
            _ => BuildRange { min: crate::os::MIN_SUPPORTED_BUILD, max: None },
        }
    }

    pub open spec fn note_of(self) -> Option<SupportNote> {
        match self {
            TweakKind::Bool(t) => t.note,
            TweakKind::Choice(t) => t.note,
            _ => None,
        }
    }

    pub open spec fn privilege_of(self) -> Privilege {
        match self {
            TweakKind::Bool(t) => t.privilege,
            TweakKind::Choice(t) => t.privilege,
            _ => Privilege::User,
        }
    }

    pub open spec fn refresh_of(self) -> Refresh {
        match self {
            TweakKind::Bool(t) => t.refresh,
            TweakKind::Choice(t) => t.refresh,
            TweakKind::DarkMode(_) => Refresh::Broadcast("ImmersiveColorSet"),
            TweakKind::Accent(_) => Refresh::Broadcast("ImmersiveColorSet"),
            TweakKind::ClassicMenu(_) => Refresh::RestartShell,
            TweakKind::Wallpaper(_) => Refresh::Wallpaper,
        }
    }

    /// What the registry `m` reads as, or what is wrong with it.
    pub open spec fn reading(self, m: RegModel) -> Result<ValueV, Seq<char>> {
        match self {
            TweakKind::Bool(t) => t.reading(m.value_at(t.spec.loc_view())),
            TweakKind::Choice(t) => t.reading(m.value_at(t.spec.loc_view())),
            TweakKind::DarkMode(_) => Ok(DarkModeTweak::reading(m)),
            TweakKind::Accent(_) => Ok(AccentColorTweak::reading(m)),
            TweakKind::ClassicMenu(_) => Ok(ClassicContextMenuTweak::reading(m)),
            TweakKind::Wallpaper(_) => Ok(WallpaperTweak::reading(m)),
        }
    }

    /// The location a read complains about.
    pub open spec fn read_loc(self) -> LocV {
        match self {
            TweakKind::Bool(t) => t.spec.loc_view(),
            TweakKind::Choice(t) => t.spec.loc_view(),
            TweakKind::DarkMode(_) => DarkModeTweak::apps(),
            TweakKind::Accent(_) => AccentColorTweak::accent_color(),
            TweakKind::ClassicMenu(_) => ClassicContextMenuTweak::default_value(),
            TweakKind::Wallpaper(_) => WallpaperTweak::path_loc(),
        }
    }

    /// What the value the tweak is asked for has to be, in words.
    pub open spec fn expected_text(self) -> Seq<char> {
        match self {
            TweakKind::Bool(_) => "a boolean"@,
            TweakKind::Choice(_) => "one of the listed choices"@,
            TweakKind::DarkMode(_) => "a boolean"@,
            TweakKind::Accent(_) => "a colour such as \"#0F62C0\""@,
            TweakKind::ClassicMenu(_) => "a boolean"@,
            TweakKind::Wallpaper(_) => "a path"@,
        }
    }

    /// Whether `want` is of the shape the tweak takes.
    pub open spec fn takes(self, want: ValueV) -> bool {
        match self {
            TweakKind::Bool(_) => want is Bool,
            TweakKind::Choice(_) => want is Str,
            TweakKind::DarkMode(_) => want is Bool,
            TweakKind::Accent(_) => want is Color,
            TweakKind::ClassicMenu(_) => want is Bool,
            TweakKind::Wallpaper(_) => want is Str,
        }
    }

    /// What planning `want` on the registry `m` gives, when the accent shades
    /// come out as `shades` and the file system answers `exists` for a
    /// wallpaper path. Neither answer matters to the other tweaks.
    pub open spec fn outcome(
        self,
        r: Result<ChangeSet, Error>,
        m: RegModel,
        reliable: bool,
        want: ValueV,
        shades: AccentShades,
        exists: bool,
    ) -> bool {
        if !self.takes(want) {
            r matches Err(e) && is_bad_value(e, self.id_of(), want, self.expected_text())
        } else {
            match (self, want) {
                (TweakKind::Bool(t), ValueV::Bool(b)) => {
                    &&& reliable ==> r is Ok
                    &&& r is Ok ==> plans_as(
                        r,
                        t.id@,
                        t.planned(m, b),
                        refresh_if(t.planned(m, b).len(), t.refresh),
                    )
                },
                (TweakKind::Choice(t), ValueV::Str(c)) => match t.planned(m, c) {
                    Some(cs) => {
                        &&& reliable ==> r is Ok
                        &&& r is Ok ==> plans_as(r, t.id@, cs, refresh_if(cs.len(), t.refresh))
                    },
                    None => r matches Err(e) && e matches Error::BadValue { tweak, got, expected }
                        && tweak@ == t.id@ && got@ == seq!['"'] + c + seq!['"'] && expected@
                        == names_joined(t.map@),
                },
                (TweakKind::DarkMode(_), ValueV::Bool(b)) => {
                    &&& reliable ==> r is Ok
                    &&& r is Ok ==> plans_as(
                        r,
                        "appearance.dark_mode"@,
                        DarkModeTweak::planned(m, b),
                        Refresh::Broadcast("ImmersiveColorSet"),
                    )
                },
                (TweakKind::Accent(_), ValueV::Color(base)) => AccentColorTweak::outcome(
                    r,
                    m,
                    reliable,
                    base,
                    shades,
                ),
                (TweakKind::ClassicMenu(_), ValueV::Bool(b)) => {
                    &&& reliable ==> r is Ok
                    &&& r is Ok ==> plans_as(
                        r,
                        "explorer.classic_context_menu"@,
                        ClassicContextMenuTweak::planned(m, b),
                        refresh_if(
                            ClassicContextMenuTweak::planned(m, b).len(),
                            Refresh::RestartShell,
                        ),
                    )
                },
                (TweakKind::Wallpaper(_), ValueV::Str(p)) => WallpaperTweak::outcome(
                    r,
                    m,
                    reliable,
                    p,
                    exists,
                ),
                _ => false,
            }
        }
    }

    /// The shades that are acceptable for this tweak and `want`: those `shade`
    /// can give for the colour an accent is asked for, and any at all otherwise.
    pub open spec fn shades_fit<F: Fn(Color) -> AccentShades>(
        self,
        shade: F,
        want: ValueV,
        shades: AccentShades,
    ) -> bool {
        match (self, want) {
            (TweakKind::Accent(_), ValueV::Color(base)) => shade.ensures((base,), shades),
            _ => true,
        }
    }

    /// The file answers that are acceptable for this tweak and `want`: what
    /// `is_file` says of a wallpaper's path, and any at all otherwise.
    pub open spec fn file_fit<G: Fn(&str) -> bool>(self, is_file: G, want: ValueV, exists: bool) -> bool {
        match (self, want) {
            (TweakKind::Wallpaper(_), ValueV::Str(p)) => crate::tweaks::desktop::file_answer(is_file, p, exists),
            _ => true,
        }
    }

    pub fn id(&self) -> (r: &'static str)
        ensures
            r@ == self.id_of(),
    {
        match self {
            TweakKind::Bool(t) => t.id,
            TweakKind::Choice(t) => t.id,
            TweakKind::DarkMode(_) => "appearance.dark_mode",
            TweakKind::Accent(_) => "appearance.accent_color",
            TweakKind::ClassicMenu(_) => "explorer.classic_context_menu",
            TweakKind::Wallpaper(_) => "desktop.wallpaper",
        }
    }

    pub fn category(&self) -> (r: Category)
        ensures
            r == self.category_of(),
    {
        match self {
            TweakKind::Bool(t) => t.category,
            TweakKind::Choice(t) => t.category,
            TweakKind::DarkMode(_) => Category::Appearance,
            TweakKind::Accent(_) => Category::Appearance,
            TweakKind::ClassicMenu(_) => Category::Explorer,
            TweakKind::Wallpaper(_) => Category::Desktop,
        }
    }

    pub fn tier(&self) -> (r: Tier)
        ensures
            r == self.tier_of(),
    {
        match self {
            TweakKind::Bool(t) => t.tier,
            TweakKind::Choice(t) => t.tier,
            TweakKind::DarkMode(_) => Tier::A,
            TweakKind::Accent(_) => Tier::B,
            TweakKind::ClassicMenu(_) => Tier::B,
            TweakKind::Wallpaper(_) => Tier::A,
        }
    }

    pub fn value_kind(&self) -> (r: ValueKind)
        ensures
            r is Path <==> self is Wallpaper,
            r is Bool <==> (self is Bool || self is DarkMode || self is ClassicMenu),
            r is Color <==> self is Accent,
            r is Choice <==> self is Choice,
    {
        match self {
            TweakKind::Bool(_) => ValueKind::Bool,
            TweakKind::Choice(t) => t.value_kind(),
            TweakKind::DarkMode(_) => ValueKind::Bool,
            TweakKind::Accent(_) => ValueKind::Color,
            TweakKind::ClassicMenu(_) => ValueKind::Bool,
            TweakKind::Wallpaper(t) => t.value_kind(),
        }
    }

    pub fn builds(&self) -> (r: BuildRange)
        ensures
            r == self.builds_of(),
    {
        match self {
            TweakKind::Bool(t) => t.builds,
            TweakKind::Choice(t) => t.builds,
            _ => BuildRange::any(),
        }
    }

    pub fn refresh(&self) -> (r: Refresh)
        ensures
            r == self.refresh_of(),
    {
        match self {
            TweakKind::Bool(t) => t.refresh,
            TweakKind::Choice(t) => t.refresh,
            TweakKind::DarkMode(_) => Refresh::Broadcast("ImmersiveColorSet"),
            TweakKind::Accent(_) => Refresh::Broadcast("ImmersiveColorSet"),
            TweakKind::ClassicMenu(_) => Refresh::RestartShell,
            TweakKind::Wallpaper(_) => Refresh::Wallpaper,
        }
    }

    pub fn privilege(&self) -> (r: Privilege)
        ensures
            r == self.privilege_of(),
    {
        match self {
            TweakKind::Bool(t) => t.privilege,
            TweakKind::Choice(t) => t.privilege,
            _ => Privilege::User,
        }
    }

    /// Whether the tweak can be offered on `os`, and why not when it can't.
    pub fn support(&self, os: &OsBuild) -> (r: Support)
        ensures
            r is Unsupported <==> !crate::os::in_range(self.builds_of(), os.build),
            r matches Support::Partial(n) ==> self.note_of() == Some(n),
            r is Full ==> self.note_of() is None,
            r matches Support::Unsupported(n) ==> (n.key@, n.en@) == crate::os::unsupported_reason(
                self.builds_of(),
                os.build,
            ),
    {
        gate(self.builds(), self.note(), os.build)
    }

    fn note(&self) -> (r: Option<SupportNote>)
        ensures
            r == self.note_of(),
    {
        match self {
            TweakKind::Bool(t) => t.note,
            TweakKind::Choice(t) => t.note,
            _ => None,
        }
    }

    /// The value the tweak has on this machine right now.
    pub fn read<R: RegistryProvider>(&self, reg: &R) -> (r: Result<Value, Error>)
        requires
            reg.wf(),
        ensures
            reg.reliable() ==> reads_as(r, self.reading(reg.model()), self.read_loc()),
            r matches Ok(v) ==> self.reading(reg.model()) == Ok::<ValueV, Seq<char>>(v@),
    {
        match self {
            TweakKind::Bool(t) => t.read(reg),
            TweakKind::Choice(t) => t.read(reg),
            TweakKind::DarkMode(t) => t.read(reg),
            TweakKind::Accent(t) => t.read(reg),
            TweakKind::ClassicMenu(t) => t.read(reg),
            TweakKind::Wallpaper(t) => t.read(reg),
        }
    }

    /// What has to change for the tweak to become `want`. Nothing is written.
    ///
    /// An accent colour takes its shades from `shade`, and a wallpaper path is
    /// checked against the file system; whatever those answer, the result is
    /// the [`outcome`](Self::outcome) for that answer.
    pub fn plan<R: RegistryProvider, F: Fn(Color) -> AccentShades, G: Fn(&str) -> bool>(
        &self,
        reg: &R,
        want: &Value,
        shade: &F,
        is_file: &G,
    ) -> (r: Result<ChangeSet, Error>)
        requires
            reg.wf(),
            forall|c: Color| shade.requires((c,)),
            forall|s: &str| is_file.requires((s,)),
        ensures
            exists|shades: AccentShades, exists: bool|
                self.shades_fit(*shade, want@, shades) && self.file_fit(*is_file, want@, exists) && #[trigger] self.outcome(
                    r,
                    reg.model(),
                    reg.reliable(),
                    want@,
                    shades,
                    exists,
                ),
    {
        let ghost any: AccentShades = vstd::pervasive::arbitrary();
        match self {
            TweakKind::Bool(t) => {
                let r = t.plan(reg, want);
                assert(self.outcome(r, reg.model(), reg.reliable(), want@, any, false));
                r
            },
            TweakKind::Choice(t) => {
                let r = t.plan(reg, want);
                assert(self.outcome(r, reg.model(), reg.reliable(), want@, any, false));
                r
            },
            TweakKind::DarkMode(t) => {
                let r = t.plan(reg, want);
                assert(self.outcome(r, reg.model(), reg.reliable(), want@, any, false));
                r
            },
            TweakKind::Accent(t) => {
                let r = t.plan(reg, want, shade);
                proof {
                    match want@ {
                        ValueV::Color(base) => {
                            let sh = choose|sh: AccentShades|
                                shade.ensures((base,), sh) && #[trigger] AccentColorTweak::outcome(
                                    r,
                                    reg.model(),
                                    reg.reliable(),
                                    base,
                                    sh,
                                );
                            assert(self.shades_fit(*shade, want@, sh));
                            assert(self.outcome(r, reg.model(), reg.reliable(), want@, sh, false));
                        },
                        _ => {
                            assert(self.outcome(r, reg.model(), reg.reliable(), want@, any, false));
                        },
                    }
                }
                r
            },
            TweakKind::ClassicMenu(t) => {
                let r = t.plan(reg, want);
                assert(self.outcome(r, reg.model(), reg.reliable(), want@, any, false));
                r
            },
            TweakKind::Wallpaper(t) => {
                let r = t.plan(reg, want, is_file);
                proof {
                    match want@ {
                        ValueV::Str(p) => {
                            let b = choose|b: bool|
                                crate::tweaks::desktop::file_answer(*is_file, p, b) && #[trigger] WallpaperTweak::outcome(
                                    r,
                                    reg.model(),
                                    reg.reliable(),
                                    p,
                                    b,
                                );
                            assert(self.outcome(r, reg.model(), reg.reliable(), want@, any, b));
                        },
                        _ => {
                            assert(self.outcome(r, reg.model(), reg.reliable(), want@, any, false));
                        },
                    }
                }
                r
            },
        }
    }
}

/// `t` is filed under `c`: that is its category, its id is `c`'s name and a
/// dot before its own, and it is never Tier C, which does not ship here.
pub open spec fn filed_under(t: TweakKind, c: Category) -> bool {
    &&& t.category_of() == c
    &&& t.tier_of() != Tier::C
    &&& starts_with(t.id_of(), category_id(c).push('.'))
}

/// No two of the tweaks share an id.
pub open spec fn ids_distinct(ts: Seq<TweakKind>) -> bool {
    forall|i: int, j: int| 0 <= i < j < ts.len() ==> (#[trigger] ts[i]).id_of() != (#[trigger] ts[j]).id_of()
}

/// The tweaks of one category, each once.
pub open spec fn filed(ts: Seq<TweakKind>, c: Category) -> bool {
    &&& forall|i: int| 0 <= i < ts.len() ==> #[trigger] filed_under(ts[i], c)
    &&& ids_distinct(ts)
}

/// Every built-in setting, in the order the UI lists them.
pub struct TweakRegistry {
    tweaks: Vec<TweakKind>,
}

impl View for TweakRegistry {
    type V = Seq<TweakKind>;

    closed spec fn view(&self) -> Seq<TweakKind> {
        self.tweaks@
    }
}

/// The first tweak of `ts` whose id is `id`.
pub open spec fn find_tweak(ts: Seq<TweakKind>, id: Seq<char>) -> Option<int>
    decreases ts.len(),
{
    if ts.len() == 0 {
        None
    } else if ts.last().id_of() == id && find_tweak(ts.drop_last(), id) is None {
        Some(ts.len() - 1)
    } else {
        find_tweak(ts.drop_last(), id)
    }
}

/// What the built-in table promises: every setting is filed under its own
/// category (so its id starts with that category's name and a dot), none is
/// Tier C, and no two share an id.
pub open spec fn shipped(ts: Seq<TweakKind>) -> bool {
    &&& forall|i: int| 0 <= i < ts.len() ==> #[trigger] filed_under(ts[i], ts[i].category_of())
    &&& ids_distinct(ts)
}

proof fn lemma_category_initials(a: Category, b: Category)
    requires
        a != b,
    ensures
        category_id(a).len() > 0 && category_id(b).len() > 0 && category_id(a)[0] != category_id(b)[0],
{
    reveal_strlit("appearance");
    reveal_strlit("taskbar");
    reveal_strlit("start");
    reveal_strlit("explorer");
    reveal_strlit("desktop");
}

proof fn lemma_initial(t: TweakKind, c: Category)
    requires
        filed_under(t, c),
        category_id(c).len() > 0,
    ensures
        t.id_of().len() > 0 && t.id_of()[0] == category_id(c)[0],
{
    let p = category_id(c).push('.');
    assert(t.id_of().take(p.len() as int)[0] == p[0]);
}

/// Two tables with no category in common make one.
proof fn lemma_join(a: Seq<TweakKind>, b: Seq<TweakKind>)
    requires
        shipped(a),
        shipped(b),
        forall|i: int, j: int| 0 <= i < a.len() && 0 <= j < b.len() ==> (#[trigger] a[i]).category_of()
            != (#[trigger] b[j]).category_of(),
    ensures
        shipped(a + b),
{
    let ab = a + b;
    assert forall|i: int| 0 <= i < ab.len() implies #[trigger] filed_under(ab[i], ab[i].category_of()) by {
        if i < a.len() {
            assert(ab[i] == a[i]);
            assert(filed_under(a[i], a[i].category_of()));
        } else {
            assert(ab[i] == b[i - a.len()]);
            assert(filed_under(b[i - a.len()], b[i - a.len()].category_of()));
        }
    }
    assert forall|i: int, j: int| 0 <= i < j < ab.len() implies (#[trigger] ab[i]).id_of() != (#[trigger] ab[j]).id_of() by {
        if j < a.len() {
            assert(ab[i] == a[i] && ab[j] == a[j]);
        } else if i >= a.len() {
            assert(ab[i] == b[i - a.len()] && ab[j] == b[j - a.len()]);
        } else {
            let x = a[i];
            let y = b[j - a.len()];
            assert(ab[i] == x && ab[j] == y);
            assert(x.category_of() != y.category_of());
            lemma_category_initials(x.category_of(), y.category_of());
            assert(filed_under(x, x.category_of()));
            assert(filed_under(y, y.category_of()));
            lemma_initial(x, x.category_of());
            lemma_initial(y, y.category_of());
        }
    }
}

proof fn lemma_one_category(ts: Seq<TweakKind>, c: Category)
    requires
        filed(ts, c),
    ensures
        shipped(ts),
        forall|i: int| 0 <= i < ts.len() ==> (#[trigger] ts[i]).category_of() == c,
{
    assert forall|i: int| 0 <= i < ts.len() implies #[trigger] filed_under(ts[i], ts[i].category_of()) by {
        assert(filed_under(ts[i], c));
    }
    assert forall|i: int| 0 <= i < ts.len() implies (#[trigger] ts[i]).category_of() == c by {
        assert(filed_under(ts[i], c));
    }
}

/// The key and English text of a support note.
pub open spec fn note_view(n: Option<SupportNote>) -> Option<(Seq<char>, Seq<char>)> {
    match n {
        Some(n) => Some((n.key@, n.en@)),
        None => None,
    }
}

/// The choices of a setting as names and the numbers they are stored as.
pub open spec fn choices_view(map: Seq<(&'static str, u32)>) -> Seq<(Seq<char>, u32)> {
    map.map_values(|p: (&'static str, u32)| (p.0@, p.1))
}

/// `t` is the on/off setting `id`, filed under `category` and stored at `loc`
/// as `on` or `off`, read as on when the value is absent exactly when
/// `default_on`; of `tier`, offered on `builds`, made visible by `refresh`,
/// with the support note `note`, and changed by the user alone.
pub open spec fn is_switch(
    t: TweakKind,
    id: Seq<char>,
    category: Category,
    loc: LocV,
    on: u32,
    off: u32,
    default_on: bool,
    tier: Tier,
    builds: BuildRange,
    refresh: Refresh,
    note: Option<(Seq<char>, Seq<char>)>,
) -> bool {
    &&& t is Bool
    &&& t->Bool_0.id@ == id
    &&& t->Bool_0.category == category
    &&& t->Bool_0.spec.loc_view() == loc
    &&& t->Bool_0.on == on
    &&& t->Bool_0.off == off
    &&& t->Bool_0.default_on == default_on
    &&& t->Bool_0.tier == tier
    &&& t->Bool_0.builds == builds
    &&& t->Bool_0.refresh == refresh
    &&& t->Bool_0.privilege == Privilege::User
    &&& note_view(t->Bool_0.note) == note
}

/// `t` is the setting `id` with a choice of `choices` (names, and the numbers
/// they are stored as, in the order shown), filed under `category`, stored at
/// `loc` (as text when `text`), read as `default` when the value is absent;
/// of `tier`, offered on `builds`, made visible by `refresh`, with the
/// support note `note`, and changed by the user alone.
pub open spec fn is_choice(
    t: TweakKind,
    id: Seq<char>,
    category: Category,
    loc: LocV,
    choices: Seq<(Seq<char>, u32)>,
    default: Seq<char>,
    text: bool,
    tier: Tier,
    builds: BuildRange,
    refresh: Refresh,
    note: Option<(Seq<char>, Seq<char>)>,
) -> bool {
    &&& t is Choice
    &&& t->Choice_0.id@ == id
    &&& t->Choice_0.category == category
    &&& t->Choice_0.spec.loc_view() == loc
    &&& choices_view(t->Choice_0.map@) == choices
    &&& t->Choice_0.default@ == default
    &&& t->Choice_0.stored_as_text == text
    &&& t->Choice_0.tier == tier
    &&& t->Choice_0.builds == builds
    &&& t->Choice_0.refresh == refresh
    &&& t->Choice_0.privilege == Privilege::User
    &&& note_view(t->Choice_0.note) == note
}

/// The appearance settings, in the order they are listed.
pub open spec fn appearance_table(ts: Seq<TweakKind>) -> bool {
        &&& ts.len() == 5
        &&& ts[0] is DarkMode
        &&& ts[1] is Accent
        &&& is_switch(ts[2], "appearance.transparency"@, Category::Appearance, hkcu_loc(PERSONALIZE, "EnableTransparency"), 1, 0, true, Tier::A, BuildRange { min: MIN_SUPPORTED_BUILD, max: None }, Refresh::Broadcast("ImmersiveColorSet"), None)
        &&& is_switch(ts[3], "appearance.accent_on_titlebars"@, Category::Appearance, hkcu_loc(DWM, "ColorPrevalence"), 1, 0, false, Tier::A, BuildRange { min: MIN_SUPPORTED_BUILD, max: None }, Refresh::Broadcast("ImmersiveColorSet"), None)
        &&& is_switch(ts[4], "appearance.accent_on_start_taskbar"@, Category::Appearance, hkcu_loc(PERSONALIZE, "ColorPrevalence"), 1, 0, false, Tier::A, BuildRange { min: MIN_SUPPORTED_BUILD, max: None }, Refresh::Broadcast("ImmersiveColorSet"), Some(("dark_mode_only"@, "Windows only shows this while dark mode is on."@)))
}

/// The desktop settings, in the order they are listed.
pub open spec fn desktop_table(ts: Seq<TweakKind>) -> bool {
        &&& ts.len() == 2
        &&& ts[0] is Wallpaper
        &&& is_choice(ts[1], "desktop.wallpaper_fit"@, Category::Desktop, hkcu_loc(DESKTOP, "WallpaperStyle"), seq![("fill"@, 10u32), ("fit"@, 6u32), ("stretch"@, 2u32), ("center"@, 0u32), ("span"@, 22u32)], "fill"@, true, Tier::A, BuildRange { min: MIN_SUPPORTED_BUILD, max: None }, Refresh::Wallpaper, None)
}

/// The taskbar settings, in the order they are listed.
pub open spec fn taskbar_table(ts: Seq<TweakKind>) -> bool {
        &&& ts.len() == 7
        &&& is_choice(ts[0], "taskbar.alignment"@, Category::Taskbar, hkcu_loc(ADVANCED, "TaskbarAl"), seq![("left"@, 0u32), ("center"@, 1u32)], "center"@, false, Tier::A, BuildRange { min: MIN_SUPPORTED_BUILD, max: None }, Refresh::Broadcast("TraySettings"), None)
        &&& is_switch(ts[1], "taskbar.widgets"@, Category::Taskbar, hkcu_loc(ADVANCED, "TaskbarDa"), 1, 0, true, Tier::B, BuildRange { min: MIN_SUPPORTED_BUILD, max: None }, Refresh::Broadcast("TraySettings"), None)
        &&& is_switch(ts[2], "taskbar.task_view"@, Category::Taskbar, hkcu_loc(ADVANCED, "ShowTaskViewButton"), 1, 0, true, Tier::A, BuildRange { min: MIN_SUPPORTED_BUILD, max: None }, Refresh::Broadcast("TraySettings"), None)
        &&& is_choice(ts[3], "taskbar.search"@, Category::Taskbar, hkcu_loc(SEARCH, "SearchboxTaskbarMode"), seq![("hidden"@, 0u32), ("icon"@, 1u32), ("box"@, 2u32), ("icon_and_label"@, 3u32)], "box"@, false, Tier::A, BuildRange { min: MIN_SUPPORTED_BUILD, max: None }, Refresh::Broadcast("TraySettings"), None)
        &&& is_choice(ts[4], "taskbar.icon_size"@, Category::Taskbar, hkcu_loc(ADVANCED, "TaskbarSi"), seq![("small"@, 0u32), ("medium"@, 1u32), ("large"@, 2u32)], "medium"@, false, Tier::B, BuildRange { min: WIN11_21H2, max: Some(WIN11_22H2) }, Refresh::Broadcast("TraySettings"), None)
        &&& is_switch(ts[5], "taskbar.seconds_in_clock"@, Category::Taskbar, hkcu_loc(ADVANCED, "ShowSecondsInSystemClock"), 1, 0, false, Tier::A, BuildRange { min: WIN11_22H2, max: None }, Refresh::Broadcast("TraySettings"), None)
        &&& is_switch(ts[6], "taskbar.end_task"@, Category::Taskbar, hkcu_loc(ADVANCED, "TaskbarEndTask"), 1, 0, false, Tier::A, BuildRange { min: WIN11_24H2, max: None }, Refresh::Broadcast("TraySettings"), Some(("mirrors_end_task"@, "Mirrors the End Task switch in Settings for developers."@)))
}

/// The Start menu settings, in the order they are listed.
pub open spec fn start_table(ts: Seq<TweakKind>) -> bool {
        &&& ts.len() == 3
        &&& is_choice(ts[0], "start.layout"@, Category::Start, hkcu_loc(ADVANCED, "Start_Layout"), seq![("default"@, 0u32), ("more_pins"@, 1u32), ("more_recommendations"@, 2u32)], "default"@, false, Tier::B, BuildRange { min: WIN11_22H2, max: None }, Refresh::Broadcast("TraySettings"), None)
        &&& is_switch(ts[1], "start.recently_added_apps"@, Category::Start, hkcu_loc(ADVANCED, "Start_TrackProgs"), 1, 0, true, Tier::A, BuildRange { min: MIN_SUPPORTED_BUILD, max: None }, Refresh::Broadcast("TraySettings"), None)
        &&& is_switch(ts[2], "start.recommended_files"@, Category::Start, hkcu_loc(ADVANCED, "Start_TrackDocs"), 1, 0, true, Tier::A, BuildRange { min: MIN_SUPPORTED_BUILD, max: None }, Refresh::Broadcast("TraySettings"), None)
}

/// The File Explorer settings, in the order they are listed.
pub open spec fn explorer_table(ts: Seq<TweakKind>) -> bool {
        &&& ts.len() == 6
        &&& is_switch(ts[0], "explorer.show_file_extensions"@, Category::Explorer, hkcu_loc(ADVANCED, "HideFileExt"), 0, 1, false, Tier::A, BuildRange { min: MIN_SUPPORTED_BUILD, max: None }, Refresh::AssocChanged, None)
        &&& is_switch(ts[1], "explorer.show_hidden_files"@, Category::Explorer, hkcu_loc(ADVANCED, "Hidden"), 1, 2, false, Tier::A, BuildRange { min: MIN_SUPPORTED_BUILD, max: None }, Refresh::AssocChanged, None)
        &&& is_switch(ts[2], "explorer.show_protected_os_files"@, Category::Explorer, hkcu_loc(ADVANCED, "ShowSuperHidden"), 1, 0, false, Tier::A, BuildRange { min: MIN_SUPPORTED_BUILD, max: None }, Refresh::AssocChanged, Some(("shows_system_files"@, "Shows system files. Useful for troubleshooting, easy to break things with."@)))
        &&& is_choice(ts[3], "explorer.launch_to"@, Category::Explorer, hkcu_loc(ADVANCED, "LaunchTo"), seq![("home"@, 2u32), ("this_pc"@, 1u32), ("downloads"@, 3u32)], "home"@, false, Tier::A, BuildRange { min: MIN_SUPPORTED_BUILD, max: None }, Refresh::AssocChanged, None)
        &&& is_switch(ts[4], "explorer.compact_view"@, Category::Explorer, hkcu_loc(ADVANCED, "UseCompactMode"), 1, 0, false, Tier::A, BuildRange { min: MIN_SUPPORTED_BUILD, max: None }, Refresh::AssocChanged, None)
        &&& ts[5] is ClassicMenu
}

/// The settings this build ships, each described in full, in the order they
/// are listed.
pub open spec fn shipped_table(ts: Seq<TweakKind>) -> bool {
    &&& ts.len() == 23
    &&& appearance_table(ts.subrange(0, 5))
    &&& desktop_table(ts.subrange(5, 7))
    &&& taskbar_table(ts.subrange(7, 14))
    &&& start_table(ts.subrange(14, 17))
    &&& explorer_table(ts.subrange(17, 23))
}

/// The ids of `ts`, in order.
pub open spec fn ids_of(ts: Seq<TweakKind>) -> Seq<Seq<char>> {
    ts.map_values(|t: TweakKind| t.id_of())
}

proof fn lemma_ids_concat(a: Seq<TweakKind>, b: Seq<TweakKind>)
    ensures
        ids_of(a + b) == ids_of(a) + ids_of(b),
{
    assert(ids_of(a + b) =~= ids_of(a) + ids_of(b));
}

/// The ids of the shipped settings, in the order they are listed.
pub open spec fn shipped_ids() -> Seq<Seq<char>> {
    seq![
        "appearance.dark_mode"@,
        "appearance.accent_color"@,
        "appearance.transparency"@,
        "appearance.accent_on_titlebars"@,
        "appearance.accent_on_start_taskbar"@,
        "desktop.wallpaper"@,
        "desktop.wallpaper_fit"@,
        "taskbar.alignment"@,
        "taskbar.widgets"@,
        "taskbar.task_view"@,
        "taskbar.search"@,
        "taskbar.icon_size"@,
        "taskbar.seconds_in_clock"@,
        "taskbar.end_task"@,
        "start.layout"@,
        "start.recently_added_apps"@,
        "start.recommended_files"@,
        "explorer.show_file_extensions"@,
        "explorer.show_hidden_files"@,
        "explorer.show_protected_os_files"@,
        "explorer.launch_to"@,
        "explorer.compact_view"@,
        "explorer.classic_context_menu"@,
    ]
}

impl TweakRegistry {
    pub fn builtin() -> (r: Self)
        ensures
            shipped(r@),
            frame::apart(r@),
            ids_of(r@) == shipped_ids(),
            frame::places(r@) == frame::shipped_places(),
            shipped_table(r@),
            forall|i: int| 0 <= i < r@.len() ==> (#[trigger] r@[i]).tier_of() != Tier::C,
    {
        let mut a = appearance::all();
        let mut d = desktop::all();
        let mut t = taskbar::all();
        let mut s = start::all();
        let mut e = explorer::all();
        proof {
            lemma_one_category(a@, Category::Appearance);
            lemma_one_category(d@, Category::Desktop);
            lemma_one_category(t@, Category::Taskbar);
            lemma_one_category(s@, Category::Start);
            lemma_one_category(e@, Category::Explorer);
            lemma_join(a@, d@);
            let ad = a@ + d@;
            assert forall|i: int| 0 <= i < ad.len() implies (#[trigger] ad[i]).category_of()
                == Category::Appearance || ad[i].category_of() == Category::Desktop by {
                if i < a@.len() {
                    assert(ad[i] == a@[i]);
                } else {
                    assert(ad[i] == d@[i - a@.len()]);
                }
            }
            lemma_join(ad, t@);
            let adt = ad + t@;
            assert forall|i: int| 0 <= i < adt.len() implies (#[trigger] adt[i]).category_of()
                != Category::Start && adt[i].category_of() != Category::Explorer by {
                if i < ad.len() {
                    assert(adt[i] == ad[i]);
                } else {
                    assert(adt[i] == t@[i - ad.len()]);
                }
            }
            lemma_join(adt, s@);
            let adts = adt + s@;
            assert forall|i: int| 0 <= i < adts.len() implies (#[trigger] adts[i]).category_of()
                != Category::Explorer by {
                if i < adt.len() {
                    assert(adts[i] == adt[i]);
                } else {
                    assert(adts[i] == s@[i - adt.len()]);
                }
            }
            lemma_join(adts, e@);
            frame::lemma_places_concat(a@, d@);
            frame::lemma_places_concat(ad, t@);
            frame::lemma_places_concat(adt, s@);
            frame::lemma_places_concat(adts, e@);
            assert(frame::places(adts + e@) =~= frame::shipped_places());
            frame::lemma_shipped_places_distinct();
            frame::lemma_clear_concat(a@, d@);
            frame::lemma_clear_concat(ad, t@);
            frame::lemma_clear_concat(adt, s@);
            frame::lemma_clear_concat(adts, e@);
            frame::lemma_apart(adts + e@);
            lemma_ids_concat(a@, d@);
            lemma_ids_concat(ad, t@);
            lemma_ids_concat(adt, s@);
            lemma_ids_concat(adts, e@);
            assert(ids_of(adts + e@) =~= shipped_ids());
            let w = adts + e@;
            assert(w.subrange(0, 5) =~= a@);
            assert(w.subrange(5, 7) =~= d@);
            assert(w.subrange(7, 14) =~= t@);
            assert(w.subrange(14, 17) =~= s@);
            assert(w.subrange(17, 23) =~= e@);
            assert forall|i: int| 0 <= i < w.len() implies (#[trigger] w[i]).tier_of() != Tier::C by {
                if i < 5 {
                    assert(w[i] == w.subrange(0, 5)[i]);
                } else if i < 7 {
                    assert(w[i] == w.subrange(5, 7)[i - 5]);
                } else if i < 14 {
                    assert(w[i] == w.subrange(7, 14)[i - 7]);
                } else if i < 17 {
                    assert(w[i] == w.subrange(14, 17)[i - 14]);
                } else {
                    assert(w[i] == w.subrange(17, 23)[i - 17]);
                }
            }
        }
        let ghost whole = a@ + d@ + t@ + s@ + e@;
        let mut tweaks: Vec<TweakKind> = Vec::new();
        tweaks.append(&mut a);
        tweaks.append(&mut d);
        tweaks.append(&mut t);
        tweaks.append(&mut s);
        tweaks.append(&mut e);
        proof {
            assert(tweaks@ =~= whole);
        }
        TweakRegistry { tweaks }
    }

    /// The tweak called `id`, if there is one.
    pub fn get(&self, id: &str) -> (r: Option<&TweakKind>)
        ensures
            match find_tweak(self@, id@) {
                Some(i) => r == Some(&self@[i]),
                None => r is None,
            },
    {
        let mut i: usize = 0;
        while i < self.tweaks.len()
            invariant
                i <= self.tweaks.len(),
                find_tweak(self.tweaks@.take(i as int), id@) is None,
            decreases self.tweaks.len() - i,
        {
            proof {
                let t = self.tweaks@.take(i + 1);
                assert(t.drop_last() =~= self.tweaks@.take(i as int));
            }
            if str_eq(self.tweaks[i].id(), id) {
                proof {
                    lemma_find_in_prefix(self.tweaks@, i + 1, id@);
                }
                return Some(&self.tweaks[i]);
            }
            i += 1;
        }
        proof {
            assert(self.tweaks@.take(i as int) =~= self.tweaks@);
        }
        None
    }

    /// Every tweak, in order.
    pub fn iter(&self) -> (r: &[TweakKind])
        ensures
            r@ == self@,
    {
        self.tweaks.as_slice()
    }

    pub fn len(&self) -> (r: usize)
        ensures
            r == self@.len(),
    {
        self.tweaks.len()
    }

    pub fn is_empty(&self) -> (r: bool)
        ensures
            r == (self@.len() == 0),
    {
        self.tweaks.len() == 0
    }

    pub fn ids(&self) -> (r: Vec<&'static str>)
        ensures
            r@.len() == self@.len(),
            forall|i: int| 0 <= i < r@.len() ==> #[trigger] r@[i]@ == self@[i].id_of(),
    {
        let mut r: Vec<&'static str> = Vec::new();
        let mut i: usize = 0;
        while i < self.tweaks.len()
            invariant
                i <= self.tweaks.len(),
                r@.len() == i,
                forall|j: int| 0 <= j < i ==> #[trigger] r@[j]@ == self.tweaks@[j].id_of(),
            decreases self.tweaks.len() - i,
        {
            r.push(self.tweaks[i].id());
            i += 1;
        }
        r
    }
}

/// Once a prefix ending in a match is found, the search is settled there.
proof fn lemma_find_in_prefix(ts: Seq<TweakKind>, n: int, id: Seq<char>)
    requires
        0 < n <= ts.len(),
        ts[n - 1].id_of() == id,
        find_tweak(ts.take(n - 1), id) is None,
    ensures
        find_tweak(ts, id) == Some(n - 1),
    decreases ts.len(),
{
    if ts.len() == n {
        assert(ts.drop_last() =~= ts.take(n - 1));
    } else {
        assert(ts.drop_last().take(n - 1) =~= ts.take(n - 1));
        lemma_find_in_prefix(ts.drop_last(), n, id);
    }
}

} // verus!
