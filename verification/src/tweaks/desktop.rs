//! The desktop itself: wallpaper and how it is fitted.
//!
//! Windows splits this across values that have to agree, and none of them do
//! anything until the desktop is told to repaint — hence
//! [`Refresh::Wallpaper`]. Writing the registry and repainting are kept
//! separate so the write is still journalled and revertible like everything else.

use vstd::prelude::*;
use crate::error::Error;
use crate::os::{BuildRange, MIN_SUPPORTED_BUILD};
use crate::provider::{Hive, LocV, RegModel, RegSpec, RegValue, RegValueV, RegistryProvider};
use crate::text::{chars_of, fold_case, fold_case_str, str_eq, string_from};
use crate::journal::strings_view;
use crate::tweak::{Category, Change, ChangeSet, ChangeV, Refresh, Tier, Tweak, changes_view};
use crate::tweaks::appearance::{DESKTOP, hkcu_loc};
use crate::tweaks::helpers::{ChoiceTweak, plans_as, push_set, set_value};
use crate::tweaks::TweakKind;
use crate::value::{Value, ValueKind, ValueV, is_bad_value, quoted};

verus! {

pub fn all() -> (r: Vec<TweakKind>)
    ensures
        crate::tweaks::filed(r@, Category::Desktop),
        crate::tweaks::frame::places(r@) == crate::tweaks::frame::shipped_places().subrange(12, 15),
        crate::tweaks::frame::clear_of_menu(r@),
        crate::tweaks::ids_of(r@) == seq!["desktop.wallpaper"@, "desktop.wallpaper_fit"@],
        crate::tweaks::desktop_table(r@),
{
    let mut v: Vec<TweakKind> = Vec::new();
    v.push(TweakKind::Wallpaper(WallpaperTweak));
    // Windows' own numbering. `fill` and `fit` arrived with 7; `span` needs more
    // than one monitor to mean anything. Windows keeps this as text.
    v.push(
        TweakKind::Choice(
            ChoiceTweak::new(
                "desktop.wallpaper_fit",
                Category::Desktop,
                RegSpec::hkcu(DESKTOP, "WallpaperStyle"),
                vec![("fill", 10), ("fit", 6), ("stretch", 2), ("center", 0), ("span", 22)],
                "fill",
                Refresh::Wallpaper,
            ).stored_as_text(),
        ),
    );
    proof {
        reveal_strlit("desktop");
        reveal_strlit("desktop.wallpaper");
        reveal_strlit("desktop.wallpaper_fit");
        let p = crate::tweak::category_id(Category::Desktop).push('.');
        assert(v@[0].id_of().take(p.len() as int) =~= p);
        assert(v@[1].id_of().take(p.len() as int) =~= p);
        assert(crate::tweaks::filed_under(v@[0], Category::Desktop));
        assert(crate::tweaks::filed_under(v@[1], Category::Desktop));
        reveal_with_fuel(crate::tweaks::frame::places, 8);
        assert(crate::tweaks::frame::places(v@) =~= crate::tweaks::frame::shipped_places().subrange(12, 15));
        assert forall|i: int, a: int|
            0 <= i < v@.len() && !(v@[i] is ClassicMenu) && 0 <= a < v@[i].footprint().len()
                implies !crate::tweaks::frame::under_menu(#[trigger] v@[i].footprint()[a]) by {
            crate::tweaks::frame::lemma_path_off_menu(v@[i].footprint()[a]);
        }
        assert(crate::tweaks::choices_view(v@[1]->Choice_0.map@) =~= seq![("fill"@, 10u32), ("fit"@, 6u32), ("stretch"@, 2u32), ("center"@, 0u32), ("span"@, 22u32)]);
        assert(crate::tweaks::desktop_table(v@));
        assert(crate::tweaks::ids_of(v@) =~= seq!["desktop.wallpaper"@, "desktop.wallpaper_fit"@]);
    }
    v
}

pub open spec fn is_separator(c: char) -> bool {
    c == '\\' || c == '/'
}

pub open spec fn is_ascii_letter(c: char) -> bool {
    ('a' <= c <= 'z') || ('A' <= c <= 'Z')
}

/// A path that resolves the same way wherever it is read from: a drive and a
/// root (`C:\...`), a network or device path (`\\...`), or, as Unix-like
/// systems have it, a path rooted at `/`.
pub open spec fn path_is_absolute(p: Seq<char>) -> bool {
    ||| p.len() >= 3 && is_ascii_letter(p[0]) && p[1] == ':' && is_separator(p[2])
    ||| p.len() >= 2 && p[0] == '\\' && p[1] == '\\'
    ||| p.len() >= 1 && p[0] == '/'
}

/// Whether `c` is what is looked for: a dot when `dot`, else a separator.
pub open spec fn is_mark(c: char, dot: bool) -> bool {
    if dot {
        c == '.'
    } else {
        is_separator(c)
    }
}

/// Where the last mark in `s` is, or -1.
pub open spec fn last_mark(s: Seq<char>, dot: bool) -> int
    decreases s.len(),
{
    if s.len() == 0 {
        -1
    } else if is_mark(s.last(), dot) {
        s.len() - 1
    } else {
        last_mark(s.drop_last(), dot)
    }
}

/// The last component of a path.
pub open spec fn file_name(p: Seq<char>) -> Seq<char> {
    p.skip(last_mark(p, false) + 1)
}

/// What follows the last dot of the file name, if the dot does not start it.
pub open spec fn extension(p: Seq<char>) -> Option<Seq<char>> {
    let name = file_name(p);
    let dot = last_mark(name, true);
    if dot <= 0 {
        None
    } else {
        Some(name.skip(dot + 1))
    }
}

/// Marks past `i` do not move the last one before it.
proof fn lemma_last_mark_prefix(s: Seq<char>, i: int, dot: bool)
    requires
        0 <= i <= s.len(),
        forall|k: int| i <= k < s.len() ==> !is_mark(#[trigger] s[k], dot),
    ensures
        last_mark(s, dot) == last_mark(s.take(i), dot),
    decreases s.len(),
{
    if i == s.len() {
        assert(s.take(i) =~= s);
    } else {
        assert(!is_mark(s[s.len() - 1], dot));
        assert(s.drop_last().take(i) =~= s.take(i));
        lemma_last_mark_prefix(s.drop_last(), i, dot);
    }
}

/// The last mark of `s`, when the marks after `i` are none and the one just
/// before `i` is one (or `i` is 0).
pub proof fn lemma_last_mark_at(s: Seq<char>, i: int, dot: bool)
    requires
        0 <= i <= s.len(),
        forall|k: int| i <= k < s.len() ==> !is_mark(#[trigger] s[k], dot),
        i > 0 ==> is_mark(s[i - 1], dot),
    ensures
        last_mark(s, dot) == i - 1,
{
    lemma_last_mark_prefix(s, i, dot);
    if i > 0 {
        assert(s.take(i).last() == s[i - 1]);
    } else {
        assert(s.take(i).len() == 0);
    }
}

pub open spec fn allowed_extension(e: Seq<char>) -> bool {
    e == "jpg"@ || e == "jpeg"@ || e == "png"@ || e == "bmp"@ || e == "dib"@
}

/// Why a wallpaper path is refused — what was expected instead — or `None`
/// when it is acceptable. `exists` is whether a file is there.
pub open spec fn refusal(path: Seq<char>, exists: bool) -> Option<Seq<char>> {
    if path.len() == 0 {
        None
    } else if !path_is_absolute(path) {
        Some("an absolute path"@)
    } else if !exists {
        Some("a file that exists"@)
    } else if !(extension(path) matches Some(e) && allowed_extension(fold_case(e))) {
        Some("one of: jpg, jpeg, png, bmp, dib"@)
    } else {
        None
    }
}

/// `b` is what `is_file` answers when asked whether a file is at the path
/// `p`. An empty path is never asked about, and counts as no file.
pub open spec fn file_answer<G: Fn(&str) -> bool>(is_file: G, p: Seq<char>, b: bool) -> bool {
    if p.len() == 0 {
        !b
    } else {
        exists|s: &str| s@ == p && #[trigger] is_file.ensures((s,), b)
    }
}

/// The extensions the wallpaper setting advertises in its value kind.
pub open spec fn advertised_extensions() -> Seq<Seq<char>> {
    seq!["jpg"@, "jpeg"@, "png"@, "bmp"@, "dib"@]
}

/// An existing file at an absolute path is taken exactly when its extension,
/// in any ASCII case, is one of those the setting advertises; any other
/// existing file is refused by its extension.
pub proof fn law_wallpaper_extensions(p: Seq<char>)
    requires
        path_is_absolute(p),
    ensures
        (extension(p) matches Some(e) && advertised_extensions().contains(fold_case(e))) ==> refusal(p, true)
            is None,
        !(extension(p) matches Some(e) && advertised_extensions().contains(fold_case(e))) ==> refusal(p, true)
            == Some("one of: jpg, jpeg, png, bmp, dib"@),
{
    if extension(p) is Some {
        let e = extension(p)->Some_0;
        let f = fold_case(e);
        let adv = advertised_extensions();
        assert(adv[0] == "jpg"@ && adv[1] == "jpeg"@ && adv[2] == "png"@ && adv[3] == "bmp"@ && adv[4] == "dib"@);
        if allowed_extension(f) {
            if f == "jpg"@ {
                assert(adv[0] == f);
            } else if f == "jpeg"@ {
                assert(adv[1] == f);
            } else if f == "png"@ {
                assert(adv[2] == f);
            } else if f == "bmp"@ {
                assert(adv[3] == f);
            } else {
                assert(adv[4] == f);
            }
        }
        if adv.contains(f) {
            let k = choose|k: int| 0 <= k < adv.len() && adv[k] == f;
            assert(allowed_extension(f));
        }
    }
    assert(p.len() > 0);
}

pub fn is_absolute(p: &Vec<char>) -> (r: bool)
    ensures
        r == path_is_absolute(p@),
{
    (p.len() >= 3 && (('a' <= p[0] && p[0] <= 'z') || ('A' <= p[0] && p[0] <= 'Z')) && p[1] == ':'
        && (p[2] == '\\' || p[2] == '/')) || (p.len() >= 2 && p[0] == '\\' && p[1] == '\\') || (
    p.len() >= 1 && p[0] == '/')
}

/// The extension of the path `p`, as characters.
fn extension_of(p: &Vec<char>) -> (r: Option<Vec<char>>)
    ensures
        match r {
            Some(e) => extension(p@) == Some(e@),
            None => extension(p@) is None,
        },
{
    // Find the start of the file name.
    let mut i: usize = p.len();
    while i > 0 && !(p[i - 1] == '\\' || p[i - 1] == '/')
        invariant
            i <= p.len(),
            forall|k: int| i <= k < p.len() ==> !is_mark(#[trigger] p@[k], false),
        decreases i,
    {
        i -= 1;
    }
    proof {
        lemma_last_mark_at(p@, i as int, false);
    }
    let start = i;
    let ghost name = file_name(p@);
    assert(name =~= p@.skip(start as int));
    // Find the last dot in it.
    let mut j: usize = p.len();
    while j > start && p[j - 1] != '.'
        invariant
            start <= j <= p.len(),
            forall|k: int| j <= k < p.len() ==> !is_mark(#[trigger] p@[k], true),
        decreases j,
    {
        j -= 1;
    }
    proof {
        assert forall|k: int| j - start <= k < name.len() implies !is_mark(#[trigger] name[k], true) by {
            assert(name[k] == p@[start + k]);
        }
        if j > start {
            assert(name[j - start - 1] == p@[j - 1]);
        }
        lemma_last_mark_at(name, j - start, true);
    }
    if j <= start || j - start <= 1 {
        return None;
    }
    let mut e: Vec<char> = Vec::new();
    let mut k: usize = j;
    while k < p.len()
        invariant
            j <= k <= p.len(),
            e@ == p@.subrange(j as int, k as int),
        decreases p.len() - k,
    {
        e.push(p[k]);
        assert(p@.subrange(j as int, k + 1) =~= p@.subrange(j as int, k as int).push(p@[k as int]));
        k += 1;
    }
    proof {
        assert(name.skip(j - start) =~= p@.subrange(j as int, p.len() as int));
    }
    Some(e)
}

fn allowed(e: &str) -> (r: bool)
    ensures
        r == allowed_extension(e@),
{
    str_eq(e, "jpg") || str_eq(e, "jpeg") || str_eq(e, "png") || str_eq(e, "bmp") || str_eq(e, "dib")
}

/// The wallpaper image.
///
/// The path is checked before it is planned: pointing Windows at a file that
/// is not there paints the desktop black, and finding that out after the fact is
/// exactly the kind of surprise this app exists to avoid.
pub struct WallpaperTweak;

impl WallpaperTweak {
    pub open spec fn path_loc() -> LocV {
        hkcu_loc(DESKTOP, "WallPaper")
    }

    /// Tiling has its own flag and must be switched off or Windows ignores the
    /// style entirely.
    pub open spec fn tile_loc() -> LocV {
        hkcu_loc(DESKTOP, "TileWallpaper")
    }

    pub open spec fn reading(m: RegModel) -> ValueV {
        match m.value_at(Self::path_loc()) {
            Some(RegValueV::Sz(p)) => ValueV::Str(p),
            Some(RegValueV::ExpandSz(p)) => ValueV::Str(p),
            _ => ValueV::Str(Seq::empty()),
        }
    }

    pub open spec fn planned(m: RegModel, path: Seq<char>) -> Seq<ChangeV> {
        set_value(m, Self::path_loc(), RegValueV::Sz(path)) + set_value(
            m,
            Self::tile_loc(),
            RegValueV::Sz("0"@),
        )
    }

    pub fn read<R: RegistryProvider>(&self, reg: &R) -> (r: Result<Value, Error>)
        requires
            reg.wf(),
        ensures
            reg.reliable() ==> r is Ok,
            r matches Ok(v) ==> v@ == Self::reading(reg.model()),
    {
        let path = match reg.read(&RegSpec::hkcu(DESKTOP, "WallPaper").loc())? {
            Some(RegValue::Sz(p)) => p,
            Some(RegValue::ExpandSz(p)) => p,
            _ => String::new(),
        };
        Ok(Value::Str(path))
    }

    /// What planning the path `p` gives, when `exists` tells whether a file is
    /// there: the refusal where there is one, else the two writes.
    pub open spec fn outcome(
        r: Result<ChangeSet, Error>,
        m: RegModel,
        reliable: bool,
        p: Seq<char>,
        exists: bool,
    ) -> bool {
        match refusal(p, exists) {
            Some(expected) => r matches Err(e) && e matches Error::BadValue {
                tweak,
                got,
                expected: x,
            } && tweak@ == "desktop.wallpaper"@ && got@ == seq!['"'] + p + seq!['"'] && x@
                == expected,
            None => {
                &&& reliable ==> r is Ok
                &&& r is Ok ==> plans_as(
                    r,
                    "desktop.wallpaper"@,
                    Self::planned(m, p),
                    Refresh::Wallpaper,
                )
            },
        }
    }

    /// The plan for the path `path`, given whether a file is there.
    pub fn plan_checked<R: RegistryProvider>(&self, reg: &R, path: &str, exists: bool) -> (r: Result<
        ChangeSet,
        Error,
    >)
        requires
            reg.wf(),
        ensures
            Self::outcome(r, reg.model(), reg.reliable(), path@, exists),
    {
        if !path.is_empty() {
            let chars = chars_of(path);
            if !is_absolute(&chars) {
                // Windows resolves this at sign-in, from a directory that has
                // nothing to do with wherever we were run from.
                return Err(Error::BadValue {
                    tweak: string_from("desktop.wallpaper"),
                    got: quoted(path),
                    expected: string_from("an absolute path"),
                });
            }
            if !exists {
                return Err(Error::BadValue {
                    tweak: string_from("desktop.wallpaper"),
                    got: quoted(path),
                    expected: string_from("a file that exists"),
                });
            }
            let ok = match extension_of(&chars) {
                Some(e) => {
                    let lower = fold_case_str(crate::text::string_of(&e).as_str());
                    allowed(lower.as_str())
                },
                None => false,
            };
            if !ok {
                return Err(Error::BadValue {
                    tweak: string_from("desktop.wallpaper"),
                    got: quoted(path),
                    expected: string_from("one of: jpg, jpeg, png, bmp, dib"),
                });
            }
        }
        let mut changes: Vec<Change> = Vec::new();
        push_set(reg, &mut changes, RegSpec::hkcu(DESKTOP, "WallPaper").loc(), RegValue::Sz(string_from(path)))?;
        push_set(reg, &mut changes, RegSpec::hkcu(DESKTOP, "TileWallpaper").loc(), RegValue::Sz(string_from("0")))?;
        proof {
            assert(changes_view(Seq::<Change>::empty()) =~= Seq::<ChangeV>::empty());
            assert(changes_view(changes@) =~= Self::planned(reg.model(), path@));
        }
        Ok(ChangeSet { tweak: string_from("desktop.wallpaper"), changes, refresh: Refresh::Wallpaper })
    }

    /// The plan for `want`. Whether a file is at the path is asked of
    /// `is_file`, with that path; whatever it answers, the result is the one
    /// `plan_checked` gives for that answer, and an empty path clears the
    /// wallpaper without asking.
    pub fn plan<R: RegistryProvider, G: Fn(&str) -> bool>(&self, reg: &R, want: &Value, is_file: &G) -> (r:
        Result<ChangeSet, Error>)
        requires
            reg.wf(),
            forall|s: &str| is_file.requires((s,)),
        ensures
            match want@ {
                ValueV::Str(p) => exists|b: bool|
                    file_answer(*is_file, p, b) && #[trigger] Self::outcome(r, reg.model(), reg.reliable(), p, b),
                _ => r matches Err(e) && is_bad_value(e, "desktop.wallpaper"@, want@, "a path"@),
            },
    {
        let path = want.as_path("desktop.wallpaper")?;
        let exists = if path.is_empty() {
            false
        } else {
            is_file(path)
        };
        proof {
            assert(file_answer(*is_file, path@, exists));
        }
        self.plan_checked(reg, path, exists)
    }
}

impl Tweak for WallpaperTweak {
    open spec fn build_range(&self) -> BuildRange {
        BuildRange { min: MIN_SUPPORTED_BUILD, max: None }
    }

    fn id(&self) -> (r: &'static str)
        ensures
            r@ == "desktop.wallpaper"@,
    {
        "desktop.wallpaper"
    }

    fn category(&self) -> (r: Category)
        ensures
            r == Category::Desktop,
    {
        Category::Desktop
    }

    fn tier(&self) -> (r: Tier)
        ensures
            r == Tier::A,
    {
        Tier::A
    }

    /// A file path, with the extensions Windows can show as a wallpaper.
    fn value_kind(&self) -> (r: ValueKind)
        ensures
            r matches ValueKind::Path { extensions } && strings_view(extensions@) == advertised_extensions(),
    {
        let mut extensions: Vec<String> = Vec::new();
        extensions.push(string_from("jpg"));
        extensions.push(string_from("jpeg"));
        extensions.push(string_from("png"));
        extensions.push(string_from("bmp"));
        extensions.push(string_from("dib"));
        proof {
            assert(strings_view(extensions@) =~= seq!["jpg"@, "jpeg"@, "png"@, "bmp"@, "dib"@]);
        }
        ValueKind::Path { extensions }
    }

    fn builds(&self) -> (r: BuildRange) {
        BuildRange::any()
    }

    fn refresh(&self) -> (r: Refresh)
        ensures
            r == Refresh::Wallpaper,
    {
        Refresh::Wallpaper
    }
}

} // verus!
