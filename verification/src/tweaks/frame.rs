//! What a setting reads and writes, and why the others leave it alone.
//!
//! Each setting plans from a handful of registry values (the classic menu
//! also from whether its two keys exist). When the settings of a table keep
//! to places of their own, carrying out one setting's batch changes nothing
//! another setting looks at: that is what makes a batch of several settings
//! behave like each of them on its own.

use vstd::prelude::*;
use crate::provider::{covered, key_key, value_key, Hive, LocV, RegModel};
use crate::text::{ascii_lower_char, fold_case, is_ascii_text, lemma_fold_ascii, starts_with};
use crate::tweak::{apply_all, apply_change, ChangeV};
use crate::tweaks::appearance::{hkcu_loc, AccentShades, ACCENT, DESKTOP, DWM, PERSONALIZE};
use crate::tweaks::explorer::{ClassicContextMenuTweak, CLSID, INPROC};
use crate::tweaks::settle::{lemma_inproc_in_clsid, lemma_set_all_places};
use crate::tweaks::taskbar::{ADVANCED, SEARCH};
use crate::tweaks::TweakKind;
use crate::undo::under;
use crate::value::ValueV;

verus! {

impl TweakKind {
    /// The values a setting reads and writes.
    pub open spec fn footprint(self) -> Seq<LocV> {
        if self is ClassicMenu {
            seq![ClassicContextMenuTweak::default_value()]
        } else {
            self.value_locs()
        }
    }
}

/// `l` is the menu's CLSID key or lies beneath it.
pub open spec fn under_menu(l: LocV) -> bool {
    l.hive == Hive::CurrentUser && covered(fold_case(CLSID@), fold_case(l.path))
}

/// The settings of `ts` keep to places of their own: no two read or write the
/// same value, and only the classic menu touches anything beneath its key.
pub open spec fn apart(ts: Seq<TweakKind>) -> bool {
    &&& forall|i: int, j: int, a: int, b: int|
        0 <= i < ts.len() && 0 <= j < ts.len() && i != j && 0 <= a < ts[i].footprint().len() && 0
            <= b < ts[j].footprint().len() ==> value_key(#[trigger] ts[i].footprint()[a]) != value_key(
            #[trigger] ts[j].footprint()[b],
        )
    &&& forall|i: int, a: int|
        0 <= i < ts.len() && !(ts[i] is ClassicMenu) && 0 <= a < ts[i].footprint().len()
            ==> !under_menu(#[trigger] ts[i].footprint()[a])
}

/// Two registries hold the same of what `t` reads.
pub open spec fn agree_on(x: RegModel, y: RegModel, t: TweakKind) -> bool {
    &&& forall|a: int|
        0 <= a < t.footprint().len() ==> x.value_at(#[trigger] t.footprint()[a]) == y.value_at(
            t.footprint()[a],
        )
    &&& t is ClassicMenu ==> x.has_key(Hive::CurrentUser, CLSID@) == y.has_key(Hive::CurrentUser, CLSID@)
        && x.has_key(Hive::CurrentUser, INPROC@) == y.has_key(Hive::CurrentUser, INPROC@)
}

/// The change `c` leaves alone what `t` reads.
pub open spec fn foreign(c: ChangeV, t: TweakKind) -> bool {
    match c {
        ChangeV::Value { loc, .. } => {
            &&& forall|a: int|
                0 <= a < t.footprint().len() ==> value_key(loc) != value_key(#[trigger] t.footprint()[a])
            &&& t is ClassicMenu ==> key_key(loc.hive, loc.path) != key_key(Hive::CurrentUser, CLSID@)
                && key_key(loc.hive, loc.path) != key_key(Hive::CurrentUser, INPROC@)
        },
        ChangeV::Key { hive, path, .. } => {
            &&& !(t is ClassicMenu)
            &&& forall|a: int|
                0 <= a < t.footprint().len() ==> !(#[trigger] t.footprint()[a].hive == hive && covered(
                    fold_case(path),
                    fold_case(t.footprint()[a].path),
                ))
        },
    }
}

pub proof fn lemma_agree_trans(x: RegModel, y: RegModel, z: RegModel, t: TweakKind)
    requires
        agree_on(x, y, t),
        agree_on(y, z, t),
    ensures
        agree_on(x, z, t),
{
    assert forall|a: int| 0 <= a < t.footprint().len() implies x.value_at(#[trigger] t.footprint()[a])
        == z.value_at(t.footprint()[a]) by {
        assert(x.value_at(t.footprint()[a]) == y.value_at(t.footprint()[a]));
        assert(y.value_at(t.footprint()[a]) == z.value_at(t.footprint()[a]));
    }
}

pub proof fn lemma_agree_symm(x: RegModel, y: RegModel, t: TweakKind)
    requires
        agree_on(x, y, t),
    ensures
        agree_on(y, x, t),
{
    assert forall|a: int| 0 <= a < t.footprint().len() implies y.value_at(#[trigger] t.footprint()[a])
        == x.value_at(t.footprint()[a]) by {
        assert(x.value_at(t.footprint()[a]) == y.value_at(t.footprint()[a]));
    }
}

/// A change carried out on two registries that agree on `t` leaves them agreeing.
proof fn lemma_change_keeps_agreement(x: RegModel, y: RegModel, c: ChangeV, t: TweakKind)
    requires
        agree_on(x, y, t),
    ensures
        agree_on(apply_change(x, c), apply_change(y, c), t),
{
    let x2 = apply_change(x, c);
    let y2 = apply_change(y, c);
    assert forall|a: int| 0 <= a < t.footprint().len() implies x2.value_at(#[trigger] t.footprint()[a])
        == y2.value_at(t.footprint()[a]) by {
        let l = t.footprint()[a];
        assert(x.value_at(l) == y.value_at(l));
        let k = value_key(l);
        assert(x.values.dom().contains(k) == y.values.dom().contains(k));
        match c {
            ChangeV::Value { loc, to, .. } => {
                if value_key(loc) == k {
                } else {
                    assert(x2.values.dom().contains(k) == x.values.dom().contains(k));
                    assert(y2.values.dom().contains(k) == y.values.dom().contains(k));
                }
            },
            ChangeV::Key { hive, path, to_present, .. } => {
                if !to_present {
                    assert(x2.values.dom().contains(k) == (x.values.dom().contains(k) && !(k.0 == hive
                        && covered(fold_case(path), k.1))));
                    assert(y2.values.dom().contains(k) == (y.values.dom().contains(k) && !(k.0 == hive
                        && covered(fold_case(path), k.1))));
                }
            },
        }
    }
    if t is ClassicMenu {
        let kc = key_key(Hive::CurrentUser, CLSID@);
        let ki = key_key(Hive::CurrentUser, INPROC@);
        assert(x.keys.contains(kc) == y.keys.contains(kc));
        assert(x.keys.contains(ki) == y.keys.contains(ki));
        match c {
            ChangeV::Value { .. } => {},
            ChangeV::Key { hive, path, to_present, .. } => {
                if !to_present {
                    assert(x2.keys.contains(kc) == (x.keys.contains(kc) && !(kc.0 == hive && covered(
                        fold_case(path),
                        kc.1,
                    ))));
                    assert(y2.keys.contains(kc) == (y.keys.contains(kc) && !(kc.0 == hive && covered(
                        fold_case(path),
                        kc.1,
                    ))));
                    assert(x2.keys.contains(ki) == (x.keys.contains(ki) && !(ki.0 == hive && covered(
                        fold_case(path),
                        ki.1,
                    ))));
                    assert(y2.keys.contains(ki) == (y.keys.contains(ki) && !(ki.0 == hive && covered(
                        fold_case(path),
                        ki.1,
                    ))));
                }
            },
        }
    }
}

/// A batch carried out on two registries that agree on `t` leaves them agreeing.
pub proof fn lemma_batch_keeps_agreement(x: RegModel, y: RegModel, cs: Seq<ChangeV>, t: TweakKind)
    requires
        agree_on(x, y, t),
    ensures
        agree_on(apply_all(x, cs), apply_all(y, cs), t),
    decreases cs.len(),
{
    if cs.len() > 0 {
        lemma_change_keeps_agreement(x, y, cs[0], t);
        lemma_batch_keeps_agreement(apply_change(x, cs[0]), apply_change(y, cs[0]), cs.drop_first(), t);
    }
}

/// A change foreign to `t` changes nothing `t` reads.
proof fn lemma_foreign_change(x: RegModel, c: ChangeV, t: TweakKind)
    requires
        foreign(c, t),
    ensures
        agree_on(x, apply_change(x, c), t),
{
    let x2 = apply_change(x, c);
    assert forall|a: int| 0 <= a < t.footprint().len() implies x.value_at(#[trigger] t.footprint()[a])
        == x2.value_at(t.footprint()[a]) by {
        let l = t.footprint()[a];
        let k = value_key(l);
        match c {
            ChangeV::Value { loc, .. } => {
                assert(value_key(loc) != k);
                assert(x2.values.dom().contains(k) == x.values.dom().contains(k));
            },
            ChangeV::Key { hive, path, to_present, .. } => {
                assert(!(l.hive == hive && covered(fold_case(path), fold_case(l.path))));
                if !to_present {
                    assert(x2.values.dom().contains(k) == x.values.dom().contains(k));
                }
            },
        }
    }
}

/// A batch whose every change is foreign to `t` changes nothing `t` reads.
pub proof fn lemma_foreign_batch(x: RegModel, cs: Seq<ChangeV>, t: TweakKind)
    requires
        forall|i: int| 0 <= i < cs.len() ==> foreign(#[trigger] cs[i], t),
    ensures
        agree_on(x, apply_all(x, cs), t),
    decreases cs.len(),
{
    if cs.len() > 0 {
        lemma_foreign_change(x, cs[0], t);
        assert forall|i: int| 0 <= i < cs.drop_first().len() implies foreign(#[trigger] cs.drop_first()[i], t) by {
            assert(cs.drop_first()[i] == cs[i + 1]);
        }
        lemma_foreign_batch(apply_change(x, cs[0]), cs.drop_first(), t);
        lemma_agree_trans(x, apply_change(x, cs[0]), apply_all(x, cs), t);
    } else {
        assert(agree_on(x, x, t));
    }
}

/// In a table whose settings keep apart, what one setting plans is foreign
/// to every other.
pub proof fn lemma_batch_foreign(
    ts: Seq<TweakKind>,
    i: int,
    j: int,
    m: RegModel,
    want: ValueV,
    shades: AccentShades,
    exists: bool,
)
    requires
        apart(ts),
        0 <= i < ts.len(),
        0 <= j < ts.len(),
        i != j,
        ts[i].planned_set(m, want, shades, exists) is Some,
    ensures
        forall|k: int|
            0 <= k < ts[i].planned_set(m, want, shades, exists).unwrap().0.len() ==> foreign(
                #[trigger] ts[i].planned_set(m, want, shades, exists).unwrap().0[k],
                ts[j],
            ),
{
    let u = ts[i];
    let t = ts[j];
    let cs = u.planned_set(m, want, shades, exists).unwrap().0;
    let hk = Hive::CurrentUser;
    let dk = value_key(ClassicContextMenuTweak::default_value());
    assert(crate::undo::under(dk, hk, INPROC@)) by {
        assert(covered(fold_case(INPROC@), fold_case(INPROC@)));
    }
    lemma_inproc_in_clsid(dk);
    if !(u is ClassicMenu) {
        lemma_set_all_places(u, m, want, shades, exists);
        assert forall|k: int| 0 <= k < cs.len() implies foreign(#[trigger] cs[k], t) by {
            let c = cs[k];
            let a0 = choose|a0: int|
                #![trigger u.footprint()[a0]]
                0 <= a0 < u.footprint().len() && (c matches ChangeV::Value { loc, .. } && loc == u.footprint()[a0]);
            let loc = u.footprint()[a0];
            assert forall|b: int| 0 <= b < t.footprint().len() implies value_key(loc) != value_key(
                #[trigger] t.footprint()[b],
            ) by {
                assert(value_key(ts[i].footprint()[a0]) != value_key(ts[j].footprint()[b]));
            }
            if t is ClassicMenu {
                assert(!under_menu(ts[i].footprint()[a0]));
                assert(covered(fold_case(loc.path), fold_case(loc.path)));
                if key_key(loc.hive, loc.path) == key_key(hk, INPROC@) {
                    assert(under((hk, fold_case(loc.path), fold_case(loc.name)), hk, INPROC@));
                    lemma_inproc_in_clsid((hk, fold_case(loc.path), fold_case(loc.name)));
                }
            }
        }
    } else {
        assert(!(t is ClassicMenu)) by {
            if t is ClassicMenu {
                assert(value_key(ts[i].footprint()[0]) != value_key(ts[j].footprint()[0]));
            }
        }
        assert forall|k: int| 0 <= k < cs.len() implies foreign(#[trigger] cs[k], t) by {
            let c = cs[k];
            match c {
                ChangeV::Value { loc, .. } => {
                    assert(loc == ClassicContextMenuTweak::default_value());
                    assert forall|b: int| 0 <= b < t.footprint().len() implies value_key(loc) != value_key(
                        #[trigger] t.footprint()[b],
                    ) by {
                        assert(value_key(ts[i].footprint()[0]) != value_key(ts[j].footprint()[b]));
                    }
                },
                ChangeV::Key { hive, path, .. } => {
                    assert(path == CLSID@ || path == INPROC@);
                    assert forall|b: int| 0 <= b < t.footprint().len() implies !(#[trigger] t.footprint()[b].hive
                        == hive && covered(fold_case(path), fold_case(t.footprint()[b].path))) by {
                        let l = t.footprint()[b];
                        assert(!under_menu(ts[j].footprint()[b]));
                        if l.hive == hive && covered(fold_case(path), fold_case(l.path)) && path == INPROC@ {
                            lemma_inproc_in_clsid((hk, fold_case(l.path), fold_case(l.name)));
                        }
                    }
                },
            }
        }
    }
}

/// What a setting plans and reads depends on nothing but what it reads.
pub proof fn lemma_frame(t: TweakKind, x: RegModel, y: RegModel, want: ValueV, shades: AccentShades, exists: bool)
    requires
        agree_on(x, y, t),
    ensures
        t.planned_set(x, want, shades, exists) == t.planned_set(y, want, shades, exists),
        t.reading(x) == t.reading(y),
{
    let f = t.footprint();
    assert forall|a: int| 0 <= a < f.len() implies x.value_at(#[trigger] f[a]) == y.value_at(f[a]) by {}
    if f.len() > 0 {
        assert(x.value_at(f[0]) == y.value_at(f[0]));
    }
    if f.len() > 1 {
        assert(x.value_at(f[1]) == y.value_at(f[1]));
    }
    if f.len() > 2 {
        assert(x.value_at(f[2]) == y.value_at(f[2]));
        assert(x.value_at(f[3]) == y.value_at(f[3]));
        assert(x.value_at(f[4]) == y.value_at(f[4]));
        assert(x.value_at(f[5]) == y.value_at(f[5]));
        assert(x.value_at(f[6]) == y.value_at(f[6]));
    }
}

/// The values `ts` reads and writes, setting after setting.
pub open spec fn places(ts: Seq<TweakKind>) -> Seq<LocV>
    decreases ts.len(),
{
    if ts.len() == 0 {
        Seq::empty()
    } else {
        places(ts.drop_last()) + ts.last().footprint()
    }
}

/// No two entries of `s` name the same value.
pub open spec fn distinct_places(s: Seq<LocV>) -> bool {
    forall|p: int, q: int| 0 <= p < q < s.len() ==> value_key(#[trigger] s[p]) != value_key(#[trigger] s[q])
}

/// Only the classic menu touches anything beneath its key.
pub open spec fn clear_of_menu(ts: Seq<TweakKind>) -> bool {
    forall|i: int, a: int|
        0 <= i < ts.len() && !(ts[i] is ClassicMenu) && 0 <= a < ts[i].footprint().len()
            ==> !under_menu(#[trigger] ts[i].footprint()[a])
}

pub proof fn lemma_places_concat(a: Seq<TweakKind>, b: Seq<TweakKind>)
    ensures
        places(a + b) == places(a) + places(b),
    decreases b.len(),
{
    if b.len() == 0 {
        assert(a + b =~= a);
        assert(places(a) + places(b) =~= places(a));
    } else {
        lemma_places_concat(a, b.drop_last());
        assert((a + b).drop_last() =~= a + b.drop_last());
        assert((a + b).last() == b.last());
        assert(places(a) + places(b.drop_last()) + b.last().footprint() =~= places(a) + (places(
            b.drop_last(),
        ) + b.last().footprint()));
    }
}

/// Where the `a`-th value of the `i`-th setting stands among the places of `ts`.
proof fn lemma_places_at(ts: Seq<TweakKind>, i: int, a: int)
    requires
        0 <= i < ts.len(),
        0 <= a < ts[i].footprint().len(),
    ensures
        places(ts.take(i)).len() + a < places(ts.take(i + 1)).len(),
        places(ts.take(i + 1)).len() <= places(ts).len(),
        places(ts)[places(ts.take(i)).len() + a] == ts[i].footprint()[a],
{
    let pre = ts.take(i);
    let mid = ts.take(i + 1);
    let rest = ts.skip(i + 1);
    assert(mid.drop_last() =~= pre);
    assert(mid.last() == ts[i]);
    assert(ts =~= mid + rest);
    lemma_places_concat(mid, rest);
}

proof fn lemma_places_grow(ts: Seq<TweakKind>, i: int, j: int)
    requires
        0 <= i <= j <= ts.len(),
    ensures
        places(ts.take(i)).len() <= places(ts.take(j)).len(),
{
    assert(ts.take(j) =~= ts.take(i) + ts.take(j).skip(i));
    lemma_places_concat(ts.take(i), ts.take(j).skip(i));
}

/// Settings whose places are all different, and which stay clear of the
/// menu's key, keep apart.
pub proof fn lemma_apart(ts: Seq<TweakKind>)
    requires
        distinct_places(places(ts)),
        clear_of_menu(ts),
    ensures
        apart(ts),
{
    assert forall|i: int, j: int, a: int, b: int|
        0 <= i < ts.len() && 0 <= j < ts.len() && i != j && 0 <= a < ts[i].footprint().len() && 0 <= b
            < ts[j].footprint().len() implies value_key(#[trigger] ts[i].footprint()[a]) != value_key(
        #[trigger] ts[j].footprint()[b],
    ) by {
        lemma_places_at(ts, i, a);
        lemma_places_at(ts, j, b);
        let s = places(ts);
        let p = places(ts.take(i)).len() + a;
        let q = places(ts.take(j)).len() + b;
        if i < j {
            lemma_places_grow(ts, i + 1, j);
            assert(value_key(s[p]) != value_key(s[q]));
        } else {
            lemma_places_grow(ts, j + 1, i);
            assert(value_key(s[q]) != value_key(s[p]));
        }
    }
}

/// A value whose key parts from the menu's at some letter lies outside it.
pub proof fn lemma_off_menu(l: LocV, i: int)
    requires
        is_ascii_text(l.path),
        is_ascii_text(CLSID@),
        0 <= i < l.path.len(),
        i < CLSID@.len(),
        ascii_lower_char(l.path[i]) != ascii_lower_char(CLSID@[i]),
    ensures
        !under_menu(l),
{
    lemma_fold_ascii(l.path);
    lemma_fold_ascii(CLSID@);
    let t = fold_case(CLSID@);
    let c = fold_case(l.path);
    assert(c[i] != t[i]);
    if starts_with(c, t.push('\\')) {
        assert(c.take(t.len() as int + 1)[i] == t.push('\\')[i]);
    }
}

/// The values the shipped settings read and write, in the order of the table.
pub open spec fn shipped_places() -> Seq<LocV> {
    seq![
        hkcu_loc(PERSONALIZE, "AppsUseLightTheme"),
        hkcu_loc(PERSONALIZE, "SystemUsesLightTheme"),
        hkcu_loc(DWM, "AccentColor"),
        hkcu_loc(DWM, "ColorizationColor"),
        hkcu_loc(DWM, "ColorizationAfterglow"),
        hkcu_loc(ACCENT, "AccentColorMenu"),
        hkcu_loc(ACCENT, "StartColorMenu"),
        hkcu_loc(ACCENT, "AccentPalette"),
        hkcu_loc(DESKTOP, "AutoColorization"),
        hkcu_loc(PERSONALIZE, "EnableTransparency"),
        hkcu_loc(DWM, "ColorPrevalence"),
        hkcu_loc(PERSONALIZE, "ColorPrevalence"),
        hkcu_loc(DESKTOP, "WallPaper"),
        hkcu_loc(DESKTOP, "TileWallpaper"),
        hkcu_loc(DESKTOP, "WallpaperStyle"),
        hkcu_loc(ADVANCED, "TaskbarAl"),
        hkcu_loc(ADVANCED, "TaskbarDa"),
        hkcu_loc(ADVANCED, "ShowTaskViewButton"),
        hkcu_loc(SEARCH, "SearchboxTaskbarMode"),
        hkcu_loc(ADVANCED, "TaskbarSi"),
        hkcu_loc(ADVANCED, "ShowSecondsInSystemClock"),
        hkcu_loc(ADVANCED, "TaskbarEndTask"),
        hkcu_loc(ADVANCED, "Start_Layout"),
        hkcu_loc(ADVANCED, "Start_TrackProgs"),
        hkcu_loc(ADVANCED, "Start_TrackDocs"),
        hkcu_loc(ADVANCED, "HideFileExt"),
        hkcu_loc(ADVANCED, "Hidden"),
        hkcu_loc(ADVANCED, "ShowSuperHidden"),
        hkcu_loc(ADVANCED, "LaunchTo"),
        hkcu_loc(ADVANCED, "UseCompactMode"),
        ClassicContextMenuTweak::default_value(),
    ]
}

/// No two of the shipped places name the same value.
#[verifier::rlimit(40)]
pub proof fn lemma_shipped_places_distinct()
    ensures
        distinct_places(shipped_places()),
{
    reveal_strlit("Software\\Microsoft\\Windows\\CurrentVersion\\Themes\\Personalize");
    reveal_strlit("Software\\Microsoft\\Windows\\DWM");
    reveal_strlit("Software\\Microsoft\\Windows\\CurrentVersion\\Explorer\\Accent");
    reveal_strlit("Control Panel\\Desktop");
    reveal_strlit("Software\\Microsoft\\Windows\\CurrentVersion\\Explorer\\Advanced");
    reveal_strlit("Software\\Microsoft\\Windows\\CurrentVersion\\Search");
    reveal_strlit("Software\\Classes\\CLSID\\{86ca1aa0-34aa-4e8b-a509-50c905bae2a2}\\InprocServer32");
    reveal_strlit("AccentColor");
    reveal_strlit("AccentColorMenu");
    reveal_strlit("AccentPalette");
    reveal_strlit("AppsUseLightTheme");
    reveal_strlit("AutoColorization");
    reveal_strlit("ColorPrevalence");
    reveal_strlit("ColorizationAfterglow");
    reveal_strlit("ColorizationColor");
    reveal_strlit("EnableTransparency");
    reveal_strlit("Hidden");
    reveal_strlit("HideFileExt");
    reveal_strlit("LaunchTo");
    reveal_strlit("SearchboxTaskbarMode");
    reveal_strlit("ShowSecondsInSystemClock");
    reveal_strlit("ShowSuperHidden");
    reveal_strlit("ShowTaskViewButton");
    reveal_strlit("StartColorMenu");
    reveal_strlit("Start_Layout");
    reveal_strlit("Start_TrackDocs");
    reveal_strlit("Start_TrackProgs");
    reveal_strlit("SystemUsesLightTheme");
    reveal_strlit("TaskbarAl");
    reveal_strlit("TaskbarDa");
    reveal_strlit("TaskbarEndTask");
    reveal_strlit("TaskbarSi");
    reveal_strlit("TileWallpaper");
    reveal_strlit("UseCompactMode");
    reveal_strlit("WallPaper");
    reveal_strlit("WallpaperStyle");
    lemma_fold_ascii(PERSONALIZE@);
    lemma_fold_ascii(DWM@);
    lemma_fold_ascii(ACCENT@);
    lemma_fold_ascii(DESKTOP@);
    lemma_fold_ascii(ADVANCED@);
    lemma_fold_ascii(SEARCH@);
    lemma_fold_ascii(INPROC@);
    lemma_fold_ascii("AccentColor"@);
    lemma_fold_ascii("AccentColorMenu"@);
    lemma_fold_ascii("AccentPalette"@);
    lemma_fold_ascii("AppsUseLightTheme"@);
    lemma_fold_ascii("AutoColorization"@);
    lemma_fold_ascii("ColorPrevalence"@);
    lemma_fold_ascii("ColorizationAfterglow"@);
    lemma_fold_ascii("ColorizationColor"@);
    lemma_fold_ascii("EnableTransparency"@);
    lemma_fold_ascii("Hidden"@);
    lemma_fold_ascii("HideFileExt"@);
    lemma_fold_ascii("LaunchTo"@);
    lemma_fold_ascii("SearchboxTaskbarMode"@);
    lemma_fold_ascii("ShowSecondsInSystemClock"@);
    lemma_fold_ascii("ShowSuperHidden"@);
    lemma_fold_ascii("ShowTaskViewButton"@);
    lemma_fold_ascii("StartColorMenu"@);
    lemma_fold_ascii("Start_Layout"@);
    lemma_fold_ascii("Start_TrackDocs"@);
    lemma_fold_ascii("Start_TrackProgs"@);
    lemma_fold_ascii("SystemUsesLightTheme"@);
    lemma_fold_ascii("TaskbarAl"@);
    lemma_fold_ascii("TaskbarDa"@);
    lemma_fold_ascii("TaskbarEndTask"@);
    lemma_fold_ascii("TaskbarSi"@);
    lemma_fold_ascii("TileWallpaper"@);
    lemma_fold_ascii("UseCompactMode"@);
    lemma_fold_ascii("WallPaper"@);
    lemma_fold_ascii("WallpaperStyle"@);
    lemma_fold_ascii(Seq::<char>::empty());
    let s = shipped_places();
    assert(value_key(s[0]).1.len() == 60 && value_key(s[0]).2.len() == 17);
    assert(value_key(s[1]).1.len() == 60 && value_key(s[1]).2.len() == 20);
    assert(value_key(s[2]).1.len() == 30 && value_key(s[2]).2.len() == 11);
    assert(value_key(s[3]).1.len() == 30 && value_key(s[3]).2.len() == 17);
    assert(value_key(s[4]).1.len() == 30 && value_key(s[4]).2.len() == 21);
    assert(value_key(s[5]).1.len() == 57 && value_key(s[5]).2.len() == 15);
    assert(value_key(s[6]).1.len() == 57 && value_key(s[6]).2.len() == 14);
    assert(value_key(s[7]).1.len() == 57 && value_key(s[7]).2.len() == 13);
    assert(value_key(s[8]).1.len() == 21 && value_key(s[8]).2.len() == 16);
    assert(value_key(s[9]).1.len() == 60 && value_key(s[9]).2.len() == 18);
    assert(value_key(s[10]).1.len() == 30 && value_key(s[10]).2.len() == 15);
    assert(value_key(s[11]).1.len() == 60 && value_key(s[11]).2.len() == 15);
    assert(value_key(s[12]).1.len() == 21 && value_key(s[12]).2.len() == 9);
    assert(value_key(s[13]).1.len() == 21 && value_key(s[13]).2.len() == 13);
    assert(value_key(s[14]).1.len() == 21 && value_key(s[14]).2.len() == 14);
    assert(value_key(s[15]).1.len() == 59 && value_key(s[15]).2.len() == 9 && value_key(s[15]).2[7] == 'a');
    assert(value_key(s[16]).1.len() == 59 && value_key(s[16]).2.len() == 9 && value_key(s[16]).2[7] == 'd');
    assert(value_key(s[17]).1.len() == 59 && value_key(s[17]).2.len() == 18);
    assert(value_key(s[18]).1.len() == 48 && value_key(s[18]).2.len() == 20);
    assert(value_key(s[19]).1.len() == 59 && value_key(s[19]).2.len() == 9 && value_key(s[19]).2[7] == 's');
    assert(value_key(s[20]).1.len() == 59 && value_key(s[20]).2.len() == 24);
    assert(value_key(s[21]).1.len() == 59 && value_key(s[21]).2.len() == 14 && value_key(s[21]).2[0] == 't');
    assert(value_key(s[22]).1.len() == 59 && value_key(s[22]).2.len() == 12);
    assert(value_key(s[23]).1.len() == 59 && value_key(s[23]).2.len() == 16);
    assert(value_key(s[24]).1.len() == 59 && value_key(s[24]).2.len() == 15 && value_key(s[24]).2[1] == 't');
    assert(value_key(s[25]).1.len() == 59 && value_key(s[25]).2.len() == 11);
    assert(value_key(s[26]).1.len() == 59 && value_key(s[26]).2.len() == 6);
    assert(value_key(s[27]).1.len() == 59 && value_key(s[27]).2.len() == 15 && value_key(s[27]).2[1] == 'h');
    assert(value_key(s[28]).1.len() == 59 && value_key(s[28]).2.len() == 8);
    assert(value_key(s[29]).1.len() == 59 && value_key(s[29]).2.len() == 14 && value_key(s[29]).2[0] == 'u');
    assert(value_key(s[30]).1.len() == 76 && value_key(s[30]).2.len() == 0);
    assert forall|p: int, q: int| 0 <= p < q < s.len() implies value_key(#[trigger] s[p]) != value_key(#[trigger] s[q]) by {
        assert(0 <= p < 31);
    }
}

/// The paths the shipped settings other than the menu keep to.
pub open spec fn shipped_path(path: Seq<char>) -> bool {
    path == PERSONALIZE@ || path == DWM@ || path == ACCENT@ || path == DESKTOP@ || path == ADVANCED@
        || path == SEARCH@
}

/// Nothing on those paths lies beneath the menu's key.
pub proof fn lemma_path_off_menu(l: LocV)
    requires
        shipped_path(l.path),
    ensures
        !under_menu(l),
{
    reveal_strlit("Software\\Classes\\CLSID\\{86ca1aa0-34aa-4e8b-a509-50c905bae2a2}");
    reveal_strlit("Software\\Microsoft\\Windows\\CurrentVersion\\Themes\\Personalize");
    reveal_strlit("Software\\Microsoft\\Windows\\DWM");
    reveal_strlit("Software\\Microsoft\\Windows\\CurrentVersion\\Explorer\\Accent");
    reveal_strlit("Control Panel\\Desktop");
    reveal_strlit("Software\\Microsoft\\Windows\\CurrentVersion\\Explorer\\Advanced");
    reveal_strlit("Software\\Microsoft\\Windows\\CurrentVersion\\Search");
    assert(is_ascii_text(CLSID@));
    assert(is_ascii_text(l.path));
    if l.path == DESKTOP@ {
        lemma_off_menu(l, 0);
    } else {
        lemma_off_menu(l, 9);
    }
}

pub proof fn lemma_clear_concat(a: Seq<TweakKind>, b: Seq<TweakKind>)
    requires
        clear_of_menu(a),
        clear_of_menu(b),
    ensures
        clear_of_menu(a + b),
{
    assert forall|i: int, x: int|
        0 <= i < (a + b).len() && !((a + b)[i] is ClassicMenu) && 0 <= x < (a + b)[i].footprint().len()
            implies !under_menu(#[trigger] (a + b)[i].footprint()[x]) by {
        if i < a.len() {
            assert((a + b)[i] == a[i]);
        } else {
            assert((a + b)[i] == b[i - a.len()]);
        }
    }
}

} // verus!
