//! What applying a tweak's plan leaves behind: the tweak is settled — planning
//! the same value again changes nothing — and the plan describes the registry
//! it was made on, so its undo puts every value back.

use vstd::prelude::*;
use crate::provider::{covered, Hive, LocV, RegModel, RegValueV, ValueKey, value_key};
use crate::text::{ascii_lower, fold_case, is_ascii_text, starts_with};
use crate::undo::{bare, held_at, lemma_undoable_append, under, undoable, undoable_step};
use crate::tweak::{ChangeV, apply_all, apply_change, faithful_value, faithful_value_batch, lemma_apply_concat, lemma_revert_restores_values, undo_of};
use crate::tweaks::appearance::{ACCENT, AccentColorTweak, AccentShades, DESKTOP, DWM, DarkModeTweak, PERSONALIZE, colorization, eighth_entry, palette_bytes, ramp_bytes};
use crate::tweaks::desktop::{WallpaperTweak, refusal};
use crate::tweaks::explorer::{CLSID, ClassicContextMenuTweak, INPROC};
use crate::tweaks::helpers::set_value;
use crate::tweaks::TweakKind;
use crate::value::{Color, ValueV, abgr};

verus! {

/// Setting each location to its value, one after another, each change
/// remembering what the registry `m` held.
pub open spec fn set_all(m: RegModel, locs: Seq<LocV>, vals: Seq<RegValueV>) -> Seq<ChangeV>
    decreases locs.len(),
{
    if locs.len() == 0 || vals.len() == 0 {
        Seq::empty()
    } else {
        set_all(m, locs.drop_last(), vals.drop_last()) + set_value(m, locs.last(), vals.last())
    }
}

/// No two locations are the same value to the registry.
pub open spec fn keys_distinct(locs: Seq<LocV>) -> bool {
    forall|i: int, j: int|
        0 <= i < locs.len() && 0 <= j < locs.len() && i != j ==> value_key(#[trigger] locs[i])
            != value_key(#[trigger] locs[j])
}

/// Every change is a value change somewhere else than `loc`.
pub open spec fn elsewhere(cs: Seq<ChangeV>, loc: LocV) -> bool {
    forall|i: int|
        0 <= i < cs.len() ==> (#[trigger] cs[i] matches ChangeV::Value { loc: l, .. } && value_key(l)
            != value_key(loc))
}

proof fn lemma_elsewhere_untouched(m: RegModel, cs: Seq<ChangeV>, loc: LocV)
    requires
        elsewhere(cs, loc),
    ensures
        apply_all(m, cs).value_at(loc) == m.value_at(loc),
    decreases cs.len(),
{
    if cs.len() > 0 {
        assert(cs[0] matches ChangeV::Value { .. });
        let m1 = apply_change(m, cs[0]);
        assert(m1.value_at(loc) == m.value_at(loc));
        assert forall|i: int| 0 <= i < cs.drop_first().len() implies (#[trigger] cs.drop_first()[i] matches ChangeV::Value { loc: l, .. } && value_key(l) != value_key(loc)) by {
            assert(cs.drop_first()[i] == cs[i + 1]);
        }
        lemma_elsewhere_untouched(m1, cs.drop_first(), loc);
    }
}

proof fn lemma_set_all_elsewhere(m: RegModel, locs: Seq<LocV>, vals: Seq<RegValueV>, loc: LocV)
    requires
        forall|i: int| 0 <= i < locs.len() ==> value_key(#[trigger] locs[i]) != value_key(loc),
    ensures
        elsewhere(set_all(m, locs, vals), loc),
    decreases locs.len(),
{
    if locs.len() > 0 && vals.len() > 0 {
        lemma_set_all_elsewhere(m, locs.drop_last(), vals.drop_last(), loc);
        assert(value_key(locs[locs.len() - 1]) != value_key(loc));
        let a = set_all(m, locs.drop_last(), vals.drop_last());
        let b = set_value(m, locs.last(), vals.last());
        assert forall|i: int| 0 <= i < (a + b).len() implies (#[trigger] (a + b)[i] matches ChangeV::Value { loc: l, .. } && value_key(l) != value_key(loc)) by {
            if i < a.len() {
                assert((a + b)[i] == a[i]);
            } else {
                assert((a + b)[i] == b[i - a.len()]);
            }
        }
    }
}

/// After the batch, each location holds its value, provided the registry it
/// is carried out on holds at each location what `m` held.
proof fn lemma_set_all_holds(m: RegModel, start: RegModel, locs: Seq<LocV>, vals: Seq<RegValueV>)
    requires
        keys_distinct(locs),
        locs.len() == vals.len(),
        forall|i: int| 0 <= i < locs.len() ==> start.value_at(#[trigger] locs[i]) == m.value_at(locs[i]),
    ensures
        forall|j: int|
            0 <= j < locs.len() ==> apply_all(start, set_all(m, locs, vals)).value_at(#[trigger] locs[j])
                == Some(vals[j]),
    decreases locs.len(),
{
    if locs.len() > 0 {
        let n = locs.len() - 1;
        let front = locs.drop_last();
        let fvals = vals.drop_last();
        assert forall|i: int, j: int|
            0 <= i < front.len() && 0 <= j < front.len() && i != j implies value_key(#[trigger] front[i])
            != value_key(#[trigger] front[j]) by {
            assert(front[i] == locs[i] && front[j] == locs[j]);
        }
        assert forall|i: int| 0 <= i < front.len() implies start.value_at(#[trigger] front[i]) == m.value_at(front[i]) by {
            assert(front[i] == locs[i]);
        }
        lemma_set_all_holds(m, start, front, fvals);
        let a = set_all(m, front, fvals);
        let b = set_value(m, locs[n], vals[n]);
        lemma_apply_concat(start, a, b);
        let mid = apply_all(start, a);
        assert forall|i: int| 0 <= i < front.len() implies value_key(#[trigger] front[i]) != value_key(locs[n]) by {
            assert(front[i] == locs[i]);
        }
        lemma_set_all_elsewhere(m, front, fvals, locs[n]);
        lemma_elsewhere_untouched(start, a, locs[n]);
        assert(mid.value_at(locs[n]) == m.value_at(locs[n]));
        let fin = apply_all(mid, b);
        if m.value_at(locs[n]) == Some(vals[n]) {
            assert(b =~= Seq::<ChangeV>::empty());
        } else {
            let one = b;
            assert(one.drop_first() =~= Seq::<ChangeV>::empty());
            assert(apply_all(apply_change(mid, one[0]), one.drop_first()) == apply_change(mid, one[0]));
            assert(fin == apply_change(mid, one[0]));
        }
        assert forall|j: int| 0 <= j < locs.len() implies fin.value_at(#[trigger] locs[j]) == Some(vals[j]) by {
            if j < n {
                assert(front[j] == locs[j]);
                assert(mid.value_at(front[j]) == Some(fvals[j]));
                assert(value_key(locs[j]) != value_key(locs[n]));
                if m.value_at(locs[n]) != Some(vals[n]) {
                    assert(fin.value_at(locs[j]) == mid.value_at(locs[j]));
                }
            }
        }
    }
}

/// A batch with nothing to change is empty.
proof fn lemma_set_all_settled(m: RegModel, locs: Seq<LocV>, vals: Seq<RegValueV>)
    requires
        locs.len() == vals.len(),
        forall|j: int| 0 <= j < locs.len() ==> m.value_at(#[trigger] locs[j]) == Some(vals[j]),
    ensures
        set_all(m, locs, vals).len() == 0,
    decreases locs.len(),
{
    if locs.len() > 0 {
        assert forall|j: int| 0 <= j < locs.drop_last().len() implies m.value_at(#[trigger] locs.drop_last()[j]) == Some(vals.drop_last()[j]) by {
            assert(locs.drop_last()[j] == locs[j]);
        }
        lemma_set_all_settled(m, locs.drop_last(), vals.drop_last());
        assert(m.value_at(locs[locs.len() - 1]) == Some(vals[vals.len() - 1]));
    }
}

/// Each change of the batch remembers what the registry holds when it comes.
proof fn lemma_set_all_faithful(m: RegModel, locs: Seq<LocV>, vals: Seq<RegValueV>)
    requires
        keys_distinct(locs),
        locs.len() == vals.len(),
    ensures
        faithful_value_batch(m, set_all(m, locs, vals)),
    decreases locs.len(),
{
    if locs.len() > 0 {
        let n = locs.len() - 1;
        let front = locs.drop_last();
        let fvals = vals.drop_last();
        assert forall|i: int, j: int|
            0 <= i < front.len() && 0 <= j < front.len() && i != j implies value_key(#[trigger] front[i])
            != value_key(#[trigger] front[j]) by {
            assert(front[i] == locs[i] && front[j] == locs[j]);
        }
        lemma_set_all_faithful(m, front, fvals);
        let a = set_all(m, front, fvals);
        let b = set_value(m, locs[n], vals[n]);
        assert forall|i: int| 0 <= i < front.len() implies value_key(#[trigger] front[i]) != value_key(locs[n]) by {
            assert(front[i] == locs[i]);
        }
        lemma_set_all_elsewhere(m, front, fvals, locs[n]);
        lemma_elsewhere_untouched(m, a, locs[n]);
        let mid = apply_all(m, a);
        if b.len() > 0 {
            assert(faithful_value(mid, b[0]));
            assert(b.drop_first() =~= Seq::<ChangeV>::empty());
            assert(faithful_value_batch(apply_change(mid, b[0]), b.drop_first()));
        } else {
            assert(b =~= Seq::<ChangeV>::empty());
        }
        assert(faithful_value_batch(mid, b));
        lemma_faithful_concat(m, a, b);
    }
}

/// A batch is faithful when its first part is, and its second part is on the
/// registry the first leaves.
proof fn lemma_faithful_concat(m: RegModel, a: Seq<ChangeV>, b: Seq<ChangeV>)
    requires
        faithful_value_batch(m, a),
        faithful_value_batch(apply_all(m, a), b),
    ensures
        faithful_value_batch(m, a + b),
    decreases a.len(),
{
    if a.len() == 0 {
        assert(a + b =~= b);
    } else {
        assert((a + b).drop_first() =~= a.drop_first() + b);
        assert((a + b)[0] == a[0]);
        lemma_faithful_concat(apply_change(m, a[0]), a.drop_first(), b);
    }
}

/// ASCII names fold to names of the same length.
proof fn lemma_fold_len(s: Seq<char>)
    requires
        is_ascii_text(s),
    ensures
        fold_case(s).len() == s.len(),
{
}

} // verus!

verus! {

impl TweakKind {
    /// Where a tweak that only writes values writes them.
    pub open spec fn value_locs(self) -> Seq<LocV> {
        match self {
            TweakKind::Bool(t) => seq![t.spec.loc_view()],
            TweakKind::Choice(t) => seq![t.spec.loc_view()],
            TweakKind::DarkMode(_) => seq![DarkModeTweak::apps(), DarkModeTweak::system()],
            TweakKind::Accent(_) => seq![
                AccentColorTweak::accent_color(),
                AccentColorTweak::colorization_loc(),
                AccentColorTweak::afterglow(),
                AccentColorTweak::menu(),
                AccentColorTweak::start(),
                AccentColorTweak::palette_loc(),
                AccentColorTweak::auto(),
            ],
            TweakKind::Wallpaper(_) => seq![WallpaperTweak::path_loc(), WallpaperTweak::tile_loc()],
            TweakKind::ClassicMenu(_) => Seq::empty(),
        }
    }

    /// What a tweak that only writes values writes there, for `want`, on `m`.
    pub open spec fn value_vals(self, m: RegModel, want: ValueV, shades: AccentShades) -> Seq<
        RegValueV,
    > {
        match (self, want) {
            (TweakKind::Bool(t), ValueV::Bool(b)) => seq![
                RegValueV::Dword(
                    if b {
                        t.on
                    } else {
                        t.off
                    },
                ),
            ],
            (TweakKind::Choice(t), ValueV::Str(c)) => match crate::tweaks::helpers::number_for(
                t.map@,
                c,
            ) {
                Some(n) => seq![t.stored(n)],
                None => Seq::empty(),
            },
            (TweakKind::DarkMode(_), ValueV::Bool(b)) => {
                let v = RegValueV::Dword(
                    if b {
                        0
                    } else {
                        1
                    },
                );
                seq![v, v]
            },
            (TweakKind::Accent(_), ValueV::Color(base)) => seq![
                RegValueV::Dword(abgr(base)),
                RegValueV::Dword(colorization(base)),
                RegValueV::Dword(colorization(base)),
                RegValueV::Dword(abgr(base)),
                RegValueV::Dword(abgr(shades.start)),
                RegValueV::Binary(
                    palette_bytes(shades.ramp@, m.value_at(AccentColorTweak::palette_loc())),
                ),
                RegValueV::Dword(0),
            ],
            (TweakKind::Wallpaper(_), ValueV::Str(p)) => seq![
                RegValueV::Sz(p),
                RegValueV::Sz("0"@),
            ],
            _ => Seq::empty(),
        }
    }

    /// The changes a value-only tweak plans are setting its locations to its values.
    proof fn lemma_planned_is_set_all(
        self,
        m: RegModel,
        want: ValueV,
        shades: AccentShades,
        exists: bool,
    )
        requires
            self.planned_set(m, want, shades, exists) is Some,
            !(self is ClassicMenu),
        ensures
            self.planned_set(m, want, shades, exists).unwrap().0 == set_all(
                m,
                self.value_locs(),
                self.value_vals(m, want, shades),
            ),
            self.value_locs().len() == self.value_vals(m, want, shades).len(),
    {
        let locs = self.value_locs();
        let vals = self.value_vals(m, want, shades);
        let cs = self.planned_set(m, want, shades, exists).unwrap().0;
        assert(locs.len() == vals.len());
        reveal_with_fuel(set_all, 8);
        if locs.len() == 1 {
            assert(locs.drop_last() =~= Seq::<LocV>::empty());
            assert(cs =~= set_all(m, locs, vals));
        } else if locs.len() == 2 {
            assert(locs.drop_last().drop_last() =~= Seq::<LocV>::empty());
            assert(locs.drop_last() =~= seq![locs[0]]);
            assert(vals.drop_last() =~= seq![vals[0]]);
            assert(cs =~= set_all(m, locs, vals));
        } else {
            let l = locs;
            let v = vals;
            assert(l.drop_last() =~= seq![l[0], l[1], l[2], l[3], l[4], l[5]]);
            assert(l.drop_last().drop_last() =~= seq![l[0], l[1], l[2], l[3], l[4]]);
            assert(l.drop_last().drop_last().drop_last() =~= seq![l[0], l[1], l[2], l[3]]);
            assert(l.drop_last().drop_last().drop_last().drop_last() =~= seq![l[0], l[1], l[2]]);
            assert(l.drop_last().drop_last().drop_last().drop_last().drop_last() =~= seq![l[0], l[1]]);
            assert(l.drop_last().drop_last().drop_last().drop_last().drop_last().drop_last() =~= seq![l[0]]);
            assert(v.drop_last() =~= seq![v[0], v[1], v[2], v[3], v[4], v[5]]);
            assert(v.drop_last().drop_last() =~= seq![v[0], v[1], v[2], v[3], v[4]]);
            assert(v.drop_last().drop_last().drop_last() =~= seq![v[0], v[1], v[2], v[3]]);
            assert(v.drop_last().drop_last().drop_last().drop_last() =~= seq![v[0], v[1], v[2]]);
            assert(v.drop_last().drop_last().drop_last().drop_last().drop_last() =~= seq![v[0], v[1]]);
            assert(v.drop_last().drop_last().drop_last().drop_last().drop_last().drop_last() =~= seq![v[0]]);
            assert(seq![l[0]].drop_last() =~= Seq::<LocV>::empty());
            assert(cs =~= set_all(m, locs, vals));
        }
    }

    /// A value-only tweak writes to locations the registry tells apart.
    proof fn lemma_locs_distinct(self)
        requires
            !(self is ClassicMenu),
        ensures
            keys_distinct(self.value_locs()),
    {
        let locs = self.value_locs();
        match self {
            TweakKind::DarkMode(_) => {
                reveal_strlit("AppsUseLightTheme");
                reveal_strlit("SystemUsesLightTheme");
                lemma_fold_len("AppsUseLightTheme"@);
                lemma_fold_len("SystemUsesLightTheme"@);
            },
            TweakKind::Wallpaper(_) => {
                reveal_strlit("WallPaper");
                reveal_strlit("TileWallpaper");
                lemma_fold_len("WallPaper"@);
                lemma_fold_len("TileWallpaper"@);
            },
            TweakKind::Accent(_) => {
                reveal_strlit("AccentColor");
                reveal_strlit("ColorizationColor");
                reveal_strlit("ColorizationAfterglow");
                reveal_strlit("AccentColorMenu");
                reveal_strlit("StartColorMenu");
                reveal_strlit("AccentPalette");
                reveal_strlit("AutoColorization");
                lemma_fold_len("AccentColor"@);
                lemma_fold_len("ColorizationColor"@);
                lemma_fold_len("ColorizationAfterglow"@);
                lemma_fold_len("AccentColorMenu"@);
                lemma_fold_len("StartColorMenu"@);
                lemma_fold_len("AccentPalette"@);
                lemma_fold_len("AutoColorization"@);
            },
            _ => {},
        }
    }
}

/// Planning what was just applied changes nothing. Once a tweak's plan has
/// been carried out, planning the same value again — with the same answers
/// from the shading and the file system — finds nothing to do.
pub proof fn lemma_replan_settled(
    t: TweakKind,
    m: RegModel,
    want: ValueV,
    shades: AccentShades,
    exists: bool,
)
    requires
        t.planned_set(m, want, shades, exists) is Some,
    ensures
        ({
            let cs = t.planned_set(m, want, shades, exists).unwrap().0;
            t.planned_set(apply_all(m, cs), want, shades, exists) matches Some((again, _))
                && again.len() == 0
        }),
{
    let cs = t.planned_set(m, want, shades, exists).unwrap().0;
    let after = apply_all(m, cs);
    if t is ClassicMenu {
        lemma_classic_menu_settled(m, want);
    } else {
        t.lemma_planned_is_set_all(m, want, shades, exists);
        t.lemma_locs_distinct();
        let locs = t.value_locs();
        let vals = t.value_vals(m, want, shades);
        lemma_set_all_holds(m, m, locs, vals);
        let vals2 = t.value_vals(after, want, shades);
        if t is Accent {
            let p = AccentColorTweak::palette_loc();
            assert(locs[5] == p);
            let ramp = shades.ramp@;
            assert(ramp.len() == 7);
            lemma_ramp_len(ramp);
            let first = palette_bytes(ramp, m.value_at(p));
            assert(after.value_at(p) == Some(RegValueV::Binary(first)));
            assert(first.subrange(28, 32) =~= eighth_entry(m.value_at(p)));
            assert(palette_bytes(ramp, after.value_at(p)) =~= first);
        }
        assert(vals2 =~= vals);
        t.lemma_planned_is_set_all(after, want, shades, exists);
        lemma_set_all_settled(after, locs, vals);
    }
}

proof fn lemma_ramp_len(ramp: Seq<Color>)
    ensures
        ramp_bytes(ramp).len() == 4 * ramp.len(),
    decreases ramp.len(),
{
    if ramp.len() > 0 {
        lemma_ramp_len(ramp.drop_first());
    }
}

proof fn lemma_classic_menu_settled(m: RegModel, want: ValueV)
    requires
        want is Bool,
    ensures
        ({
            let b = want->Bool_0;
            let cs = ClassicContextMenuTweak::planned(m, b);
            ClassicContextMenuTweak::planned(apply_all(m, cs), b).len() == 0
        }),
{
    let b = want->Bool_0;
    let cs = ClassicContextMenuTweak::planned(m, b);
    let inproc = m.has_key(crate::provider::Hive::CurrentUser, INPROC@);
    if b != inproc {
        reveal_with_fuel(apply_all, 4);
        let m1 = apply_change(m, cs[0]);
        let m2 = apply_change(m1, cs[1]);
        let m3 = apply_change(m2, cs[2]);
        assert(cs.drop_first().drop_first().drop_first() =~= Seq::<ChangeV>::empty());
        assert(apply_all(m, cs) == m3);
        let target = fold_case(INPROC@);
        if b {
            assert(m2.keys.contains((crate::provider::Hive::CurrentUser, target)));
            assert(m3.keys.contains((crate::provider::Hive::CurrentUser, target)));
        } else {
            assert(crate::provider::covered(target, target));
            assert(!m2.keys.contains((crate::provider::Hive::CurrentUser, target)));
            assert(!m3.keys.contains((crate::provider::Hive::CurrentUser, target)));
        }
    }
}

/// Undoing a tweak's plan after carrying it out puts back every value it
/// found, absent ones included, for the tweaks that only write values.
pub proof fn lemma_plan_undone(
    t: TweakKind,
    m: RegModel,
    want: ValueV,
    shades: AccentShades,
    exists: bool,
)
    requires
        t.planned_set(m, want, shades, exists) is Some,
        !(t is ClassicMenu),
    ensures
        ({
            let cs = t.planned_set(m, want, shades, exists).unwrap().0;
            apply_all(apply_all(m, cs), undo_of(cs)).values == m.values
        }),
{
    let cs = t.planned_set(m, want, shades, exists).unwrap().0;
    t.lemma_planned_is_set_all(m, want, shades, exists);
    t.lemma_locs_distinct();
    lemma_set_all_faithful(m, t.value_locs(), t.value_vals(m, want, shades));
    lemma_revert_restores_values(m, cs);
}


/// Every change of the batch is a value change that remembers what `m` held.
proof fn lemma_set_all_anchored(m: RegModel, locs: Seq<LocV>, vals: Seq<RegValueV>)
    ensures
        forall|i: int|
            0 <= i < set_all(m, locs, vals).len() ==> (#[trigger] set_all(m, locs, vals)[i] matches ChangeV::Value {
                loc,
                from,
                ..
            } && from == m.value_at(loc)),
    decreases locs.len(),
{
    if locs.len() > 0 && vals.len() > 0 {
        let a = set_all(m, locs.drop_last(), vals.drop_last());
        let b = set_value(m, locs.last(), vals.last());
        lemma_set_all_anchored(m, locs.drop_last(), vals.drop_last());
        assert forall|i: int| 0 <= i < (a + b).len() implies (#[trigger] (a + b)[i] matches ChangeV::Value {
            loc,
            from,
            ..
        } && from == m.value_at(loc)) by {
            if i < a.len() {
                assert((a + b)[i] == a[i]);
            } else {
                assert((a + b)[i] == b[i - a.len()]);
            }
        }
    }
}

/// The menu's keys can be switched to `on` and back without losing anything:
/// switching it on, a key that is not there yet has nothing beneath it;
/// switching it off, nothing lies beneath the CLSID key but the
/// `InprocServer32` default that the switch removes and puts back.
pub open spec fn menu_ready(m: RegModel, on: bool) -> bool {
    let clsid = m.has_key(Hive::CurrentUser, CLSID@);
    let inproc = m.has_key(Hive::CurrentUser, INPROC@);
    if on {
        &&& !clsid ==> bare(m, Hive::CurrentUser, CLSID@)
        &&& !inproc ==> bare(m, Hive::CurrentUser, INPROC@)
    } else {
        inproc ==> forall|k: ValueKey|
            #[trigger] under(k, Hive::CurrentUser, CLSID@) && held_at(m, k) is Some ==> k == value_key(
                ClassicContextMenuTweak::default_value(),
            )
    }
}

proof fn lemma_ascii_lower_concat(a: Seq<char>, b: Seq<char>)
    ensures
        ascii_lower(a + b) == ascii_lower(a) + ascii_lower(b),
{
    assert(ascii_lower(a + b) =~= ascii_lower(a) + ascii_lower(b));
}

/// What lies beneath `InprocServer32` lies beneath the CLSID key.
pub(crate) proof fn lemma_inproc_in_clsid(k: ValueKey)
    requires
        under(k, Hive::CurrentUser, INPROC@),
    ensures
        under(k, Hive::CurrentUser, CLSID@),
{
    reveal_strlit("Software\\Classes\\CLSID\\{86ca1aa0-34aa-4e8b-a509-50c905bae2a2}");
    reveal_strlit("Software\\Classes\\CLSID\\{86ca1aa0-34aa-4e8b-a509-50c905bae2a2}\\InprocServer32");
    reveal_strlit("\\InprocServer32");
    let c = CLSID@;
    let tail = "\\InprocServer32"@;
    assert(INPROC@ =~= c + tail);
    assert(is_ascii_text(c));
    assert(is_ascii_text(tail));
    assert(is_ascii_text(c + tail));
    lemma_ascii_lower_concat(c, tail);
    let fc = fold_case(c);
    let fi = fold_case(INPROC@);
    assert(fi == fc + ascii_lower(tail));
    assert(ascii_lower(tail)[0] == '\\');
    let x = k.1;
    assert(covered(fi, x));
    assert(starts_with(x, fc.push('\\'))) by {
        assert(fi.take(fc.len() as int + 1) =~= fc.push('\\'));
        if x == fi {
        } else {
            assert(starts_with(x, fi.push('\\')));
            assert(x.take(fi.len() as int + 1) == fi.push('\\'));
            assert(x.take(fc.len() as int + 1) =~= fi.push('\\').take(fc.len() as int + 1));
            assert(fi.push('\\').take(fc.len() as int + 1) =~= fi.take(fc.len() as int + 1));
        }
    }
}

/// The batch a setting plans on `m` can be undone back to `m`, after anything
/// that can itself be undone back to `m`.
pub(crate) proof fn lemma_batch_undoable(
    t: TweakKind,
    m: RegModel,
    want: ValueV,
    shades: AccentShades,
    exists: bool,
    e: Seq<ChangeV>,
)
    requires
        t.planned_set(m, want, shades, exists) is Some,
        undoable(m, e),
        t is ClassicMenu && want is Bool ==> menu_ready(m, want->Bool_0),
    ensures
        undoable(m, e + t.planned_set(m, want, shades, exists).unwrap().0),
{
    let cs = t.planned_set(m, want, shades, exists).unwrap().0;
    if !(t is ClassicMenu) {
        t.lemma_planned_is_set_all(m, want, shades, exists);
        lemma_set_all_anchored(m, t.value_locs(), t.value_vals(m, want, shades));
        assert forall|j: int| 0 <= j < cs.len() implies #[trigger] undoable_step(m, e + cs, e.len() + j) by {
            assert((e + cs)[e.len() + j] == cs[j]);
        }
        lemma_undoable_append(m, e, cs);
    } else {
        lemma_menu_undoable(m, want->Bool_0, e);
    }
}

proof fn lemma_menu_undoable(m: RegModel, on: bool, e: Seq<ChangeV>)
    requires
        undoable(m, e),
        menu_ready(m, on),
    ensures
        undoable(m, e + ClassicContextMenuTweak::planned(m, on)),
{
    let cs = ClassicContextMenuTweak::planned(m, on);
    let hk = Hive::CurrentUser;
    let inproc = m.has_key(hk, INPROC@);
    let dk = value_key(ClassicContextMenuTweak::default_value());
    assert(under(dk, hk, INPROC@)) by {
        assert(covered(fold_case(INPROC@), fold_case(INPROC@)));
    }
    if on == inproc {
        assert(cs =~= Seq::<ChangeV>::empty());
        assert(e + cs =~= e);
    } else {
        let all = e + cs;
        let n: int = e.len() as int;
        assert(all[n] == cs[0]);
        assert(all[n + 1] == cs[1]);
        assert(all[n + 2] == cs[2]);
        assert(all.take(n) =~= e);
        assert(all.take(n + 1) =~= e.push(cs[0]));
        assert(all.take(n + 2) =~= e.push(cs[0]).push(cs[1]));
        let base = apply_all(m, e);
        lemma_apply_concat(m, e, seq![cs[0]]);
        assert(e + seq![cs[0]] =~= e.push(cs[0]));
        assert(seq![cs[0]].drop_first() =~= Seq::<ChangeV>::empty());
        assert(apply_all(base, seq![cs[0]]) == apply_all(apply_change(base, seq![cs[0]][0]), seq![cs[0]].drop_first()));
        let a1 = apply_change(base, cs[0]);
        assert(apply_all(m, e.push(cs[0])) == a1);
        lemma_apply_concat(m, e.push(cs[0]), seq![cs[1]]);
        assert(e.push(cs[0]) + seq![cs[1]] =~= e.push(cs[0]).push(cs[1]));
        assert(seq![cs[1]].drop_first() =~= Seq::<ChangeV>::empty());
        assert(apply_all(a1, seq![cs[1]]) == apply_all(apply_change(a1, seq![cs[1]][0]), seq![cs[1]].drop_first()));
        let a2 = apply_change(a1, cs[1]);
        assert(apply_all(m, e.push(cs[0]).push(cs[1])) == a2);
        if on {
            // Switching on: the keys come first, then the value.
            assert(undoable_step(m, all, n));
            assert(undoable_step(m, all, n + 1));
            assert(held_at(m, dk) is None);
            assert(undoable_step(m, all, n + 2));
        } else {
            assert(undoable_step(m, all, n));
            assert forall|k: ValueKey| #[trigger] under(k, hk, INPROC@) implies held_at(m, k) is None || held_at(a1, k) is None by {
                lemma_inproc_in_clsid(k);
                if k == dk {
                    assert(held_at(a1, k) is None);
                }
            }
            assert(undoable_step(m, all, n + 1));
            assert forall|k: ValueKey| #[trigger] under(k, hk, CLSID@) implies held_at(m, k) is None || held_at(a2, k) is None by {
                if k == dk {
                    assert(held_at(a2, k) is None);
                }
            }
            assert(undoable_step(m, all, n + 2));
        }
        assert forall|j: int| 0 <= j < cs.len() implies #[trigger] undoable_step(m, e + cs, e.len() + j) by {
            assert(j == 0 || j == 1 || j == 2);
        }
        lemma_undoable_append(m, e, cs);
    }
}


/// Every change of the batch is a value change at one of the locations.
proof fn lemma_set_all_at(m: RegModel, locs: Seq<LocV>, vals: Seq<RegValueV>)
    ensures
        forall|k: int|
            0 <= k < set_all(m, locs, vals).len() ==> exists|a: int|
                #![trigger locs[a]]
                0 <= a < locs.len() && (#[trigger] set_all(m, locs, vals)[k] matches ChangeV::Value {
                    loc,
                    ..
                } && loc == locs[a]),
    decreases locs.len(),
{
    if locs.len() > 0 && vals.len() > 0 {
        let front = locs.drop_last();
        let a = set_all(m, front, vals.drop_last());
        let b = set_value(m, locs.last(), vals.last());
        lemma_set_all_at(m, front, vals.drop_last());
        assert forall|k: int| 0 <= k < (a + b).len() implies exists|x: int|
            #![trigger locs[x]]
            0 <= x < locs.len() && ((#[trigger] (a + b)[k]) matches ChangeV::Value { loc, .. } && loc
                == locs[x]) by {
            if k < a.len() {
                assert((a + b)[k] == a[k]);
                let x = choose|x: int|
                    #![trigger front[x]]
                    0 <= x < front.len() && (a[k] matches ChangeV::Value { loc, .. } && loc == front[x]);
                assert(front[x] == locs[x]);
            } else {
                assert((a + b)[k] == b[k - a.len()]);
                assert(locs[locs.len() - 1] == locs.last());
            }
        }
    }
}

/// A setting that only writes values writes them where it reads.
pub(crate) proof fn lemma_set_all_places(
    t: TweakKind,
    m: RegModel,
    want: ValueV,
    shades: AccentShades,
    exists: bool,
)
    requires
        t.planned_set(m, want, shades, exists) is Some,
        !(t is ClassicMenu),
    ensures
        forall|k: int|
            0 <= k < t.planned_set(m, want, shades, exists).unwrap().0.len() ==> exists|a: int|
                #![trigger t.footprint()[a]]
                0 <= a < t.footprint().len() && (#[trigger] t.planned_set(m, want, shades, exists).unwrap().0[k] matches ChangeV::Value {
                    loc,
                    ..
                } && loc == t.footprint()[a]),
{
    t.lemma_planned_is_set_all(m, want, shades, exists);
    let locs = t.value_locs();
    let cs = set_all(m, locs, t.value_vals(m, want, shades));
    lemma_set_all_at(m, locs, t.value_vals(m, want, shades));
    assert(t.footprint() == locs);
    assert forall|k: int| 0 <= k < cs.len() implies exists|a: int|
        #![trigger t.footprint()[a]]
        0 <= a < t.footprint().len() && (#[trigger] cs[k] matches ChangeV::Value { loc, .. } && loc
            == t.footprint()[a]) by {
        let a = choose|a: int|
            #![trigger locs[a]]
            0 <= a < locs.len() && (cs[k] matches ChangeV::Value { loc, .. } && loc == locs[a]);
        assert(t.footprint()[a] == locs[a]);
    }
}

} // verus!
