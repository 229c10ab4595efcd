//! What a setting is, and the reversible operations it plans.

use vstd::prelude::*;
use crate::os::{BuildRange, OsBuild, Support, SupportNote, gate, gated};
use crate::provider::{
    Hive, LocV, RegLoc, RegModel, RegValue, RegValueV, duplicate_opt, hive_short, key_key,
    covered, opt_view,
};
use crate::text::{decimal, fold_case, push_decimal, push_str, string_from};
use crate::value::ValueKind;

verus! {

#[derive(Debug, Clone, Copy, PartialEq, Eq, Structural)]
pub enum Category {
    Appearance,
    Taskbar,
    Start,
    Explorer,
    Desktop,
}

pub open spec fn category_id(c: Category) -> Seq<char> {
    match c {
        Category::Appearance => "appearance"@,
        Category::Taskbar => "taskbar"@,
        Category::Start => "start"@,
        Category::Explorer => "explorer"@,
        Category::Desktop => "desktop"@,
    }
}

impl Category {
    pub fn id(self) -> (r: &'static str)
        ensures
            r@ == category_id(self),
    {
        match self {
            Category::Appearance => "appearance",
            Category::Taskbar => "taskbar",
            Category::Start => "start",
            Category::Explorer => "explorer",
            Category::Desktop => "desktop",
        }
    }
}

/// The tier is part of the tweak definition so that "is this safe?" is
/// answered by the code, not by whoever reviews the change.
#[derive(Debug, Clone, Copy, PartialEq, Eq, Structural)]
pub enum Tier {
    /// Documented API or per-user registry value. No admin, survives updates.
    A,
    /// Undocumented or admin-level. Works today, gated by build number, shown
    /// with a warning.
    B,
    /// Binary patching or injection. Never implemented here — the variant
    /// exists so a plugin can declare itself honestly.
    C,
}

#[derive(Debug, Clone, Copy, PartialEq, Eq, Structural)]
pub enum Privilege {
    User,
    Elevated,
}

/// What has to happen for a change to become visible.
#[derive(Debug, Clone, Copy)]
pub enum Refresh {
    Nothing,
    /// `WM_SETTINGCHANGE` with the given area string, e.g. "ImmersiveColorSet".
    Broadcast(&'static str),
    /// Shell icons and context menus.
    AssocChanged,
    Cursors,
    /// The desktop is repainted with the wallpaper the registry names.
    Wallpaper,
    /// Explorer must be restarted. Always confirmed by the user first.
    RestartShell,
    /// Nothing we can do from here; the user must sign out and back in.
    SignOut,
}

pub open spec fn refresh_weight(r: Refresh) -> u8 {
    match r {
        Refresh::Nothing => 0,
        Refresh::Broadcast(_) => 1,
        Refresh::AssocChanged => 2,
        Refresh::Cursors => 2,
        Refresh::Wallpaper => 2,
        Refresh::RestartShell => 3,
        Refresh::SignOut => 4,
    }
}

impl Refresh {
    /// Ranked so a batch can pick the single strongest refresh it needs.
    pub fn weight(self) -> (r: u8)
        ensures
            r == refresh_weight(self),
    {
        match self {
            Refresh::Nothing => 0,
            Refresh::Broadcast(_) => 1,
            Refresh::AssocChanged => 2,
            Refresh::Cursors => 2,
            Refresh::Wallpaper => 2,
            Refresh::RestartShell => 3,
            Refresh::SignOut => 4,
        }
    }
}

/// One reversible operation. `from` is captured at plan time and is what the
/// journal replays to undo the change.
#[derive(Debug, Clone, PartialEq)]
pub enum Change {
    Value { loc: RegLoc, from: Option<RegValue>, to: Option<RegValue> },
    /// Creating or removing a key itself, where the *presence* of the key is
    /// the setting.
    Key { hive: Hive, path: String, from_present: bool, to_present: bool },
}

/// A [`Change`] as mathematics sees it.
pub enum ChangeV {
    Value { loc: LocV, from: Option<RegValueV>, to: Option<RegValueV> },
    Key { hive: Hive, path: Seq<char>, from_present: bool, to_present: bool },
}

impl View for Change {
    type V = ChangeV;

    open spec fn view(&self) -> ChangeV {
        match self {
            Change::Value { loc, from, to } => ChangeV::Value {
                loc: loc@,
                from: opt_view(*from),
                to: opt_view(*to),
            },
            Change::Key { hive, path, from_present, to_present } => ChangeV::Key {
                hive: *hive,
                path: path@,
                from_present: *from_present,
                to_present: *to_present,
            },
        }
    }
}

pub open spec fn changes_view(cs: Seq<Change>) -> Seq<ChangeV> {
    cs.map_values(|c: Change| c@)
}

/// The same operation in reverse.
pub open spec fn invert(c: ChangeV) -> ChangeV {
    match c {
        ChangeV::Value { loc, from, to } => ChangeV::Value { loc, from: to, to: from },
        ChangeV::Key { hive, path, from_present, to_present } => ChangeV::Key {
            hive,
            path,
            from_present: to_present,
            to_present: from_present,
        },
    }
}

/// What carrying out one change does to a registry.
pub open spec fn apply_change(m: RegModel, c: ChangeV) -> RegModel {
    match c {
        ChangeV::Value { loc, to, .. } => match to {
            Some(v) => m.with_value(loc, v),
            None => m.without_value(loc),
        },
        ChangeV::Key { hive, path, to_present, .. } => if to_present {
            m.with_key(hive, path)
        } else {
            m.without_key(hive, path)
        },
    }
}

/// What carrying out a batch of changes, in order, does to a registry.
pub open spec fn apply_all(m: RegModel, cs: Seq<ChangeV>) -> RegModel
    decreases cs.len(),
{
    if cs.len() == 0 {
        m
    } else {
        apply_all(apply_change(m, cs[0]), cs.drop_first())
    }
}

/// The undo of a batch: each change inverted, newest first.
pub open spec fn undo_of(cs: Seq<ChangeV>) -> Seq<ChangeV> {
    Seq::new(cs.len(), |i: int| invert(cs[cs.len() - 1 - i]))
}

/// Nothing lies beneath the key `target` of `hive` except, perhaps, the key itself.
pub open spec fn below_clear(m: RegModel, hive: Hive, target: Seq<char>) -> bool {
    &&& forall|k: (Hive, Seq<char>)|
        #![trigger m.keys.contains(k)]
        m.keys.contains(k) && k.0 == hive && covered(target, k.1) ==> k.1 == target
    &&& forall|k: (Hive, Seq<char>, Seq<char>)|
        #![trigger m.values.dom().contains(k)]
        m.values.dom().contains(k) ==> !(k.0 == hive && covered(target, k.1))
}

/// A change describes the registry it is carried out on: its `from` is what is
/// there, a value is written into a key that exists, and a key that comes or
/// goes has nothing beneath it.
pub open spec fn faithful(m: RegModel, c: ChangeV) -> bool {
    match c {
        ChangeV::Value { loc, from, .. } => m.value_at(loc) == from && m.has_key(loc.hive, loc.path),
        ChangeV::Key { hive, path, from_present, to_present } => m.has_key(hive, path)
            == from_present && ((from_present && to_present) || below_clear(
            m,
            hive,
            fold_case(path),
        )),
    }
}

/// Every change of the batch describes the registry it meets.
pub open spec fn faithful_batch(m: RegModel, cs: Seq<ChangeV>) -> bool
    decreases cs.len(),
{
    cs.len() == 0 || (faithful(m, cs[0]) && faithful_batch(apply_change(m, cs[0]), cs.drop_first()))
}

/// Inverting a change twice gives the change back.
pub proof fn lemma_invert_involutive(c: ChangeV)
    ensures
        invert(invert(c)) == c,
{
}

/// Undoing the undo of a batch is the batch itself.
pub proof fn lemma_undo_involutive(cs: Seq<ChangeV>)
    ensures
        undo_of(undo_of(cs)) == cs,
{
    assert(undo_of(undo_of(cs)) =~= cs);
}

/// Carrying out two batches one after the other is carrying out their concatenation.
pub proof fn lemma_apply_concat(m: RegModel, a: Seq<ChangeV>, b: Seq<ChangeV>)
    ensures
        apply_all(m, a + b) == apply_all(apply_all(m, a), b),
    decreases a.len(),
{
    if a.len() == 0 {
        assert(a + b =~= b);
    } else {
        assert((a + b).drop_first() =~= a.drop_first() + b);
        lemma_apply_concat(apply_change(m, a[0]), a.drop_first(), b);
    }
}

/// A faithful change followed by its inverse leaves the registry as it was.
pub proof fn lemma_step_undone(m: RegModel, c: ChangeV)
    requires
        faithful(m, c),
    ensures
        apply_change(apply_change(m, c), invert(c)) == m,
{
    match c {
        ChangeV::Value { loc, from, to } => {
            let k = crate::provider::value_key(loc);
            let m1 = apply_change(m, c);
            let m2 = apply_change(m1, invert(c));
            assert(m2.keys =~= m.keys);
            assert(m2.values =~= m.values);
        },
        ChangeV::Key { hive, path, from_present, to_present } => {
            let m1 = apply_change(m, c);
            let m2 = apply_change(m1, invert(c));
            let t = fold_case(path);
            assert(key_key(hive, path) == (hive, t));
            assert(covered(t, t));
            assert(m2.keys =~= m.keys);
            assert(m2.values =~= m.values);
        },
    }
}

/// Reverting is exact: carrying out a faithful batch and then its undo puts
/// every value and every key back as it was, absent ones included.
pub proof fn lemma_revert_exact(m: RegModel, cs: Seq<ChangeV>)
    requires
        faithful_batch(m, cs),
    ensures
        apply_all(apply_all(m, cs), undo_of(cs)) == m,
    decreases cs.len(),
{
    if cs.len() > 0 {
        let c = cs[0];
        let rest = cs.drop_first();
        let m1 = apply_change(m, c);
        lemma_revert_exact(m1, rest);
        assert(undo_of(cs) =~= undo_of(rest) + seq![invert(c)]);
        lemma_apply_concat(apply_all(m1, rest), undo_of(rest), seq![invert(c)]);
        lemma_step_undone(m, c);
        assert(apply_all(m, cs) == apply_all(m1, rest));
        let one = seq![invert(c)];
        assert(one.drop_first() =~= Seq::<ChangeV>::empty());
        assert(apply_all(apply_change(m1, one[0]), one.drop_first()) == apply_change(m1, invert(c)));
        assert(apply_all(m1, one) == apply_change(m1, invert(c)));
    } else {
        assert(undo_of(cs) =~= Seq::<ChangeV>::empty());
    }
}

} // verus!

verus! {

/// How a value appears in a change description.
pub open spec fn shown(v: Option<RegValueV>) -> Seq<char> {
    match v {
        None => "(not set)"@,
        Some(RegValueV::Dword(d)) => decimal(d as nat),
        Some(RegValueV::Sz(s)) => seq!['"'] + s + seq!['"'],
        Some(RegValueV::ExpandSz(s)) => seq!['"'] + s + seq!['"'],
        Some(RegValueV::Binary(b)) => decimal(b.len()) + " bytes"@,
    }
}

pub open spec fn presence(p: bool) -> Seq<char> {
    if p {
        "exists"@
    } else {
        "absent"@
    }
}

/// `HKCU\path\\name: 1 -> 0`, or `HKCU\path: absent -> exists`.
pub open spec fn change_text(c: ChangeV) -> Seq<char> {
    match c {
        ChangeV::Value { loc, from, to } => crate::provider::loc_text(loc) + ": "@ + shown(from)
            + " -> "@ + shown(to),
        ChangeV::Key { hive, path, from_present, to_present } => hive_short(hive) + seq!['\\']
            + path + ": "@ + presence(from_present) + " -> "@ + presence(to_present),
    }
}

fn push_shown(s: &mut String, v: &Option<RegValue>)
    ensures
        final(s)@ == old(s)@ + shown(opt_view(*v)),
{
    match v {
        None => push_str(s, "(not set)"),
        Some(RegValue::Dword(d)) => push_decimal(s, *d as u64),
        Some(RegValue::Sz(t)) => {
            push_str(s, "\"");
            push_str(s, t.as_str());
            push_str(s, "\"");
            proof {
                reveal_strlit("\"");
            }
        },
        Some(RegValue::ExpandSz(t)) => {
            push_str(s, "\"");
            push_str(s, t.as_str());
            push_str(s, "\"");
            proof {
                reveal_strlit("\"");
            }
        },
        Some(RegValue::Binary(b)) => {
            push_decimal(s, b.len() as u64);
            push_str(s, " bytes");
        },
    }
    proof {
        assert(final(s)@ =~= old(s)@ + shown(opt_view(*v)));
    }
}

fn presence_str(p: bool) -> (r: &'static str)
    ensures
        r@ == presence(p),
{
    if p {
        "exists"
    } else {
        "absent"
    }
}

impl Change {
    pub fn duplicate(&self) -> (r: Self)
        ensures
            r@ == self@,
    {
        match self {
            Change::Value { loc, from, to } => Change::Value {
                loc: loc.duplicate(),
                from: duplicate_opt(from),
                to: duplicate_opt(to),
            },
            Change::Key { hive, path, from_present, to_present } => Change::Key {
                hive: *hive,
                path: path.clone(),
                from_present: *from_present,
                to_present: *to_present,
            },
        }
    }

    /// The same operation in reverse. Undo is just apply, backwards.
    pub fn inverted(&self) -> (r: Change)
        ensures
            r@ == invert(self@),
    {
        match self {
            Change::Value { loc, from, to } => Change::Value {
                loc: loc.duplicate(),
                from: duplicate_opt(to),
                to: duplicate_opt(from),
            },
            Change::Key { hive, path, from_present, to_present } => Change::Key {
                hive: *hive,
                path: path.clone(),
                from_present: *to_present,
                to_present: *from_present,
            },
        }
    }

    pub fn describe(&self) -> (r: String)
        ensures
            r@ == change_text(self@),
    {
        let mut s = String::new();
        match self {
            Change::Value { loc, from, to } => {
                let l = loc.text();
                push_str(&mut s, l.as_str());
                push_str(&mut s, ": ");
                push_shown(&mut s, from);
                push_str(&mut s, " -> ");
                push_shown(&mut s, to);
            },
            Change::Key { hive, path, from_present, to_present } => {
                push_str(&mut s, hive.short());
                push_str(&mut s, "\\");
                push_str(&mut s, path.as_str());
                push_str(&mut s, ": ");
                push_str(&mut s, presence_str(*from_present));
                push_str(&mut s, " -> ");
                push_str(&mut s, presence_str(*to_present));
                proof {
                    reveal_strlit("\\");
                }
            },
        }
        proof {
            assert(s@ =~= change_text(self@));
        }
        s
    }
}

/// A copy of a list of changes.
pub fn duplicate_changes(cs: &Vec<Change>) -> (r: Vec<Change>)
    ensures
        changes_view(r@) == changes_view(cs@),
{
    let mut r: Vec<Change> = Vec::new();
    let mut i: usize = 0;
    while i < cs.len()
        invariant
            i <= cs.len(),
            r.len() == i,
            forall|j: int| 0 <= j < i ==> #[trigger] r@[j]@ == cs@[j]@,
        decreases cs.len() - i,
    {
        r.push(cs[i].duplicate());
        i += 1;
    }
    proof {
        assert(changes_view(r@) =~= changes_view(cs@));
    }
    r
}

/// Everything one tweak wants to change, plus how to make it visible.
#[derive(Debug, Clone)]
pub struct ChangeSet {
    pub tweak: String,
    pub changes: Vec<Change>,
    pub refresh: Refresh,
}

impl ChangeSet {
    pub fn nothing(tweak: &str) -> (r: Self)
        ensures
            r.tweak@ == tweak@,
            r.changes@.len() == 0,
            changes_view(r.changes@) == Seq::<ChangeV>::empty(),
            r.refresh == Refresh::Nothing,
    {
        let r = ChangeSet { tweak: string_from(tweak), changes: Vec::new(), refresh: Refresh::Nothing };
        assert(changes_view(r.changes@) =~= Seq::<ChangeV>::empty());
        r
    }

    pub fn is_empty(&self) -> (r: bool)
        ensures
            r == (self.changes@.len() == 0),
    {
        self.changes.len() == 0
    }
}

/// A single setting, described: what it is called, how risky it is, which
/// builds have it and how a change to it is made visible.
///
/// Reading and planning are done by the built-in tweak types themselves (see
/// [`crate::tweaks`]); this trait is what the UI and the gating see.
pub trait Tweak {
    /// The builds the tweak is offered on, as [`builds`](Tweak::builds) gives them.
    spec fn build_range(&self) -> BuildRange;

    fn id(&self) -> &'static str;

    fn category(&self) -> Category;

    fn tier(&self) -> Tier;

    fn value_kind(&self) -> ValueKind;

    fn builds(&self) -> (r: BuildRange)
        ensures
            r == self.build_range(),
    ;

    fn refresh(&self) -> Refresh;

    fn privilege(&self) -> (r: Privilege)
        default_ensures
            r == Privilege::User,
    {
        Privilege::User
    }

    /// Overridable for tweaks whose caveat is more subtle than a build range.
    fn support(&self, os: &OsBuild) -> (r: Support)
        default_ensures
            gated(self.build_range(), None, os.build, r),
    {
        gate(self.builds(), None, os.build)
    }
}

/// The description the UI renders. Built from a tweak plus the current OS, so
/// support notes are resolved once on this side.
#[derive(Debug, Clone)]
pub struct TweakInfo {
    pub id: &'static str,
    pub category: Category,
    pub tier: Tier,
    pub kind: ValueKind,
    pub privilege: Privilege,
    pub refresh: Refresh,
    pub support: Support,
}

/// A tweak plus its value on this machine right now.
#[derive(Debug, Clone)]
pub struct TweakState {
    pub info: TweakInfo,
    pub value: Option<crate::value::Value>,
    /// Set when reading failed — the UI shows the row disabled with this text
    /// rather than pretending the setting is off.
    pub error: Option<String>,
}

} // verus!

verus! {

/// `b` holds every value of `a` and no other, and at least the keys of `a`.
pub open spec fn same_values_more_keys(a: RegModel, b: RegModel) -> bool {
    a.values == b.values && a.keys.subset_of(b.keys)
}

/// Like [`faithful`], but a value may be written into a key that does not
/// exist yet — the key is then created along with it and outlives the undo.
pub open spec fn faithful_value(m: RegModel, c: ChangeV) -> bool {
    match c {
        ChangeV::Value { loc, from, .. } => m.value_at(loc) == from,
        ChangeV::Key { .. } => faithful(m, c),
    }
}

pub open spec fn faithful_value_batch(m: RegModel, cs: Seq<ChangeV>) -> bool
    decreases cs.len(),
{
    cs.len() == 0 || (faithful_value(m, cs[0]) && faithful_value_batch(
        apply_change(m, cs[0]),
        cs.drop_first(),
    ))
}

proof fn lemma_related_step(a: RegModel, b: RegModel, c: ChangeV)
    requires
        same_values_more_keys(a, b),
    ensures
        same_values_more_keys(apply_change(a, c), apply_change(b, c)),
{
    let a1 = apply_change(a, c);
    let b1 = apply_change(b, c);
    assert(a1.values =~= b1.values);
    assert(a1.keys.subset_of(b1.keys));
}

proof fn lemma_related_all(a: RegModel, b: RegModel, cs: Seq<ChangeV>)
    requires
        same_values_more_keys(a, b),
    ensures
        same_values_more_keys(apply_all(a, cs), apply_all(b, cs)),
    decreases cs.len(),
{
    if cs.len() > 0 {
        lemma_related_step(a, b, cs[0]);
        lemma_related_all(apply_change(a, cs[0]), apply_change(b, cs[0]), cs.drop_first());
    }
}

proof fn lemma_step_undone_values(m: RegModel, c: ChangeV)
    requires
        faithful_value(m, c),
    ensures
        same_values_more_keys(m, apply_change(apply_change(m, c), invert(c))),
{
    match c {
        ChangeV::Value { .. } => {
            let m2 = apply_change(apply_change(m, c), invert(c));
            assert(m2.values =~= m.values);
            assert(m.keys.subset_of(m2.keys));
        },
        ChangeV::Key { .. } => {
            lemma_step_undone(m, c);
        },
    }
}

/// The revert a journal makes restores every value exactly — those that were
/// absent are absent again — even where a write had to create the key that
/// holds it; such a key is all that can remain.
pub proof fn lemma_revert_restores_values(m: RegModel, cs: Seq<ChangeV>)
    requires
        faithful_value_batch(m, cs),
    ensures
        apply_all(apply_all(m, cs), undo_of(cs)).values == m.values,
        m.keys.subset_of(apply_all(apply_all(m, cs), undo_of(cs)).keys),
    decreases cs.len(),
{
    if cs.len() > 0 {
        let c = cs[0];
        let rest = cs.drop_first();
        let m1 = apply_change(m, c);
        lemma_revert_restores_values(m1, rest);
        let z = apply_all(apply_all(m1, rest), undo_of(rest));
        assert(same_values_more_keys(m1, z));
        assert(undo_of(cs) =~= undo_of(rest) + seq![invert(c)]);
        lemma_apply_concat(apply_all(m1, rest), undo_of(rest), seq![invert(c)]);
        assert(apply_all(m, cs) == apply_all(m1, rest));
        let one = seq![invert(c)];
        assert(one.drop_first() =~= Seq::<ChangeV>::empty());
        assert(apply_all(apply_change(z, one[0]), one.drop_first()) == apply_change(z, invert(c)));
        assert(apply_all(z, one) == apply_change(z, invert(c)));
        lemma_related_step(m1, z, invert(c));
        lemma_step_undone_values(m, c);
        let back = apply_change(m1, invert(c));
        let fin = apply_change(z, invert(c));
        assert(same_values_more_keys(m, back));
        assert(same_values_more_keys(back, fin));
        assert(m.keys.subset_of(fin.keys));
    } else {
        assert(undo_of(cs) =~= Seq::<ChangeV>::empty());
        assert(m.keys.subset_of(m.keys));
    }
}

} // verus!
