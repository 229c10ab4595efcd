//! Planning, applying and reverting: the only path from a wanted setting to a
//! write, which is why journalling and rollback exist once rather than once
//! per setting.

use vstd::prelude::*;
use crate::error::Error;
use crate::journal::{EntryV, JournalEntry, JournalStore, Kept, Status, handed_part, kept_for, strings_view};
use crate::os::{BuildRange, OsBuild, in_range, unsupported_reason};
use crate::provider::{LocV, RegModel, RegistryProvider, ShellCall, ShellRefresher, loc_text};
use crate::text::{chars_of, lex_less, push_char, push_str, str_less, string_from, string_of};
use crate::tweak::{invert, 
    Change, ChangeV, Privilege, Refresh, Tier, TweakInfo, TweakState, apply_all, apply_change, changes_view,
    duplicate_changes, undo_of,
};
use crate::tweaks::appearance::AccentShades;
use crate::tweaks::helpers::names_joined;
use crate::tweaks::desktop::{is_absolute, is_ascii_letter, is_separator, path_is_absolute, refusal};
use crate::tweaks::{TweakKind, TweakRegistry, find_tweak, refresh_if};
use crate::tweaks::settle::{lemma_batch_undoable, menu_ready};
use crate::tweaks::frame::{agree_on, apart, lemma_agree_symm, lemma_agree_trans, lemma_batch_foreign, lemma_batch_keeps_agreement, lemma_foreign_batch, lemma_frame};
use crate::undo::{lemma_undo_restores_values, undoable, undoable_step};
use crate::tweak::lemma_apply_concat;
use crate::value::{Color, Value, ValueV};

verus! {

pub struct PlanItem {
    pub tweak: String,
    pub from: Value,
    pub to: Value,
    pub tier: Tier,
    pub privilege: Privilege,
    pub refresh: Refresh,
    pub changes: Vec<Change>,
}

/// A [`PlanItem`] as mathematics sees it.
pub struct ItemV {
    pub tweak: Seq<char>,
    pub from: ValueV,
    pub to: ValueV,
    pub tier: Tier,
    pub privilege: Privilege,
    pub refresh: Refresh,
    pub changes: Seq<ChangeV>,
}

impl View for PlanItem {
    type V = ItemV;

    open spec fn view(&self) -> ItemV {
        ItemV {
            tweak: self.tweak@,
            from: self.from@,
            to: self.to@,
            tier: self.tier,
            privilege: self.privilege,
            refresh: self.refresh,
            changes: changes_view(self.changes@),
        }
    }
}

pub struct Skipped {
    pub tweak: String,
    /// English, always present — the command line prints this.
    pub reason: String,
    /// Set when the reason came from a support note, so the UI can show it in
    /// the user's language instead.
    pub reason_key: Option<&'static str>,
}

/// A [`Skipped`] as mathematics sees it.
pub struct SkipV {
    pub tweak: Seq<char>,
    pub reason: Seq<char>,
    pub reason_key: Option<Seq<char>>,
}

impl View for Skipped {
    type V = SkipV;

    open spec fn view(&self) -> SkipV {
        SkipV {
            tweak: self.tweak@,
            reason: self.reason@,
            reason_key: match self.reason_key {
                Some(k) => Some(k@),
                None => None,
            },
        }
    }
}

/// What would happen, worked out without touching anything. The UI shows this
/// verbatim before the user commits.
pub struct Plan {
    pub label: String,
    pub items: Vec<PlanItem>,
    pub skipped: Vec<Skipped>,
    pub needs_elevation: bool,
    pub needs_shell_restart: bool,
    pub needs_sign_out: bool,
}

pub open spec fn items_view(items: Seq<PlanItem>) -> Seq<ItemV> {
    items.map_values(|i: PlanItem| i@)
}

pub open spec fn skips_view(skipped: Seq<Skipped>) -> Seq<SkipV> {
    skipped.map_values(|s: Skipped| s@)
}

/// Every change of the items, in order.
pub open spec fn all_changes(items: Seq<ItemV>) -> Seq<ChangeV>
    decreases items.len(),
{
    if items.len() == 0 {
        Seq::empty()
    } else {
        all_changes(items.drop_last()) + items.last().changes
    }
}

/// The number of changes of the items.
pub open spec fn change_total(items: Seq<ItemV>) -> nat
    decreases items.len(),
{
    if items.len() == 0 {
        0
    } else {
        change_total(items.drop_last()) + items.last().changes.len()
    }
}

pub open spec fn any_elevated(items: Seq<ItemV>) -> bool {
    exists|i: int| 0 <= i < items.len() && #[trigger] items[i].privilege == Privilege::Elevated
}

pub open spec fn any_refresh_restart(items: Seq<ItemV>) -> bool {
    exists|i: int| 0 <= i < items.len() && #[trigger] items[i].refresh is RestartShell
}

pub open spec fn any_refresh_sign_out(items: Seq<ItemV>) -> bool {
    exists|i: int| 0 <= i < items.len() && #[trigger] items[i].refresh is SignOut
}

impl Plan {
    pub fn is_empty(&self) -> (r: bool)
        ensures
            r == (self.items@.len() == 0),
    {
        self.items.len() == 0
    }

    /// How many registry operations applying the plan takes.
    pub fn change_count(&self) -> (r: usize)
        requires
            change_total(items_view(self.items@)) <= usize::MAX,
        ensures
            r == change_total(items_view(self.items@)),
    {
        let mut n: usize = 0;
        let mut i: usize = 0;
        while i < self.items.len()
            invariant
                i <= self.items.len(),
                change_total(items_view(self.items@)) <= usize::MAX,
                n == change_total(items_view(self.items@.take(i as int))),
            decreases self.items.len() - i,
        {
            proof {
                let next = items_view(self.items@.take(i + 1));
                assert(next.drop_last() =~= items_view(self.items@.take(i as int)));
                assert(next.last() == self.items@[i as int]@);
                assert(items_view(self.items@).take(i + 1) =~= next);
                lemma_change_total_prefix(items_view(self.items@), i + 1);
            }
            n = n + self.items[i].changes.len();
            i += 1;
        }
        proof {
            assert(self.items@.take(i as int) =~= self.items@);
        }
        n
    }
}

proof fn lemma_change_total_prefix(items: Seq<ItemV>, n: int)
    requires
        0 <= n <= items.len(),
    ensures
        change_total(items.take(n)) <= change_total(items),
    decreases items.len(),
{
    if n < items.len() {
        assert(items.drop_last().take(n) =~= items.take(n));
        lemma_change_total_prefix(items.drop_last(), n);
    } else {
        assert(items.take(n) =~= items);
    }
}

/// What applying a plan did.
pub struct ApplyReport {
    pub entry: JournalEntry,
    /// True when the user still has to agree to restart Explorer for the change
    /// to show up. Explorer is never restarted behind their back.
    pub shell_restart_pending: bool,
    pub sign_out_pending: bool,
}

/// What becomes of one wanted setting when a plan is made.
pub enum Fate {
    Skip(SkipV),
    Item(ItemV),
    /// Already in the wanted state.
    Unchanged,
    /// The value is not one the setting can take; the whole plan is refused.
    Fail,
}

impl TweakKind {
    /// The changes planning `want` makes, and their refresh, when the accent
    /// shades are `shades` and a wallpaper file exists as `exists` says; or
    /// `None` when `want` is refused.
    pub open spec fn planned_set(
        self,
        m: RegModel,
        want: ValueV,
        shades: AccentShades,
        exists: bool,
    ) -> Option<(Seq<ChangeV>, Refresh)> {
        match (self, want) {
            (TweakKind::Bool(t), ValueV::Bool(b)) => Some(
                (t.planned(m, b), refresh_if(t.planned(m, b).len(), t.refresh)),
            ),
            (TweakKind::Choice(t), ValueV::Str(c)) => match t.planned(m, c) {
                Some(cs) => Some((cs, refresh_if(cs.len(), t.refresh))),
                None => None,
            },
            (TweakKind::DarkMode(_), ValueV::Bool(b)) => Some(
                (
                    crate::tweaks::appearance::DarkModeTweak::planned(m, b),
                    Refresh::Broadcast("ImmersiveColorSet"),
                ),
            ),
            (TweakKind::Accent(_), ValueV::Color(base)) => Some(
                (
                    crate::tweaks::appearance::AccentColorTweak::planned(m, base, shades),
                    Refresh::Broadcast("ImmersiveColorSet"),
                ),
            ),
            (TweakKind::ClassicMenu(_), ValueV::Bool(b)) => Some(
                (
                    crate::tweaks::explorer::ClassicContextMenuTweak::planned(m, b),
                    refresh_if(
                        crate::tweaks::explorer::ClassicContextMenuTweak::planned(m, b).len(),
                        Refresh::RestartShell,
                    ),
                ),
            ),
            (TweakKind::Wallpaper(_), ValueV::Str(p)) => if refusal(p, exists) is None {
                Some(
                    (
                        crate::tweaks::desktop::WallpaperTweak::planned(m, p),
                        Refresh::Wallpaper,
                    ),
                )
            } else {
                None
            },
            _ => None,
        }
    }

    /// A plan that came back is the one [`planned_set`](Self::planned_set)
    /// describes, and on a reliable registry one comes back exactly when it
    /// describes one.
    pub proof fn lemma_outcome_planned(
        self,
        r: Result<crate::tweak::ChangeSet, Error>,
        m: RegModel,
        reliable: bool,
        want: ValueV,
        shades: AccentShades,
        exists: bool,
    )
        requires
            self.outcome(r, m, reliable, want, shades, exists),
        ensures
            r matches Ok(set) ==> set.tweak@ == self.id_of() && self.planned_set(
                m,
                want,
                shades,
                exists,
            ) == Some((changes_view(set.changes@), set.refresh)),
            reliable ==> (r is Ok <==> self.planned_set(m, want, shades, exists) is Some),
            self.planned_set(m, want, shades, exists) is None ==> r is Err,
    {
    }
}

/// The fate of the wanted setting `id = want` among the tweaks `ts`, on `build`
/// and the registry `m`, when the outside answers are `shades` and `exists`.
pub open spec fn fate(
    ts: Seq<TweakKind>,
    build: u32,
    m: RegModel,
    id: Seq<char>,
    want: ValueV,
    shades: AccentShades,
    exists: bool,
) -> Fate {
    match find_tweak(ts, id) {
        None => Fate::Skip(
            SkipV {
                tweak: id,
                reason: "This build of the app does not know the setting `"@ + id + "`."@,
                reason_key: Some("unknown_setting"@),
            },
        ),
        Some(i) => {
            let t = ts[i];
            if !in_range(t.builds_of(), build) {
                Fate::Skip(
                    SkipV {
                        tweak: id,
                        reason: unsupported_reason(t.builds_of(), build).1,
                        reason_key: Some(unsupported_reason(t.builds_of(), build).0),
                    },
                )
            } else {
                match t.reading(m) {
                    Err(d) => Fate::Skip(
                        SkipV {
                            tweak: id,
                            reason: "Could not read the current value: "@
                                + "unexpected registry state at "@ + loc_text(t.read_loc())
                                + ": "@ + d,
                            reason_key: None,
                        },
                    ),
                    Ok(from) => match t.planned_set(m, want, shades, exists) {
                        None => Fate::Fail,
                        Some((cs, rf)) => if cs.len() == 0 {
                            Fate::Unchanged
                        } else {
                            Fate::Item(
                                ItemV {
                                    tweak: id,
                                    from,
                                    to: want,
                                    tier: t.tier_of(),
                                    privilege: t.privilege_of(),
                                    refresh: rf,
                                    changes: cs,
                                },
                            )
                        },
                    },
                }
            }
        },
    }
}

/// The items among the fates, in order.
pub open spec fn items_of(fs: Seq<Fate>) -> Seq<ItemV>
    decreases fs.len(),
{
    if fs.len() == 0 {
        Seq::empty()
    } else {
        items_of(fs.drop_last()) + match fs.last() {
            Fate::Item(it) => seq![it],
            _ => Seq::empty(),
        }
    }
}

/// The skipped settings among the fates, in order.
pub open spec fn skips_of(fs: Seq<Fate>) -> Seq<SkipV>
    decreases fs.len(),
{
    if fs.len() == 0 {
        Seq::empty()
    } else {
        skips_of(fs.drop_last()) + match fs.last() {
            Fate::Skip(s) => seq![s],
            _ => Seq::empty(),
        }
    }
}

pub open spec fn has_fail(fs: Seq<Fate>) -> bool {
    exists|i: int| 0 <= i < fs.len() && #[trigger] fs[i] is Fail
}

/// The wanted settings name each setting once, in the order `String` sorts
/// by, as the keys of a sorted map do.
pub open spec fn ids_ascending(wants: Seq<(Seq<char>, ValueV)>) -> bool {
    forall|i: int, j: int| 0 <= i < j < wants.len() ==> lex_less(#[trigger] wants[i].0, #[trigger] wants[j].0)
}

/// The view of the wanted settings.
pub open spec fn wants_view(desired: Seq<(String, Value)>) -> Seq<(Seq<char>, ValueV)> {
    desired.map_values(|p: (String, Value)| (p.0@, p.1@))
}

/// The plan `r` is what planning `label` gives for the fates `fs` of the
/// first of `n` wanted settings: refused at a failure, with that setting's own
/// error, once every setting before it is settled; and otherwise, when all `n`
/// are settled, every item and every skipped setting in order, with the flags
/// they imply.
pub open spec fn plan_result(
    r: Result<Plan, Error>,
    label: Seq<char>,
    fs: Seq<Fate>,
    n: nat,
    fail: spec_fn(int, Error) -> bool,
) -> bool {
    match r {
        Err(e) => fs.len() > 0 && fs.last() is Fail && !has_fail(fs.drop_last()) && fail(
            fs.len() - 1,
            e,
        ),
        Ok(p) => fs.len() == n && !has_fail(fs) && p.label@ == label && items_view(p.items@)
            == items_of(fs) && skips_view(p.skipped@) == skips_of(fs) && p.needs_elevation
            == any_elevated(items_of(fs)) && p.needs_shell_restart == any_refresh_restart(
            items_of(fs),
        ) && p.needs_sign_out == any_refresh_sign_out(items_of(fs)),
    }
}

/// The shape every plan has, whatever the registry did: the label, and the
/// flags that follow from its items.
pub open spec fn well_formed_plan(p: Plan, label: Seq<char>) -> bool {
    &&& p.label@ == label
    &&& p.needs_elevation == any_elevated(items_view(p.items@))
    &&& p.needs_shell_restart == any_refresh_restart(items_view(p.items@))
    &&& p.needs_sign_out == any_refresh_sign_out(items_view(p.items@))
}

/// Whether `answer` is one the outside can give for `want`, where the setting
/// `id` is offered and readable here: shades the shading gives for an accent
/// colour, and what `is_file` says of a wallpaper's path.
pub open spec fn answer_fits<F: Fn(Color) -> AccentShades, G: Fn(&str) -> bool>(
    ts: Seq<TweakKind>,
    build: u32,
    m: RegModel,
    shade: F,
    is_file: G,
    id: Seq<char>,
    want: ValueV,
    answer: (AccentShades, bool),
) -> bool {
    match find_tweak(ts, id) {
        Some(k) => (in_range(ts[k].builds_of(), build) && ts[k].reading(m) is Ok) ==> ts[k].shades_fit(
            shade,
            want,
            answer.0,
        ) && ts[k].file_fit(is_file, want, answer.1),
        None => true,
    }
}

/// The fate of each wanted setting that has an answer, with that answer.
pub open spec fn fates(
    ts: Seq<TweakKind>,
    build: u32,
    m: RegModel,
    wants: Seq<(Seq<char>, ValueV)>,
    answers: Seq<(AccentShades, bool)>,
) -> Seq<Fate> {
    Seq::new(
        answers.len(),
        |i: int| fate(ts, build, m, wants[i].0, wants[i].1, answers[i].0, answers[i].1),
    )
}

/// The plan `r` is what planning `wants` under `label` gives on the registry
/// `m`, for the outside answers `answers` to the settings it got to.
pub open spec fn plan_matches<F: Fn(Color) -> AccentShades, G: Fn(&str) -> bool>(
    r: Result<Plan, Error>,
    label: Seq<char>,
    ts: Seq<TweakKind>,
    build: u32,
    m: RegModel,
    wants: Seq<(Seq<char>, ValueV)>,
    shade: F,
    is_file: G,
    answers: Seq<(AccentShades, bool)>,
) -> bool {
    &&& answers.len() <= wants.len()
    &&& forall|i: int|
        0 <= i < answers.len() ==> #[trigger] answer_fits(
            ts,
            build,
            m,
            shade, is_file,
            wants[i].0,
            wants[i].1,
            answers[i])
    &&& plan_result(
        r,
        label,
        fates(ts, build, m, wants, answers),
        wants.len(),
        |k: int, e: Error|
            ts[find_tweak(ts, wants[k].0).unwrap()].outcome(
                Err(e),
                m,
                true,
                wants[k].1,
                answers[k].0,
                answers[k].1,
            ),
    )
}

/// The fate of a wanted setting when its current value could not be read and
/// the reading failed with `misread`; otherwise the one [`fate`] gives.
pub open spec fn fate_read(
    ts: Seq<TweakKind>,
    build: u32,
    m: RegModel,
    id: Seq<char>,
    want: ValueV,
    shades: AccentShades,
    exists: bool,
    misread: Option<Seq<char>>,
) -> Fate {
    match misread {
        Some(text) => Fate::Skip(
            SkipV { tweak: id, reason: "Could not read the current value: "@ + text, reason_key: None },
        ),
        None => fate(ts, build, m, id, want, shades, exists),
    }
}

/// The fate of each wanted setting, with its outside answers and whether its
/// reading failed.
pub open spec fn fates_read(
    ts: Seq<TweakKind>,
    build: u32,
    m: RegModel,
    wants: Seq<(Seq<char>, ValueV)>,
    answers: Seq<(AccentShades, bool)>,
    misreads: Seq<Option<Seq<char>>>,
) -> Seq<Fate> {
    Seq::new(
        answers.len(),
        |i: int|
            fate_read(ts, build, m, wants[i].0, wants[i].1, answers[i].0, answers[i].1, misreads[i]),
    )
}

/// The setting `id` is known and offered on `build`, so its value is read.
pub open spec fn read_here(ts: Seq<TweakKind>, build: u32, id: Seq<char>) -> bool {
    match find_tweak(ts, id) {
        Some(k) => in_range(ts[k].builds_of(), build),
        None => false,
    }
}

/// On any registry, reliable or not: the plan `p` lists, in order, the items
/// and skipped settings of the fates of all the wanted settings, where a
/// setting whose reading failed (`misreads`) is skipped with the failure's
/// text, and no setting's value was refused.
pub open spec fn plan_read_back<F: Fn(Color) -> AccentShades, G: Fn(&str) -> bool>(
    p: Plan,
    label: Seq<char>,
    ts: Seq<TweakKind>,
    build: u32,
    m: RegModel,
    wants: Seq<(Seq<char>, ValueV)>,
    shade: F,
    is_file: G,
    answers: Seq<(AccentShades, bool)>,
    misreads: Seq<Option<Seq<char>>>,
) -> bool {
    &&& answers.len() == wants.len()
    &&& misreads.len() == wants.len()
    &&& forall|i: int| 0 <= i < misreads.len() && #[trigger] misreads[i] is Some ==> read_here(ts, build, wants[i].0)
    &&& forall|i: int|
        0 <= i < answers.len() && misreads[i] is None ==> #[trigger] answer_fits(
            ts,
            build,
            m,
            shade, is_file,
            wants[i].0,
            wants[i].1,
            answers[i])
    &&& !has_fail(fates_read(ts, build, m, wants, answers, misreads))
    &&& p.label@ == label
    &&& items_view(p.items@) == items_of(fates_read(ts, build, m, wants, answers, misreads))
    &&& skips_view(p.skipped@) == skips_of(fates_read(ts, build, m, wants, answers, misreads))
}

/// The strings joined with `, `.
pub open spec fn joined(ss: Seq<Seq<char>>) -> Seq<char>
    decreases ss.len(),
{
    if ss.len() == 0 {
        Seq::empty()
    } else if ss.len() == 1 {
        ss[0]
    } else {
        joined(ss.drop_last()) + ", "@ + ss.last()
    }
}

/// The names of the items that need elevation, in order.
pub open spec fn elevated_names(items: Seq<ItemV>) -> Seq<Seq<char>>
    decreases items.len(),
{
    if items.len() == 0 {
        Seq::empty()
    } else {
        elevated_names(items.drop_last()) + if items.last().privilege == Privilege::Elevated {
            seq![items.last().tweak]
        } else {
            Seq::empty()
        }
    }
}

/// The names of the items, in order.
pub open spec fn item_names(items: Seq<ItemV>) -> Seq<Seq<char>> {
    items.map_values(|i: ItemV| i.tweak)
}

/// The area a refresh broadcasts to, if it is a broadcast.
pub open spec fn area_of(r: Refresh) -> Option<Seq<char>> {
    match r {
        Refresh::Broadcast(x) => Some(x@),
        _ => None,
    }
}

/// The areas some refresh broadcasts to.
pub open spec fn broadcast_areas(rs: Seq<Refresh>) -> Set<Seq<char>> {
    Set::new(|a: Seq<char>| exists|i: int| 0 <= i < rs.len() && #[trigger] area_of(rs[i]) == Some(a))
}

pub open spec fn any_assoc(rs: Seq<Refresh>) -> bool {
    exists|i: int| 0 <= i < rs.len() && #[trigger] rs[i] is AssocChanged
}

pub open spec fn any_cursors(rs: Seq<Refresh>) -> bool {
    exists|i: int| 0 <= i < rs.len() && #[trigger] rs[i] is Cursors
}

pub open spec fn any_wallpaper(rs: Seq<Refresh>) -> bool {
    exists|i: int| 0 <= i < rs.len() && #[trigger] rs[i] is Wallpaper
}

/// In strictly increasing order, so each once.
pub open spec fn sorted_strictly(ss: Seq<Seq<char>>) -> bool {
    forall|i: int, j: int| 0 <= i < j < ss.len() ==> lex_less(#[trigger] ss[i], #[trigger] ss[j])
}

/// The refreshes a batch asks the shell for: one broadcast per area, in
/// order, then the association, cursor and wallpaper refreshes it needs.
pub open spec fn refresh_calls(
    areas: Seq<Seq<char>>,
    assoc: bool,
    cursors: bool,
    wallpaper: Option<Seq<char>>,
) -> Seq<ShellCall> {
    areas.map_values(|a: Seq<char>| ShellCall::Broadcast(a)) + (if assoc {
        seq![ShellCall::AssocChanged]
    } else {
        Seq::empty()
    }) + (if cursors {
        seq![ShellCall::Cursors]
    } else {
        Seq::empty()
    }) + match wallpaper {
        Some(p) => seq![ShellCall::Wallpaper(p)],
        None => Seq::empty(),
    }
}

/// The refreshes of the items, in order.
pub open spec fn item_refreshes(items: Seq<ItemV>) -> Seq<Refresh> {
    items.map_values(|i: ItemV| i.refresh)
}

/// The changes of the reports' entries, one batch after another.
pub open spec fn report_changes(reports: Seq<ApplyReport>) -> Seq<ChangeV>
    decreases reports.len(),
{
    if reports.len() == 0 {
        Seq::empty()
    } else {
        report_changes(reports.drop_last()) + reports.last().entry@.changes
    }
}

/// Whether a journal entry is one that reverting everything puts back: it
/// was applied and changed something.
pub open spec fn to_revert(e: EntryV) -> bool {
    e.status == Status::Applied && e.changes.len() > 0
}

/// The entries of `s` that reverting everything puts back, in order.
pub open spec fn revert_targets(s: Seq<EntryV>) -> Seq<EntryV>
    decreases s.len(),
{
    if s.len() == 0 {
        Seq::empty()
    } else if to_revert(s.last()) {
        revert_targets(s.drop_last()).push(s.last())
    } else {
        revert_targets(s.drop_last())
    }
}

/// `rep` puts the entry `e` back.
pub open spec fn reverts(rep: ApplyReport, e: EntryV) -> bool {
    &&& rep.entry@.changes == undo_of(e.changes)
    &&& rep.entry@.label == "Reverted: "@ + e.label
    &&& rep.entry@.tweaks == e.tweaks
    &&& rep.entry@.status == Status::Applied
}

/// One of the first `t` reports has its entry under `id`: its entry took the
/// place of whatever the journal held under that id.
pub open spec fn id_taken(reports: Seq<ApplyReport>, t: int, id: Seq<char>) -> bool {
    exists|j: int| 0 <= j < t && #[trigger] reports[j].entry@.id == id
}

/// No two entries of `s` share an id.
pub open spec fn ids_apart(s: Seq<EntryV>) -> bool {
    forall|a: int, b: int| 0 <= a < b < s.len() ==> #[trigger] s[a].id != #[trigger] s[b].id
}

/// Every applied entry of `listed` from the `i`-th on is still held, not
/// reverted, under its own id: as listed, unless one of `reports` took its id.
pub open spec fn still_pending(
    held: Map<Seq<char>, EntryV>,
    listed: Seq<EntryV>,
    i: int,
    reports: Seq<ApplyReport>,
) -> bool {
    forall|k: int|
        i <= k < listed.len() && (#[trigger] listed[k]).status == Status::Applied ==> held.contains_key(
            listed[k].id,
        ) && held[listed[k].id].status != Status::Reverted && held[listed[k].id].id == listed[k].id && (
        held[listed[k].id] == listed[k] || id_taken(reports, reports.len() as int, listed[k].id))
}

/// The `t`-th report puts back the listed entry `tidx[t]` unless an earlier
/// report took its id, and every entry put back whose id no report took is
/// held as reverted.
pub open spec fn done_well(
    held: Map<Seq<char>, EntryV>,
    listed: Seq<EntryV>,
    tidx: Seq<int>,
    reports: Seq<ApplyReport>,
) -> bool {
    &&& forall|t: int|
        0 <= t < tidx.len() ==> reverts(#[trigger] reports[t], listed[tidx[t]]) || id_taken(
            reports,
            t,
            listed[tidx[t]].id,
        )
    &&& forall|t: int|
        0 <= t < tidx.len() && !id_taken(reports, reports.len() as int, listed[#[trigger] tidx[t]].id)
            ==> held.contains_key(listed[tidx[t]].id) && held[listed[tidx[t]].id].status == Status::Reverted
}

proof fn lemma_taken_grows(before: Seq<ApplyReport>, report: ApplyReport)
    ensures
        forall|t: int, x: Seq<char>|
            0 <= t <= before.len() ==> (id_taken(before, t, x) <==> #[trigger] id_taken(before.push(report), t, x)),
        id_taken(before.push(report), (before.len() + 1) as int, report.entry@.id),
        forall|x: Seq<char>|
            id_taken(before.push(report), (before.len() + 1) as int, x) ==> id_taken(before, before.len() as int, x)
                || x == report.entry@.id,
{
    let now = before.push(report);
    assert forall|t: int, x: Seq<char>| 0 <= t <= before.len() implies (id_taken(before, t, x) <==> #[trigger] id_taken(
        now,
        t,
        x,
    )) by {
        if id_taken(before, t, x) {
            let j = choose|j: int| 0 <= j < t && #[trigger] before[j].entry@.id == x;
            assert(now[j] == before[j]);
        }
        if id_taken(now, t, x) {
            let j = choose|j: int| 0 <= j < t && #[trigger] now[j].entry@.id == x;
            assert(now[j] == before[j]);
        }
    }
    assert(now[before.len() as int] == report);
    assert forall|x: Seq<char>| id_taken(now, (before.len() + 1) as int, x) implies id_taken(before, before.len() as int, x)
        || x == report.entry@.id by {
        let j = choose|j: int| 0 <= j < before.len() + 1 && #[trigger] now[j].entry@.id == x;
        if j < before.len() {
            assert(now[j] == before[j]);
        }
    }
}

/// The facts at hand when one entry is reverted in the course of reverting
/// everything: `held` before, `after` once `report` was made for `listed[i]`.
pub open spec fn revert_step(
    held: Map<Seq<char>, EntryV>,
    after: Map<Seq<char>, EntryV>,
    listed: Seq<EntryV>,
    i: int,
    tidx: Seq<int>,
    before: Seq<ApplyReport>,
    report: ApplyReport,
) -> bool {
    &&& 0 <= i < listed.len()
    &&& listed[i].status == Status::Applied
    &&& ids_apart(listed)
    &&& still_pending(held, listed, i, before)
    &&& tidx.len() == before.len()
    &&& forall|t: int| 0 <= t < tidx.len() ==> 0 <= #[trigger] tidx[t] < i
    &&& done_well(held, listed, tidx, before)
    &&& held.contains_key(listed[i].id)
    &&& ({
        let original = held[listed[i].id];
        &&& report.entry@.changes == undo_of(original.changes)
        &&& report.entry@.label == "Reverted: "@ + original.label
        &&& report.entry@.tweaks == original.tweaks
        &&& report.entry@.status == Status::Applied
        &&& after == held.insert(report.entry@.id, report.entry@).insert(
            original.id,
            with_status(original, Status::Reverted),
        )
    })
}

/// One revert in the course of reverting everything keeps what is known of
/// the journal and the reports.
proof fn lemma_revert_step(
    held: Map<Seq<char>, EntryV>,
    after: Map<Seq<char>, EntryV>,
    listed: Seq<EntryV>,
    i: int,
    tidx: Seq<int>,
    before: Seq<ApplyReport>,
    report: ApplyReport,
)
    requires
        revert_step(held, after, listed, i, tidx, before, report),
    ensures
        still_pending(after, listed, i + 1, before.push(report)),
        done_well(after, listed, tidx.push(i), before.push(report)),
{
    lemma_taken_grows(before, report);
    lemma_step_pending(held, after, listed, i, tidx, before, report);
    lemma_step_reports(held, after, listed, i, tidx, before, report);
    lemma_step_held(held, after, listed, i, tidx, before, report);
}

proof fn lemma_step_pending(
    held: Map<Seq<char>, EntryV>,
    after: Map<Seq<char>, EntryV>,
    listed: Seq<EntryV>,
    i: int,
    tidx: Seq<int>,
    before: Seq<ApplyReport>,
    report: ApplyReport,
)
    requires
        revert_step(held, after, listed, i, tidx, before, report),
    ensures
        still_pending(after, listed, i + 1, before.push(report)),
{
    let now = before.push(report);
    let n = before.len() as int;
    let original = held[listed[i].id];
    lemma_taken_grows(before, report);
    assert forall|k: int| i + 1 <= k < listed.len() && (#[trigger] listed[k]).status == Status::Applied implies after.contains_key(
        listed[k].id,
    ) && after[listed[k].id].status != Status::Reverted && after[listed[k].id].id == listed[k].id && (
    after[listed[k].id] == listed[k] || id_taken(now, n + 1, listed[k].id)) by {
        assert(listed[i].id != listed[k].id);
        assert(original.id == listed[i].id);
        if listed[k].id == report.entry@.id {
            assert(after[listed[k].id] == report.entry@);
        } else {
            assert(after[listed[k].id] == held[listed[k].id]);
            if held[listed[k].id] != listed[k] {
                assert(id_taken(before, n, listed[k].id));
                assert(id_taken(now, n, listed[k].id));
            }
        }
    }
}

proof fn lemma_step_reports(
    held: Map<Seq<char>, EntryV>,
    after: Map<Seq<char>, EntryV>,
    listed: Seq<EntryV>,
    i: int,
    tidx: Seq<int>,
    before: Seq<ApplyReport>,
    report: ApplyReport,
)
    requires
        revert_step(held, after, listed, i, tidx, before, report),
    ensures
        forall|t: int|
            0 <= t < tidx.len() + 1 ==> reverts(#[trigger] before.push(report)[t], listed[tidx.push(i)[t]])
                || id_taken(before.push(report), t, listed[tidx.push(i)[t]].id),
{
    let now = before.push(report);
    let n = before.len() as int;
    let id = listed[i].id;
    let original = held[id];
    let tidx2 = tidx.push(i);
    lemma_taken_grows(before, report);
    assert forall|t: int| 0 <= t < tidx2.len() implies reverts(#[trigger] now[t], listed[tidx2[t]]) || id_taken(
        now,
        t,
        listed[tidx2[t]].id,
    ) by {
        if t < n {
            assert(now[t] == before[t]);
            assert(tidx2[t] == tidx[t]);
            if !reverts(before[t], listed[tidx[t]]) {
                assert(id_taken(before, t, listed[tidx[t]].id));
            }
        } else {
            assert(now[t] == report);
            assert(tidx2[t] == i);
            assert(original.id == id);
            if original != listed[i] {
                assert(id_taken(before, n, id));
            }
        }
    }
}

proof fn lemma_step_held(
    held: Map<Seq<char>, EntryV>,
    after: Map<Seq<char>, EntryV>,
    listed: Seq<EntryV>,
    i: int,
    tidx: Seq<int>,
    before: Seq<ApplyReport>,
    report: ApplyReport,
)
    requires
        revert_step(held, after, listed, i, tidx, before, report),
    ensures
        forall|t: int|
            0 <= t < tidx.len() + 1 && !id_taken(
                before.push(report),
                (before.len() + 1) as int,
                listed[#[trigger] tidx.push(i)[t]].id,
            ) ==> after.contains_key(listed[tidx.push(i)[t]].id) && after[listed[tidx.push(i)[t]].id].status
                == Status::Reverted,
{
    let now = before.push(report);
    let n = before.len() as int;
    let id = listed[i].id;
    let rid = report.entry@.id;
    let original = held[id];
    let tidx2 = tidx.push(i);
    assert(original.id == id);
    assert(now[n] == report);
    assert forall|t: int|
        0 <= t < tidx2.len() && !id_taken(now, n + 1, listed[#[trigger] tidx2[t]].id) implies after.contains_key(
        listed[tidx2[t]].id,
    ) && after[listed[tidx2[t]].id].status == Status::Reverted by {
        if t < n {
            assert(tidx2[t] == tidx[t]);
            let x = listed[tidx[t]].id;
            assert(tidx[t] < i);
            assert(x != id);
            assert(id_taken(now, n + 1, rid));
            assert(x != rid);
            if id_taken(before, n, x) {
                let j = choose|j: int| 0 <= j < n && #[trigger] before[j].entry@.id == x;
                assert(now[j] == before[j]);
                assert(id_taken(now, n + 1, x));
            }
            assert(held.contains_key(x) && held[x].status == Status::Reverted);
            assert(after[x] == held[x]);
        } else {
            assert(tidx2[t] == i);
        }
    }
}

/// The entry `e` with its status replaced.
pub open spec fn with_status(e: EntryV, status: Status) -> EntryV {
    EntryV { status, ..e }
}

/// Carries out one change. The one function in the crate that changes the machine.
fn execute<R: RegistryProvider>(reg: &mut R, change: &Change) -> (r: Result<(), Error>)
    requires
        old(reg).wf(),
    ensures
        final(reg).wf(),
        final(reg).reliable() == old(reg).reliable(),
        old(reg).reliable() ==> r is Ok,
        r is Ok ==> final(reg).model() == apply_change(old(reg).model(), change@),
        r is Err ==> final(reg).model() == old(reg).model(),
{
    match change {
        Change::Value { loc, to, .. } => match to {
            Some(value) => reg.write(loc, value),
            None => reg.delete_value(loc),
        },
        Change::Key { hive, path, to_present, .. } => {
            if *to_present {
                reg.create_key(*hive, path.as_str())
            } else {
                reg.delete_key(*hive, path.as_str())
            }
        },
    }
}

/// `m` after the changes `done` are undone newest first, the undo of each
/// `done[j]` taking effect where `took[j]` holds (an undo that failed
/// changed nothing).
pub open spec fn undone_where(m: RegModel, done: Seq<ChangeV>, took: Seq<bool>) -> RegModel
    decreases done.len(),
{
    if done.len() == 0 || took.len() == 0 {
        m
    } else {
        let m1 = if took.last() {
            apply_change(m, invert(done.last()))
        } else {
            m
        };
        undone_where(m1, done.drop_last(), took.drop_last())
    }
}

/// `m` is what a failed batch `cs` leaves of `m0`: the batch stopped at one of
/// its changes, which changed nothing, and the changes before it were undone
/// newest first, each undo that succeeded taking effect.
pub open spec fn rolled_back(m0: RegModel, cs: Seq<ChangeV>, m: RegModel) -> bool {
    exists|k: int, took: Seq<bool>|
        0 <= k < cs.len() && took.len() == k && m == undone_where(apply_all(m0, cs.take(k)), cs.take(k), took)
}

/// `e` is the record `apply` makes of a plan's batch before it writes
/// anything: still pending, with the batch, the label, the settings and the
/// build.
pub open spec fn pending_record(
    e: EntryV,
    cs: Seq<ChangeV>,
    label: Seq<char>,
    tweaks: Seq<Seq<char>>,
    build: u32,
) -> bool {
    e.status == Status::Pending && e.changes == cs && e.label == label && e.tweaks == tweaks && e.os_build == build
}

/// `after` begins with `before`, then what writing `e` hands to storage.
pub open spec fn handed_first(before: Seq<Kept>, after: Seq<Kept>, e: EntryV) -> bool {
    after.len() >= before.len() + kept_for(e).len() && after.subrange(0, before.len() as int) == before
        && after.subrange(before.len() as int, (before.len() + kept_for(e).len()) as int) == kept_for(e)
}

/// What was handed first stays first when more is handed after it.
proof fn lemma_handed_first_grows(h0: Seq<Kept>, h1: Seq<Kept>, h2: Seq<Kept>, e: EntryV)
    requires
        handed_first(h0, h1, e),
        h2.len() >= h1.len(),
        h2.subrange(0, h1.len() as int) == h1,
    ensures
        handed_first(h0, h2, e),
{
    let n = h0.len() as int;
    let k = kept_for(e).len() as int;
    assert(h2.subrange(0, n) =~= h1.subrange(0, n));
    assert(h2.subrange(n, n + k) =~= h1.subrange(n, n + k));
}

/// A write that went through, or stopped part way, keeps what was handed
/// before it in front.
proof fn lemma_write_keeps_front(h1: Seq<Kept>, h2: Seq<Kept>, e: EntryV)
    requires
        h2 == h1 + kept_for(e) || handed_part(h1, h2, e),
    ensures
        h2.len() >= h1.len(),
        h2.subrange(0, h1.len() as int) == h1,
{
    if h2 == h1 + kept_for(e) {
        assert(h2.subrange(0, h1.len() as int) =~= h1);
    }
}

/// Where a failed `apply` of the pending record `e` stopped, from what was
/// handed to storage (`h0` to `h1`), the registry (`m0` to `m1`), the journal
/// (`j0` to `j1`) and the shell (`s0` to `s1`): before the record was taken,
/// with nothing written; at a failed write, undone and recorded as rolled
/// back as far as storage took it; or with the batch carried out, recorded
/// as applied as far as storage took it.
pub open spec fn apply_stopped(
    h0: Seq<Kept>,
    h1: Seq<Kept>,
    m0: RegModel,
    m1: RegModel,
    j0: Map<Seq<char>, EntryV>,
    j1: Map<Seq<char>, EntryV>,
    s0: Seq<ShellCall>,
    s1: Seq<ShellCall>,
    e: EntryV,
) -> bool {
    let rb = with_status(e, Status::RolledBack);
    let ap = with_status(e, Status::Applied);
    ||| handed_part(h0, h1, e) && m1 == m0 && j1 == j0 && s1 == s0
    ||| rolled_back(m0, e.changes, m1) && s1 == s0 && (
    (h1 == h0 + kept_for(e) + kept_for(rb) && j1 == j0.insert(e.id, rb)) || (handed_part(
        h0 + kept_for(e),
        h1,
        rb,
    ) && j1 == j0.insert(e.id, e)))
    ||| m1 == apply_all(m0, e.changes) && s1 == s0 && handed_part(h0 + kept_for(e), h1, ap) && j1
        == j0.insert(e.id, e)
    ||| m1 == apply_all(m0, e.changes) && h1 == h0 + kept_for(e) + kept_for(ap) && j1 == j0.insert(
        e.id,
        ap,
    )
}

/// Undoing `a + b` is undoing `b`, then `a`.
proof fn lemma_undone_split(m: RegModel, a: Seq<ChangeV>, b: Seq<ChangeV>, ta: Seq<bool>, tb: Seq<bool>)
    requires
        a.len() == ta.len(),
        b.len() == tb.len(),
    ensures
        undone_where(m, a + b, ta + tb) == undone_where(undone_where(m, b, tb), a, ta),
    decreases b.len(),
{
    if b.len() == 0 {
        assert(a + b =~= a);
        assert(ta + tb =~= ta);
    } else {
        let m1 = if tb.last() {
            apply_change(m, invert(b.last()))
        } else {
            m
        };
        assert((a + b).drop_last() =~= a + b.drop_last());
        assert((ta + tb).drop_last() =~= ta + tb.drop_last());
        assert((a + b).last() == b.last());
        assert((ta + tb).last() == tb.last());
        lemma_undone_split(m1, a, b.drop_last(), ta, tb.drop_last());
    }
}

/// Every undo succeeding is carrying out the undo of what was done.
pub proof fn lemma_undone_all(m: RegModel, done: Seq<ChangeV>, took: Seq<bool>)
    requires
        took.len() == done.len(),
        forall|j: int| 0 <= j < took.len() ==> #[trigger] took[j],
    ensures
        undone_where(m, done, took) == apply_all(m, undo_of(done)),
    decreases done.len(),
{
    if done.len() > 0 {
        let m1 = apply_change(m, invert(done.last()));
        lemma_undone_all(m1, done.drop_last(), took.drop_last());
        let u = undo_of(done);
        assert(u.drop_first() =~= undo_of(done.drop_last()));
        assert(u[0] == invert(done.last()));
    } else {
        assert(undo_of(done) =~= Seq::<ChangeV>::empty());
    }
}

/// Carries out `changes` in order. If one fails, those already carried out
/// are undone, newest first, before the error is returned; an undo that fails
/// in turn is passed over, since the journal's backup is the way back then.
fn execute_batch<R: RegistryProvider>(reg: &mut R, changes: &Vec<Change>) -> (r: Result<(), Error>)
    requires
        old(reg).wf(),
    ensures
        final(reg).wf(),
        final(reg).reliable() == old(reg).reliable(),
        old(reg).reliable() ==> r is Ok,
        r is Ok ==> final(reg).model() == apply_all(old(reg).model(), changes_view(changes@)),
        r is Err ==> rolled_back(old(reg).model(), changes_view(changes@), final(reg).model()),
{
    let ghost m0 = reg.model();
    let ghost cs = changes_view(changes@);
    let mut i: usize = 0;
    while i < changes.len()
        invariant
            i <= changes.len(),
            cs == changes_view(changes@),
            reg.wf(),
            reg.reliable() == old(reg).reliable(),
            m0 == old(reg).model(),
            reg.model() == apply_all(m0, cs.take(i as int)),
        decreases changes.len() - i,
    {
        let ghost before = reg.model();
        match execute(reg, &changes[i]) {
            Ok(()) => {
                proof {
                    lemma_apply_one_more(m0, cs, i as int);
                }
                i += 1;
            },
            Err(err) => {
                let ghost mk = reg.model();
                let ghost done = cs.take(i as int);
                let ghost mut took: Seq<bool> = Seq::empty();
                proof {
                    assert(done.subrange(i as int, i as int) =~= Seq::<ChangeV>::empty());
                }
                let mut j: usize = i;
                while j > 0
                    invariant
                        j <= i,
                        i < changes.len(),
                        reg.wf(),
                        reg.reliable() == old(reg).reliable(),
                        cs == changes_view(changes@),
                        done == cs.take(i as int),
                        took.len() == i - j,
                        reg.model() == undone_where(mk, done.subrange(j as int, i as int), took),
                    decreases j,
                {
                    j -= 1;
                    let undo = changes[j].inverted();
                    let ghost here = reg.model();
                    let res = execute(reg, &undo);
                    proof {
                        let bit = res is Ok;
                        let tail = done.subrange(j + 1, i as int);
                        assert(done.subrange(j as int, i as int) =~= seq![cs[j as int]] + tail);
                        lemma_undone_split(mk, seq![cs[j as int]], tail, seq![bit], took);
                        reveal_with_fuel(undone_where, 2);
                        let one = undone_where(here, seq![cs[j as int]], seq![bit]);
                        assert(seq![cs[j as int]].drop_last() =~= Seq::<ChangeV>::empty());
                        assert(seq![bit].drop_last() =~= Seq::<bool>::empty());
                        assert(one == if bit { apply_change(here, invert(cs[j as int])) } else { here });
                        took = seq![bit] + took;
                    }
                }
                proof {
                    assert(done.subrange(0, i as int) =~= done);
                }
                return Err(err);
            },
        }
    }
    proof {
        assert(cs.take(changes.len() as int) =~= cs);
    }
    Ok(())
}

/// One change further along a batch.
proof fn lemma_apply_one_more(m: RegModel, cs: Seq<ChangeV>, i: int)
    requires
        0 <= i < cs.len(),
    ensures
        apply_all(m, cs.take(i + 1)) == apply_change(apply_all(m, cs.take(i)), cs[i]),
{
    assert(cs.take(i + 1) =~= cs.take(i) + seq![cs[i]]);
    crate::tweak::lemma_apply_concat(m, cs.take(i), seq![cs[i]]);
    let one = seq![cs[i]];
    let mid = apply_all(m, cs.take(i));
    assert(one.drop_first() =~= Seq::<ChangeV>::empty());
    assert(apply_all(apply_change(mid, one[0]), one.drop_first()) == apply_change(mid, cs[i]));
    assert(apply_all(mid, one) == apply_change(mid, cs[i]));
}

pub open spec fn strs_view(v: Seq<&'static str>) -> Seq<Seq<char>> {
    v.map_values(|s: &'static str| s@)
}

/// Adds `x` to the sorted `v`, unless it is there already.
fn insert_sorted(v: &mut Vec<&'static str>, x: &'static str)
    requires
        sorted_strictly(strs_view(old(v)@)),
    ensures
        sorted_strictly(strs_view(final(v)@)),
        strs_view(final(v)@).to_set() == strs_view(old(v)@).to_set().insert(x@),
{
    let ghost before = strs_view(v@);
    let mut j: usize = 0;
    while j < v.len() && str_less(v[j], x)
        invariant
            j <= v.len(),
            strs_view(v@) == before,
            forall|a: int| 0 <= a < j ==> lex_less(#[trigger] before[a], x@),
        decreases v.len() - j,
    {
        j += 1;
    }
    if j < v.len() && crate::text::str_eq(v[j], x) {
        proof {
            assert(before.to_set().insert(x@) =~= before.to_set()) by {
                assert(before[j as int] == x@);
            }
        }
        return;
    }
    proof {
        if j < v.len() {
            crate::text::lemma_lex_total(before[j as int], x@);
        }
    }
    v.insert(j, x);
    proof {
        let after = strs_view(v@);
        assert(after =~= before.insert(j as int, x@));
        assert forall|b: int| j < b < after.len() implies lex_less(x@, #[trigger] after[b]) by {
            assert(lex_less(x@, before[j as int]));
            if b - 1 > j {
                crate::text::lemma_lex_transitive(x@, before[j as int], before[b - 1]);
            }
        }
        assert forall|a: int, b: int| 0 <= a < b < after.len() implies lex_less(
            #[trigger] after[a],
            #[trigger] after[b],
        ) by {
            if b < j {
            } else if b == j {
            } else if a < j {
                assert(lex_less(x@, after[b]));
                crate::text::lemma_lex_transitive(after[a], x@, after[b]);
            } else if a == j {
            } else {
            }
        }
        assert(after.to_set() =~= before.to_set().insert(x@)) by {
            assert forall|s: Seq<char>| after.to_set().contains(s) implies before.to_set().insert(x@).contains(s) by {
                let k = choose|k: int| 0 <= k < after.len() && after[k] == s;
                if k < j {
                    assert(before[k] == s);
                } else if k > j {
                    assert(before[k - 1] == s);
                }
            }
            assert forall|s: Seq<char>| before.to_set().insert(x@).contains(s) implies after.to_set().contains(s) by {
                if s == x@ {
                    assert(after[j as int] == s);
                } else {
                    let k = choose|k: int| 0 <= k < before.len() && before[k] == s;
                    if k < j {
                        assert(after[k] == s);
                    } else {
                        assert(after[k + 1] == s);
                    }
                }
            }
        }
    }
}

/// `info` describes the tweak `t` on `build`.
pub open spec fn info_matches(info: TweakInfo, t: TweakKind, build: u32) -> bool {
    &&& info.id@ == t.id_of()
    &&& info.category == t.category_of()
    &&& info.tier == t.tier_of()
    &&& info.privilege == t.privilege_of()
    &&& info.refresh == t.refresh_of()
    &&& (info.kind is Path <==> t is Wallpaper)
    &&& (info.support is Unsupported <==> !in_range(t.builds_of(), build))
    &&& (info.support matches crate::os::Support::Unsupported(n) ==> (n.key@, n.en@)
        == unsupported_reason(t.builds_of(), build))
    &&& (info.support matches crate::os::Support::Partial(n) ==> t.note_of() == Some(n))
    &&& (info.support is Full ==> t.note_of() is None)
}

/// `st` is the row of the tweak `t` on `build` and the registry `m`: nothing is
/// read for a tweak that is not offered; otherwise the value read, or, when
/// the registry holds something the tweak cannot map, why.
pub open spec fn state_matches(
    st: TweakState,
    t: TweakKind,
    build: u32,
    m: RegModel,
    reliable: bool,
) -> bool {
    &&& info_matches(st.info, t, build)
    &&& !in_range(t.builds_of(), build) ==> st.value is None && st.error is None
    &&& st.value matches Some(v) ==> (st.error is None && t.reading(m) == Ok::<ValueV, Seq<char>>(v@))
    &&& in_range(t.builds_of(), build) ==> (st.value is None <==> st.error is Some)
    &&& (in_range(t.builds_of(), build) && reliable) ==> match t.reading(m) {
        Ok(v) => st.value matches Some(x) && x@ == v && st.error is None,
        Err(d) => st.value is None && (st.error matches Some(e) && e@
            == "unexpected registry state at "@ + loc_text(t.read_loc()) + ": "@ + d),
    }
}

/// The pieces of a path between separators, empty ones included.
pub open spec fn path_parts(s: Seq<char>) -> Seq<Seq<char>>
    decreases s.len(),
{
    if s.len() == 0 {
        seq![Seq::<char>::empty()]
    } else {
        let p = path_parts(s.drop_last());
        if is_separator(s.last()) {
            p.push(Seq::empty())
        } else {
            p.update(p.len() - 1, p.last().push(s.last()))
        }
    }
}

/// A piece worth keeping: not empty, and not `.`.
pub open spec fn kept(part: Seq<char>) -> bool {
    part.len() > 0 && part != seq!['.']
}

pub open spec fn kept_parts(ps: Seq<Seq<char>>) -> Seq<Seq<char>>
    decreases ps.len(),
{
    if ps.len() == 0 {
        Seq::empty()
    } else {
        kept_parts(ps.drop_last()) + if kept(ps.last()) {
            seq![ps.last()]
        } else {
            Seq::empty()
        }
    }
}

/// The components of a path a person would type: no empty ones, no `.`.
pub open spec fn segments(s: Seq<char>) -> Seq<Seq<char>> {
    kept_parts(path_parts(s))
}

/// The components joined with `\`.
pub open spec fn backslash_joined(segs: Seq<Seq<char>>) -> Seq<char>
    decreases segs.len(),
{
    if segs.len() == 0 {
        Seq::empty()
    } else if segs.len() == 1 {
        segs[0]
    } else {
        backslash_joined(segs.drop_last()) + seq!['\\'] + segs.last()
    }
}

/// An absolute path split into its root, written the Windows way, and the rest.
pub open spec fn root_split(s: Seq<char>) -> (Seq<char>, Seq<char>) {
    if s.len() >= 3 && is_ascii_letter(s[0]) && s[1] == ':' && is_separator(s[2]) {
        (s.take(2) + seq!['\\'], s.skip(3))
    } else if s.len() >= 2 && s[0] == '\\' && s[1] == '\\' {
        (seq!['\\', '\\'], s.skip(2))
    } else if s.len() >= 1 && is_separator(s[0]) {
        (seq!['\\'], s.skip(1))
    } else {
        (Seq::empty(), s)
    }
}

/// Where the pack asset `raw` is, for a pack in `base`, with `cwd` the
/// directory a relative `base` is taken from: `raw` itself when absolute, and
/// otherwise the pack's folder and `raw`'s own components, with the empty and
/// `.` ones dropped and `\` between them.
pub open spec fn resolved_asset(cwd: Seq<char>, base: Seq<char>, raw: Seq<char>) -> Seq<char> {
    if path_is_absolute(raw) {
        raw
    } else {
        let rooted = if path_is_absolute(base) {
            base
        } else {
            cwd + seq!['\\'] + base
        };
        let (root, rest) = root_split(rooted);
        root + backslash_joined(segments(rest) + segments(raw))
    }
}

/// The value a pack setting is planned with: a non-empty path for a file
/// setting is resolved against the pack's folder, anything else is kept.
pub open spec fn pack_value(
    ts: Seq<TweakKind>,
    cwd: Seq<char>,
    base: Seq<char>,
    id: Seq<char>,
    v: ValueV,
) -> ValueV {
    match (find_tweak(ts, id), v) {
        (Some(k), ValueV::Str(raw)) => if ts[k] is Wallpaper && raw.len() > 0 {
            ValueV::Str(resolved_asset(cwd, base, raw))
        } else {
            v
        },
        _ => v,
    }
}

proof fn lemma_parts_nonempty(s: Seq<char>)
    ensures
        path_parts(s).len() >= 1,
    decreases s.len(),
{
    if s.len() > 0 {
        lemma_parts_nonempty(s.drop_last());
    }
}

/// The components of the characters `s`.
fn segments_of(s: &Vec<char>) -> (r: Vec<Vec<char>>)
    ensures
        r@.map_values(|v: Vec<char>| v@) == segments(s@),
{
    let mut segs: Vec<Vec<char>> = Vec::new();
    let mut cur: Vec<char> = Vec::new();
    let mut i: usize = 0;
    proof {
        assert(s@.take(0) =~= Seq::<char>::empty());
        assert(path_parts(s@.take(0)).drop_last() =~= Seq::<Seq<char>>::empty());
    }
    while i < s.len()
        invariant
            i <= s.len(),
            path_parts(s@.take(i as int)).len() >= 1,
            segs@.map_values(|v: Vec<char>| v@) == kept_parts(path_parts(s@.take(i as int)).drop_last()),
            path_parts(s@.take(i as int)).last() == cur@,
        decreases s.len() - i,
    {
        let ghost p = path_parts(s@.take(i as int));
        let ghost next = s@.take(i + 1);
        assert(next.drop_last() =~= s@.take(i as int));
        assert(next.last() == s@[i as int]);
        proof {
            lemma_parts_nonempty(next);
        }
        if s[i] == '\\' || s[i] == '/' {
            let ghost before = segs@;
            if cur.len() > 0 && !(cur.len() == 1 && cur[0] == '.') {
                segs.push(cur);
                proof {
                    assert(kept(p.last()));
                    assert(segs@.map_values(|v: Vec<char>| v@) =~= before.map_values(|v: Vec<char>| v@).push(p.last()));
                }
            } else {
                proof {
                    if cur@.len() == 1 {
                        assert(cur@ =~= seq!['.']);
                    }
                    assert(!kept(p.last()));
                }
            }
            cur = Vec::new();
            proof {
                assert(path_parts(next) == p.push(Seq::empty()));
                assert(path_parts(next).drop_last() =~= p);
                assert(p =~= p.drop_last().push(p.last()));
            }
        } else {
            cur.push(s[i]);
            proof {
                assert(path_parts(next) == p.update(p.len() - 1, p.last().push(s@[i as int])));
                assert(path_parts(next).drop_last() =~= p.drop_last());
            }
        }
        i += 1;
    }
    proof {
        assert(s@.take(s.len() as int) =~= s@);
    }
    let ghost p = path_parts(s@);
    let ghost before = segs@;
    if cur.len() > 0 && !(cur.len() == 1 && cur[0] == '.') {
        segs.push(cur);
        proof {
            assert(segs@.map_values(|v: Vec<char>| v@) =~= before.map_values(|v: Vec<char>| v@).push(p.last()));
        }
    } else {
        proof {
            if cur@.len() == 1 {
                assert(cur@ =~= seq!['.']);
            }
        }
    }
    segs
}

/// Joins a pack-relative asset onto the pack's folder.
///
/// Walks the components rather than joining the string whole: manifests are
/// written with forward slashes so they read the same everywhere, and a plain
/// join would leave `C:\packs\macos\assets/wallpaper.png` — which Windows
/// accepts but which looks like a mistake everywhere it is displayed.
fn resolve_asset(cwd: &str, base: &str, raw: &str) -> (r: String)
    ensures
        r@ == resolved_asset(cwd@, base@, raw@),
{
    let raw_chars = chars_of(raw);
    if is_absolute(&raw_chars) {
        return string_from(raw);
    }
    // Absolute, always: the result goes into the registry, where a path
    // relative to wherever this process was started is a bug waiting for the
    // next sign-in.
    let base_chars = chars_of(base);
    let rooted: Vec<char> = if is_absolute(&base_chars) {
        base_chars
    } else {
        let mut v = chars_of(cwd);
        v.push('\\');
        let mut k: usize = 0;
        let ghost start = v@;
        while k < base_chars.len()
            invariant
                k <= base_chars.len(),
                v@ == start + base_chars@.take(k as int),
            decreases base_chars.len() - k,
        {
            v.push(base_chars[k]);
            assert(base_chars@.take(k + 1) =~= base_chars@.take(k as int).push(base_chars@[k as int]));
            k += 1;
        }
        assert(base_chars@.take(base_chars.len() as int) =~= base_chars@);
        v
    };
    let ghost split = root_split(rooted@);
    let n = rooted.len();
    let (mut out, rest_start): (String, usize) = if n >= 3 && (('a' <= rooted[0] && rooted[0] <= 'z')
        || ('A' <= rooted[0] && rooted[0] <= 'Z')) && rooted[1] == ':' && (rooted[2] == '\\'
        || rooted[2] == '/') {
        let mut o = String::new();
        push_char(&mut o, rooted[0]);
        push_char(&mut o, ':');
        push_char(&mut o, '\\');
        proof {
            assert(o@ =~= rooted@.take(2) + seq!['\\']);
        }
        (o, 3)
    } else if n >= 2 && rooted[0] == '\\' && rooted[1] == '\\' {
        let mut o = String::new();
        push_char(&mut o, '\\');
        push_char(&mut o, '\\');
        proof {
            assert(o@ =~= seq!['\\', '\\']);
        }
        (o, 2)
    } else if n >= 1 && (rooted[0] == '\\' || rooted[0] == '/') {
        let mut o = String::new();
        push_char(&mut o, '\\');
        proof {
            assert(o@ =~= seq!['\\']);
        }
        (o, 1)
    } else {
        (String::new(), 0)
    };
    assert(out@ == split.0);
    let mut rest: Vec<char> = Vec::new();
    let mut k: usize = rest_start;
    while k < n
        invariant
            rest_start <= k <= n,
            n == rooted.len(),
            rest@ == rooted@.subrange(rest_start as int, k as int),
        decreases n - k,
    {
        rest.push(rooted[k]);
        assert(rooted@.subrange(rest_start as int, k + 1) =~= rooted@.subrange(rest_start as int, k as int).push(rooted@[k as int]));
        k += 1;
    }
    assert(rest@ =~= split.1);
    let mut segs = segments_of(&rest);
    let mut more = segments_of(&raw_chars);
    let ghost all = segs@.map_values(|v: Vec<char>| v@) + more@.map_values(|v: Vec<char>| v@);
    segs.append(&mut more);
    assert(segs@.map_values(|v: Vec<char>| v@) =~= all);
    let mut j: usize = 0;
    let ghost root = out@;
    while j < segs.len()
        invariant
            j <= segs.len(),
            out@ == root + backslash_joined(segs@.map_values(|v: Vec<char>| v@).take(j as int)),
        decreases segs.len() - j,
    {
        let ghost views = segs@.map_values(|v: Vec<char>| v@);
        assert(views.take(j + 1).drop_last() =~= views.take(j as int));
        assert(views.take(j + 1).last() == segs@[j as int]@);
        if j > 0 {
            push_char(&mut out, '\\');
        }
        let piece = string_of(&segs[j]);
        push_str(&mut out, piece.as_str());
        proof {
            if j == 0 {
                assert(views.take(1) =~= seq![views[0]]);
            }
            assert(out@ =~= root + backslash_joined(views.take(j + 1)));
        }
        j += 1;
    }
    proof {
        assert(segs@.map_values(|v: Vec<char>| v@).take(segs.len() as int) =~= segs@.map_values(|v: Vec<char>| v@));
        assert(out@ == split.0 + backslash_joined(all));
        assert(all == segments(split.1) + segments(raw@));
        assert(!path_is_absolute(raw@));
        let rooted_spec = if path_is_absolute(base@) {
            base@
        } else {
            cwd@ + seq!['\\'] + base@
        };
        assert(rooted@ == rooted_spec);
    }
    out
}

pub struct Engine<R, S, J> {
    reg: R,
    shell: S,
    os: OsBuild,
    tweaks: TweakRegistry,
    journal: J,
}

impl<R: RegistryProvider, S: ShellRefresher, J: JournalStore> Engine<R, S, J> {
    pub closed spec fn reg_view(&self) -> R {
        self.reg
    }

    pub closed spec fn shell_view(&self) -> S {
        self.shell
    }

    pub closed spec fn journal_view(&self) -> J {
        self.journal
    }

    pub closed spec fn tweaks_view(&self) -> Seq<TweakKind> {
        self.tweaks@
    }

    pub closed spec fn os_view(&self) -> OsBuild {
        self.os
    }

    /// What the engine needs of its parts.
    pub open spec fn wf(&self) -> bool {
        self.reg_view().wf() && self.journal_view().wf()
    }

    pub fn new(reg: R, shell: S, os: OsBuild, journal: J) -> (r: Self)
        ensures
            r.reg_view() == reg,
            r.shell_view() == shell,
            r.journal_view() == journal,
            r.os_view() == os,
            crate::tweaks::shipped(r.tweaks_view()),
            apart(r.tweaks_view()),
            crate::tweaks::shipped_table(r.tweaks_view()),
    {
        Engine { reg, shell, os, tweaks: TweakRegistry::builtin(), journal }
    }

    pub fn os(&self) -> (r: &OsBuild)
        ensures
            *r == self.os_view(),
    {
        &self.os
    }

    pub fn journal(&self) -> (r: &J)
        ensures
            *r == self.journal_view(),
    {
        &self.journal
    }

    pub fn registry(&self) -> (r: &R)
        ensures
            *r == self.reg_view(),
    {
        &self.reg
    }

    pub fn shell(&self) -> (r: &S)
        ensures
            *r == self.shell_view(),
    {
        &self.shell
    }

    pub fn tweaks(&self) -> (r: &TweakRegistry)
        ensures
            r@ == self.tweaks_view(),
    {
        &self.tweaks
    }

    /// What the UI shows for every tweak on this machine.
    pub fn infos(&self) -> (r: Vec<TweakInfo>)
        ensures
            r@.len() == self.tweaks_view().len(),
            forall|i: int|
                0 <= i < r@.len() ==> info_matches(
                    #[trigger] r@[i],
                    self.tweaks_view()[i],
                    self.os_view().build,
                ),
    {
        let mut r: Vec<TweakInfo> = Vec::new();
        let ts = self.tweaks.iter();
        let mut i: usize = 0;
        while i < ts.len()
            invariant
                i <= ts.len(),
                ts@ == self.tweaks@,
                r@.len() == i,
                forall|j: int| 0 <= j < i ==> info_matches(#[trigger] r@[j], ts@[j], self.os.build),
            decreases ts.len() - i,
        {
            r.push(self.info_of(&ts[i]));
            i += 1;
        }
        r
    }

    fn info_of(&self, t: &TweakKind) -> (r: TweakInfo)
        ensures
            info_matches(r, *t, self.os_view().build),
    {
        TweakInfo {
            id: t.id(),
            category: t.category(),
            tier: t.tier(),
            kind: t.value_kind(),
            privilege: t.privilege(),
            refresh: t.refresh(),
            support: t.support(&self.os),
        }
    }

    /// Every tweak with its value on this machine. A read failure becomes an
    /// `error` on that one row instead of failing the whole call — one broken
    /// setting must not blank the window.
    pub fn states(&self) -> (r: Vec<TweakState>)
        requires
            self.reg_view().wf(),
        ensures
            r@.len() == self.tweaks_view().len(),
            forall|i: int|
                0 <= i < r@.len() ==> state_matches(
                    #[trigger] r@[i],
                    self.tweaks_view()[i],
                    self.os_view().build,
                    self.reg_view().model(),
                    self.reg_view().reliable(),
                ),
    {
        let mut r: Vec<TweakState> = Vec::new();
        let ts = self.tweaks.iter();
        let mut i: usize = 0;
        while i < ts.len()
            invariant
                i <= ts.len(),
                ts@ == self.tweaks@,
                self.reg.wf(),
                r@.len() == i,
                forall|j: int|
                    0 <= j < i ==> state_matches(
                        #[trigger] r@[j],
                        ts@[j],
                        self.os.build,
                        self.reg.model(),
                        self.reg.reliable(),
                    ),
            decreases ts.len() - i,
        {
            let t = &ts[i];
            let info = self.info_of(t);
            let state = if !info.support.is_usable() {
                TweakState { info, value: None, error: None }
            } else {
                match t.read(&self.reg) {
                    Ok(value) => TweakState { info, value: Some(value), error: None },
                    Err(err) => TweakState { info, value: None, error: Some(err.message()) },
                }
            };
            r.push(state);
            i += 1;
        }
        r
    }

    /// Turns a pack's settings into settings this engine can plan.
    ///
    /// Packs name their assets relatively (`assets/wallpaper.png`) so they stay
    /// movable; anything the OS has to open needs an absolute path. Only values
    /// of a file setting are rewritten — a taskbar alignment of `"left"` is not
    /// a file name and must not be treated as one. `base` is the pack's folder
    /// and `cwd` the directory a relative `base` is taken from.
    pub fn resolve_pack(&self, manifest: &crate::profile::PackManifest, cwd: &str, base: &str) -> (r:
        Vec<(String, Value)>)
        ensures
            r@.len() == manifest.settings@.len(),
            forall|i: int|
                0 <= i < r@.len() ==> (#[trigger] r@[i]).0@ == manifest.settings@[i].0@ && r@[i].1@
                    == pack_value(
                    self.tweaks_view(),
                    cwd@,
                    base@,
                    manifest.settings@[i].0@,
                    manifest.settings@[i].1@,
                ),
    {
        let mut settings: Vec<(String, Value)> = Vec::new();
        let mut i: usize = 0;
        while i < manifest.settings.len()
            invariant
                i <= manifest.settings.len(),
                settings@.len() == i,
                forall|j: int|
                    0 <= j < i ==> (#[trigger] settings@[j]).0@ == manifest.settings@[j].0@
                        && settings@[j].1@ == pack_value(
                        self.tweaks@,
                        cwd@,
                        base@,
                        manifest.settings@[j].0@,
                        manifest.settings@[j].1@,
                    ),
            decreases manifest.settings.len() - i,
        {
            let id = &manifest.settings[i].0;
            let value = &manifest.settings[i].1;
            let is_path = match self.tweaks.get(id.as_str()) {
                Some(t) => matches!(t, TweakKind::Wallpaper(_)),
                None => false,
            };
            let resolved = match value {
                Value::Str(raw) => {
                    if is_path && !raw.as_str().is_empty() {
                        Value::Str(resolve_asset(cwd, base, raw.as_str()))
                    } else {
                        value.duplicate()
                    }
                },
                _ => value.duplicate(),
            };
            settings.push((id.clone(), resolved));
            i += 1;
        }
        settings
    }

    /// The value of the setting `id` on this machine.
    pub fn read(&self, id: &str) -> (r: Result<Value, Error>)
        requires
            self.reg_view().wf(),
        ensures
            match find_tweak(self.tweaks_view(), id@) {
                None => r matches Err(Error::UnknownTweak(x)) && x@ == id@,
                Some(i) => {
                    &&& self.reg_view().reliable() ==> crate::tweaks::helpers::reads_as(
                        r,
                        self.tweaks_view()[i].reading(self.reg_view().model()),
                        self.tweaks_view()[i].read_loc(),
                    )
                    &&& r matches Ok(v) ==> self.tweaks_view()[i].reading(self.reg_view().model())
                        == Ok::<ValueV, Seq<char>>(v@)
                },
            },
    {
        match self.tweaks.get(id) {
            Some(t) => t.read(&self.reg),
            None => Err(Error::UnknownTweak(string_from(id))),
        }
    }

    /// Works out the difference between what is wanted and what is there.
    /// Nothing is written, and nothing is journalled — this is safe to call on
    /// every keystroke.
    ///
    /// The wanted settings come as a sorted map gives them: each id once, in
    /// ascending order, which is the order the plan lists them in.
    /// An accent colour's shades come from `shade`; whether a wallpaper file
    /// is there is asked of `is_file`, with its path. On a reliable registry
    /// the plan is the one [`plan_result`] describes for the answers those
    /// gave.
    pub fn plan<F: Fn(Color) -> AccentShades, G: Fn(&str) -> bool>(
        &self,
        label: &str,
        desired: &Vec<(String, Value)>,
        shade: &F,
        is_file: &G,
    ) -> (r: Result<Plan, Error>)
        requires
            self.reg_view().wf(),
            forall|c: Color| shade.requires((c,)),
            forall|s: &str| is_file.requires((s,)),
            ids_ascending(wants_view(desired@)),
        ensures
            r matches Ok(p) ==> well_formed_plan(p, label@),
            r matches Ok(p) ==> exists|answers: Seq<(AccentShades, bool)>, misreads: Seq<Option<Seq<char>>>|
                #[trigger] plan_read_back(
                    p,
                    label@,
                    self.tweaks_view(),
                    self.os_view().build,
                    self.reg_view().model(),
                    wants_view(desired@),
                    *shade,
                    *is_file,
                    answers,
                    misreads),
            self.reg_view().reliable() ==> exists|answers: Seq<(AccentShades, bool)>|
                #[trigger] plan_matches(
                    r,
                    label@,
                    self.tweaks_view(),
                    self.os_view().build,
                    self.reg_view().model(),
                    wants_view(desired@),
                    *shade,
                    *is_file,
                    answers),
    {
        let ghost ts = self.tweaks@;
        let ghost m = self.reg.model();
        let ghost build = self.os.build;
        let ghost reliable = self.reg.reliable();
        let ghost wants = wants_view(desired@);
        let ghost mut answers: Seq<(AccentShades, bool)> = Seq::empty();
        let ghost mut misreads: Seq<Option<Seq<char>>> = Seq::empty();
        let mut items: Vec<PlanItem> = Vec::new();
        let mut skipped: Vec<Skipped> = Vec::new();
        let mut i: usize = 0;
        while i < desired.len()
            invariant
                i <= desired.len(),
                ts == self.tweaks@,
                m == self.reg.model(),
                build == self.os.build,
                reliable == self.reg.reliable(),
                self.reg.wf(),
                forall|c: Color| shade.requires((c,)),
                forall|s: &str| is_file.requires((s,)),
                wants == wants_view(desired@),
                answers.len() == i,
                reliable ==> !has_fail(fates(ts, build, m, wants, answers)),
                reliable ==> forall|j: int|
                    0 <= j < i ==> #[trigger] answer_fits(ts, build, m, *shade, *is_file, wants[j].0, wants[j].1, answers[j]),
                reliable ==> items_view(items@) == items_of(fates(ts, build, m, wants, answers)),
                reliable ==> skips_view(skipped@) == skips_of(fates(ts, build, m, wants, answers)),
                misreads.len() == i,
                forall|j: int| 0 <= j < i && #[trigger] misreads[j] is Some ==> read_here(ts, build, wants[j].0),
                forall|j: int|
                    0 <= j < i && misreads[j] is None ==> #[trigger] answer_fits(
                        ts,
                        build,
                        m,
                        *shade, *is_file,
                        wants[j].0,
                        wants[j].1,
                        answers[j]),
                !has_fail(fates_read(ts, build, m, wants, answers, misreads)),
                items_view(items@) == items_of(fates_read(ts, build, m, wants, answers, misreads)),
                skips_view(skipped@) == skips_of(fates_read(ts, build, m, wants, answers, misreads)),
            decreases desired.len() - i,
        {
            let ghost any: AccentShades = vstd::pervasive::arbitrary();
            let ghost prev = fates(ts, build, m, wants, answers);
            let ghost prev_read = fates_read(ts, build, m, wants, answers, misreads);
            let ghost mut misread: Option<Seq<char>> = None;
            let ghost old_items = items@;
            let ghost old_skipped = skipped@;
            let id = &desired[i].0;
            let want = &desired[i].1;
            assert(wants[i as int] == (id@, want@));
            let ghost mut answer: (AccentShades, bool) = (any, false);
            match self.tweaks.get(id.as_str()) {
                None => {
                    let mut reason = string_from("This build of the app does not know the setting `");
                    push_str(&mut reason, id.as_str());
                    push_str(&mut reason, "`.");
                    skipped.push(Skipped { tweak: id.clone(), reason, reason_key: Some("unknown_setting") });
                    assert(skipped@.last()@ == SkipV {
                        tweak: id@,
                        reason: "This build of the app does not know the setting `"@ + id@ + "`."@,
                        reason_key: Some("unknown_setting"@),
                    });
                    assert(fate(ts, build, m, id@, want@, answer.0, answer.1) == Fate::Skip(skipped@.last()@));
                },
                Some(tweak) => {
                    let support = tweak.support(&self.os);
                    if !support.is_usable() {
                        let note = support.note();
                        let (reason, reason_key) = match note {
                            Some(n) => (string_from(n.en), Some(n.key)),
                            None => (string_from("Not supported here."), None),
                        };
                        skipped.push(Skipped { tweak: id.clone(), reason, reason_key });
                        assert(skipped@.last()@.tweak == id@);
                        assert(skipped@.last()@.reason == unsupported_reason(tweak.builds_of(), build).1);
                        assert(skipped@.last()@.reason_key == Some(unsupported_reason(tweak.builds_of(), build).0));
                        assert(fate(ts, build, m, id@, want@, answer.0, answer.1) == Fate::Skip(skipped@.last()@));
                    } else {
                        match tweak.read(&self.reg) {
                            Err(err) => {
                                let mut reason = string_from("Could not read the current value: ");
                                let text = err.message();
                                push_str(&mut reason, text.as_str());
                                skipped.push(Skipped { tweak: id.clone(), reason, reason_key: None });
                                proof {
                                    misread = Some(text@);
                                    if reliable {
                                        let d = tweak.reading(m)->Err_0;
                                        assert(skipped@.last()@.reason =~= "Could not read the current value: "@
                                            + "unexpected registry state at "@ + loc_text(tweak.read_loc()) + ": "@ + d);
                                        assert(fate(ts, build, m, id@, want@, answer.0, answer.1) == Fate::Skip(skipped@.last()@));
                                    }
                                }
                            },
                            Ok(from) => {
                                let set = tweak.plan(&self.reg, want, shade, is_file);
                                proof {
                                    let (sh, b) = choose|sh: AccentShades, b: bool|
                                        tweak.shades_fit(*shade, want@, sh) && tweak.file_fit(*is_file, want@, b)
                                            && #[trigger] tweak.outcome(
                                            set,
                                            m,
                                            reliable,
                                            want@,
                                            sh,
                                            b,
                                        );
                                    answer = (sh, b);
                                    tweak.lemma_outcome_planned(set, m, reliable, want@, sh, b);
                                }
                                let set = match set {
                                    Ok(s) => s,
                                    Err(e) => {
                                        proof {
                                            if reliable {
                                                let fin = answers.push(answer);
                                                let fs = fates(ts, build, m, wants, fin);
                                                assert(fs.drop_last() =~= prev);
                                                assert(fs.last() is Fail);
                                                assert(answer_fits(ts, build, m, *shade, *is_file, wants[i as int].0, wants[i as int].1, answer));
                                                assert forall|j: int| 0 <= j < fin.len() implies #[trigger] answer_fits(
                                                    ts, build, m, *shade, *is_file, wants[j].0, wants[j].1, fin[j]) by {
                                                    if j < i {
                                                        assert(fin[j] == answers[j]);
                                                    }
                                                }
                                                assert(plan_matches(
                                                    Err::<Plan, Error>(e),
                                                    label@,
                                                    self.tweaks_view(),
                                                    self.os_view().build,
                                                    self.reg_view().model(),
                                                    wants_view(desired@),
                                                    *shade,
                                                    *is_file,
                                                    fin,
                                                ));
                                            }
                                        }
                                        return Err(e);
                                    },
                                };
                                if set.changes.len() > 0 {
                                    let item = PlanItem {
                                        tweak: id.clone(),
                                        from,
                                        to: want.duplicate(),
                                        tier: tweak.tier(),
                                        privilege: tweak.privilege(),
                                        refresh: set.refresh,
                                        changes: set.changes,
                                    };
                                    items.push(item);
                                }
                            },
                        }
                    }
                },
            }
            proof {
                let fate_i = fate(ts, build, m, id@, want@, answer.0, answer.1);
                let read_i = fate_read(ts, build, m, id@, want@, answer.0, answer.1, misread);
                let fs_read = fates_read(ts, build, m, wants, answers.push(answer), misreads.push(misread));
                assert(fs_read =~= prev_read.push(read_i));
                assert(fs_read.drop_last() =~= prev_read);
                assert(!(read_i is Fail));
                assert forall|j: int| 0 <= j < fs_read.len() implies !(#[trigger] fs_read[j] is Fail) by {
                    if j < i {
                        assert(fs_read[j] == prev_read[j]);
                    }
                }
                assert(items_view(items@) =~= items_view(old_items) + match read_i {
                    Fate::Item(it) => seq![it],
                    _ => Seq::<ItemV>::empty(),
                });
                assert(skips_view(skipped@) =~= skips_view(old_skipped) + match read_i {
                    Fate::Skip(x) => seq![x],
                    _ => Seq::<SkipV>::empty(),
                });
                misreads = misreads.push(misread);
                answers = answers.push(answer);
                let fs = fates(ts, build, m, wants, answers);
                assert(fs =~= prev.push(fate_i));
                assert(fs.drop_last() =~= prev);
                if reliable {
                    assert(!(fate_i is Fail));
                    assert forall|j: int| 0 <= j < fs.len() implies !(#[trigger] fs[j] is Fail) by {
                        if j < i {
                            assert(fs[j] == prev[j]);
                        }
                    }
                    assert(items_view(items@) =~= items_view(old_items) + match fate_i {
                        Fate::Item(it) => seq![it],
                        _ => Seq::<ItemV>::empty(),
                    });
                    assert(skips_view(skipped@) =~= skips_view(old_skipped) + match fate_i {
                        Fate::Skip(x) => seq![x],
                        _ => Seq::<SkipV>::empty(),
                    });
                }
                if reliable {
                    assert forall|j: int| 0 <= j < answers.len() implies #[trigger] answer_fits(
                        ts, build, m, *shade, *is_file, wants[j].0, wants[j].1, answers[j]) by {
                        if j < i {
                            assert(answers[j] == answers.drop_last()[j]);
                        }
                    }
                }
            }
            i += 1;
        }
        let needs_elevation = any_item(&items, 0);
        let needs_shell_restart = any_item(&items, 1);
        let needs_sign_out = any_item(&items, 2);
        let r = Ok(
            Plan {
                label: string_from(label),
                items,
                skipped,
                needs_elevation,
                needs_shell_restart,
                needs_sign_out,
            },
        );
        proof {
            assert(plan_read_back(
                r->Ok_0,
                label@,
                self.tweaks_view(),
                self.os_view().build,
                self.reg_view().model(),
                wants_view(desired@),
                *shade,
                *is_file,
                answers,
                misreads));
            if reliable {
                assert(plan_matches(
                    r,
                    label@,
                    self.tweaks_view(),
                    self.os_view().build,
                    self.reg_view().model(),
                    wants_view(desired@),
                    *shade,
                    *is_file,
                    answers));
            }
        }
        r
    }

    /// Asks the shell for what the refreshes need: each broadcast area once, in
    /// order, then the association, cursor and wallpaper refreshes. The
    /// wallpaper is read back from the registry rather than taken from a plan:
    /// whatever is there now is what the desktop should show.
    fn run_refreshes(&mut self, refreshes: &Vec<Refresh>) -> (r: Result<(), Error>)
        requires
            old(self).reg_view().wf(),
        ensures
            final(self).reg_view() == old(self).reg_view(),
            final(self).journal_view() == old(self).journal_view(),
            final(self).tweaks_view() == old(self).tweaks_view(),
            final(self).os_view() == old(self).os_view(),
            final(self).shell_view().reliable() == old(self).shell_view().reliable(),
            old(self).shell_view().reliable() && old(self).reg_view().reliable() ==> r is Ok,
            r is Ok ==> exists|areas: Seq<Seq<char>>|
                sorted_strictly(areas) && areas.to_set() == broadcast_areas(refreshes@)
                    && #[trigger] final(self).shell_view().requested() == old(self).shell_view().requested() + refresh_calls(
                    areas,
                    any_assoc(refreshes@),
                    any_cursors(refreshes@),
                    if any_wallpaper(refreshes@) {
                        Some(wallpaper_path(old(self).reg_view().model()))
                    } else {
                        None
                    },
                ),
    {
        let ghost rs = refreshes@;
        let mut areas: Vec<&'static str> = Vec::new();
        let mut assoc = false;
        let mut cursors = false;
        let mut wallpaper = false;
        let mut i: usize = 0;
        while i < refreshes.len()
            invariant
                i <= refreshes.len(),
                rs == refreshes@,
                sorted_strictly(strs_view(areas@)),
                strs_view(areas@).to_set() == broadcast_areas(rs.take(i as int)),
                assoc == any_assoc(rs.take(i as int)),
                cursors == any_cursors(rs.take(i as int)),
                wallpaper == any_wallpaper(rs.take(i as int)),
            decreases refreshes.len() - i,
        {
            let ghost prefix = rs.take(i as int);
            let ghost next = rs.take(i + 1);
            assert(next =~= prefix.push(rs[i as int]));
            match refreshes[i] {
                Refresh::Broadcast(area) => {
                    insert_sorted(&mut areas, area);
                },
                Refresh::AssocChanged => {
                    assoc = true;
                },
                Refresh::Cursors => {
                    cursors = true;
                },
                Refresh::Wallpaper => {
                    wallpaper = true;
                },
                // Restarting Explorer and signing out are left to the caller:
                // both need the user to agree first.
                _ => {},
            }
            proof {
                lemma_refresh_step(prefix, rs[i as int]);
            }
            i += 1;
        }
        proof {
            assert(rs.take(refreshes.len() as int) =~= rs);
        }
        let ghost start = self.shell.requested();
        let ghost m = self.reg.model();
        let mut k: usize = 0;
        while k < areas.len()
            invariant
                k <= areas.len(),
                self.reg == old(self).reg,
                self.journal == old(self).journal,
                self.tweaks == old(self).tweaks,
                self.os == old(self).os,
                m == self.reg.model(),
                self.shell.reliable() == old(self).shell.reliable(),
                self.shell.requested() == start + strs_view(areas@).take(k as int).map_values(
                    |a: Seq<char>| ShellCall::Broadcast(a),
                ),
            decreases areas.len() - k,
        {
            self.shell.broadcast_setting_change(areas[k])?;
            proof {
                assert(strs_view(areas@).take(k + 1).map_values(|a: Seq<char>| ShellCall::Broadcast(a))
                    =~= strs_view(areas@).take(k as int).map_values(
                    |a: Seq<char>| ShellCall::Broadcast(a),
                ).push(ShellCall::Broadcast(areas@[k as int]@)));
            }
            k += 1;
        }
        proof {
            assert(strs_view(areas@).take(areas.len() as int) =~= strs_view(areas@));
        }
        let ghost after_areas = self.shell.requested();
        if assoc {
            self.shell.notify_assoc_changed()?;
        }
        if cursors {
            self.shell.refresh_cursors()?;
        }
        if wallpaper {
            let shown = crate::tweaks::desktop::WallpaperTweak.read(&self.reg)?;
            match shown {
                Value::Str(path) => {
                    self.shell.apply_wallpaper(path.as_str())?;
                },
                _ => {},
            }
        }
        proof {
            let calls = refresh_calls(
                strs_view(areas@),
                assoc,
                cursors,
                if wallpaper {
                    Some(wallpaper_path(m))
                } else {
                    None
                },
            );
            assert(self.shell.requested() =~= start + calls);
        }
        Ok(())
    }

    /// Applies a plan as one batch: journal first, then write, then refresh.
    /// If any write fails, everything already written in this batch is undone
    /// before the error is returned.
    #[verifier::spinoff_prover]
    pub fn apply(&mut self, plan: &Plan) -> (r: Result<ApplyReport, Error>)
        requires
            old(self).wf(),
            all_changes(items_view(plan.items@)).len() <= usize::MAX,
        ensures
            final(self).wf(),
            final(self).reg_view().reliable() == old(self).reg_view().reliable(),
            final(self).tweaks_view() == old(self).tweaks_view(),
            final(self).os_view() == old(self).os_view(),
            plan.needs_elevation ==> (r matches Err(Error::NeedsElevation(names)) && names@ == joined(
                elevated_names(items_view(plan.items@)),
            ) && final(self).reg_view().model() == old(self).reg_view().model()
                && final(self).journal_view().entries() == old(self).journal_view().entries()
                && final(self).shell_view().requested() == old(self).shell_view().requested()),
            final(self).journal_view().reliable() == old(self).journal_view().reliable(),
            final(self).shell_view().reliable() == old(self).shell_view().reliable(),
            old(self).reg_view().reliable() && old(self).journal_view().reliable() && old(self).shell_view().reliable()
                && !plan.needs_elevation ==> r is Ok,
            r is Err && !plan.needs_elevation && old(self).journal_view().reliable() && all_changes(
                items_view(plan.items@),
            ).len() > 0 ==> exists|e: EntryV|
                #![trigger old(self).journal_view().entries().insert(e.id, e)]
                e.changes == all_changes(items_view(plan.items@)) && e.label == plan.label@
                    && e.tweaks == item_names(items_view(plan.items@)) && e.os_build == old(self).os_view().build
                    && final(self).journal_view().entries() == old(self).journal_view().entries().insert(e.id, e)
                    && ((e.status == Status::RolledBack && rolled_back(
                    old(self).reg_view().model(),
                    e.changes,
                    final(self).reg_view().model(),
                ) && final(self).shell_view().requested() == old(self).shell_view().requested()) || (
                e.status == Status::Applied && final(self).reg_view().model() == apply_all(
                    old(self).reg_view().model(),
                    e.changes,
                ))),
            r is Err && !plan.needs_elevation && all_changes(items_view(plan.items@)).len() > 0 ==> exists|e: EntryV|
                #[trigger] pending_record(
                    e,
                    all_changes(items_view(plan.items@)),
                    plan.label@,
                    item_names(items_view(plan.items@)),
                    old(self).os_view().build,
                ) && apply_stopped(
                    old(self).journal_view().handed(),
                    final(self).journal_view().handed(),
                    old(self).reg_view().model(),
                    final(self).reg_view().model(),
                    old(self).journal_view().entries(),
                    final(self).journal_view().entries(),
                    old(self).shell_view().requested(),
                    final(self).shell_view().requested(),
                    e,
                ),
            final(self).reg_view().model() != old(self).reg_view().model() ==> exists|e: EntryV|
                #[trigger] pending_record(
                    e,
                    all_changes(items_view(plan.items@)),
                    plan.label@,
                    item_names(items_view(plan.items@)),
                    old(self).os_view().build,
                ) && handed_first(old(self).journal_view().handed(), final(self).journal_view().handed(), e),
            r matches Ok(rep) ==> {
                let cs = all_changes(items_view(plan.items@));
                &&& cs.len() > 0 ==> final(self).journal_view().handed() == old(self).journal_view().handed()
                    + kept_for(with_status(rep.entry@, Status::Pending)) + kept_for(rep.entry@)
                &&& cs.len() == 0 ==> final(self).journal_view().handed() == old(self).journal_view().handed()
                &&& !plan.needs_elevation
                &&& final(self).reg_view().model() == apply_all(old(self).reg_view().model(), cs)
                &&& rep.entry@.changes == cs
                &&& rep.entry@.tweaks == item_names(items_view(plan.items@))
                &&& rep.entry@.label == plan.label@
                &&& rep.entry@.os_build == old(self).os_view().build
                &&& rep.entry@.status == Status::Applied
                &&& rep.shell_restart_pending == (cs.len() > 0 && plan.needs_shell_restart)
                &&& rep.sign_out_pending == (cs.len() > 0 && plan.needs_sign_out)
                &&& cs.len() > 0 ==> final(self).journal_view().entries() == old(self).journal_view().entries().insert(rep.entry@.id, rep.entry@)
                &&& cs.len() == 0 ==> final(self).journal_view().entries() == old(self).journal_view().entries()
                &&& cs.len() > 0 ==> exists|areas: Seq<Seq<char>>|
                    sorted_strictly(areas) && areas.to_set() == broadcast_areas(
                        item_refreshes(items_view(plan.items@)),
                    ) && #[trigger] final(self).shell_view().requested() == old(self).shell_view().requested() + refresh_calls(
                        areas,
                        any_assoc(item_refreshes(items_view(plan.items@))),
                        any_cursors(item_refreshes(items_view(plan.items@))),
                        if any_wallpaper(item_refreshes(items_view(plan.items@))) {
                            Some(wallpaper_path(final(self).reg_view().model()))
                        } else {
                            None
                        },
                    )
            },
            old(self).reg_view().reliable() && !plan.needs_elevation ==> (final(self).reg_view().model()
                == old(self).reg_view().model() || final(self).reg_view().model() == apply_all(
                old(self).reg_view().model(),
                all_changes(items_view(plan.items@)),
            )),
    {
        let ghost iv = items_view(plan.items@);
        if plan.needs_elevation {
            // Elevated writes need a broker this build does not have; refusing
            // beats half-applying.
            return Err(Error::NeedsElevation(elevated(&plan.items)));
        }
        let mut changes: Vec<Change> = Vec::new();
        let mut tweaks: Vec<String> = Vec::new();
        let mut refreshes: Vec<Refresh> = Vec::new();
        let mut i: usize = 0;
        while i < plan.items.len()
            invariant
                i <= plan.items.len(),
                iv == items_view(plan.items@),
                all_changes(iv).len() <= usize::MAX,
                changes_view(changes@) == all_changes(iv.take(i as int)),
                strings_view(tweaks@) == item_names(iv.take(i as int)),
                refreshes@ == item_refreshes(iv.take(i as int)),
            decreases plan.items.len() - i,
        {
            let item = &plan.items[i];
            proof {
                assert(iv.take(i + 1).drop_last() =~= iv.take(i as int));
                assert(iv.take(i + 1).last() == item@);
                lemma_all_changes_prefix(iv, i + 1);
            }
            let mut k: usize = 0;
            let ghost start = changes_view(changes@);
            while k < item.changes.len()
                invariant
                    k <= item.changes.len(),
                    changes_view(changes@) == start + changes_view(item.changes@).take(k as int),
                    start.len() + item.changes.len() <= usize::MAX,
                decreases item.changes.len() - k,
            {
                let ghost prev = changes@;
                let c = item.changes[k].duplicate();
                changes.push(c);
                proof {
                    assert(changes@ == prev.push(c));
                    assert(changes_view(changes@) =~= changes_view(prev).push(c@));
                    assert(changes_view(item.changes@).take(k + 1) =~= changes_view(
                        item.changes@,
                    ).take(k as int).push(item.changes@[k as int]@));
                    assert(changes_view(changes@) =~= start + changes_view(item.changes@).take(
                        k + 1,
                    ));
                }
                k += 1;
            }
            let ghost prev_tweaks = tweaks@;
            tweaks.push(item.tweak.clone());
            refreshes.push(item.refresh);
            proof {
                assert(tweaks@ == prev_tweaks.push(tweaks@.last()));
                assert(strings_view(tweaks@) =~= strings_view(prev_tweaks).push(item.tweak@));
                assert(item_names(iv.take(i + 1)) =~= item_names(iv.take(i as int)).push(item@.tweak));
                assert(changes_view(item.changes@).take(item.changes.len() as int) =~= changes_view(
                    item.changes@,
                ));
                assert(strings_view(tweaks@) =~= item_names(iv.take(i + 1)));
                assert(refreshes@ =~= item_refreshes(iv.take(i + 1)));
            }
            i += 1;
        }
        proof {
            assert(iv.take(plan.items.len() as int) =~= iv);
        }
        let mut entry = JournalEntry::new(plan.label.clone(), self.os.build, tweaks, changes);
        if entry.changes.len() == 0 {
            entry.status = Status::Applied;
            return Ok(
                ApplyReport { entry, shell_restart_pending: false, sign_out_pending: false },
            );
        }
        // Written while still pending, together with the backup, so a crash
        // between here and the last write leaves a full undo record.
        let ghost pend = entry@;
        let ghost h0 = self.journal.handed();
        let ghost j0 = self.journal.entries();
        let ghost m0 = self.reg.model();
        let ghost s0 = self.shell.requested();
        let ghost cs = all_changes(iv);
        assert(pending_record(pend, cs, plan.label@, item_names(iv), self.os.build));
        match self.journal.write(&entry) {
            Ok(()) => {},
            Err(err) => {
                proof {
                    assert(pending_record(pend, all_changes(items_view(plan.items@)), plan.label@, item_names(items_view(plan.items@)), old(self).os_view().build));
                    assert(apply_stopped(h0, self.journal.handed(), m0, self.reg.model(), j0, self.journal.entries(), s0, self.shell.requested(), pend));
                }
                return Err(err);
            },
        }
        let ghost h1 = self.journal.handed();
        let ghost after_pending = self.journal.entries();
        proof {
            assert(h1 == h0 + kept_for(pend));
            assert(h1.subrange(0, h0.len() as int) =~= h0);
            assert(h1.subrange(h0.len() as int, (h0.len() + kept_for(pend).len()) as int) =~= kept_for(pend));
        }
        match execute_batch(&mut self.reg, &entry.changes) {
            Ok(()) => {},
            Err(err) => {
                entry.status = Status::RolledBack;
                assert(entry@ == with_status(pend, Status::RolledBack));
                match self.journal.write(&entry) {
                    Ok(()) => {},
                    Err(e2) => {
                        proof {
                            assert(pending_record(pend, all_changes(items_view(plan.items@)), plan.label@, item_names(items_view(plan.items@)), old(self).os_view().build));
                            assert(apply_stopped(h0, self.journal.handed(), m0, self.reg.model(), j0, self.journal.entries(), s0, self.shell.requested(), pend));
                            assert(handed_first(h0, self.journal.handed(), pend)) by {
                                let h2 = self.journal.handed();
                                assert(h2.subrange(0, h1.len() as int) == h1);
                                assert(h2.subrange(0, h0.len() as int) =~= h1.subrange(0, h0.len() as int));
                                assert(h2.subrange(h0.len() as int, (h0.len() + kept_for(pend).len()) as int) =~= h1.subrange(h0.len() as int, (h0.len() + kept_for(pend).len()) as int));
                            }
                        }
                        return Err(e2);
                    },
                }
                proof {
                    assert(self.journal.entries() =~= old(self).journal.entries().insert(entry@.id, entry@));
                    assert(self.journal.entries() == old(self).journal_view().entries().insert(entry@.id, entry@));
                    assert(pending_record(pend, all_changes(items_view(plan.items@)), plan.label@, item_names(items_view(plan.items@)), old(self).os_view().build));
                    assert(apply_stopped(h0, self.journal.handed(), m0, self.reg.model(), j0, self.journal.entries(), s0, self.shell.requested(), pend));
                    let h2 = self.journal.handed();
                    assert(h2.subrange(0, h0.len() as int) =~= h0);
                    assert(h2.subrange(h0.len() as int, (h0.len() + kept_for(pend).len()) as int) =~= kept_for(pend));
                    assert(handed_first(h0, h2, pend));
                }
                return Err(err);
            },
        }
        entry.status = Status::Applied;
        assert(entry@ == with_status(pend, Status::Applied));
        match self.journal.write(&entry) {
            Ok(()) => {},
            Err(e2) => {
                proof {
                    assert(pending_record(pend, all_changes(items_view(plan.items@)), plan.label@, item_names(items_view(plan.items@)), old(self).os_view().build));
                    assert(apply_stopped(h0, self.journal.handed(), m0, self.reg.model(), j0, self.journal.entries(), s0, self.shell.requested(), pend));
                    let h2 = self.journal.handed();
                    assert(h2.subrange(0, h1.len() as int) == h1);
                    assert(h2.subrange(0, h0.len() as int) =~= h0);
                    assert(h2.subrange(h0.len() as int, (h0.len() + kept_for(pend).len()) as int) =~= kept_for(pend));
                    assert(handed_first(h0, h2, pend));
                }
                return Err(e2);
            },
        }
        proof {
            assert(self.journal.entries() =~= old(self).journal.entries().insert(entry@.id, entry@));
            let h2 = self.journal.handed();
            assert(h2.subrange(0, h0.len() as int) =~= h0);
            assert(h2.subrange(h0.len() as int, (h0.len() + kept_for(pend).len()) as int) =~= kept_for(pend));
            assert(with_status(entry@, Status::Pending) == pend);
            assert(handed_first(h0, h2, pend));
            assert(pending_record(pend, all_changes(items_view(plan.items@)), plan.label@, item_names(items_view(plan.items@)), old(self).os_view().build));
        }
        match self.run_refreshes(&refreshes) {
            Ok(()) => {},
            Err(err) => {
                proof {
                    assert(self.journal.entries() == old(self).journal_view().entries().insert(entry@.id, entry@));
                    assert(pending_record(pend, all_changes(items_view(plan.items@)), plan.label@, item_names(items_view(plan.items@)), old(self).os_view().build));
                    assert(apply_stopped(h0, self.journal.handed(), m0, self.reg.model(), j0, self.journal.entries(), s0, self.shell.requested(), pend));
                }
                return Err(err);
            },
        }
        Ok(
            ApplyReport {
                entry,
                shell_restart_pending: plan.needs_shell_restart,
                sign_out_pending: plan.needs_sign_out,
            },
        )
    }

    /// Puts one journal entry back. Reverting is applying the inverse batch, so
    /// it goes through the same journalling path and is itself revertible.
    pub fn revert(&mut self, entry_id: &str) -> (r: Result<ApplyReport, Error>)
        requires
            old(self).wf(),
        ensures
            final(self).wf(),
            final(self).reg_view().reliable() == old(self).reg_view().reliable(),
            final(self).tweaks_view() == old(self).tweaks_view(),
            final(self).os_view() == old(self).os_view(),
            old(self).journal_view().entries().contains_key(entry_id@) && old(self).journal_view().entries()[entry_id@].status
                == Status::Reverted ==> (r matches Err(Error::Journal(msg)) && msg@ == "entry "@ + entry_id@
                + " has already been reverted"@) && final(self).reg_view().model() == old(self).reg_view().model()
                && final(self).journal_view().entries() == old(self).journal_view().entries()
                && final(self).journal_view().handed() == old(self).journal_view().handed()
                && final(self).shell_view().requested() == old(self).shell_view().requested(),
            !old(self).journal_view().entries().contains_key(entry_id@) ==> r is Err && final(self).reg_view().model()
                == old(self).reg_view().model() && final(self).journal_view().entries() == old(self).journal_view().entries()
                && final(self).journal_view().handed() == old(self).journal_view().handed()
                && final(self).shell_view().requested() == old(self).shell_view().requested(),
            final(self).journal_view().reliable() == old(self).journal_view().reliable(),
            final(self).shell_view().reliable() == old(self).shell_view().reliable(),
            old(self).reg_view().reliable() && old(self).journal_view().reliable() && old(self).shell_view().reliable()
                && old(self).journal_view().entries().contains_key(entry_id@)
                && old(self).journal_view().entries()[entry_id@].status != Status::Reverted ==> r is Ok,
            r matches Ok(rep) ==> old(self).journal_view().entries().contains_key(entry_id@) && {
                let original = old(self).journal_view().entries()[entry_id@];
                &&& original.status != Status::Reverted
                &&& rep.entry@.changes == undo_of(original.changes)
                &&& rep.entry@.label == "Reverted: "@ + original.label
                &&& rep.entry@.tweaks == original.tweaks
                &&& rep.entry@.os_build == old(self).os_view().build
                &&& rep.entry@.status == Status::Applied
                &&& final(self).reg_view().model() == apply_all(
                    old(self).reg_view().model(),
                    undo_of(original.changes),
                )
                &&& final(self).journal_view().entries() == old(self).journal_view().entries().insert(rep.entry@.id, rep.entry@).insert(
                    original.id,
                    with_status(original, Status::Reverted),
                )
                &&& final(self).shell_view().requested() == old(self).shell_view().requested().push(ShellCall::Broadcast("ImmersiveColorSet"@)).push(
                    ShellCall::AssocChanged,
                )
                &&& rep.shell_restart_pending
                &&& !rep.sign_out_pending
                &&& final(self).journal_view().handed() == old(self).journal_view().handed() + kept_for(
                    with_status(rep.entry@, Status::Pending),
                ) + kept_for(rep.entry@) + kept_for(with_status(original, Status::Reverted))
            },
            final(self).reg_view().model() != old(self).reg_view().model() ==> exists|e: EntryV|
                #![trigger handed_first(old(self).journal_view().handed(), final(self).journal_view().handed(), e)]
                e.status == Status::Pending && e.changes == undo_of(
                    old(self).journal_view().entries()[entry_id@].changes,
                ) && handed_first(old(self).journal_view().handed(), final(self).journal_view().handed(), e),
    {
        let mut original = self.journal.load(entry_id)?;
        if original.status == Status::Reverted {
            let mut message = string_from("entry ");
            push_str(&mut message, entry_id);
            push_str(&mut message, " has already been reverted");
            return Err(Error::Journal(message));
        }
        let undo = original.undo_changes();
        let mut label = string_from("Reverted: ");
        push_str(&mut label, original.label.as_str());
        let mut entry = JournalEntry::new(
            label,
            self.os.build,
            crate::journal::duplicate_strings(&original.tweaks),
            undo,
        );
        let ghost pend = entry@;
        let ghost h0 = self.journal.handed();
        assert(pend.status == Status::Pending && pend.changes == undo_of(
            old(self).journal_view().entries()[entry_id@].changes,
        ));
        self.journal.write(&entry)?;
        let ghost h1 = self.journal.handed();
        proof {
            assert(h1.subrange(0, h0.len() as int) =~= h0);
            assert(h1.subrange(h0.len() as int, (h0.len() + kept_for(pend).len()) as int) =~= kept_for(pend));
            assert(handed_first(h0, h1, pend));
        }
        match execute_batch(&mut self.reg, &entry.changes) {
            Ok(()) => {},
            Err(err) => {
                entry.status = Status::RolledBack;
                let w = self.journal.write(&entry);
                proof {
                    lemma_write_keeps_front(h1, self.journal.handed(), entry@);
                    lemma_handed_first_grows(h0, h1, self.journal.handed(), pend);
                    assert(handed_first(old(self).journal_view().handed(), self.journal_view().handed(), pend));
                }
                w?;
                return Err(err);
            },
        }
        entry.status = Status::Applied;
        let w = self.journal.write(&entry);
        let ghost h2 = self.journal.handed();
        proof {
            lemma_write_keeps_front(h1, h2, entry@);
            lemma_handed_first_grows(h0, h1, h2, pend);
        }
        w?;
        let ghost with_new = self.journal.entries();
        original.status = Status::Reverted;
        let w = self.journal.write(&original);
        proof {
            lemma_write_keeps_front(h2, self.journal.handed(), original@);
            lemma_handed_first_grows(h0, h2, self.journal.handed(), pend);
        }
        w?;
        proof {
            assert(with_new =~= old(self).journal.entries().insert(entry@.id, entry@));
            assert(with_status(entry@, Status::Pending) == pend);
            assert(handed_first(old(self).journal_view().handed(), self.journal_view().handed(), pend));
        }
        let ghost h_end = self.journal.handed();
        // Which tweaks these keys belonged to is not known any more, so refresh
        // broadly, but still stop short of restarting Explorer.
        match self.shell.broadcast_setting_change("ImmersiveColorSet") {
            Ok(()) => {},
            Err(e) => {
                assert(self.journal.handed() == h_end);
                assert(handed_first(old(self).journal_view().handed(), self.journal_view().handed(), pend));
                return Err(e);
            },
        }
        self.shell.notify_assoc_changed()?;
        Ok(ApplyReport { entry, shell_restart_pending: true, sign_out_pending: false })
    }

    /// Undoes every applied entry that changed something, newest first. With a
    /// registry, a journal and a shell that do not fail, it succeeds.
    #[verifier::rlimit(80)]
    #[verifier::spinoff_prover]
    pub fn revert_all(&mut self) -> (r: Result<Vec<ApplyReport>, Error>)
        requires
            old(self).wf(),
        ensures
            final(self).wf(),
            final(self).reg_view().reliable() == old(self).reg_view().reliable(),
            final(self).journal_view().reliable() == old(self).journal_view().reliable(),
            final(self).shell_view().reliable() == old(self).shell_view().reliable(),
            old(self).reg_view().reliable() && old(self).journal_view().reliable() && old(self).shell_view().reliable()
                ==> r is Ok,
            r matches Ok(reports) ==> final(self).reg_view().model() == apply_all(
                old(self).reg_view().model(),
                report_changes(reports@),
            ) && forall|i: int|
                0 <= i < reports@.len() ==> (#[trigger] reports@[i]).entry@.status == Status::Applied,
            r matches Ok(reports) ==> {
                let ts = revert_targets(old(self).journal_view().listing());
                &&& reports@.len() == ts.len()
                &&& forall|t: int|
                    0 <= t < ts.len() ==> reverts(#[trigger] reports@[t], ts[t]) || id_taken(reports@, t, ts[t].id)
                &&& forall|t: int|
                    0 <= t < ts.len() && !id_taken(reports@, reports@.len() as int, #[trigger] ts[t].id)
                        ==> final(self).journal_view().entries().contains_key(ts[t].id)
                        && final(self).journal_view().entries()[ts[t].id].status == Status::Reverted
            },
    {
        let entries = self.journal.list()?;
        let ghost listed = self.journal.listing();
        proof {
            assert forall|k: int| 0 <= k < entries@.len() implies #[trigger] entries@[k]@ == listed[k] by {
                assert(crate::journal::entries_view(entries@)[k] == entries@[k]@);
            }
            assert forall|a: int, b: int| 0 <= a < b < entries@.len() implies #[trigger] entries@[a].id@
                != #[trigger] entries@[b].id@ by {
                assert(entries@[a]@ == listed[a]);
                assert(entries@[b]@ == listed[b]);
                assert(listed[a].id != listed[b].id);
            }
            assert forall|k: int| 0 <= k < entries@.len() && (#[trigger] entries@[k]).status == Status::Applied
                implies self.journal.entries().contains_key(entries@[k].id@)
                && self.journal.entries()[entries@[k].id@].status != Status::Reverted
                && self.journal.entries()[entries@[k].id@].id == entries@[k].id@
                && self.journal.entries()[entries@[k].id@] == entries@[k]@ by {
                assert(entries@[k]@ == listed[k]);
                assert(self.journal.entries().contains_key(listed[k].id));
            }
            assert(listed.take(0) =~= Seq::<EntryV>::empty());
        }
        let mut reports: Vec<ApplyReport> = Vec::new();
        let ghost mut tidx: Seq<int> = Seq::empty();
        let mut i: usize = 0;
        proof {
            assert(still_pending(self.journal.entries(), listed, 0, reports@)) by {
                assert forall|k: int| 0 <= k < listed.len() && (#[trigger] listed[k]).status == Status::Applied
                    implies self.journal.entries().contains_key(listed[k].id) by {
                    assert(entries@[k]@ == listed[k]);
                }
            }
        }
        while i < entries.len()
            invariant
                i <= entries.len(),
                self.wf(),
                self.reg.reliable() == old(self).reg.reliable(),
                self.journal.reliable() == old(self).journal.reliable(),
                self.shell.reliable() == old(self).shell.reliable(),
                self.reg.model() == apply_all(old(self).reg.model(), report_changes(reports@)),
                listed == old(self).journal.listing(),
                listed.len() == entries@.len(),
                forall|k: int| 0 <= k < entries@.len() ==> #[trigger] entries@[k]@ == listed[k],
                forall|j: int|
                    0 <= j < reports@.len() ==> (#[trigger] reports@[j]).entry@.status
                        == Status::Applied,
                ids_apart(listed),
                still_pending(self.journal.entries(), listed, i as int, reports@),
                tidx.len() == reports@.len(),
                forall|t: int| 0 <= t < tidx.len() ==> 0 <= #[trigger] tidx[t] < i,
                revert_targets(listed.take(i as int)).len() == reports@.len(),
                forall|t: int|
                    0 <= t < tidx.len() ==> revert_targets(listed.take(i as int))[t] == listed[#[trigger] tidx[t]],
                done_well(self.journal.entries(), listed, tidx, reports@),
            decreases entries.len() - i,
        {
            let e = &entries[i];
            proof {
                assert(listed.take(i + 1).drop_last() =~= listed.take(i as int));
                assert(listed.take(i + 1).last() == listed[i as int]);
                assert(entries@[i as int]@ == listed[i as int]);
                assert(listed[i as int].changes.len() == e.changes@.len());
            }
            if e.status == Status::Applied && e.changes.len() > 0 {
                let ghost before = reports@;
                let ghost m = self.reg.model();
                let ghost held = self.journal.entries();
                let ghost id = e.id@;
                proof {
                    assert(held.contains_key(listed[i as int].id));
                }
                let report = self.revert(e.id.as_str())?;
                proof {
                    lemma_revert_step(held, self.journal.entries(), listed, i as int, tidx, before, report);
                    assert(revert_targets(listed.take(i + 1)) == revert_targets(listed.take(i as int)).push(
                        listed[i as int],
                    ));
                    tidx = tidx.push(i as int);
                }
                reports.push(report);
                proof {
                    assert(reports@ == before.push(report));
                    assert(reports@.drop_last() =~= before);
                    crate::tweak::lemma_apply_concat(
                        old(self).reg.model(),
                        report_changes(before),
                        reports@.last().entry@.changes,
                    );
                }
            } else {
                proof {
                    assert(!to_revert(listed[i as int]));
                    assert(revert_targets(listed.take(i + 1)) == revert_targets(listed.take(i as int)));
                }
            }
            i += 1;
        }
        proof {
            assert(listed.take(i as int) =~= listed);
            let ts = revert_targets(listed);
            assert forall|t: int| 0 <= t < ts.len() implies reverts(#[trigger] reports@[t], ts[t]) || id_taken(
                reports@,
                t,
                ts[t].id,
            ) by {
                assert(ts[t] == listed[tidx[t]]);
            }
            assert forall|t: int|
                0 <= t < ts.len() && !id_taken(reports@, reports@.len() as int, #[trigger] ts[t].id)
                    implies self.journal.entries().contains_key(ts[t].id)
                    && self.journal.entries()[ts[t].id].status == Status::Reverted by {
                assert(ts[t] == listed[tidx[t]]);
            }
        }
        Ok(reports)
    }

    /// What this app has done to the machine: every entry of the journal, each
    /// once, newest first.
    pub fn history(&self) -> (r: Result<Vec<JournalEntry>, Error>)
        requires
            self.journal_view().wf(),
        ensures
            r matches Ok(v) && crate::journal::entries_view(v@) == self.journal_view().listing(),
            forall|i: int|
                0 <= i < self.journal_view().listing().len() ==> self.journal_view().entries().contains_key(
                    #[trigger] self.journal_view().listing()[i].id,
                ) && self.journal_view().entries()[self.journal_view().listing()[i].id]
                    == self.journal_view().listing()[i],
            self.journal_view().listing().len() == self.journal_view().entries().len(),
    {
        self.journal.list()
    }

    /// Only ever called after the user agrees.
    pub fn restart_explorer(&mut self) -> (r: Result<(), Error>)
        ensures
            final(self).shell_view().requested() == old(self).shell_view().requested().push(
                ShellCall::RestartExplorer,
            ),
            final(self).reg_view() == old(self).reg_view(),
            final(self).journal_view() == old(self).journal_view(),
            final(self).shell_view().reliable() == old(self).shell_view().reliable(),
            old(self).shell_view().reliable() ==> r is Ok,
    {
        self.shell.restart_explorer()
    }
}

/// The names of the items that need elevation, joined with `, `.
#[verifier::spinoff_prover]
fn elevated(items: &Vec<PlanItem>) -> (r: String)
    ensures
        r@ == joined(elevated_names(items_view(items@))),
{
    let mut s = String::new();
    let mut count: usize = 0;
    let mut i: usize = 0;
    let ghost iv = items_view(items@);
    while i < items.len()
        invariant
            i <= items.len(),
            iv == items_view(items@),
            s@ == joined(elevated_names(iv.take(i as int))),
            count == elevated_names(iv.take(i as int)).len(),
            count <= i,
        decreases items.len() - i,
    {
        proof {
            assert(iv.take(i + 1).drop_last() =~= iv.take(i as int));
            assert(iv.take(i + 1).last() == items@[i as int]@);
        }
        if items[i].privilege == Privilege::Elevated {
            let ghost names = elevated_names(iv.take(i as int));
            if count > 0 {
                push_str(&mut s, ", ");
            }
            push_str(&mut s, items[i].tweak.as_str());
            proof {
                let more = names.push(items@[i as int].tweak@);
                assert(elevated_names(iv.take(i + 1)) =~= more);
                assert(more.drop_last() =~= names);
                if count == 0 {
                    assert(s@ =~= joined(more));
                } else {
                    assert(s@ =~= joined(more));
                }
            }
            count += 1;
        } else {
            proof {
                assert(elevated_names(iv.take(i + 1)) =~= elevated_names(iv.take(i as int)));
            }
        }
        i += 1;
    }
    proof {
        assert(iv.take(items.len() as int) =~= iv);
    }
    s
}

proof fn lemma_all_changes_prefix(items: Seq<ItemV>, n: int)
    requires
        0 <= n <= items.len(),
    ensures
        all_changes(items.take(n)).len() <= all_changes(items).len(),
    decreases items.len(),
{
    if n < items.len() {
        assert(items.drop_last().take(n) =~= items.take(n));
        lemma_all_changes_prefix(items.drop_last(), n);
    } else {
        assert(items.take(n) =~= items);
    }
}

/// The path the registry names as the wallpaper.
pub open spec fn wallpaper_path(m: RegModel) -> Seq<char> {
    match crate::tweaks::desktop::WallpaperTweak::reading(m) {
        ValueV::Str(p) => p,
        _ => Seq::empty(),
    }
}

/// What one more refresh adds to what a batch asks for.
proof fn lemma_refresh_step(rs: Seq<Refresh>, x: Refresh)
    ensures
        broadcast_areas(rs.push(x)) == match x {
            Refresh::Broadcast(a) => broadcast_areas(rs).insert(a@),
            _ => broadcast_areas(rs),
        },
        any_assoc(rs.push(x)) == (any_assoc(rs) || x is AssocChanged),
        any_cursors(rs.push(x)) == (any_cursors(rs) || x is Cursors),
        any_wallpaper(rs.push(x)) == (any_wallpaper(rs) || x is Wallpaper),
{
    let n = rs.push(x);
    assert(n[rs.len() as int] == x);
    assert forall|i: int| 0 <= i < rs.len() implies #[trigger] n[i] == rs[i] by {}
    let target = match x {
        Refresh::Broadcast(a) => broadcast_areas(rs).insert(a@),
        _ => broadcast_areas(rs),
    };
    assert(broadcast_areas(n) =~= target) by {
        assert forall|a: Seq<char>| broadcast_areas(n).contains(a) implies target.contains(a) by {
            let i = choose|i: int| 0 <= i < n.len() && #[trigger] area_of(n[i]) == Some(a);
            if i < rs.len() {
                assert(area_of(rs[i]) == Some(a));
            }
        }
        assert forall|a: Seq<char>| target.contains(a) implies broadcast_areas(n).contains(a) by {
            if broadcast_areas(rs).contains(a) {
                let i = choose|i: int| 0 <= i < rs.len() && #[trigger] area_of(rs[i]) == Some(a);
                assert(area_of(n[i]) == Some(a));
            } else {
                assert(area_of(n[rs.len() as int]) == Some(a));
            }
        }
    }
    if any_assoc(rs) {
        let i = choose|i: int| 0 <= i < rs.len() && #[trigger] rs[i] is AssocChanged;
        assert(n[i] is AssocChanged);
    }
    if any_cursors(rs) {
        let i = choose|i: int| 0 <= i < rs.len() && #[trigger] rs[i] is Cursors;
        assert(n[i] is Cursors);
    }
    if any_wallpaper(rs) {
        let i = choose|i: int| 0 <= i < rs.len() && #[trigger] rs[i] is Wallpaper;
        assert(n[i] is Wallpaper);
    }
    if any_assoc(n) && !(x is AssocChanged) {
        let i = choose|i: int| 0 <= i < n.len() && #[trigger] n[i] is AssocChanged;
        assert(rs[i] is AssocChanged);
    }
    if any_cursors(n) && !(x is Cursors) {
        let i = choose|i: int| 0 <= i < n.len() && #[trigger] n[i] is Cursors;
        assert(rs[i] is Cursors);
    }
    if any_wallpaper(n) && !(x is Wallpaper) {
        let i = choose|i: int| 0 <= i < n.len() && #[trigger] n[i] is Wallpaper;
        assert(rs[i] is Wallpaper);
    }
}

/// Whether some item needs elevation (`what == 0`), a shell restart (`1`) or
/// a sign-out (`2`).
fn any_item(items: &Vec<PlanItem>, what: u8) -> (r: bool)
    requires
        what <= 2,
    ensures
        what == 0 ==> r == any_elevated(items_view(items@)),
        what == 1 ==> r == any_refresh_restart(items_view(items@)),
        what == 2 ==> r == any_refresh_sign_out(items_view(items@)),
{
    let mut i: usize = 0;
    while i < items.len()
        invariant
            i <= items.len(),
            what <= 2,
            forall|j: int|
                0 <= j < i ==> !(match what {
                    0 => #[trigger] items@[j].privilege == Privilege::Elevated,
                    1 => items@[j].refresh is RestartShell,
                    _ => items@[j].refresh is SignOut,
                }),
        decreases items.len() - i,
    {
        let hit = match what {
            0 => items[i].privilege == Privilege::Elevated,
            1 => matches!(items[i].refresh, Refresh::RestartShell),
            _ => matches!(items[i].refresh, Refresh::SignOut),
        };
        if hit {
            proof {
                let iv = items_view(items@);
                assert(iv[i as int] == items@[i as int]@);
                if what == 0 {
                    assert(iv[i as int].privilege == Privilege::Elevated);
                } else if what == 1 {
                    assert(iv[i as int].refresh is RestartShell);
                } else {
                    assert(iv[i as int].refresh is SignOut);
                }
            }
            return true;
        }
        i += 1;
    }
    proof {
        if what == 0 {
            assert forall|j: int| 0 <= j < items@.len() implies !(#[trigger] items_view(items@)[j].privilege == Privilege::Elevated) by {
                assert(items_view(items@)[j] == items@[j]@);
            }
        } else if what == 1 {
            assert forall|j: int| 0 <= j < items@.len() implies !(#[trigger] items_view(items@)[j].refresh is RestartShell) by {
                assert(items_view(items@)[j] == items@[j]@);
            }
        } else {
            assert forall|j: int| 0 <= j < items@.len() implies !(#[trigger] items_view(items@)[j].refresh is SignOut) by {
                assert(items_view(items@)[j] == items@[j]@);
            }
        }
    }
    false
}


/// The wanted setting `w` is no switch of the classic menu, or the menu's keys
/// are ready for it (see [`menu_ready`]).
pub open spec fn menu_want_ready(ts: Seq<TweakKind>, m: RegModel, w: (Seq<char>, ValueV)) -> bool {
    match find_tweak(ts, w.0) {
        Some(k) => ts[k] is ClassicMenu && w.1 is Bool ==> menu_ready(m, w.1->Bool_0),
        None => true,
    }
}

pub open spec fn menus_ready(ts: Seq<TweakKind>, m: RegModel, wants: Seq<(Seq<char>, ValueV)>) -> bool {
    forall|i: int| 0 <= i < wants.len() ==> #[trigger] menu_want_ready(ts, m, wants[i])
}

proof fn lemma_find_tweak_range(ts: Seq<TweakKind>, id: Seq<char>)
    ensures
        find_tweak(ts, id) matches Some(k) ==> 0 <= k < ts.len() && ts[k].id_of() == id,
    decreases ts.len(),
{
    if ts.len() > 0 {
        lemma_find_tweak_range(ts.drop_last(), id);
    }
}

proof fn lemma_fates_undoable(
    ts: Seq<TweakKind>,
    build: u32,
    m: RegModel,
    wants: Seq<(Seq<char>, ValueV)>,
    answers: Seq<(AccentShades, bool)>,
    n: int,
)
    requires
        0 <= n <= answers.len() <= wants.len(),
        menus_ready(ts, m, wants),
    ensures
        undoable(m, all_changes(items_of(fates(ts, build, m, wants, answers).take(n)))),
    decreases n,
{
    let fs = fates(ts, build, m, wants, answers);
    if n == 0 {
        assert(fs.take(0) =~= Seq::<Fate>::empty());
        assert(items_of(fs.take(0)) =~= Seq::<ItemV>::empty());
    } else {
        lemma_fates_undoable(ts, build, m, wants, answers, n - 1);
        let pre = fs.take(n - 1);
        let cur = fs.take(n);
        assert(cur.drop_last() =~= pre);
        assert(cur.last() == fs[n - 1]);
        let ip = items_of(pre);
        match fs[n - 1] {
            Fate::Item(it) => {
                let ii = ip + seq![it];
                assert(items_of(cur) == ii);
                assert(ii.drop_last() =~= ip);
                assert(ii.last() == it);
                assert(all_changes(ii) == all_changes(ip) + it.changes);
                let w = wants[n - 1];
                lemma_find_tweak_range(ts, w.0);
                let k = find_tweak(ts, w.0).unwrap();
                assert(menu_want_ready(ts, m, w));
                lemma_batch_undoable(ts[k], m, w.1, answers[n - 1].0, answers[n - 1].1, all_changes(ip));
            },
            _ => {
                assert(items_of(cur) =~= ip);
            },
        }
    }
}

/// Reverting what a plan carried out gives back every value the registry held
/// when the plan was made, those that were absent absent again: carry out the
/// changes [`Engine::apply`] journals for a plan, then the undo
/// [`Engine::revert`] makes of that entry, and every value is as it was.
/// A classic-menu switch needs its keys ready (see [`menu_ready`]).
pub proof fn law_revert_restores_values<F: Fn(Color) -> AccentShades, G: Fn(&str) -> bool>(
    p: Plan,
    label: Seq<char>,
    ts: Seq<TweakKind>,
    build: u32,
    m: RegModel,
    wants: Seq<(Seq<char>, ValueV)>,
    shade: F,
    is_file: G,
    answers: Seq<(AccentShades, bool)>,
)
    requires
        plan_matches(Ok(p), label, ts, build, m, wants, shade, is_file, answers),
        menus_ready(ts, m, wants),
    ensures
        ({
            let cs = all_changes(items_view(p.items@));
            apply_all(apply_all(m, cs), undo_of(cs)).values == m.values
        }),
{
    let fs = fates(ts, build, m, wants, answers);
    lemma_fates_undoable(ts, build, m, wants, answers, answers.len() as int);
    assert(fs.take(answers.len() as int) =~= fs);
    lemma_undo_restores_values(m, all_changes(items_view(p.items@)));
}


/// What is undoable is undoable up to any point.
proof fn lemma_undoable_prefix(m: RegModel, cs: Seq<ChangeV>, k: int)
    requires
        undoable(m, cs),
        0 <= k <= cs.len(),
    ensures
        undoable(m, cs.take(k)),
{
    assert forall|i: int| 0 <= i < cs.take(k).len() implies #[trigger] undoable_step(m, cs.take(k), i) by {
        assert(undoable_step(m, cs, i));
        assert(cs.take(k).take(i) =~= cs.take(i));
        assert(cs.take(k)[i] == cs[i]);
    }
}

/// A plan's batch that fails part way, every undo of what it had carried out
/// succeeding, leaves every value the registry held when the plan was made,
/// those that were absent absent again. A classic-menu switch needs its keys
/// ready (see [`menu_ready`]).
pub proof fn law_failed_batch_restores_values<F: Fn(Color) -> AccentShades, G: Fn(&str) -> bool>(
    p: Plan,
    label: Seq<char>,
    ts: Seq<TweakKind>,
    build: u32,
    m: RegModel,
    wants: Seq<(Seq<char>, ValueV)>,
    shade: F,
    is_file: G,
    answers: Seq<(AccentShades, bool)>,
    k: int,
    took: Seq<bool>,
)
    requires
        plan_matches(Ok(p), label, ts, build, m, wants, shade, is_file, answers),
        menus_ready(ts, m, wants),
        0 <= k < all_changes(items_view(p.items@)).len(),
        took.len() == k,
        forall|j: int| 0 <= j < k ==> #[trigger] took[j],
    ensures
        ({
            let cs = all_changes(items_view(p.items@));
            undone_where(apply_all(m, cs.take(k)), cs.take(k), took).values == m.values
        }),
{
    let cs = all_changes(items_view(p.items@));
    let fs = fates(ts, build, m, wants, answers);
    lemma_fates_undoable(ts, build, m, wants, answers, answers.len() as int);
    assert(fs.take(answers.len() as int) =~= fs);
    lemma_undoable_prefix(m, cs, k);
    lemma_undo_restores_values(m, cs.take(k));
    lemma_undone_all(apply_all(m, cs.take(k)), cs.take(k), took);
}

/// The tweak a wanted setting names, when there is one.
pub open spec fn wanted_index(ts: Seq<TweakKind>, wants: Seq<(Seq<char>, ValueV)>, i: int) -> int {
    find_tweak(ts, wants[i].0).unwrap()
}

/// The batch the `i`th wanted setting contributes to a plan: its changes if
/// it became an item, nothing otherwise.
pub open spec fn batch_of(fs: Seq<Fate>, i: int) -> Seq<ChangeV> {
    match fs[i] {
        Fate::Item(it) => it.changes,
        _ => Seq::empty(),
    }
}

/// What the registry holds of the `i`th wanted setting once the plan is
/// carried out: its own batch on the registry it was planned on.
pub open spec fn settled_on(fs: Seq<Fate>, m: RegModel, i: int) -> RegModel {
    apply_all(m, batch_of(fs, i))
}

proof fn lemma_items_step(fs: Seq<Fate>, n: int)
    requires
        0 <= n < fs.len(),
    ensures
        all_changes(items_of(fs.take(n + 1))) == all_changes(items_of(fs.take(n))) + batch_of(fs, n),
{
    let cur = fs.take(n + 1);
    assert(cur.drop_last() =~= fs.take(n));
    assert(cur.last() == fs[n]);
    let ip = items_of(fs.take(n));
    match fs[n] {
        Fate::Item(it) => {
            let ii = ip + seq![it];
            assert(ii.drop_last() =~= ip);
            assert(ii.last() == it);
        },
        _ => {
            assert(items_of(cur) =~= ip);
            assert(all_changes(ip) + Seq::<ChangeV>::empty() =~= all_changes(ip));
        },
    }
}

/// A wanted setting that became an item names a tweak of the table, and its
/// batch is what that tweak plans.
proof fn lemma_item_batch(
    ts: Seq<TweakKind>,
    build: u32,
    m: RegModel,
    wants: Seq<(Seq<char>, ValueV)>,
    answers: Seq<(AccentShades, bool)>,
    i: int,
)
    requires
        0 <= i < answers.len() <= wants.len(),
        fates(ts, build, m, wants, answers)[i] is Item,
    ensures
        find_tweak(ts, wants[i].0) is Some,
        0 <= wanted_index(ts, wants, i) < ts.len(),
        ts[wanted_index(ts, wants, i)].planned_set(m, wants[i].1, answers[i].0, answers[i].1) is Some,
        batch_of(fates(ts, build, m, wants, answers), i) == ts[wanted_index(ts, wants, i)].planned_set(
            m,
            wants[i].1,
            answers[i].0,
            answers[i].1,
        ).unwrap().0,
{
    lemma_find_tweak_range(ts, wants[i].0);
}

/// Carrying out the batches of the first `n` wanted settings leaves alone
/// every tweak none of them names.
proof fn lemma_others_untouched(
    ts: Seq<TweakKind>,
    build: u32,
    m: RegModel,
    wants: Seq<(Seq<char>, ValueV)>,
    answers: Seq<(AccentShades, bool)>,
    n: int,
    j: int,
)
    requires
        apart(ts),
        0 <= n <= answers.len() <= wants.len(),
        0 <= j < ts.len(),
        forall|i: int|
            0 <= i < n && (#[trigger] fates(ts, build, m, wants, answers)[i]) is Item ==> wanted_index(
                ts,
                wants,
                i,
            ) != j,
    ensures
        agree_on(m, apply_all(m, all_changes(items_of(fates(ts, build, m, wants, answers).take(n)))), ts[j]),
    decreases n,
{
    let fs = fates(ts, build, m, wants, answers);
    if n == 0 {
        assert(fs.take(0) =~= Seq::<Fate>::empty());
        assert(items_of(fs.take(0)) =~= Seq::<ItemV>::empty());
        assert(agree_on(m, m, ts[j]));
    } else {
        let k = n - 1;
        lemma_others_untouched(ts, build, m, wants, answers, k, j);
        lemma_items_step(fs, k);
        let before = all_changes(items_of(fs.take(k)));
        let x = apply_all(m, before);
        lemma_apply_concat(m, before, batch_of(fs, k));
        if fs[k] is Item {
            lemma_item_batch(ts, build, m, wants, answers, k);
            let u = wanted_index(ts, wants, k);
            lemma_batch_foreign(ts, u, j, m, wants[k].1, answers[k].0, answers[k].1);
            lemma_foreign_batch(x, batch_of(fs, k), ts[j]);
            lemma_agree_trans(m, x, apply_all(x, batch_of(fs, k)), ts[j]);
        } else {
            assert(batch_of(fs, k) =~= Seq::<ChangeV>::empty());
            assert(apply_all(x, Seq::<ChangeV>::empty()) == x);
        }
    }
}

/// Once the batches of the first `n` wanted settings are carried out, each of
/// those settings finds the registry as its own batch alone would leave it.
proof fn lemma_each_settled(
    ts: Seq<TweakKind>,
    build: u32,
    m: RegModel,
    wants: Seq<(Seq<char>, ValueV)>,
    answers: Seq<(AccentShades, bool)>,
    n: int,
    i: int,
)
    requires
        apart(ts),
        0 <= i < n <= answers.len() <= wants.len(),
        forall|a: int, b: int| 0 <= a < b < wants.len() ==> wants[a].0 != wants[b].0,
        find_tweak(ts, wants[i].0) is Some,
    ensures
        agree_on(
            apply_all(m, all_changes(items_of(fates(ts, build, m, wants, answers).take(n)))),
            settled_on(fates(ts, build, m, wants, answers), m, i),
            ts[wanted_index(ts, wants, i)],
        ),
    decreases n,
{
    let fs = fates(ts, build, m, wants, answers);
    let k = n - 1;
    lemma_find_tweak_range(ts, wants[i].0);
    let t = wanted_index(ts, wants, i);
    lemma_items_step(fs, k);
    let before = all_changes(items_of(fs.take(k)));
    let x = apply_all(m, before);
    lemma_apply_concat(m, before, batch_of(fs, k));
    let after = apply_all(x, batch_of(fs, k));
    if i < k {
        lemma_each_settled(ts, build, m, wants, answers, k, i);
        if fs[k] is Item {
            lemma_item_batch(ts, build, m, wants, answers, k);
            let u = wanted_index(ts, wants, k);
            lemma_find_tweak_range(ts, wants[k].0);
            assert(u != t) by {
                assert(ts[u].id_of() == wants[k].0);
                assert(ts[t].id_of() == wants[i].0);
            }
            lemma_batch_foreign(ts, u, t, m, wants[k].1, answers[k].0, answers[k].1);
            lemma_foreign_batch(x, batch_of(fs, k), ts[t]);
            lemma_agree_symm(x, after, ts[t]);
            lemma_agree_trans(after, x, settled_on(fs, m, i), ts[t]);
        } else {
            assert(batch_of(fs, k) =~= Seq::<ChangeV>::empty());
            assert(after == x);
        }
    } else {
        assert forall|a: int|
            0 <= a < k && (#[trigger] fates(ts, build, m, wants, answers)[a]) is Item implies wanted_index(
            ts,
            wants,
            a,
        ) != t by {
            lemma_item_batch(ts, build, m, wants, answers, a);
            lemma_find_tweak_range(ts, wants[a].0);
            assert(ts[wanted_index(ts, wants, a)].id_of() == wants[a].0);
            assert(ts[t].id_of() == wants[i].0);
        }
        lemma_others_untouched(ts, build, m, wants, answers, k, t);
        lemma_batch_keeps_agreement(m, x, batch_of(fs, k), ts[t]);
        lemma_agree_symm(settled_on(fs, m, i), after, ts[t]);
    }
}

proof fn lemma_no_items(fs: Seq<Fate>)
    requires
        forall|i: int| 0 <= i < fs.len() ==> !(#[trigger] fs[i] is Item),
    ensures
        items_of(fs) == Seq::<ItemV>::empty(),
    decreases fs.len(),
{
    if fs.len() > 0 {
        assert forall|i: int| 0 <= i < fs.drop_last().len() implies !(#[trigger] fs.drop_last()[i] is Item) by {
            assert(fs.drop_last()[i] == fs[i]);
        }
        lemma_no_items(fs.drop_last());
        assert(!(fs.last() is Item));
        assert(items_of(fs) =~= items_of(fs.drop_last()));
    }
}

/// Applying the same settings again is a no-op: once a plan has been carried
/// out, planning the same wanted settings again (each named once, and with
/// the same answers from the shading and the file system) comes back with
/// nothing to do. It takes a table whose settings keep to places of their
/// own (see [`apart`]); the shipped table is one ([`Engine::new`] says so).
pub proof fn law_reapply_changes_nothing<F: Fn(Color) -> AccentShades, G: Fn(&str) -> bool>(
    p: Plan,
    label: Seq<char>,
    again: Result<Plan, Error>,
    label_again: Seq<char>,
    ts: Seq<TweakKind>,
    build: u32,
    m: RegModel,
    wants: Seq<(Seq<char>, ValueV)>,
    shade: F,
    is_file: G,
    answers: Seq<(AccentShades, bool)>,
)
    requires
        apart(ts),
        forall|i: int, j: int| 0 <= i < j < wants.len() ==> wants[i].0 != wants[j].0,
        plan_matches(Ok(p), label, ts, build, m, wants, shade, is_file, answers),
        plan_matches(
            again,
            label_again,
            ts,
            build,
            apply_all(m, all_changes(items_view(p.items@))),
            wants,
            shade,
            is_file,
            answers),
    ensures
        again matches Ok(q) && q.items@.len() == 0,
{
    let fs = fates(ts, build, m, wants, answers);
    let n = answers.len() as int;
    assert(fs.take(n) =~= fs);
    let x = apply_all(m, all_changes(items_view(p.items@)));
    assert(x == apply_all(m, all_changes(items_of(fs.take(n)))));
    let fs2 = fates(ts, build, x, wants, answers);
    assert forall|i: int| 0 <= i < fs2.len() implies !(#[trigger] fs2[i] is Item) && !(fs2[i] is Fail) by {
        assert(fs2[i] == fate(ts, build, x, wants[i].0, wants[i].1, answers[i].0, answers[i].1));
        assert(fs[i] == fate(ts, build, m, wants[i].0, wants[i].1, answers[i].0, answers[i].1));
        assert(!(fs[i] is Fail));
        if find_tweak(ts, wants[i].0) is Some {
            lemma_find_tweak_range(ts, wants[i].0);
            let t = ts[wanted_index(ts, wants, i)];
            lemma_each_settled(ts, build, m, wants, answers, n, i);
            let base = settled_on(fs, m, i);
            lemma_frame(t, x, base, wants[i].1, answers[i].0, answers[i].1);
            if fs[i] is Item {
                lemma_item_batch(ts, build, m, wants, answers, i);
                crate::tweaks::settle::lemma_replan_settled(t, m, wants[i].1, answers[i].0, answers[i].1);
            } else {
                assert(batch_of(fs, i) =~= Seq::<ChangeV>::empty());
                assert(base == m);
            }
        }
    }
    assert(!has_fail(fs2));
    lemma_no_items(fs2);
}

} // verus!
