//! File Explorer: what it shows, where it opens, and which context menu it uses.

use vstd::prelude::*;
use crate::error::Error;
use crate::os::{BuildRange, MIN_SUPPORTED_BUILD};
use crate::provider::{Hive, LocV, RegLoc, RegModel, RegSpec, RegValue, RegValueV, RegistryProvider, duplicate_opt};
use crate::text::string_from;
use crate::tweak::{Category, Change, ChangeSet, ChangeV, Refresh, Tier, Tweak, changes_view};
use crate::tweaks::helpers::{BoolTweak, ChoiceTweak, plans_as};
use crate::tweaks::taskbar::ADVANCED;
use crate::tweaks::TweakKind;
use crate::value::{Value, ValueKind, ValueV, is_bad_value};

verus! {

pub fn all() -> (r: Vec<TweakKind>)
    ensures
        crate::tweaks::filed(r@, Category::Explorer),
        crate::tweaks::frame::places(r@) == crate::tweaks::frame::shipped_places().subrange(25, 31),
        crate::tweaks::frame::clear_of_menu(r@),
        crate::tweaks::ids_of(r@) == seq!["explorer.show_file_extensions"@, "explorer.show_hidden_files"@, "explorer.show_protected_os_files"@, "explorer.launch_to"@, "explorer.compact_view"@, "explorer.classic_context_menu"@],
        crate::tweaks::explorer_table(r@),
{
    let mut v: Vec<TweakKind> = Vec::new();
    // Inverted on purpose: the registry value hides extensions, the control
    // shows them. `on: 0` keeps that honest in one place.
    v.push(
        TweakKind::Bool(
            BoolTweak::new(
                "explorer.show_file_extensions",
                Category::Explorer,
                RegSpec::hkcu(ADVANCED, "HideFileExt"),
                Refresh::AssocChanged,
            ).values(0, 1),
        ),
    );
    v.push(
        TweakKind::Bool(
            BoolTweak::new(
                "explorer.show_hidden_files",
                Category::Explorer,
                RegSpec::hkcu(ADVANCED, "Hidden"),
                Refresh::AssocChanged,
            ).values(1, 2),
        ),
    );
    v.push(
        TweakKind::Bool(
            BoolTweak::new(
                "explorer.show_protected_os_files",
                Category::Explorer,
                RegSpec::hkcu(ADVANCED, "ShowSuperHidden"),
                Refresh::AssocChanged,
            ).note(
                "shows_system_files",
                "Shows system files. Useful for troubleshooting, easy to break things with.",
            ),
        ),
    );
    v.push(
        TweakKind::Choice(
            ChoiceTweak::new(
                "explorer.launch_to",
                Category::Explorer,
                RegSpec::hkcu(ADVANCED, "LaunchTo"),
                vec![("home", 2), ("this_pc", 1), ("downloads", 3)],
                "home",
                Refresh::AssocChanged,
            ),
        ),
    );
    v.push(
        TweakKind::Bool(
            BoolTweak::new(
                "explorer.compact_view",
                Category::Explorer,
                RegSpec::hkcu(ADVANCED, "UseCompactMode"),
                Refresh::AssocChanged,
            ),
        ),
    );
    v.push(TweakKind::ClassicMenu(ClassicContextMenuTweak));
    proof {
        reveal_strlit("explorer");
        reveal_strlit("explorer.show_file_extensions");
        reveal_strlit("explorer.show_hidden_files");
        reveal_strlit("explorer.show_protected_os_files");
        reveal_strlit("explorer.launch_to");
        reveal_strlit("explorer.compact_view");
        reveal_strlit("explorer.classic_context_menu");
        let p = crate::tweak::category_id(Category::Explorer).push('.');
        assert(v@[0].id_of().take(p.len() as int) =~= p);
        assert(v@[1].id_of().take(p.len() as int) =~= p);
        assert(v@[2].id_of().take(p.len() as int) =~= p);
        assert(v@[3].id_of().take(p.len() as int) =~= p);
        assert(v@[4].id_of().take(p.len() as int) =~= p);
        assert(v@[5].id_of().take(p.len() as int) =~= p);
        assert(v@[0].id_of().len() != v@[1].id_of().len());
        assert(v@[0].id_of().len() != v@[2].id_of().len());
        assert(v@[0].id_of().len() != v@[3].id_of().len());
        assert(v@[0].id_of().len() != v@[4].id_of().len());
        assert(v@[0].id_of()[9] != v@[5].id_of()[9]);
        assert(v@[1].id_of().len() != v@[2].id_of().len());
        assert(v@[1].id_of().len() != v@[3].id_of().len());
        assert(v@[1].id_of().len() != v@[4].id_of().len());
        assert(v@[1].id_of().len() != v@[5].id_of().len());
        assert(v@[2].id_of().len() != v@[3].id_of().len());
        assert(v@[2].id_of().len() != v@[4].id_of().len());
        assert(v@[2].id_of().len() != v@[5].id_of().len());
        assert(v@[3].id_of().len() != v@[4].id_of().len());
        assert(v@[3].id_of().len() != v@[5].id_of().len());
        assert(v@[4].id_of().len() != v@[5].id_of().len());
        assert(crate::tweaks::filed_under(v@[0], Category::Explorer));
        assert(crate::tweaks::filed_under(v@[1], Category::Explorer));
        assert(crate::tweaks::filed_under(v@[2], Category::Explorer));
        assert(crate::tweaks::filed_under(v@[3], Category::Explorer));
        assert(crate::tweaks::filed_under(v@[4], Category::Explorer));
        assert(crate::tweaks::filed_under(v@[5], Category::Explorer));
        reveal_with_fuel(crate::tweaks::frame::places, 8);
        assert(crate::tweaks::frame::places(v@) =~= crate::tweaks::frame::shipped_places().subrange(25, 31));
        assert forall|i: int, a: int|
            0 <= i < v@.len() && !(v@[i] is ClassicMenu) && 0 <= a < v@[i].footprint().len()
                implies !crate::tweaks::frame::under_menu(#[trigger] v@[i].footprint()[a]) by {
            crate::tweaks::frame::lemma_path_off_menu(v@[i].footprint()[a]);
        }
        assert(crate::tweaks::choices_view(v@[3]->Choice_0.map@) =~= seq![("home"@, 2u32), ("this_pc"@, 1u32), ("downloads"@, 3u32)]);
        assert(crate::tweaks::explorer_table(v@));
        assert(crate::tweaks::ids_of(v@) =~= seq!["explorer.show_file_extensions"@, "explorer.show_hidden_files"@, "explorer.show_protected_os_files"@, "explorer.launch_to"@, "explorer.compact_view"@, "explorer.classic_context_menu"@]);
    }
    v
}

pub const CLSID: &'static str = "Software\\Classes\\CLSID\\{86ca1aa0-34aa-4e8b-a509-50c905bae2a2}";

pub const INPROC: &'static str =
    "Software\\Classes\\CLSID\\{86ca1aa0-34aa-4e8b-a509-50c905bae2a2}\\InprocServer32";

/// The Windows 10 right-click menu, without the "Show more options" detour.
///
/// This one is a key, not a value: Explorer looks for a specific CLSID with an
/// empty `InprocServer32` default and falls back to the old menu when it finds
/// one. Turning it off has to remove the key again, so the plan records the key
/// *and* the value — inverting a key-creation alone would leave the value
/// behind and the revert would not be exact.
pub struct ClassicContextMenuTweak;

impl ClassicContextMenuTweak {
    pub open spec fn default_value() -> LocV {
        LocV { hive: Hive::CurrentUser, path: INPROC@, name: Seq::empty() }
    }

    pub open spec fn reading(m: RegModel) -> ValueV {
        ValueV::Bool(m.has_key(Hive::CurrentUser, INPROC@))
    }

    pub open spec fn planned(m: RegModel, want: bool) -> Seq<ChangeV> {
        let clsid = m.has_key(Hive::CurrentUser, CLSID@);
        let inproc = m.has_key(Hive::CurrentUser, INPROC@);
        if want == inproc {
            Seq::empty()
        } else if want {
            seq![
                ChangeV::Key { hive: Hive::CurrentUser, path: CLSID@, from_present: clsid, to_present: true },
                ChangeV::Key { hive: Hive::CurrentUser, path: INPROC@, from_present: inproc, to_present: true },
                ChangeV::Value { loc: Self::default_value(), from: None, to: Some(RegValueV::Sz(Seq::empty())) },
            ]
        } else {
            // Reverse order, so the undo of this batch rebuilds the key before
            // it writes the value back into it.
            seq![
                ChangeV::Value { loc: Self::default_value(), from: m.value_at(Self::default_value()), to: None },
                ChangeV::Key { hive: Hive::CurrentUser, path: INPROC@, from_present: inproc, to_present: false },
                ChangeV::Key { hive: Hive::CurrentUser, path: CLSID@, from_present: clsid, to_present: false },
            ]
        }
    }

    pub fn read<R: RegistryProvider>(&self, reg: &R) -> (r: Result<Value, Error>)
        requires
            reg.wf(),
        ensures
            reg.reliable() ==> r is Ok,
            r matches Ok(v) ==> v@ == Self::reading(reg.model()),
    {
        Ok(Value::Bool(reg.key_exists(Hive::CurrentUser, INPROC)?))
    }

    pub fn plan<R: RegistryProvider>(&self, reg: &R, want: &Value) -> (r: Result<ChangeSet, Error>)
        requires
            reg.wf(),
        ensures
            match want@ {
                ValueV::Bool(b) => {
                    &&& reg.reliable() ==> r is Ok
                    &&& r is Ok ==> plans_as(
                        r,
                        "explorer.classic_context_menu"@,
                        Self::planned(reg.model(), b),
                        if Self::planned(reg.model(), b).len() == 0 {
                            Refresh::Nothing
                        } else {
                            Refresh::RestartShell
                        },
                    )
                },
                _ => r matches Err(e) && is_bad_value(
                    e,
                    "explorer.classic_context_menu"@,
                    want@,
                    "a boolean"@,
                ),
            },
    {
        let want = want.as_bool("explorer.classic_context_menu")?;
        let clsid_present = reg.key_exists(Hive::CurrentUser, CLSID)?;
        let inproc_present = reg.key_exists(Hive::CurrentUser, INPROC)?;

        if want == inproc_present {
            return Ok(ChangeSet::nothing("explorer.classic_context_menu"));
        }

        let default_value = RegLoc {
            hive: Hive::CurrentUser,
            path: string_from(INPROC),
            name: String::new(),
        };

        let mut changes: Vec<Change> = Vec::new();
        if want {
            changes.push(Change::Key { hive: Hive::CurrentUser, path: string_from(CLSID), from_present: clsid_present, to_present: true });
            changes.push(Change::Key { hive: Hive::CurrentUser, path: string_from(INPROC), from_present: inproc_present, to_present: true });
            changes.push(Change::Value { loc: default_value, from: None, to: Some(RegValue::Sz(String::new())) });
        } else {
            let from = reg.read(&default_value)?;
            changes.push(Change::Value { loc: default_value, from, to: None });
            changes.push(Change::Key { hive: Hive::CurrentUser, path: string_from(INPROC), from_present: inproc_present, to_present: false });
            changes.push(Change::Key { hive: Hive::CurrentUser, path: string_from(CLSID), from_present: clsid_present, to_present: false });
        }
        proof {
            assert(changes_view(changes@) =~= Self::planned(reg.model(), want));
        }
        Ok(
            ChangeSet {
                tweak: string_from("explorer.classic_context_menu"),
                changes,
                refresh: Refresh::RestartShell,
            },
        )
    }
}

impl Tweak for ClassicContextMenuTweak {
    open spec fn build_range(&self) -> BuildRange {
        BuildRange { min: MIN_SUPPORTED_BUILD, max: None }
    }

    fn id(&self) -> (r: &'static str)
        ensures
            r@ == "explorer.classic_context_menu"@,
    {
        "explorer.classic_context_menu"
    }

    fn category(&self) -> (r: Category)
        ensures
            r == Category::Explorer,
    {
        Category::Explorer
    }

    /// Tier B: undocumented, and Microsoft could stop honouring it at any point.
    fn tier(&self) -> (r: Tier)
        ensures
            r == Tier::B,
    {
        Tier::B
    }

    fn value_kind(&self) -> (r: ValueKind)
        ensures
            r is Bool,
    {
        ValueKind::Bool
    }

    fn builds(&self) -> (r: BuildRange) {
        BuildRange::any()
    }

    fn refresh(&self) -> (r: Refresh)
        ensures
            r == Refresh::RestartShell,
    {
        Refresh::RestartShell
    }
}

} // verus!
