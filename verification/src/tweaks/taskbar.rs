//! The taskbar.

use vstd::prelude::*;
use crate::os::{BuildRange, WIN11_21H2, WIN11_22H2, WIN11_24H2};
use crate::provider::RegSpec;
use crate::tweak::{Category, Refresh, Tier};
use crate::tweaks::helpers::{BoolTweak, ChoiceTweak};
use crate::tweaks::frame::{clear_of_menu, lemma_path_off_menu, places, shipped_places, under_menu};
use crate::tweaks::TweakKind;

verus! {

pub const ADVANCED: &'static str = "Software\\Microsoft\\Windows\\CurrentVersion\\Explorer\\Advanced";

pub const SEARCH: &'static str = "Software\\Microsoft\\Windows\\CurrentVersion\\Search";

/// Explorer watches these keys directly and picks most of them up within a
/// moment, but we still broadcast so anything else listening keeps in step.
pub fn tray() -> (r: Refresh)
    ensures
        r == Refresh::Broadcast("TraySettings"),
{
    Refresh::Broadcast("TraySettings")
}

pub fn all() -> (r: Vec<TweakKind>)
    ensures
        crate::tweaks::filed(r@, Category::Taskbar),
        places(r@) == shipped_places().subrange(15, 22),
        clear_of_menu(r@),
        crate::tweaks::ids_of(r@) == seq!["taskbar.alignment"@, "taskbar.widgets"@, "taskbar.task_view"@, "taskbar.search"@, "taskbar.icon_size"@, "taskbar.seconds_in_clock"@, "taskbar.end_task"@],
        crate::tweaks::taskbar_table(r@),
{
    let mut v: Vec<TweakKind> = Vec::new();
    v.push(
        TweakKind::Choice(
            ChoiceTweak::new(
                "taskbar.alignment",
                Category::Taskbar,
                RegSpec::hkcu(ADVANCED, "TaskbarAl"),
                vec![("left", 0), ("center", 1)],
                "center",
                tray(),
            ),
        ),
    );
    v.push(
        TweakKind::Bool(
            BoolTweak::new(
                "taskbar.widgets",
                Category::Taskbar,
                RegSpec::hkcu(ADVANCED, "TaskbarDa"),
                tray(),
            ).default_on(true).tier(Tier::B),
        ),
    );
    v.push(
        TweakKind::Bool(
            BoolTweak::new(
                "taskbar.task_view",
                Category::Taskbar,
                RegSpec::hkcu(ADVANCED, "ShowTaskViewButton"),
                tray(),
            ).default_on(true),
        ),
    );
    v.push(
        TweakKind::Choice(
            ChoiceTweak::new(
                "taskbar.search",
                Category::Taskbar,
                RegSpec::hkcu(SEARCH, "SearchboxTaskbarMode"),
                vec![("hidden", 0), ("icon", 1), ("box", 2), ("icon_and_label", 3)],
                "box",
                tray(),
            ),
        ),
    );
    // Reliable up to 22H2; later builds ignore it or handle it inconsistently,
    // so it is gated rather than quietly broken.
    v.push(
        TweakKind::Choice(
            ChoiceTweak::new(
                "taskbar.icon_size",
                Category::Taskbar,
                RegSpec::hkcu(ADVANCED, "TaskbarSi"),
                vec![("small", 0), ("medium", 1), ("large", 2)],
                "medium",
                tray(),
            ).tier(Tier::B).builds(BuildRange::between(WIN11_21H2, WIN11_22H2)),
        ),
    );
    v.push(
        TweakKind::Bool(
            BoolTweak::new(
                "taskbar.seconds_in_clock",
                Category::Taskbar,
                RegSpec::hkcu(ADVANCED, "ShowSecondsInSystemClock"),
                tray(),
            ).builds(BuildRange::from(WIN11_22H2)),
        ),
    );
    v.push(
        TweakKind::Bool(
            BoolTweak::new(
                "taskbar.end_task",
                Category::Taskbar,
                RegSpec::hkcu(ADVANCED, "TaskbarEndTask"),
                tray(),
            ).builds(BuildRange::from(WIN11_24H2)).note(
                "mirrors_end_task",
                "Mirrors the End Task switch in Settings for developers.",
            ),
        ),
    );
    proof {
        reveal_strlit("taskbar");
        reveal_strlit("taskbar.alignment");
        reveal_strlit("taskbar.widgets");
        reveal_strlit("taskbar.task_view");
        reveal_strlit("taskbar.search");
        reveal_strlit("taskbar.icon_size");
        reveal_strlit("taskbar.seconds_in_clock");
        reveal_strlit("taskbar.end_task");
        let p = crate::tweak::category_id(Category::Taskbar).push('.');
        assert(v@[0].id_of().take(p.len() as int) =~= p);
        assert(v@[1].id_of().take(p.len() as int) =~= p);
        assert(v@[2].id_of().take(p.len() as int) =~= p);
        assert(v@[3].id_of().take(p.len() as int) =~= p);
        assert(v@[4].id_of().take(p.len() as int) =~= p);
        assert(v@[5].id_of().take(p.len() as int) =~= p);
        assert(v@[6].id_of().take(p.len() as int) =~= p);
        assert(v@[0].id_of().len() != v@[1].id_of().len());
        assert(v@[0].id_of()[8] != v@[2].id_of()[8]);
        assert(v@[0].id_of().len() != v@[3].id_of().len());
        assert(v@[0].id_of()[8] != v@[4].id_of()[8]);
        assert(v@[0].id_of().len() != v@[5].id_of().len());
        assert(v@[0].id_of().len() != v@[6].id_of().len());
        assert(v@[1].id_of().len() != v@[2].id_of().len());
        assert(v@[1].id_of().len() != v@[3].id_of().len());
        assert(v@[1].id_of().len() != v@[4].id_of().len());
        assert(v@[1].id_of().len() != v@[5].id_of().len());
        assert(v@[1].id_of().len() != v@[6].id_of().len());
        assert(v@[2].id_of().len() != v@[3].id_of().len());
        assert(v@[2].id_of()[8] != v@[4].id_of()[8]);
        assert(v@[2].id_of().len() != v@[5].id_of().len());
        assert(v@[2].id_of().len() != v@[6].id_of().len());
        assert(v@[3].id_of().len() != v@[4].id_of().len());
        assert(v@[3].id_of().len() != v@[5].id_of().len());
        assert(v@[3].id_of().len() != v@[6].id_of().len());
        assert(v@[4].id_of().len() != v@[5].id_of().len());
        assert(v@[4].id_of().len() != v@[6].id_of().len());
        assert(v@[5].id_of().len() != v@[6].id_of().len());
        assert(crate::tweaks::filed_under(v@[0], Category::Taskbar));
        assert(crate::tweaks::filed_under(v@[1], Category::Taskbar));
        assert(crate::tweaks::filed_under(v@[2], Category::Taskbar));
        assert(crate::tweaks::filed_under(v@[3], Category::Taskbar));
        assert(crate::tweaks::filed_under(v@[4], Category::Taskbar));
        assert(crate::tweaks::filed_under(v@[5], Category::Taskbar));
        assert(crate::tweaks::filed_under(v@[6], Category::Taskbar));
        reveal_with_fuel(places, 8);
        assert(places(v@) =~= shipped_places().subrange(15, 22));
        assert forall|i: int, a: int|
            0 <= i < v@.len() && !(v@[i] is ClassicMenu) && 0 <= a < v@[i].footprint().len()
                implies !under_menu(#[trigger] v@[i].footprint()[a]) by {
            lemma_path_off_menu(v@[i].footprint()[a]);
        }
        assert(crate::tweaks::choices_view(v@[0]->Choice_0.map@) =~= seq![("left"@, 0u32), ("center"@, 1u32)]);
        assert(crate::tweaks::choices_view(v@[3]->Choice_0.map@) =~= seq![("hidden"@, 0u32), ("icon"@, 1u32), ("box"@, 2u32), ("icon_and_label"@, 3u32)]);
        assert(crate::tweaks::choices_view(v@[4]->Choice_0.map@) =~= seq![("small"@, 0u32), ("medium"@, 1u32), ("large"@, 2u32)]);
        assert(crate::tweaks::taskbar_table(v@));
        assert(crate::tweaks::ids_of(v@) =~= seq!["taskbar.alignment"@, "taskbar.widgets"@, "taskbar.task_view"@, "taskbar.search"@, "taskbar.icon_size"@, "taskbar.seconds_in_clock"@, "taskbar.end_task"@]);
    }
    v
}

} // verus!
