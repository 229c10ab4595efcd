//! The Start menu.

use vstd::prelude::*;
use crate::os::{BuildRange, WIN11_22H2};
use crate::provider::RegSpec;
use crate::tweak::{Category, Refresh, Tier};
use crate::tweaks::helpers::{BoolTweak, ChoiceTweak};
use crate::tweaks::taskbar::ADVANCED;
use crate::tweaks::{TweakKind, filed, filed_under};
use crate::tweak::category_id;

verus! {

/// Start reads these on next open, so nothing needs restarting.
pub fn start_refresh() -> (r: Refresh)
    ensures
        r == Refresh::Broadcast("TraySettings"),
{
    Refresh::Broadcast("TraySettings")
}

pub fn all() -> (r: Vec<TweakKind>)
    ensures
        filed(r@, Category::Start),
        crate::tweaks::frame::places(r@) == crate::tweaks::frame::shipped_places().subrange(22, 25),
        crate::tweaks::frame::clear_of_menu(r@),
        crate::tweaks::ids_of(r@) == seq!["start.layout"@, "start.recently_added_apps"@, "start.recommended_files"@],
        crate::tweaks::start_table(r@),
{
    let mut v: Vec<TweakKind> = Vec::new();
    v.push(
        TweakKind::Choice(
            ChoiceTweak::new(
                "start.layout",
                Category::Start,
                RegSpec::hkcu(ADVANCED, "Start_Layout"),
                vec![("default", 0), ("more_pins", 1), ("more_recommendations", 2)],
                "default",
                start_refresh(),
            ).tier(Tier::B).builds(BuildRange::from(WIN11_22H2)),
        ),
    );
    v.push(
        TweakKind::Bool(
            BoolTweak::new(
                "start.recently_added_apps",
                Category::Start,
                RegSpec::hkcu(ADVANCED, "Start_TrackProgs"),
                start_refresh(),
            ).default_on(true),
        ),
    );
    v.push(
        TweakKind::Bool(
            BoolTweak::new(
                "start.recommended_files",
                Category::Start,
                RegSpec::hkcu(ADVANCED, "Start_TrackDocs"),
                start_refresh(),
            ).default_on(true),
        ),
    );
    proof {
        reveal_strlit("start");
        reveal_strlit("start.layout");
        reveal_strlit("start.recently_added_apps");
        reveal_strlit("start.recommended_files");
        let p = category_id(Category::Start).push('.');
        assert(v@[0].id_of().take(p.len() as int) =~= p);
        assert(v@[1].id_of().take(p.len() as int) =~= p);
        assert(v@[2].id_of().take(p.len() as int) =~= p);
        assert(filed_under(v@[0], Category::Start));
        assert(filed_under(v@[1], Category::Start));
        assert(filed_under(v@[2], Category::Start));
        reveal_with_fuel(crate::tweaks::frame::places, 8);
        assert(crate::tweaks::frame::places(v@) =~= crate::tweaks::frame::shipped_places().subrange(22, 25));
        assert forall|i: int, a: int|
            0 <= i < v@.len() && !(v@[i] is ClassicMenu) && 0 <= a < v@[i].footprint().len()
                implies !crate::tweaks::frame::under_menu(#[trigger] v@[i].footprint()[a]) by {
            crate::tweaks::frame::lemma_path_off_menu(v@[i].footprint()[a]);
        }
        assert(crate::tweaks::choices_view(v@[0]->Choice_0.map@) =~= seq![("default"@, 0u32), ("more_pins"@, 1u32), ("more_recommendations"@, 2u32)]);
        assert(crate::tweaks::start_table(v@));
        assert(crate::tweaks::ids_of(v@) =~= seq!["start.layout"@, "start.recently_added_apps"@, "start.recommended_files"@]);
    }
    v
}

} // verus!
