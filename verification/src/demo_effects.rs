//! What the sample data shows.
use vstd::prelude::*;
use vstd::string::*;

use crate::demo::{demo_event, draw_ok, flags_seeded, half, nobody, whole, DemoDraw};
use crate::flags::{flag_is, upserted, FlagRowModel, Share, VariantModel};
use crate::pipeline::layout::padded;
use crate::pipeline::wal_effects::law_padded_numbers_read_back;
use crate::rows::{index_of, lemma_index_of, lemma_push_contains};

verus! {

proof fn lemma_upserted(flags: Seq<FlagRowModel>, flag: FlagRowModel, row: FlagRowModel)
    ensures
        upserted(flags, flag).contains(flag),
        row.token != flag.token || row.key != flag.key ==> (upserted(flags, flag).contains(row)
            <==> flags.contains(row)),
{
    lemma_index_of(flags, flag_is(flag.token, flag.key));
    let after = upserted(flags, flag);
    match index_of(flags, flag_is(flag.token, flag.key)) {
        Some(i) => {
            assert(after[i] == flag);
            if row.token != flag.token || row.key != flag.key {
                if flags.contains(row) {
                    let k = choose|k: int| 0 <= k < flags.len() && flags[k] == row;
                    assert(after[k] == row);
                }
                if after.contains(row) {
                    let k = choose|k: int| 0 <= k < after.len() && after[k] == row;
                    assert(flags[k] == row);
                }
            }
        },
        None => {
            assert(after[flags.len() as int] == flag);
            lemma_push_contains(flags, flag, row);
        },
    }
}

/// The sample holds three flags: one that is on for half, with two variants, one that is on for everybody, and
/// one that is off. Flags of others stay as they are.
pub proof fn law_sample_flags_show_every_state(flags: Seq<FlagRowModel>, row: FlagRowModel) -> (r: (
    FlagRowModel,
    FlagRowModel,
    FlagRowModel,
))
    ensures
        flags_seeded(flags).contains(r.0),
        flags_seeded(flags).contains(r.1),
        flags_seeded(flags).contains(r.2),
        r.0.token == "phc_demo"@ && r.1.token == "phc_demo"@ && r.2.token == "phc_demo"@,
        r.0.key == "new-dashboard"@ && r.0.active && r.0.variants.len() == 2,
        r.0.variants[0].key == "control"@ && r.0.variants[1].key == "treatment"@,
        r.1.key == "dark-mode"@ && r.1.active && r.1.variants.len() == 0,
        r.2.key == "beta-search"@ && !r.2.active && r.2.variants.len() == 0,
        row.token != "phc_demo"@ ==> (flags_seeded(flags).contains(row) <==> flags.contains(row)),
{
    reveal_strlit("new-dashboard");
    reveal_strlit("dark-mode");
    reveal_strlit("beta-search");
    assert("new-dashboard"@.len() != "dark-mode"@.len());
    assert("dark-mode"@.len() != "beta-search"@.len());
    assert("new-dashboard"@.len() != "beta-search"@.len());
    let a = FlagRowModel {
        token: "phc_demo"@,
        key: "new-dashboard"@,
        active: true,
        rollout: half(),
        variants: seq![
            VariantModel {
                key: "control"@,
                rollout: Share { bits: 0x4049_0000_0000_0000, below: 57_646_075_230_342_348_800 },
            },
            VariantModel {
                key: "treatment"@,
                rollout: Share { bits: 0x4049_0000_0000_0000, below: 115_292_150_460_684_697_600 },
            },
        ],
        conditions: None,
    };
    let b = FlagRowModel {
        token: "phc_demo"@,
        key: "dark-mode"@,
        active: true,
        rollout: whole(),
        variants: Seq::empty(),
        conditions: None,
    };
    let c = FlagRowModel {
        token: "phc_demo"@,
        key: "beta-search"@,
        active: false,
        rollout: nobody(),
        variants: Seq::empty(),
        conditions: None,
    };
    let one = upserted(flags, a);
    let two = upserted(one, b);
    assert(flags_seeded(flags) == upserted(two, c));
    lemma_upserted(flags, a, row);
    lemma_upserted(one, b, row);
    lemma_upserted(two, c, row);
    lemma_upserted(one, b, a);
    lemma_upserted(two, c, a);
    lemma_upserted(two, c, b);
    (a, b, c)
}

/// A sample event is a view of a page, with its address, a click, with what was clicked, or an identification;
/// each says from which browser and which country; it is of the person and at the hour and minute drawn.
pub proof fn law_sample_events_are_what_was_drawn(now: int, day: int, d: DemoDraw, e: DemoDraw)
    requires
        draw_ok(d),
        draw_ok(e),
    ensures
        ({
            let event = demo_event(now, day, d);
            let other = demo_event(now, day, e);
            &&& event.uuid == d.uuid
            &&& d.kind == 0 ==> event.event == "$pageview"@ && event.properties.contains_key(
                "$current_url"@,
            )
            &&& d.kind == 1 ==> event.event == "$click"@ && event.properties.contains_key("$click_target"@)
            &&& d.kind == 2 ==> event.event == "$identify"@
            &&& event.properties.contains_key("$browser"@) && event.properties["$browser"@] is Text
            &&& event.properties.contains_key("$geoip_country_code"@)
            &&& event.token == "phc_demo"@
            &&& event.distinct_id == other.distinct_id <==> d.person == e.person
            &&& event.timestamp - other.timestamp == 60_000_000_000 * ((60 * e.hour + e.minute) - (60
                * d.hour + d.minute))
            &&& demo_event(now, day + 1, d).timestamp - event.timestamp == 86_400_000_000_000
        }),
{
    reveal_strlit("$browser");
    reveal_strlit("$geoip_country_code");
    reveal_strlit("$current_url");
    reveal_strlit("$click_target");
    reveal_strlit("demo_user_");
    assert("$browser"@.len() != "$geoip_country_code"@.len());
    assert("$browser"@.len() != "$current_url"@.len());
    assert("$browser"@.len() != "$click_target"@.len());
    assert("$geoip_country_code"@.len() != "$current_url"@.len());
    assert("$geoip_country_code"@.len() != "$click_target"@.len());
    let event = demo_event(now, day, d);
    let other = demo_event(now, day, e);
    law_padded_numbers_read_back(d.person as nat, 3);
    law_padded_numbers_read_back(e.person as nat, 3);
    assert(event.distinct_id.skip(10) =~= padded(d.person as nat, 3));
    assert(other.distinct_id.skip(10) =~= padded(e.person as nat, 3));
}

} // verus!
