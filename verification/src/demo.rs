//! Sample data for a demonstration: events of the last ninety days, flags, insights and a dashboard.
use vstd::prelude::*;
use vstd::string::*;

use crate::capture::event::{instant_ok, CapturedEvent, EventModel};
use crate::dashboard_store::{
    dashboard_led, insight_put, saved_id, Dashboard, DashboardModel, DashboardStore, DashboardTile,
    InsightModel, SavedInsight, StoreModel, TileModel,
};
use crate::digest::fresh_v4;
use crate::flags::{upserted, FlagRowModel, FlagStore, Percentage, Share, Variant, VariantModel};
use crate::json::{members_model, Json, JsonMap, JsonValue};
use crate::order::views;
use crate::pipeline::layout::{padded, padded_text};
use crate::rows::append;
use crate::text::{decimal, decimal_text, joined, same};

verus! {

/// How many days the sample covers.
pub const DEMO_DAYS: u64 = 90;

/// How many events a day has. The first two days have three times as many.
pub const DEMO_EVENTS_PER_DAY: u64 = 55;

/// How many events there are in all.
pub const DEMO_EVENTS: usize = 5170;

/// How many events are written at a time.
pub const DEMO_CHUNK: usize = 1000;

/// Decides whether to seed: where it is asked for and the store holds no file. A store that cannot be
/// listed counts as one without.
pub fn should_seed(demo: &str, files: Option<usize>) -> (r: bool)
    ensures
        r == (demo@ == "1"@ && !(files matches Some(n) && n > 0)),
{
    same(demo, "1") && match files {
        Some(n) => n == 0,
        None => true,
    }
}

// ── Events ────────────────────────────────────────────────────────────────────

/// What is drawn for an event.
#[derive(Debug, Clone, Copy, PartialEq, Eq, Structural)]
pub struct DemoDraw {
    pub uuid: u128,
    pub person: u64,
    pub kind: u64,
    pub hour: u64,
    pub minute: u64,
    pub browser: u64,
    pub country: u64,
    /// The page or the button.
    pub target: u64,
}

/// Whether what was drawn is within bounds.
pub open spec fn draw_ok(d: DemoDraw) -> bool {
    &&& d.person < 100
    &&& d.kind < 3
    &&& d.hour < 24
    &&& d.minute < 60
    &&& d.browser < 4
    &&& d.country < 5
    &&& 1 <= d.target
    &&& d.kind == 0 ==> d.target < 20
    &&& d.kind != 0 ==> d.target < 10
}

/// The event of a kind.
pub open spec fn kind_event(kind: u64) -> Seq<char> {
    if kind == 0 {
        "$pageview"@
    } else if kind == 1 {
        "$click"@
    } else {
        "$identify"@
    }
}

/// A browser.
pub open spec fn browser_name(browser: u64) -> Seq<char> {
    if browser == 0 {
        "Chrome"@
    } else if browser == 1 {
        "Firefox"@
    } else if browser == 2 {
        "Safari"@
    } else {
        "Edge"@
    }
}

/// A country.
pub open spec fn country_code(country: u64) -> Seq<char> {
    if country == 0 {
        "US"@
    } else if country == 1 {
        "DE"@
    } else if country == 2 {
        "GB"@
    } else if country == 3 {
        "FR"@
    } else {
        "JP"@
    }
}

/// The properties of an event: browser, country, and the page or the button.
pub open spec fn demo_properties(d: DemoDraw) -> Map<Seq<char>, JsonValue> {
    let base = Map::<Seq<char>, JsonValue>::empty().insert(
        "$browser"@,
        JsonValue::Text(browser_name(d.browser)),
    ).insert("$geoip_country_code"@, JsonValue::Text(country_code(d.country)));
    if d.kind == 0 {
        base.insert(
            "$current_url"@,
            JsonValue::Text("https://demo.hoglet.dev/page/"@ + decimal(d.target as nat)),
        )
    } else if d.kind == 1 {
        base.insert("$click_target"@, JsonValue::Text("btn_"@ + decimal(d.target as nat)))
    } else {
        base
    }
}

/// The day of the event at a place, from the earliest on.
pub open spec fn day_at(place: int) -> int {
    if place < 330 {
        place / 165
    } else {
        2 + (place - 330) / 55
    }
}

/// The event of a day, from what was drawn.
pub open spec fn demo_event(now: int, day: int, d: DemoDraw) -> EventModel {
    EventModel {
        uuid: d.uuid,
        event: kind_event(d.kind),
        distinct_id: "demo_user_"@ + padded(d.person as nat, 3),
        token: "phc_demo"@,
        timestamp: now - ((DEMO_DAYS - day) * 24 + d.hour) * 3_600_000_000_000 - d.minute
            * 60_000_000_000,
        properties: demo_properties(d),
    }
}

/// The events, from all that was drawn.
pub open spec fn demo_events(now: int, draws: Seq<DemoDraw>) -> Seq<EventModel> {
    Seq::new(draws.len(), |i: int| demo_event(now, day_at(i), draws[i]))
}

fn show_kind(kind: u64) -> (r: &'static str)
    ensures
        r@ == kind_event(kind),
{
    if kind == 0 {
        "$pageview"
    } else if kind == 1 {
        "$click"
    } else {
        "$identify"
    }
}

fn show_browser(browser: u64) -> (r: &'static str)
    ensures
        r@ == browser_name(browser),
{
    if browser == 0 {
        "Chrome"
    } else if browser == 1 {
        "Firefox"
    } else if browser == 2 {
        "Safari"
    } else {
        "Edge"
    }
}

fn show_country(country: u64) -> (r: &'static str)
    ensures
        r@ == country_code(country),
{
    if country == 0 {
        "US"
    } else if country == 1 {
        "DE"
    } else if country == 2 {
        "GB"
    } else if country == 3 {
        "FR"
    } else {
        "JP"
    }
}

/// Makes the event of a day from what was drawn.
pub fn make_event(now: i128, day: u64, d: DemoDraw) -> (r: CapturedEvent)
    requires
        instant_ok(now as int),
        day < DEMO_DAYS,
        draw_ok(d),
    ensures
        r@ == demo_event(now as int, day as int, d),
        r.properties.well_formed(),
{
    let mut properties = JsonMap::new();
    properties.insert("$browser", Json::text(show_browser(d.browser)));
    properties.insert("$geoip_country_code", Json::text(show_country(d.country)));
    if d.kind == 0 {
        let url = joined("https://demo.hoglet.dev/page/", decimal_text(d.target).as_str());
        properties.insert("$current_url", Json::text(url.as_str()));
    } else if d.kind == 1 {
        let button = joined("btn_", decimal_text(d.target).as_str());
        properties.insert("$click_target", Json::text(button.as_str()));
    }
    let hours: u64 = (DEMO_DAYS - day) * 24 + d.hour;
    let timestamp: i128 = now - hours as i128 * 3_600_000_000_000 - d.minute as i128
        * 60_000_000_000;
    CapturedEvent {
        uuid: d.uuid,
        event: show_kind(d.kind).to_owned(),
        distinct_id: joined("demo_user_", padded_text(d.person, 3).as_str()),
        token: "phc_demo".to_owned(),
        timestamp,
        properties,
    }
}

/// `rand::Rng::gen_range` of the thread's generator: some number below a bound.
#[verifier::external_body]
fn draw_below(bound: u64) -> (r: u64)
    requires
        bound > 0,
    ensures
        r < bound,
{
    rand::Rng::gen_range(&mut rand::thread_rng(), 0..bound)
}

fn draw_event() -> (r: DemoDraw)
    ensures
        draw_ok(r),
{
    let kind: u64 = draw_below(3);
    let target: u64 = 1 + draw_below(
        if kind == 0 {
            19
        } else {
            9
        },
    );
    DemoDraw {
        uuid: fresh_v4(),
        person: draw_below(100),
        kind,
        hour: draw_below(24),
        minute: draw_below(60),
        browser: draw_below(4),
        country: draw_below(5),
        target,
    }
}

/// Makes all the events.
pub fn seed_events(now: i128) -> (r: Vec<CapturedEvent>)
    requires
        instant_ok(now as int),
    ensures
        exists|draws: Seq<DemoDraw>|
            draws.len() == DEMO_EVENTS && (forall|i: int|
                0 <= i < draws.len() ==> draw_ok(#[trigger] draws[i])) && views(r@)
                == #[trigger] demo_events(now as int, draws),
{
    let ghost mut draws: Seq<DemoDraw> = Seq::empty();
    let mut out: Vec<CapturedEvent> = Vec::new();
    let mut i: usize = 0;
    assert(views(out@) =~= demo_events(now as int, draws));
    while i < DEMO_EVENTS
        invariant
            i <= DEMO_EVENTS,
            instant_ok(now as int),
            draws.len() == i,
            forall|j: int| 0 <= j < draws.len() ==> draw_ok(#[trigger] draws[j]),
            views(out@) == demo_events(now as int, draws),
        decreases DEMO_EVENTS - i,
    {
        let day: u64 = if i < 330 {
            i as u64 / 165
        } else {
            2 + (i as u64 - 330) / 55
        };
        let d = draw_event();
        let event = make_event(now, day, d);
        let ghost before = demo_events(now as int, draws);
        append(&mut out, event);
        proof {
            draws = draws.push(d);
            assert(demo_events(now as int, draws) =~= before.push(event@));
        }
        i += 1;
    }
    out
}

// ── Flags ─────────────────────────────────────────────────────────────────────

/// Fifty percent.
pub open spec fn half() -> Percentage {
    Percentage { bits: 0x4049_0000_0000_0000 }
}

/// A hundred percent.
pub open spec fn whole() -> Percentage {
    Percentage { bits: 0x4059_0000_0000_0000 }
}

/// No percent.
pub open spec fn nobody() -> Percentage {
    Percentage { bits: 0 }
}

/// The flags of the sample.
pub open spec fn flags_seeded(flags: Seq<FlagRowModel>) -> Seq<FlagRowModel> {
    let first = upserted(
        flags,
        FlagRowModel {
            token: "phc_demo"@,
            key: "new-dashboard"@,
            active: true,
            rollout: half(),
            variants: seq![
                VariantModel {
                    key: "control"@,
                    rollout: Share {
                        bits: 0x4049_0000_0000_0000,
                        below: 57_646_075_230_342_348_800,
                    },
                },
                VariantModel {
                    key: "treatment"@,
                    rollout: Share {
                        bits: 0x4049_0000_0000_0000,
                        below: 115_292_150_460_684_697_600,
                    },
                },
            ],
            conditions: None,
        },
    );
    let second = upserted(
        first,
        FlagRowModel {
            token: "phc_demo"@,
            key: "dark-mode"@,
            active: true,
            rollout: whole(),
            variants: Seq::empty(),
            conditions: None,
        },
    );
    upserted(
        second,
        FlagRowModel {
            token: "phc_demo"@,
            key: "beta-search"@,
            active: false,
            rollout: nobody(),
            variants: Seq::empty(),
            conditions: None,
        },
    )
}

/// Puts the flags of the sample in place.
pub fn seed_flags(flags: &mut FlagStore)
    ensures
        final(flags)@ == flags_seeded(old(flags)@),
{
    let control = Variant {
        key: "control".to_owned(),
        rollout: Share { bits: 0x4049_0000_0000_0000, below: 57_646_075_230_342_348_800 },
    };
    let treatment = Variant {
        key: "treatment".to_owned(),
        rollout: Share { bits: 0x4049_0000_0000_0000, below: 115_292_150_460_684_697_600 },
    };
    let ghost models = seq![control@, treatment@];
    let variants: Vec<Variant> = vec![control, treatment];
    assert(views(variants@) =~= models);
    flags.upsert_full(
        "phc_demo",
        "new-dashboard",
        true,
        Percentage { bits: 0x4049_0000_0000_0000 },
        variants,
        None,
    );
    flags.upsert(
        "phc_demo",
        "dark-mode",
        true,
        Percentage { bits: 0x4059_0000_0000_0000 },
    );
    flags.upsert("phc_demo", "beta-search", false, Percentage { bits: 0 });
}

// ── Insights and dashboard ────────────────────────────────────────────────────

/// A series that counts an event.
pub open spec fn series_ir(event: Seq<char>) -> JsonValue {
    JsonValue::Object(
        seq![
            (
                "event"@,
                JsonValue::Object(
                    seq![
                        ("type"@, JsonValue::Text("name"@)),
                        ("value"@, JsonValue::Text(event)),
                    ],
                ),
            ),
            ("math"@, JsonValue::Object(seq![("type"@, JsonValue::Text("total"@))])),
        ],
    )
}

/// Filters that let everything through.
pub open spec fn filters_ir() -> JsonValue {
    JsonValue::Object(
        seq![("op"@, JsonValue::Text("AND"@)), ("values"@, JsonValue::Array(Seq::empty()))],
    )
}

/// A range without ends.
pub open spec fn range_ir() -> JsonValue {
    JsonValue::Object(
        seq![
            ("from"@, JsonValue::Null),
            ("last_n"@, JsonValue::Null),
            ("to"@, JsonValue::Null),
        ],
    )
}

/// How steps of a funnel follow each other.
pub open spec fn funnel_config_ir() -> JsonValue {
    JsonValue::Object(
        seq![
            ("attribution"@, JsonValue::Text("AllSteps"@)),
            ("conversion_window_seconds"@, JsonValue::Null),
            ("exclusions"@, JsonValue::Array(Seq::empty())),
            ("order_type"@, JsonValue::Text("Ordered"@)),
        ],
    )
}

/// The query of the first insight.
pub open spec fn trends_ir() -> JsonValue {
    JsonValue::Object(
        seq![
            ("filters"@, filters_ir()),
            ("formulas"@, JsonValue::Array(Seq::empty())),
            ("interval"@, JsonValue::Text("Day"@)),
            ("kind"@, JsonValue::Text("Trends"@)),
            ("range"@, range_ir()),
            ("series"@, JsonValue::Array(seq![series_ir("$pageview"@)])),
        ],
    )
}

/// The query of the second insight.
pub open spec fn funnel_ir() -> JsonValue {
    JsonValue::Object(
        seq![
            ("filters"@, filters_ir()),
            ("formulas"@, JsonValue::Array(Seq::empty())),
            ("funnel_config"@, funnel_config_ir()),
            ("interval"@, JsonValue::Text("Day"@)),
            ("kind"@, JsonValue::Text("Funnels"@)),
            ("range"@, range_ir()),
            (
                "series"@,
                JsonValue::Array(
                    seq![
                        series_ir("$pageview"@),
                        series_ir("$click"@),
                        series_ir("$identify"@),
                    ],
                ),
            ),
        ],
    )
}

fn object(members: Vec<(String, Json)>) -> (r: Json)
    ensures
        r@ == JsonValue::Object(members_model(members@)),
{
    let ghost model = members_model(members@);
    let r = Json::Object(members);
    assert(r@->Object_0 =~= model);
    r
}

fn array(items: Vec<Json>) -> (r: Json)
    ensures
        r@ == JsonValue::Array(views(items@)),
{
    let ghost model = views(items@);
    let r = Json::Array(items);
    assert(r@->Array_0 =~= model);
    r
}

fn empty_array() -> (r: Json)
    ensures
        r@ == JsonValue::Array(Seq::empty()),
{
    let items: Vec<Json> = Vec::new();
    assert(views(items@) =~= Seq::<JsonValue>::empty());
    array(items)
}

fn series(event: &str) -> (r: Json)
    ensures
        r@ == series_ir(event@),
{
    let named: Vec<(String, Json)> = vec![
        ("type".to_owned(), Json::text("name")),
        ("value".to_owned(), Json::text(event)),
    ];
    assert(members_model(named@) =~= seq![
        ("type"@, JsonValue::Text("name"@)),
        ("value"@, JsonValue::Text(event@)),
    ]);
    let math: Vec<(String, Json)> = vec![("type".to_owned(), Json::text("total"))];
    assert(members_model(math@) =~= seq![("type"@, JsonValue::Text("total"@))]);
    let event_part = object(named);
    let math_part = object(math);
    let ghost parts = (event_part@, math_part@);
    let members: Vec<(String, Json)> = vec![
        ("event".to_owned(), event_part),
        ("math".to_owned(), math_part),
    ];
    assert(members_model(members@) =~= seq![("event"@, parts.0), ("math"@, parts.1)]);
    object(members)
}

fn filters() -> (r: Json)
    ensures
        r@ == filters_ir(),
{
    let values = empty_array();
    let ghost none = values@;
    let members: Vec<(String, Json)> = vec![
        ("op".to_owned(), Json::text("AND")),
        ("values".to_owned(), values),
    ];
    assert(members_model(members@) =~= seq![
        ("op"@, JsonValue::Text("AND"@)),
        ("values"@, none),
    ]);
    object(members)
}

fn range() -> (r: Json)
    ensures
        r@ == range_ir(),
{
    let members: Vec<(String, Json)> = vec![
        ("from".to_owned(), Json::Null),
        ("last_n".to_owned(), Json::Null),
        ("to".to_owned(), Json::Null),
    ];
    assert(members_model(members@) =~= seq![
        ("from"@, JsonValue::Null),
        ("last_n"@, JsonValue::Null),
        ("to"@, JsonValue::Null),
    ]);
    object(members)
}

fn funnel_config() -> (r: Json)
    ensures
        r@ == funnel_config_ir(),
{
    let exclusions = empty_array();
    let ghost none = exclusions@;
    let members: Vec<(String, Json)> = vec![
        ("attribution".to_owned(), Json::text("AllSteps")),
        ("conversion_window_seconds".to_owned(), Json::Null),
        ("exclusions".to_owned(), exclusions),
        ("order_type".to_owned(), Json::text("Ordered")),
    ];
    assert(members_model(members@) =~= seq![
        ("attribution"@, JsonValue::Text("AllSteps"@)),
        ("conversion_window_seconds"@, JsonValue::Null),
        ("exclusions"@, none),
        ("order_type"@, JsonValue::Text("Ordered"@)),
    ]);
    object(members)
}

/// Builds the query of the first insight.
pub fn trends_query() -> (r: Json)
    ensures
        r@ == trends_ir(),
{
    let first = series("$pageview");
    let ghost models = seq![first@];
    let items: Vec<Json> = vec![first];
    assert(views(items@) =~= models);
    let all = array(items);
    let filters = filters();
    let formulas = empty_array();
    let range = range();
    let ghost parts = (filters@, formulas@, range@, all@);
    let members: Vec<(String, Json)> = vec![
        ("filters".to_owned(), filters),
        ("formulas".to_owned(), formulas),
        ("interval".to_owned(), Json::text("Day")),
        ("kind".to_owned(), Json::text("Trends")),
        ("range".to_owned(), range),
        ("series".to_owned(), all),
    ];
    assert(members_model(members@) =~= seq![
        ("filters"@, parts.0),
        ("formulas"@, parts.1),
        ("interval"@, JsonValue::Text("Day"@)),
        ("kind"@, JsonValue::Text("Trends"@)),
        ("range"@, parts.2),
        ("series"@, parts.3),
    ]);
    object(members)
}

/// Builds the query of the second insight.
pub fn funnel_query() -> (r: Json)
    ensures
        r@ == funnel_ir(),
{
    let first = series("$pageview");
    let second = series("$click");
    let third = series("$identify");
    let ghost models = seq![first@, second@, third@];
    let items: Vec<Json> = vec![first, second, third];
    assert(views(items@) =~= models);
    let all = array(items);
    let filters = filters();
    let formulas = empty_array();
    let config = funnel_config();
    let range = range();
    let ghost parts = (filters@, formulas@, config@, range@, all@);
    let members: Vec<(String, Json)> = vec![
        ("filters".to_owned(), filters),
        ("formulas".to_owned(), formulas),
        ("funnel_config".to_owned(), config),
        ("interval".to_owned(), Json::text("Day")),
        ("kind".to_owned(), Json::text("Funnels")),
        ("range".to_owned(), range),
        ("series".to_owned(), all),
    ];
    assert(members_model(members@) =~= seq![
        ("filters"@, parts.0),
        ("formulas"@, parts.1),
        ("funnel_config"@, parts.2),
        ("interval"@, JsonValue::Text("Day"@)),
        ("kind"@, JsonValue::Text("Funnels"@)),
        ("range"@, parts.3),
        ("series"@, parts.4),
    ]);
    object(members)
}

/// An insight of the sample.
pub open spec fn sample_insight(
    name: Seq<char>,
    description: Seq<char>,
    query_ir: JsonValue,
) -> InsightModel {
    InsightModel {
        id: Seq::empty(),
        token: "phc_demo"@,
        name,
        description,
        query_ir,
        created_by: "demo"@,
        created_at: 0,
        updated_at: 0,
    }
}

/// The store once an insight of the sample is saved.
pub open spec fn insight_seeded(m: StoreModel, insight: InsightModel, now: i64, number: u128) -> StoreModel {
    StoreModel {
        insights: insight_put(
            m.insights,
            "phc_demo"@,
            insight,
            saved_id(Seq::empty(), number),
            now,
        ),
        ..m
    }
}

/// A tile of the sample's dashboard.
pub open spec fn sample_tile(insight_id: Seq<char>, y: i32) -> TileModel {
    TileModel { insight_id, x: 0, y, w: 6, h: 3, insight: None }
}

/// The dashboard of the sample.
pub open spec fn sample_dashboard(first: Seq<char>, second: Seq<char>) -> DashboardModel {
    DashboardModel {
        id: Seq::empty(),
        token: "phc_demo"@,
        name: "Demo dashboard"@,
        tiles: seq![sample_tile(first, 0), sample_tile(second, 3)],
        created_by: "demo"@,
        created_at: 0,
    }
}

/// The numbers drawn for a sample's insights, dashboard and tiles.
#[derive(Debug, Clone, Copy, PartialEq, Eq, Structural)]
pub struct SampleNumbers {
    pub trends: u128,
    pub funnel: u128,
    pub dashboard: u128,
    pub first_tile: u128,
    pub second_tile: u128,
}

/// The store once the insights and the dashboard of the sample are saved.
pub open spec fn dashboard_seeded(m: StoreModel, now: i64, n: SampleNumbers) -> StoreModel {
    let first = insight_seeded(
        m,
        sample_insight("Pageviews"@, "Daily pageview count"@, trends_ir()),
        now,
        n.trends,
    );
    let second = insight_seeded(
        first,
        sample_insight(
            "Conversion funnel"@,
            "Pageview \u{2192} Click \u{2192} Identify"@,
            funnel_ir(),
        ),
        now,
        n.funnel,
    );
    dashboard_led(
        second,
        "phc_demo"@,
        sample_dashboard(saved_id(Seq::empty(), n.trends), saved_id(Seq::empty(), n.funnel)),
        now,
        n.dashboard,
        seq![n.first_tile, n.second_tile],
    ).0
}

fn sample(name: &str, description: &str, query_ir: Json) -> (r: SavedInsight)
    ensures
        r@ == sample_insight(name@, description@, query_ir@),
{
    let id = String::new();
    assert(id@ =~= Seq::<char>::empty());
    SavedInsight {
        id,
        token: "phc_demo".to_owned(),
        name: name.to_owned(),
        description: description.to_owned(),
        query_ir,
        created_by: "demo".to_owned(),
        created_at: 0,
        updated_at: 0,
    }
}

/// Saves the insights and the dashboard of the sample, given the numbers drawn.
pub fn seed_dashboard_with(store: &mut DashboardStore, now: i64, n: SampleNumbers)
    ensures
        final(store)@ == dashboard_seeded(old(store)@, now, n),
{
    let trends = sample("Pageviews", "Daily pageview count", trends_query());
    let first = match store.save_insight_with("phc_demo", &trends, now, n.trends) {
        Ok(saved) => saved,
        Err(_) => {
            return;
        },
    };
    let funnel = sample(
        "Conversion funnel",
        "Pageview \u{2192} Click \u{2192} Identify",
        funnel_query(),
    );
    let second = match store.save_insight_with("phc_demo", &funnel, now, n.funnel) {
        Ok(saved) => saved,
        Err(_) => {
            return;
        },
    };
    let upper = DashboardTile { insight_id: first.id, x: 0, y: 0, w: 6, h: 3, insight: None };
    let lower = DashboardTile { insight_id: second.id, x: 0, y: 3, w: 6, h: 3, insight: None };
    let ghost models = seq![upper@, lower@];
    let tiles: Vec<DashboardTile> = vec![upper, lower];
    assert(views(tiles@) =~= models);
    let id = String::new();
    assert(id@ =~= Seq::<char>::empty());
    let dashboard = Dashboard {
        id,
        token: "phc_demo".to_owned(),
        name: "Demo dashboard".to_owned(),
        tiles,
        created_by: "demo".to_owned(),
        created_at: 0,
    };
    let numbers: Vec<u128> = vec![n.first_tile, n.second_tile];
    assert(numbers@ =~= seq![n.first_tile, n.second_tile]);
    let _ = store.save_dashboard_with("phc_demo", &dashboard, now, n.dashboard, &numbers);
}

/// Saves the insights and the dashboard of the sample.
pub fn seed_dashboard(store: &mut DashboardStore, now: i64)
    ensures
        exists|n: SampleNumbers| final(store)@ == #[trigger] dashboard_seeded(old(store)@, now, n),
{
    let n = SampleNumbers {
        trends: fresh_v4(),
        funnel: fresh_v4(),
        dashboard: fresh_v4(),
        first_tile: fresh_v4(),
        second_tile: fresh_v4(),
    };
    seed_dashboard_with(store, now, n);
}

/// Every event of the sample lies in the past, and less than ninety-one days back.
pub proof fn law_sample_is_recent(now: int, draws: Seq<DemoDraw>, i: int)
    requires
        draws.len() == DEMO_EVENTS,
        0 <= i < draws.len(),
        draw_ok(draws[i]),
    ensures
        demo_events(now, draws)[i].timestamp < now,
        demo_events(now, draws)[i].timestamp > now - 91 * 86_400_000_000_000,
        demo_events(now, draws)[i].token == "phc_demo"@,
{
}

} // verus!
