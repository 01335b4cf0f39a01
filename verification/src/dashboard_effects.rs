//! What saved insights, dashboards and share links promise to whoever saved them.
use vstd::prelude::*;
use vstd::string::*;

use crate::dashboard_store::{
    dashboard_deleted, dashboard_is, dashboard_led, dashboard_of, dashboard_put, dashboard_read,
    insight_deleted, insight_is, insight_of, insight_put, insight_saved, latest_dashboard,
    latest_insight, numbered, saved_id, share_led, share_token_is, shared, tile_of_insight, tile_on,
    tile_put, DashboardModel, DashboardRowModel, InsightModel, InsightRowModel, StoreModel, TileModel,
    TileRowModel,
};
use crate::digest::uuid_text_of;
use crate::json::rendered;
use crate::rows::{
    found, is_order, law_sorting_orders, lemma_index_is, lemma_index_of, lemma_removed, lemma_selected,
    lemma_selected_concat, lemma_selected_whole, lemma_sorted, removed, runs, selected, sorted,
};

verus! {

/// Saving an insight again keeps its token, its maker and when it was made, and changes no other; a new one is
/// added with what it says.
pub proof fn law_saved_insights_keep_their_origin(
    rows: Seq<InsightRowModel>,
    token: Seq<char>,
    insight: InsightModel,
    id: Seq<char>,
    now: i64,
    i: int,
    j: int,
)
    requires
        0 <= i < rows.len(),
        rows[i].id == id,
        forall|k: int| 0 <= k < i ==> (#[trigger] rows[k]).id != id,
        0 <= j < rows.len(),
    ensures
        ({
            let next = insight_put(rows, token, insight, id, now);
            &&& next.len() == rows.len()
            &&& next[i] == (InsightRowModel {
                name: insight.name,
                description: insight.description,
                query_ir: rendered(insight.query_ir),
                updated_at: now,
                ..rows[i]
            })
            &&& j != i ==> next[j] == rows[j]
        }),
{
    let p = insight_is(id);
    assert forall|k: int| 0 <= k < i implies !p(#[trigger] rows[k]) by {}
    lemma_index_is(rows, p, i);
}

/// A new insight is added as it was given, and all others stay.
pub proof fn law_new_insights_are_added(
    rows: Seq<InsightRowModel>,
    token: Seq<char>,
    insight: InsightModel,
    id: Seq<char>,
    now: i64,
)
    requires
        forall|k: int| 0 <= k < rows.len() ==> (#[trigger] rows[k]).id != id,
    ensures
        insight_put(rows, token, insight, id, now) == rows.push(
            InsightRowModel {
                id,
                token,
                name: insight.name,
                description: insight.description,
                query_ir: rendered(insight.query_ir),
                created_by: insight.created_by,
                created_at: now,
                updated_at: now,
            },
        ),
        insight_saved(token, insight, id, now).id == id,
        insight_saved(token, insight, id, now).token == token,
        insight_saved(token, insight, id, now).name == insight.name,
        insight_saved(token, insight, id, now).query_ir == insight.query_ir,
        insight_saved(token, insight, id, now).updated_at == now,
{
    lemma_index_of(rows, insight_is(id));
}

/// Deleting an insight or a dashboard deletes it and its tiles, and nothing else.
pub proof fn law_deleting_deletes_alone(
    m: StoreModel,
    id: Seq<char>,
    insight: InsightRowModel,
    dashboard: DashboardRowModel,
    tile: TileRowModel,
)
    ensures
        insight_deleted(m, id).insights.contains(insight) <==> m.insights.contains(insight) && insight.id
            != id,
        insight_deleted(m, id).tiles.contains(tile) <==> m.tiles.contains(tile) && tile.insight_id != id,
        insight_deleted(m, id).dashboards == m.dashboards && insight_deleted(m, id).shares == m.shares,
        dashboard_deleted(m, id).dashboards.contains(dashboard) <==> m.dashboards.contains(dashboard)
            && dashboard.id != id,
        dashboard_deleted(m, id).tiles.contains(tile) <==> m.tiles.contains(tile) && tile.dashboard_id != id,
        dashboard_deleted(m, id).insights == m.insights && dashboard_deleted(m, id).shares == m.shares,
{
    lemma_removed(m.insights, insight_is(id), insight);
    lemma_removed(m.tiles, tile_of_insight(id), tile);
    lemma_removed(m.dashboards, dashboard_is(id), dashboard);
    lemma_removed(m.tiles, tile_on(id), tile);
}

// ── Dashboards ────────────────────────────────────────────────────────────────

/// The row of a tile.
pub open spec fn tile_row(dashboard: Seq<char>, tile: TileModel, number: u128) -> TileRowModel {
    TileRowModel {
        id: uuid_text_of(number),
        dashboard_id: dashboard,
        insight_id: tile.insight_id,
        x: tile.x,
        y: tile.y,
        w: tile.w,
        h: tile.h,
    }
}

proof fn lemma_tiles_put(start: StoreModel, dashboard: Seq<char>, tiles: Seq<(TileModel, u128)>)
    ensures
        ({
            let (next, fault) = runs(start, tiles, tile_put(dashboard));
            &&& next.insights == start.insights && next.dashboards == start.dashboards && next.shares
                == start.shares
            &&& fault is None ==> next.tiles == start.tiles + Seq::new(
                tiles.len(),
                |i: int| tile_row(dashboard, tiles[i].0, tiles[i].1),
            )
        }),
    decreases tiles.len(),
{
    if tiles.len() == 0 {
        assert(start.tiles + Seq::new(
            tiles.len(),
            |i: int| tile_row(dashboard, tiles[i].0, tiles[i].1),
        ) =~= start.tiles);
    } else {
        let rest = tiles.drop_last();
        lemma_tiles_put(start, dashboard, rest);
        let (before, fault) = runs(start, rest, tile_put(dashboard));
        let (next, after) = runs(start, tiles, tile_put(dashboard));
        if fault is None && after is None {
            assert(next.tiles =~= start.tiles + Seq::new(
                tiles.len(),
                |i: int| tile_row(dashboard, tiles[i].0, tiles[i].1),
            ));
        }
    }
}

proof fn lemma_other_tiles_stay(
    start: StoreModel,
    dashboard: Seq<char>,
    tiles: Seq<(TileModel, u128)>,
    row: TileRowModel,
)
    requires
        row.dashboard_id != dashboard,
    ensures
        runs(start, tiles, tile_put(dashboard)).0.tiles.contains(row) <==> start.tiles.contains(row),
    decreases tiles.len(),
{
    if tiles.len() > 0 {
        let rest = tiles.drop_last();
        lemma_other_tiles_stay(start, dashboard, rest, row);
        let before = runs(start, rest, tile_put(dashboard)).0;
        crate::rows::lemma_push_contains(
            before.tiles,
            tile_row(dashboard, tiles.last().0, tiles.last().1),
            row,
        );
    }
}

/// A saved dashboard is read back: under its name, with its tiles, each where it was put, in their order.
pub proof fn law_dashboards_read_back(
    m: StoreModel,
    token: Seq<char>,
    dashboard: DashboardModel,
    now: i64,
    number: u128,
    numbers: Seq<u128>,
    i: int,
)
    requires
        dashboard_led(m, token, dashboard, now, number, numbers).1 is Ok,
        numbers.len() >= dashboard.tiles.len(),
    ensures
        ({
            let (next, r) = dashboard_led(m, token, dashboard, now, number, numbers);
            let id = saved_id(dashboard.id, number);
            let read = dashboard_read(next, id);
            &&& r->Ok_0.id == id
            &&& read is Ok
            &&& read->Ok_0.id == id
            &&& read->Ok_0.name == dashboard.name
            &&& read->Ok_0.tiles.len() == dashboard.tiles.len()
            &&& 0 <= i < dashboard.tiles.len() ==> {
                &&& read->Ok_0.tiles[i].insight_id == dashboard.tiles[i].insight_id
                &&& read->Ok_0.tiles[i].x == dashboard.tiles[i].x
                &&& read->Ok_0.tiles[i].y == dashboard.tiles[i].y
                &&& read->Ok_0.tiles[i].w == dashboard.tiles[i].w
                &&& read->Ok_0.tiles[i].h == dashboard.tiles[i].h
            }
        }),
{
    let id = saved_id(dashboard.id, number);
    let p = dashboard_is(id);
    let rows = dashboard_put(m.dashboards, token, dashboard, id, now);
    let cleared = StoreModel { dashboards: rows, tiles: removed(m.tiles, tile_on(id)), ..m };
    let pairs = numbered(dashboard.tiles, numbers);
    let next = dashboard_led(m, token, dashboard, now, number, numbers).0;
    lemma_tiles_put(cleared, id, pairs);
    lemma_index_of(m.dashboards, p);
    let at = match crate::rows::index_of(m.dashboards, p) {
        Some(k) => k,
        None => m.dashboards.len() as int,
    };
    assert forall|k: int| 0 <= k < at implies !p(#[trigger] rows[k]) by {
        assert(rows[k] == m.dashboards[k]);
    }
    lemma_index_is(rows, p, at);
    let fresh = Seq::new(pairs.len(), |k: int| tile_row(id, pairs[k].0, pairs[k].1));
    let own = tile_on(id);
    lemma_selected_concat(cleared.tiles, fresh, own);
    assert(selected(cleared.tiles, own) =~= Seq::<TileRowModel>::empty()) by {
        if selected(cleared.tiles, own).len() > 0 {
            let row = selected(cleared.tiles, own)[0];
            assert(selected(cleared.tiles, own).contains(row));
            lemma_selected(cleared.tiles, own, row);
            lemma_removed(m.tiles, own, row);
        }
    }
    assert forall|row: TileRowModel| #[trigger] fresh.contains(row) implies own(row) by {}
    lemma_selected_whole(fresh, own);
    assert(selected(next.tiles, own) =~= fresh);
}

/// Saving a dashboard keeps its token, its maker and when it was made, and changes no other dashboard, nor the
/// tiles of another.
pub proof fn law_dashboards_are_saved_alone(
    m: StoreModel,
    token: Seq<char>,
    dashboard: DashboardModel,
    now: i64,
    number: u128,
    numbers: Seq<u128>,
    row: DashboardRowModel,
    tile: TileRowModel,
)
    ensures
        ({
            let next = dashboard_led(m, token, dashboard, now, number, numbers).0;
            let id = saved_id(dashboard.id, number);
            &&& m.dashboards.contains(row) && row.id != id ==> next.dashboards.contains(row)
            &&& next.dashboards.contains(row) && row.id != id ==> m.dashboards.contains(row)
            &&& tile.dashboard_id != id ==> (next.tiles.contains(tile) <==> m.tiles.contains(tile))
            &&& found(m.dashboards, dashboard_is(id)) is Some ==> found(next.dashboards, dashboard_is(id))
                == Some(
                DashboardRowModel {
                    name: dashboard.name,
                    updated_at: now,
                    ..found(m.dashboards, dashboard_is(id))->Some_0
                },
            )
            &&& next.insights == m.insights && next.shares == m.shares
        }),
{
    let id = saved_id(dashboard.id, number);
    let rows = dashboard_put(m.dashboards, token, dashboard, id, now);
    let cleared = StoreModel { dashboards: rows, tiles: removed(m.tiles, tile_on(id)), ..m };
    let pairs = numbered(dashboard.tiles, numbers);
    lemma_tiles_put(cleared, id, pairs);
    if tile.dashboard_id != id {
        lemma_other_tiles_stay(cleared, id, pairs, tile);
    }
    lemma_dashboard_put(m.dashboards, token, dashboard, id, now, row);
    lemma_removed(m.tiles, tile_on(id), tile);
}

proof fn lemma_dashboard_put(
    before: Seq<DashboardRowModel>,
    token: Seq<char>,
    dashboard: DashboardModel,
    id: Seq<char>,
    now: i64,
    row: DashboardRowModel,
)
    ensures
        ({
            let rows = dashboard_put(before, token, dashboard, id, now);
            &&& row.id != id ==> (rows.contains(row) <==> before.contains(row))
            &&& found(before, dashboard_is(id)) is Some ==> found(rows, dashboard_is(id)) == Some(
                DashboardRowModel {
                    name: dashboard.name,
                    updated_at: now,
                    ..found(before, dashboard_is(id))->Some_0
                },
            )
        }),
{
    let p = dashboard_is(id);
    let rows = dashboard_put(before, token, dashboard, id, now);
    lemma_index_of(before, p);
    let at = match crate::rows::index_of(before, p) {
        Some(k) => k,
        None => before.len() as int,
    };
    assert forall|k: int| 0 <= k < at implies !p(#[trigger] rows[k]) by {
        assert(rows[k] == before[k]);
    }
    lemma_index_is(rows, p, at);
    if before.contains(row) && row.id != id {
        let k = choose|k: int| 0 <= k < before.len() && before[k] == row;
        assert(rows[k] == row);
    }
    if rows.contains(row) && row.id != id {
        let k = choose|k: int| 0 <= k < rows.len() && rows[k] == row;
        assert(before[k] == row);
    }
}

// ── Links and lists ───────────────────────────────────────────────────────────

/// A link to a dashboard shares what reading that dashboard gives.
pub proof fn law_links_share_dashboards(
    m: StoreModel,
    object_id: Seq<char>,
    created_by: Seq<char>,
    now: i64,
    first: u128,
    second: u128,
)
    requires
        share_led(m, "dashboard"@, object_id, created_by, now, first, second).1 is Ok,
    ensures
        ({
            let (next, made) = share_led(m, "dashboard"@, object_id, created_by, now, first, second);
            let seen = shared(next, made->Ok_0.token);
            &&& dashboard_read(m, object_id) is Ok ==> seen is Ok && seen->Ok_0.dashboard == Some(
                dashboard_read(m, object_id)->Ok_0,
            ) && seen->Ok_0.insight is None && seen->Ok_0.token == made->Ok_0.token
            &&& dashboard_read(m, object_id) is Err ==> seen is Err
            &&& made->Ok_0.object_id == object_id && made->Ok_0.object_type == "dashboard"@
            &&& made->Ok_0.expires_at is None && made->Ok_0.created_at == now
            &&& next.insights == m.insights && next.dashboards == m.dashboards && next.tiles == m.tiles
        }),
{
    let (next, made) = share_led(m, "dashboard"@, object_id, created_by, now, first, second);
    let p = share_token_is(made->Ok_0.token);
    lemma_index_of(m.shares, p);
    let k = m.shares.len() as int;
    assert forall|j: int| 0 <= j < k implies !p(#[trigger] next.shares[j]) by {
        assert(next.shares[j] == m.shares[j]);
    }
    lemma_index_is(next.shares, p, k);
    assert(dashboard_read(next, object_id) == dashboard_read(m, object_id)) by {
        if dashboard_read(m, object_id) is Ok {
            assert(dashboard_read(next, object_id)->Ok_0.tiles =~= dashboard_read(
                m,
                object_id,
            )->Ok_0.tiles);
        }
    }
}

/// A token that no link has shares nothing.
pub proof fn law_unknown_links_share_nothing(m: StoreModel, token: Seq<char>)
    requires
        forall|i: int| 0 <= i < m.shares.len() ==> (#[trigger] m.shares[i]).link.token != token,
    ensures
        shared(m, token) is Err,
{
    lemma_index_of(m.shares, share_token_is(token));
}

/// A token lists its insights and its dashboards, all of them and no other.
pub proof fn law_tokens_list_their_own(
    m: StoreModel,
    token: Seq<char>,
    insight: InsightRowModel,
    dashboard: DashboardRowModel,
)
    ensures
        sorted(selected(m.insights, insight_of(token)), latest_insight()).contains(insight)
            <==> m.insights.contains(insight) && insight.token == token,
        sorted(selected(m.dashboards, dashboard_of(token)), latest_dashboard()).contains(dashboard)
            <==> m.dashboards.contains(dashboard) && dashboard.token == token,
{
    lemma_selected(m.insights, insight_of(token), insight);
    lemma_sorted(selected(m.insights, insight_of(token)), latest_insight(), insight);
    lemma_selected(m.dashboards, dashboard_of(token), dashboard);
    lemma_sorted(selected(m.dashboards, dashboard_of(token)), latest_dashboard(), dashboard);
}

/// What was changed last is listed first.
pub proof fn law_latest_changes_come_first(m: StoreModel, token: Seq<char>, i: int, j: int)
    requires
        0 <= i < j,
    ensures
        ({
            let list = sorted(selected(m.insights, insight_of(token)), latest_insight());
            j < list.len() ==> list[i].updated_at >= list[j].updated_at
        }),
        ({
            let list = sorted(selected(m.dashboards, dashboard_of(token)), latest_dashboard());
            j < list.len() ==> list[i].updated_at >= list[j].updated_at
        }),
{
    assert(is_order(latest_insight()));
    assert(is_order(latest_dashboard()));
    law_sorting_orders(selected(m.insights, insight_of(token)), latest_insight());
    law_sorting_orders(selected(m.dashboards, dashboard_of(token)), latest_dashboard());
    let insights = sorted(selected(m.insights, insight_of(token)), latest_insight());
    let dashboards = sorted(selected(m.dashboards, dashboard_of(token)), latest_dashboard());
    if j < insights.len() {
        assert(!latest_insight()(insights[j], insights[i]));
    }
    if j < dashboards.len() {
        assert(!latest_dashboard()(dashboards[j], dashboards[i]));
    }
}

} // verus!
