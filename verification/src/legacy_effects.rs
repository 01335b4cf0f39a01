//! What is read of the stores of an earlier installation.
use vstd::prelude::*;

use crate::control_resources::{FeatureFlagModel, ShareTarget};
use crate::legacy_discovery::{
    discovered, law_every_token_is_discovered, log_step, log_tokens, parquet_step, path_order,
    segment_file_order, token_fault, EventFileModel, FoundEvents, LegacyLog, SegmentFileModel,
};
use crate::legacy_resources::{
    dashboard_assembled, dashboards_loaded, flag_pushed, flags_loaded, insight_pushed, insight_read,
    raw_dashboard_order, raw_insight_order, raw_share_order, raw_tile_order, share_pushed, insight_token,
    dashboard_token, share_read, tile_inputs, tile_on, Assembly, DashboardTables, LegacyDashboardModel,
    LegacyFlagModel, LegacyFlagRowModel, LegacyInsightModel, RawDashboardModel, RawInsightModel,
    RawShareModel, RawTileModel, flag_read, legacy_flag_order, table_fault,
};
use crate::migration::{extension_is, SourceModel};
use crate::order::views;
use crate::rows::{
    lemma_push_contains, lemma_removed, lemma_selected, lemma_sorted, lemma_texts_added, removed, selected,
    sorted, steps, texts_added,
};

verus! {

// ── Rows that are read one by one ─────────────────────────────────────────────

proof fn lemma_pushed<V, W, F>(
    rows: Seq<V>,
    read: spec_fn(V) -> Result<W, F>,
    step: spec_fn(Seq<W>, V) -> Result<Seq<W>, F>,
    i: int,
)
    requires
        forall|s: Seq<W>, row: V| #[trigger]
            step(s, row) == (match read(row) {
                Ok(w) => Ok(s.push(w)),
                Err(fault) => Err(fault),
            }),
        0 <= i < rows.len(),
    ensures
        steps(Seq::<W>::empty(), rows, step) is Ok ==> {
            let out = steps(Seq::<W>::empty(), rows, step)->Ok_0;
            &&& out.len() == rows.len()
            &&& read(rows[i]) == Ok::<W, F>(out[i])
        },
        read(rows[i]) is Err ==> steps(Seq::<W>::empty(), rows, step) is Err,
    decreases rows.len(),
{
    let rest = rows.drop_last();
    if rest.len() == 0 {
        assert(steps(Seq::<W>::empty(), rest, step) == Ok::<Seq<W>, F>(Seq::empty()));
    } else if i < rest.len() {
        lemma_pushed(rest, read, step, i);
    } else {
        lemma_pushed(rest, read, step, 0);
    }
}

proof fn lemma_place<V>(rows: Seq<V>, before: spec_fn(V, V) -> bool, row: V) -> (i: int)
    requires
        rows.contains(row),
    ensures
        0 <= i < sorted(rows, before).len(),
        sorted(rows, before)[i] == row,
{
    lemma_sorted(rows, before, row);
    choose|i: int| 0 <= i < sorted(rows, before).len() && sorted(rows, before)[i] == row
}

proof fn lemma_tables(path: Seq<char>, present: Seq<Seq<char>>, required: Seq<Seq<char>>, i: int)
    requires
        0 <= i < required.len(),
        !present.contains(required[i]),
    ensures
        table_fault(path, present, required) is Some,
    decreases required.len(),
{
    if i < required.len() - 1 {
        lemma_tables(path, present, required.drop_last(), i);
    }
}

// ── Flags ─────────────────────────────────────────────────────────────────────

/// Every flag is read with its key, whether it is on, its rollout, its variants and its payload, and nothing
/// else is.
pub proof fn law_every_flag_is_read(
    path: Seq<char>,
    present: Seq<Seq<char>>,
    rows: Seq<LegacyFlagRowModel>,
    row: LegacyFlagRowModel,
)
    requires
        rows.contains(row),
        flags_loaded(path, present, Some(rows)) is Ok,
    ensures
        flags_loaded(path, present, Some(rows))->Ok_0.len() == rows.len(),
        row.variants is Ok,
        row.conditions is Ok,
        flags_loaded(path, present, Some(rows))->Ok_0.contains(
            LegacyFlagModel {
                token: row.token,
                flag: FeatureFlagModel {
                    key: row.key,
                    active: row.active,
                    rollout_percentage: row.rollout,
                    variants: row.variants->Ok_0,
                    payload: if row.conditions->Ok_0 is Some {
                        row.conditions->Ok_0->Some_0.payload
                    } else {
                        None
                    },
                },
            },
        ),
{
    let all = sorted(rows, legacy_flag_order());
    let i = lemma_place(rows, legacy_flag_order(), row);
    lemma_sorted(rows, legacy_flag_order(), row);
    lemma_pushed(
        all,
        |r: LegacyFlagRowModel| flag_read(path, r),
        flag_pushed(path),
        i,
    );
    let out = steps(Seq::<LegacyFlagModel>::empty(), all, flag_pushed(path))->Ok_0;
    assert(out.contains(out[i]));
}

/// Flags that are aimed at some people, or that cannot be read, are refused; so is a store without their table.
pub proof fn law_unreadable_flags_are_refused(
    path: Seq<char>,
    present: Seq<Seq<char>>,
    rows: Seq<LegacyFlagRowModel>,
    row: LegacyFlagRowModel,
)
    requires
        !present.contains("feature_flags"@) || rows.contains(row) && (row.variants is Err || row.conditions
            is Err || row.conditions->Ok_0 is Some && (row.conditions->Ok_0->Some_0.properties.len() > 0
            || row.conditions->Ok_0->Some_0.cohort_ids.len() > 0)),
    ensures
        flags_loaded(path, present, Some(rows)) is Err,
{
    if !present.contains("feature_flags"@) {
        lemma_tables(path, present, seq!["feature_flags"@], 0);
    } else {
        let all = sorted(rows, legacy_flag_order());
        let i = lemma_place(rows, legacy_flag_order(), row);
        lemma_pushed(
            all,
            |r: LegacyFlagRowModel| flag_read(path, r),
            flag_pushed(path),
            i,
        );
    }
}

// ── Insights, dashboards, share links ─────────────────────────────────────────

/// Every insight is read with its name, its query, who made it and when, and nothing else is.
pub proof fn law_every_insight_is_read(path: Seq<char>, tables: DashboardTables, row: RawInsightModel)
    requires
        views(tables.insights@).contains(row),
        dashboards_loaded(path, Some(tables)) is Ok,
    ensures
        row.query_ir is Ok,
        dashboards_loaded(path, Some(tables))->Ok_0.insights.len() == tables.insights@.len(),
        exists|k: int|
            0 <= k < dashboards_loaded(path, Some(tables))->Ok_0.insights.len() && ({
                let read = #[trigger] dashboards_loaded(path, Some(tables))->Ok_0.insights[k];
                &&& read.token == row.token
                &&& read.verdict == row.verdict
                &&& read.insight.id == row.id
                &&& read.insight.name == row.name
                &&& read.insight.description == row.description
                &&& read.insight.query_ir == row.query_ir->Ok_0
                &&& read.insight.created_by == row.created_by
                &&& read.insight.created_at == row.created_at
                &&& read.insight.updated_at == row.updated_at
            }),
{
    let rows = views(tables.insights@);
    let all = sorted(rows, raw_insight_order());
    let i = lemma_place(rows, raw_insight_order(), row);
    lemma_sorted(rows, raw_insight_order(), row);
    lemma_pushed(all, |r: RawInsightModel| insight_read(path, r), insight_pushed(path), i);
    let out = steps(Seq::<LegacyInsightModel>::empty(), all, insight_pushed(path))->Ok_0;
    assert(dashboards_loaded(path, Some(tables))->Ok_0.insights == out);
    assert(out[i].token == row.token);
}

proof fn lemma_assembled(
    path: Seq<char>,
    insights: Seq<LegacyInsightModel>,
    tiles: Seq<RawTileModel>,
    rows: Seq<RawDashboardModel>,
    k: int,
    tile: RawTileModel,
)
    requires
        steps(
            Assembly { remaining: tiles, done: Seq::empty() },
            rows,
            dashboard_assembled(path, insights),
        ) is Ok,
        forall|i: int, j: int|
            0 <= i < j < rows.len() ==> (#[trigger] rows[i]).id != (#[trigger] rows[j]).id,
    ensures
        ({
            let end = steps(
                Assembly { remaining: tiles, done: Seq::empty() },
                rows,
                dashboard_assembled(path, insights),
            )->Ok_0;
            &&& end.done.len() == rows.len()
            &&& 0 <= k < rows.len() ==> {
                let made = end.done[k];
                &&& made.token == rows[k].token
                &&& made.dashboard.id == rows[k].id
                &&& made.dashboard.name == rows[k].name
                &&& made.dashboard.created_by == rows[k].created_by
                &&& made.dashboard.created_at == rows[k].created_at
                &&& made.dashboard.updated_at == rows[k].updated_at
                &&& made.dashboard.tiles == tile_inputs(selected(tiles, tile_on(rows[k].id)))
            }
            &&& end.remaining.contains(tile) <==> tiles.contains(tile) && forall|j: int|
                0 <= j < rows.len() ==> (#[trigger] rows[j]).id != tile.dashboard_id
            &&& forall|id: Seq<char>|
                (forall|j: int| 0 <= j < rows.len() ==> (#[trigger] rows[j]).id != id)
                    ==> #[trigger] selected(end.remaining, tile_on(id)) == selected(tiles, tile_on(id))
        }),
    decreases rows.len(),
{
    if rows.len() > 0 {
        let rest = rows.drop_last();
        let row = rows.last();
        assert forall|i: int, j: int| 0 <= i < j < rest.len() implies (#[trigger] rest[i]).id != (
        #[trigger] rest[j]).id by {
            assert(rows[i] == rest[i] && rows[j] == rest[j]);
        }
        lemma_assembled(path, insights, tiles, rest, k, tile);
        let start = Assembly { remaining: tiles, done: Seq::<LegacyDashboardModel>::empty() };
        let b = steps(start, rest, dashboard_assembled(path, insights))->Ok_0;
        let n = steps(start, rows, dashboard_assembled(path, insights))->Ok_0;
        assert(rows[rows.len() - 1] == row);
        assert forall|j: int| 0 <= j < rest.len() implies (#[trigger] rest[j]).id != row.id by {
            assert(rows[j] == rest[j]);
        }
        assert(selected(b.remaining, tile_on(row.id)) == selected(tiles, tile_on(row.id)));
        lemma_removed(b.remaining, tile_on(row.id), tile);
        assert((forall|j: int| 0 <= j < rows.len() ==> (#[trigger] rows[j]).id != tile.dashboard_id) <==> (
        (forall|j: int| 0 <= j < rest.len() ==> (#[trigger] rest[j]).id != tile.dashboard_id) && row.id
            != tile.dashboard_id)) by {
            if forall|j: int| 0 <= j < rows.len() ==> (#[trigger] rows[j]).id != tile.dashboard_id {
                assert forall|j: int| 0 <= j < rest.len() implies (#[trigger] rest[j]).id
                    != tile.dashboard_id by {
                    assert(rows[j] == rest[j]);
                }
            }
            if (forall|j: int| 0 <= j < rest.len() ==> (#[trigger] rest[j]).id != tile.dashboard_id)
                && row.id != tile.dashboard_id {
                assert forall|j: int| 0 <= j < rows.len() implies (#[trigger] rows[j]).id
                    != tile.dashboard_id by {
                    if j < rest.len() {
                        assert(rows[j] == rest[j]);
                    }
                }
            }
        }
        assert forall|id: Seq<char>|
            (forall|j: int| 0 <= j < rows.len() ==> (#[trigger] rows[j]).id != id) implies #[trigger] selected(
            n.remaining,
            tile_on(id),
        ) == selected(tiles, tile_on(id)) by {
            assert forall|j: int| 0 <= j < rest.len() implies (#[trigger] rest[j]).id != id by {
                assert(rows[j] == rest[j]);
            }
            assert(selected(b.remaining, tile_on(id)) == selected(tiles, tile_on(id)));
            lemma_untouched(b.remaining, row.id, id);
        }
        if 0 <= k < rest.len() {
            assert(n.done[k] == b.done[k]);
            assert(rows[k] == rest[k]);
        }
    }
}

proof fn lemma_untouched(tiles: Seq<RawTileModel>, gone: Seq<char>, id: Seq<char>)
    requires
        gone != id,
    ensures
        selected(removed(tiles, tile_on(gone)), tile_on(id)) == selected(tiles, tile_on(id)),
    decreases tiles.len(),
{
    if tiles.len() > 0 {
        let rest = tiles.drop_last();
        lemma_untouched(rest, gone, id);
        let left = removed(rest, tile_on(gone));
        assert(left.push(tiles.last()).drop_last() =~= left);
    }
}

/// Every dashboard is read with its name and dates, and with the tiles that stand on it; a tile on no dashboard
/// is refused.
pub proof fn law_every_dashboard_is_read(path: Seq<char>, tables: DashboardTables, row: RawDashboardModel, tile: RawTileModel) -> (k:
    int)
    requires
        views(tables.dashboards@).contains(row),
        forall|i: int, j: int|
            0 <= i < sorted(views(tables.dashboards@), raw_dashboard_order()).len() && 0 <= j < sorted(
                views(tables.dashboards@),
                raw_dashboard_order(),
            ).len() && i != j ==> (#[trigger] sorted(views(tables.dashboards@), raw_dashboard_order())[i]).id
                != (#[trigger] sorted(views(tables.dashboards@), raw_dashboard_order())[j]).id,
        dashboards_loaded(path, Some(tables)) is Ok,
    ensures
        ({
            let data = dashboards_loaded(path, Some(tables))->Ok_0;
            let made = data.dashboards[k];
            &&& data.dashboards.len() == tables.dashboards@.len()
            &&& 0 <= k < data.dashboards.len()
            &&& made.token == row.token
            &&& made.dashboard.id == row.id
            &&& made.dashboard.name == row.name
            &&& made.dashboard.created_by == row.created_by
            &&& made.dashboard.created_at == row.created_at
            &&& made.dashboard.updated_at == row.updated_at
            &&& views(tables.tiles@).contains(tile) && tile.dashboard_id == row.id
                ==> made.dashboard.tiles.contains(tile.tile)
        }),
        views(tables.tiles@).contains(tile) ==> exists|j: int|
            0 <= j < tables.dashboards@.len() && (#[trigger] views(tables.dashboards@)[j]).id
                == tile.dashboard_id,
{
    let rows = views(tables.dashboards@);
    let all = sorted(rows, raw_dashboard_order());
    let tiles = sorted(views(tables.tiles@), raw_tile_order());
    let insights = steps(
        Seq::<LegacyInsightModel>::empty(),
        sorted(views(tables.insights@), raw_insight_order()),
        insight_pushed(path),
    )->Ok_0;
    let k = lemma_place(rows, raw_dashboard_order(), row);
    lemma_sorted(rows, raw_dashboard_order(), row);
    lemma_sorted(views(tables.tiles@), raw_tile_order(), tile);
    lemma_assembled(path, insights, tiles, all, k, tile);
    let own = selected(tiles, tile_on(row.id));
    lemma_selected(tiles, tile_on(row.id), tile);
    if views(tables.tiles@).contains(tile) {
        if tile.dashboard_id == row.id {
            let t = choose|t: int| 0 <= t < own.len() && own[t] == tile;
            assert(tile_inputs(own)[t] == tile.tile);
        }
        let end = steps(
            Assembly { remaining: tiles, done: Seq::empty() },
            all,
            dashboard_assembled(path, insights),
        )->Ok_0;
        assert(!end.remaining.contains(tile));
        let j = choose|j: int| 0 <= j < all.len() && (#[trigger] all[j]).id == tile.dashboard_id;
        let holder = all[j];
        assert(all.contains(holder));
        lemma_sorted(rows, raw_dashboard_order(), holder);
        let h = choose|h: int| 0 <= h < rows.len() && rows[h] == holder;
        assert(views(tables.dashboards@)[h].id == tile.dashboard_id);
    }
    k
}

/// Every share link is read with its token, what it opens and until when, and nothing else is.
pub proof fn law_every_share_is_read(path: Seq<char>, tables: DashboardTables, row: RawShareModel) -> (k:
    int)
    requires
        views(tables.shares@).contains(row),
        dashboards_loaded(path, Some(tables)) is Ok,
    ensures
        ({
            let data = dashboards_loaded(path, Some(tables))->Ok_0;
            let share = data.shares[k].share;
            &&& data.shares.len() == tables.shares@.len()
            &&& 0 <= k < data.shares.len()
            &&& share.id == row.id
            &&& share.token == row.token
            &&& share.object_id == row.object_id
            &&& share.created_by == row.created_by
            &&& share.created_at == row.created_at
            &&& share.expires_at == row.expires_at
            &&& row.object_type == "insight"@ || row.object_type == "dashboard"@
            &&& row.object_type == "insight"@ <==> share.target == ShareTarget::Insight
            &&& share.target == ShareTarget::Insight ==> exists|j: int|
                0 <= j < data.insights.len() && (#[trigger] data.insights[j]).insight.id == row.object_id
                    && data.insights[j].token == data.shares[k].project_token
            &&& share.target != ShareTarget::Insight ==> exists|j: int|
                0 <= j < data.dashboards.len() && (#[trigger] data.dashboards[j]).dashboard.id
                    == row.object_id && data.dashboards[j].token == data.shares[k].project_token
        }),
{
    reveal_strlit("insight");
    reveal_strlit("dashboard");
    assert("insight"@.len() != "dashboard"@.len());
    let data = dashboards_loaded(path, Some(tables))->Ok_0;
    let rows = views(tables.shares@);
    let all = sorted(rows, raw_share_order());
    let k = lemma_place(rows, raw_share_order(), row);
    lemma_sorted(rows, raw_share_order(), row);
    lemma_pushed(
        all,
        |r: RawShareModel| share_read(path, data.insights, data.dashboards, r),
        share_pushed(path, data.insights, data.dashboards),
        k,
    );
    if row.object_type == "insight"@ {
        lemma_insight_token(data.insights, row.object_id);
    } else {
        lemma_dashboard_token(data.dashboards, row.object_id);
    }
    k
}

proof fn lemma_insight_token(insights: Seq<LegacyInsightModel>, id: Seq<char>)
    ensures
        insight_token(insights, id) is Some ==> exists|j: int|
            0 <= j < insights.len() && (#[trigger] insights[j]).insight.id == id && insights[j].token
                == insight_token(insights, id)->Some_0,
    decreases insights.len(),
{
    if insights.len() > 0 {
        let rest = insights.drop_last();
        lemma_insight_token(rest, id);
        if insights.last().insight.id == id {
            assert(insights[insights.len() - 1].insight.id == id);
        } else if insight_token(rest, id) is Some {
            let j = choose|j: int|
                0 <= j < rest.len() && (#[trigger] rest[j]).insight.id == id && rest[j].token
                    == insight_token(rest, id)->Some_0;
            assert(insights[j] == rest[j]);
        }
    }
}

proof fn lemma_dashboard_token(dashboards: Seq<LegacyDashboardModel>, id: Seq<char>)
    ensures
        dashboard_token(dashboards, id) is Some ==> exists|j: int|
            0 <= j < dashboards.len() && (#[trigger] dashboards[j]).dashboard.id == id
                && dashboards[j].token == dashboard_token(dashboards, id)->Some_0,
    decreases dashboards.len(),
{
    if dashboards.len() > 0 {
        let rest = dashboards.drop_last();
        lemma_dashboard_token(rest, id);
        if dashboards.last().dashboard.id == id {
            assert(dashboards[dashboards.len() - 1].dashboard.id == id);
        } else if dashboard_token(rest, id) is Some {
            let j = choose|j: int|
                0 <= j < rest.len() && (#[trigger] rest[j]).dashboard.id == id && rest[j].token
                    == dashboard_token(rest, id)->Some_0;
            assert(dashboards[j] == rest[j]);
        }
    }
}

// ── Tokens and files of events ────────────────────────────────────────────────

proof fn lemma_files_found(start: FoundEvents, files: Seq<EventFileModel>, i: int, path: Seq<char>, x: Seq<char>)
    ensures
        steps(start, files, parquet_step()) is Ok ==> {
            let found = steps(start, files, parquet_step())->Ok_0;
            &&& start.files.contains(path) ==> found.files.contains(path)
            &&& 0 <= i < files.len() && extension_is(files[i].name, "parquet"@)
                ==> found.files.contains(files[i].path) && files[i].tokens is Ok
            &&& found.files.contains(path) ==> start.files.contains(path) || exists|j: int|
                0 <= j < files.len() && (#[trigger] files[j]).path == path && extension_is(
                    files[j].name,
                    "parquet"@,
                )
            &&& found.tokens.contains(x) ==> start.tokens.contains(x) || exists|j: int|
                0 <= j < files.len() && extension_is((#[trigger] files[j]).name, "parquet"@)
                    && files[j].tokens->Ok_0.contains(x)
        },
    decreases files.len(),
{
    if files.len() > 0 && steps(start, files, parquet_step()) is Ok {
        let rest = files.drop_last();
        let last = files.last();
        lemma_files_found(start, rest, i, path, x);
        assert(files[files.len() - 1] == last);
        assert forall|j: int| 0 <= j < rest.len() implies rest[j] == (#[trigger] files[j]) by {
        }
        let b = steps(start, rest, parquet_step())->Ok_0;
        if extension_is(last.name, "parquet"@) {
            lemma_push_contains(b.files, last.path, path);
            lemma_texts_added(b.tokens, last.tokens->Ok_0, x);
            if 0 <= i < files.len() {
                lemma_push_contains(b.files, last.path, files[i].path);
            }
        }
        if b.files.contains(path) && !start.files.contains(path) {
            let j = choose|j: int|
                0 <= j < rest.len() && (#[trigger] rest[j]).path == path && extension_is(
                    rest[j].name,
                    "parquet"@,
                );
            assert(files[j].path == path);
        }
        if b.tokens.contains(x) && !start.tokens.contains(x) {
            let j = choose|j: int|
                0 <= j < rest.len() && extension_is((#[trigger] rest[j]).name, "parquet"@)
                    && rest[j].tokens->Ok_0.contains(x);
            assert(files[j] == rest[j]);
        }
    }
}

proof fn lemma_log_read(start: Seq<Seq<char>>, entries: Seq<SegmentFileModel>, i: int)
    requires
        0 <= i < entries.len(),
        entries[i].is_file,
        extension_is(entries[i].name, "wal"@),
        !entries[i].is_segment_name || entries[i].tokens is Err,
    ensures
        steps(start, entries, log_step()) is Err,
    decreases entries.len(),
{
    if i < entries.len() - 1 {
        lemma_log_read(start, entries.drop_last(), i);
    }
}

proof fn lemma_faulty_token(
    data_dir: Seq<char>,
    tokens: Seq<Seq<char>>,
    faults: Map<Seq<char>, Seq<char>>,
    i: int,
)
    requires
        0 <= i < tokens.len(),
        faults.contains_key(tokens[i]),
    ensures
        token_fault(data_dir, tokens, faults) is Some,
    decreases tokens.len(),
{
    if i < tokens.len() - 1 {
        lemma_faulty_token(data_dir, tokens.drop_last(), faults, i);
    }
}

/// Every file of events is found, and nothing else is taken for one.
pub proof fn law_every_file_of_events_is_found(
    data_dir: Seq<char>,
    database_tokens: Seq<Seq<char>>,
    files: Seq<EventFileModel>,
    log_path: Seq<char>,
    log: LegacyLog,
    faults: Map<Seq<char>, Seq<char>>,
    sources: Seq<SourceModel>,
    path: Seq<char>,
)
    requires
        discovered(data_dir, database_tokens, files, log_path, log, faults, sources) is Ok,
    ensures
        discovered(
            data_dir,
            database_tokens,
            files,
            log_path,
            log,
            faults,
            sources,
        )->Ok_0.parquet_files.contains(path) <==> exists|j: int|
            0 <= j < files.len() && (#[trigger] files[j]).path == path && extension_is(
                files[j].name,
                "parquet"@,
            ),
{
    let start = FoundEvents {
        tokens: texts_added(Seq::empty(), database_tokens),
        files: Seq::<Seq<char>>::empty(),
    };
    let found = steps(start, files, parquet_step())->Ok_0;
    lemma_files_found(start, files, 0, path, path);
    lemma_sorted(found.files, path_order(), path);
    if exists|j: int|
        0 <= j < files.len() && (#[trigger] files[j]).path == path && extension_is(
            files[j].name,
            "parquet"@,
        ) {
        let j = choose|j: int|
            0 <= j < files.len() && (#[trigger] files[j]).path == path && extension_is(
                files[j].name,
                "parquet"@,
            );
        lemma_files_found(start, files, j, path, path);
    }
}

/// A store in which a file of events or a segment of the log cannot be read, or that holds a faulty token, is
/// refused.
pub proof fn law_unreadable_stores_are_refused(
    data_dir: Seq<char>,
    database_tokens: Seq<Seq<char>>,
    files: Seq<EventFileModel>,
    log_path: Seq<char>,
    log: LegacyLog,
    faults: Map<Seq<char>, Seq<char>>,
    sources: Seq<SourceModel>,
    i: int,
    token: Seq<char>,
)
    requires
        0 <= i < files.len() && extension_is(files[i].name, "parquet"@) && files[i].tokens is Err || log
            is NotADirectory || log is Entries && 0 <= i < log->Entries_0@.len()
            && log->Entries_0@[i].is_file && extension_is(log->Entries_0@[i].name@, "wal"@) && (
        !log->Entries_0@[i].is_segment_name || log->Entries_0@[i].tokens is Err)
            || database_tokens.contains(token) && faults.contains_key(token),
    ensures
        discovered(data_dir, database_tokens, files, log_path, log, faults, sources) is Err,
{
    let start = FoundEvents {
        tokens: texts_added(Seq::empty(), database_tokens),
        files: Seq::<Seq<char>>::empty(),
    };
    lemma_files_found(start, files, i, Seq::empty(), token);
    if discovered(data_dir, database_tokens, files, log_path, log, faults, sources) is Ok {
        let found = steps(start, files, parquet_step())->Ok_0;
        if log is Entries && 0 <= i < log->Entries_0@.len() && log->Entries_0@[i].is_file && extension_is(
            log->Entries_0@[i].name@,
            "wal"@,
        ) && (!log->Entries_0@[i].is_segment_name || log->Entries_0@[i].tokens is Err) {
            let entries = views(log->Entries_0@);
            let entry = entries[i];
            assert(entries.contains(entry));
            let k = lemma_place(entries, segment_file_order(), entry);
            lemma_log_read(found.tokens, sorted(entries, segment_file_order()), k);
        } else if database_tokens.contains(token) && faults.contains_key(token) {
            law_every_token_is_discovered(
                data_dir,
                database_tokens,
                files,
                log_path,
                log,
                faults,
                sources,
                token,
            );
            let tokens = log_tokens(log_path, log, found.tokens)->Ok_0;
            let t = choose|t: int| 0 <= t < tokens.len() && tokens[t] == token;
            lemma_faulty_token(data_dir, tokens, faults, t);
        }
    }
}

} // verus!
