//! What importing the resources of an earlier installation takes over, and that importing them once more finds
//! everything in place.
use vstd::prelude::*;

use crate::control::access::{token_is, ProjectRowModel};
use crate::control_resources::{
    dashboard_at, dashboard_imported, flag_at, flag_fault, flag_imported, imported_query, insight_at,
    insight_imported, insights_known, project_known, required_fault, resource_name_fault, share_at,
    share_imported, target_known, tiles_fault, tiles_on, tiles_replaced, token_elsewhere,
    DashboardEntryModel, FlagEntryModel, ImportedFlagModel, InsightEntryModel, InsightModel,
    QueryModel, ResourceModel, ShareEntryModel, ShareLinkModel, TileEntryModel, TileInputModel,
    MAX_NAME_BYTES,
};
use crate::legacy_resources::{
    dashboard_run, flag_run, insight_run, project_of_token, resources_imported,
    share_run, DashboardDataModel, LegacyDashboardModel, LegacyFlagModel, LegacyInsightModel,
    LegacyShareModel, ResourceImportFault,
};
use crate::rows::{
    found, index_of, lemma_index_is, lemma_index_of, lemma_put_again, lemma_put_other, lemma_put_own, lemma_put_rows,
    lemma_removed, lemma_removed_concat, lemma_removed_none, put, removed, runs,
};

verus! {

// ── Keys ──────────────────────────────────────────────────────────────────────

/// Whether every project has an id of its own.
pub open spec fn projects_keyed(projects: Seq<ProjectRowModel>) -> bool {
    forall|i: int, j: int|
        0 <= i < j < projects.len() ==> (#[trigger] projects[i]).id != (#[trigger] projects[j]).id
}

/// Whether flags are keyed by token and key, as their table is.
pub open spec fn flags_keyed(rows: Seq<LegacyFlagModel>) -> bool {
    forall|i: int, j: int|
        0 <= i < j < rows.len() ==> (#[trigger] rows[i]).token != (#[trigger] rows[j]).token
            || rows[i].flag.key != rows[j].flag.key
}

/// Whether insights are keyed by id, as their table is.
pub open spec fn insights_keyed(rows: Seq<LegacyInsightModel>) -> bool {
    forall|i: int, j: int|
        0 <= i < j < rows.len() ==> (#[trigger] rows[i]).insight.id != (
        #[trigger] rows[j]).insight.id
}

/// Whether dashboards are keyed by id, as their table is.
pub open spec fn dashboards_keyed(rows: Seq<LegacyDashboardModel>) -> bool {
    forall|i: int, j: int|
        0 <= i < j < rows.len() ==> (#[trigger] rows[i]).dashboard.id != (
        #[trigger] rows[j]).dashboard.id
}

/// Whether share links are keyed by id, as their table is.
pub open spec fn shares_keyed(rows: Seq<LegacyShareModel>) -> bool {
    forall|i: int, j: int|
        0 <= i < j < rows.len() ==> (#[trigger] rows[i]).share.id != (#[trigger] rows[j]).share.id
}

/// The project of a token that has one.
spec fn home(projects: Seq<ProjectRowModel>, path: Seq<char>, token: Seq<char>) -> Seq<char> {
    project_of_token(projects, path, token)->Ok_0
}

proof fn lemma_homes_differ(
    projects: Seq<ProjectRowModel>,
    path: Seq<char>,
    a: Seq<char>,
    b: Seq<char>,
)
    requires
        projects_keyed(projects),
        a != b,
        project_of_token(projects, path, a) is Ok,
        project_of_token(projects, path, b) is Ok,
    ensures
        home(projects, path, a) != home(projects, path, b),
{
    lemma_index_of(projects, token_is(a));
    lemma_index_of(projects, token_is(b));
}

// ── Flags ─────────────────────────────────────────────────────────────────────

spec fn flag_entry(project: Seq<char>, row: LegacyFlagModel) -> FlagEntryModel {
    FlagEntryModel { project_id: project, flag: row.flag, created_at: 0, updated_at: 0 }
}

/// Whether a flag is in place.
spec fn flag_taken(
    flags: Seq<FlagEntryModel>,
    projects: Seq<ProjectRowModel>,
    path: Seq<char>,
    row: LegacyFlagModel,
) -> bool {
    let project = home(projects, path, row.token);
    &&& project_of_token(projects, path, row.token) is Ok
    &&& project_known(projects, project)
    &&& flag_fault(row.flag) is None
    &&& found(flags, flag_at(project, row.flag.key)) == Some(flag_entry(project, row))
}

proof fn lemma_flags_taken(
    m: ResourceModel,
    projects: Seq<ProjectRowModel>,
    path: Seq<char>,
    rows: Seq<LegacyFlagModel>,
)
    requires
        projects_keyed(projects),
        flags_keyed(rows),
        runs(m, rows, flag_run(projects, path)).1 is None,
    ensures
        ({
            let after = runs(m, rows, flag_run(projects, path)).0;
            &&& after == (ResourceModel { flags: after.flags, ..m })
            &&& forall|k: int|
                0 <= k < rows.len() ==> flag_taken(after.flags, projects, path, #[trigger] rows[k])
        }),
    decreases rows.len(),
{
    if rows.len() > 0 {
        let rest = rows.drop_last();
        let row = rows.last();
        assert forall|i: int, j: int| 0 <= i < j < rest.len() implies (#[trigger] rest[i]).token != (
        #[trigger] rest[j]).token || rest[i].flag.key != rest[j].flag.key by {
            assert(rows[i] == rest[i] && rows[j] == rest[j]);
        }
        lemma_flags_taken(m, projects, path, rest);
        let before = runs(m, rest, flag_run(projects, path)).0;
        let project = home(projects, path, row.token);
        let entry = flag_entry(project, row);
        let p = flag_at(project, row.flag.key);
        let imported = ImportedFlagModel { flag: row.flag, created_at: 0, updated_at: 0 };
        let (next, r) = flag_imported(before, project_known(projects, project), project, imported);
        assert(r is Ok);
        assert(next.flags == put(before.flags, p, entry));
        lemma_put_own(before.flags, p, entry);
        assert forall|k: int| 0 <= k < rows.len() implies flag_taken(
            next.flags,
            projects,
            path,
            #[trigger] rows[k],
        ) by {
            if k < rest.len() {
                let other = rest[k];
                assert(rows[k] == other);
                assert(flag_taken(before.flags, projects, path, other));
                let theirs = home(projects, path, other.token);
                if other.token != row.token {
                    lemma_homes_differ(projects, path, other.token, row.token);
                }
                lemma_put_other(before.flags, p, entry, flag_at(theirs, other.flag.key));
            }
        }
    }
}

proof fn lemma_flags_again(
    m: ResourceModel,
    projects: Seq<ProjectRowModel>,
    path: Seq<char>,
    rows: Seq<LegacyFlagModel>,
)
    requires
        forall|k: int|
            0 <= k < rows.len() ==> flag_taken(m.flags, projects, path, #[trigger] rows[k]),
    ensures
        runs(m, rows, flag_run(projects, path)) == (m, None::<ResourceImportFault>),
    decreases rows.len(),
{
    if rows.len() > 0 {
        let rest = rows.drop_last();
        let row = rows.last();
        assert forall|k: int| 0 <= k < rest.len() implies flag_taken(
            m.flags,
            projects,
            path,
            #[trigger] rest[k],
        ) by {
            assert(rows[k] == rest[k]);
        }
        lemma_flags_again(m, projects, path, rest);
        assert(rows[rows.len() - 1] == row);
        let project = home(projects, path, row.token);
        lemma_put_again(m.flags, flag_at(project, row.flag.key), flag_entry(project, row));
    }
}

// ── Insights ──────────────────────────────────────────────────────────────────

spec fn insight_entry(project: Seq<char>, row: LegacyInsightModel) -> InsightEntryModel {
    let (query_ir, query_supported) = imported_query(row.verdict)->Ok_0;
    InsightEntryModel {
        insight: InsightModel {
            id: row.insight.id,
            project_id: project,
            name: row.insight.name,
            description: row.insight.description,
            query_ir,
            created_by: row.insight.created_by,
            created_at: row.insight.created_at,
            updated_at: row.insight.updated_at,
        },
        query_supported,
    }
}

/// Whether an insight is in place.
spec fn insight_taken(
    insights: Seq<InsightEntryModel>,
    projects: Seq<ProjectRowModel>,
    path: Seq<char>,
    row: LegacyInsightModel,
) -> bool {
    let project = home(projects, path, row.token);
    &&& project_of_token(projects, path, row.token) is Ok
    &&& project_known(projects, project)
    &&& required_fault("id"@, row.insight.id, MAX_NAME_BYTES as int) is None
    &&& resource_name_fault(row.insight.name) is None
    &&& required_fault("created_by"@, row.insight.created_by, MAX_NAME_BYTES as int) is None
    &&& imported_query(row.verdict) is Ok
    &&& found(insights, insight_at(project, row.insight.id)) == Some(insight_entry(project, row))
}

proof fn lemma_insights_taken(
    m: ResourceModel,
    projects: Seq<ProjectRowModel>,
    path: Seq<char>,
    rows: Seq<LegacyInsightModel>,
)
    requires
        insights_keyed(rows),
        runs(m, rows, insight_run(projects, path)).1 is None,
    ensures
        ({
            let after = runs(m, rows, insight_run(projects, path)).0;
            &&& after == (ResourceModel { insights: after.insights, ..m })
            &&& forall|k: int|
                0 <= k < rows.len() ==> insight_taken(
                    after.insights,
                    projects,
                    path,
                    #[trigger] rows[k],
                )
        }),
    decreases rows.len(),
{
    if rows.len() > 0 {
        let rest = rows.drop_last();
        let row = rows.last();
        assert forall|i: int, j: int| 0 <= i < j < rest.len() implies (
        #[trigger] rest[i]).insight.id != (#[trigger] rest[j]).insight.id by {
            assert(rows[i] == rest[i] && rows[j] == rest[j]);
        }
        lemma_insights_taken(m, projects, path, rest);
        let before = runs(m, rest, insight_run(projects, path)).0;
        let project = home(projects, path, row.token);
        let entry = insight_entry(project, row);
        let p = insight_at(project, row.insight.id);
        let (next, r) = insight_imported(
            before,
            project_known(projects, project),
            project,
            row.insight,
            row.verdict,
        );
        assert(r is Ok);
        assert(next.insights == put(before.insights, p, entry));
        lemma_put_own(before.insights, p, entry);
        assert forall|k: int| 0 <= k < rows.len() implies insight_taken(
            next.insights,
            projects,
            path,
            #[trigger] rows[k],
        ) by {
            if k < rest.len() {
                let other = rest[k];
                assert(rows[k] == other);
                assert(insight_taken(before.insights, projects, path, other));
                let theirs = home(projects, path, other.token);
                lemma_put_other(before.insights, p, entry, insight_at(theirs, other.insight.id));
            }
        }
    }
}

proof fn lemma_insights_again(
    m: ResourceModel,
    projects: Seq<ProjectRowModel>,
    path: Seq<char>,
    rows: Seq<LegacyInsightModel>,
)
    requires
        forall|k: int|
            0 <= k < rows.len() ==> insight_taken(m.insights, projects, path, #[trigger] rows[k]),
    ensures
        runs(m, rows, insight_run(projects, path)) == (m, None::<ResourceImportFault>),
    decreases rows.len(),
{
    if rows.len() > 0 {
        let rest = rows.drop_last();
        let row = rows.last();
        assert forall|k: int| 0 <= k < rest.len() implies insight_taken(
            m.insights,
            projects,
            path,
            #[trigger] rest[k],
        ) by {
            assert(rows[k] == rest[k]);
        }
        lemma_insights_again(m, projects, path, rest);
        assert(rows[rows.len() - 1] == row);
        let project = home(projects, path, row.token);
        lemma_put_again(
            m.insights,
            insight_at(project, row.insight.id),
            insight_entry(project, row),
        );
    }
}

// ── Dashboards ────────────────────────────────────────────────────────────────

spec fn dashboard_entry(project: Seq<char>, row: LegacyDashboardModel) -> DashboardEntryModel {
    DashboardEntryModel {
        project_id: project,
        id: row.dashboard.id,
        name: row.dashboard.name,
        created_by: row.dashboard.created_by,
        created_at: row.dashboard.created_at,
        updated_at: row.dashboard.updated_at,
    }
}

/// Whether a dashboard is in place, but for its tiles.
spec fn dashboard_taken(
    m: ResourceModel,
    projects: Seq<ProjectRowModel>,
    path: Seq<char>,
    row: LegacyDashboardModel,
) -> bool {
    let project = home(projects, path, row.token);
    &&& project_of_token(projects, path, row.token) is Ok
    &&& project_known(projects, project)
    &&& required_fault("id"@, row.dashboard.id, MAX_NAME_BYTES as int) is None
    &&& resource_name_fault(row.dashboard.name) is None
    &&& required_fault("created_by"@, row.dashboard.created_by, MAX_NAME_BYTES as int) is None
    &&& tiles_fault(row.dashboard.tiles) is None
    &&& insights_known(m, project, row.dashboard.tiles)
    &&& found(m.dashboards, dashboard_at(project, row.dashboard.id)) == Some(
        dashboard_entry(project, row),
    )
}

/// The tiles of a dashboard as they are stored.
spec fn tile_block(
    project: Seq<char>,
    dashboard: Seq<char>,
    tiles: Seq<TileInputModel>,
) -> Seq<TileEntryModel> {
    Seq::new(
        tiles.len(),
        |i: int|
            TileEntryModel {
                project_id: project,
                dashboard_id: dashboard,
                position: i as usize,
                tile: tiles[i],
            },
    )
}

/// The tiles on none of the dashboards.
spec fn kept(
    tiles: Seq<TileEntryModel>,
    projects: Seq<ProjectRowModel>,
    path: Seq<char>,
    rows: Seq<LegacyDashboardModel>,
) -> Seq<TileEntryModel>
    decreases rows.len(),
{
    if rows.len() == 0 {
        tiles
    } else {
        removed(
            kept(tiles, projects, path, rows.drop_last()),
            tiles_on(home(projects, path, rows.last().token), rows.last().dashboard.id),
        )
    }
}

/// The tiles of the dashboards, in order.
spec fn blocks(
    projects: Seq<ProjectRowModel>,
    path: Seq<char>,
    rows: Seq<LegacyDashboardModel>,
) -> Seq<TileEntryModel>
    decreases rows.len(),
{
    if rows.len() == 0 {
        Seq::empty()
    } else {
        blocks(projects, path, rows.drop_last()) + tile_block(
            home(projects, path, rows.last().token),
            rows.last().dashboard.id,
            rows.last().dashboard.tiles,
        )
    }
}

/// Whether a tile is on one of the dashboards.
spec fn on_some(
    projects: Seq<ProjectRowModel>,
    path: Seq<char>,
    rows: Seq<LegacyDashboardModel>,
    tile: TileEntryModel,
) -> bool {
    exists|k: int|
        0 <= k < rows.len() && tile.project_id == home(projects, path, (#[trigger] rows[k]).token)
            && tile.dashboard_id == rows[k].dashboard.id
}

proof fn lemma_on_some(
    projects: Seq<ProjectRowModel>,
    path: Seq<char>,
    rows: Seq<LegacyDashboardModel>,
    tile: TileEntryModel,
)
    requires
        rows.len() > 0,
    ensures
        on_some(projects, path, rows, tile) <==> on_some(projects, path, rows.drop_last(), tile) || (
        tile.project_id == home(projects, path, rows.last().token) && tile.dashboard_id
            == rows.last().dashboard.id),
{
    let rest = rows.drop_last();
    if on_some(projects, path, rest, tile) {
        let k = choose|k: int|
            0 <= k < rest.len() && tile.project_id == home(
                projects,
                path,
                (#[trigger] rest[k]).token,
            ) && tile.dashboard_id == rest[k].dashboard.id;
        assert(rows[k] == rest[k]);
    }
    if on_some(projects, path, rows, tile) {
        let k = choose|k: int|
            0 <= k < rows.len() && tile.project_id == home(
                projects,
                path,
                (#[trigger] rows[k]).token,
            ) && tile.dashboard_id == rows[k].dashboard.id;
        if k < rest.len() {
            assert(rest[k] == rows[k]);
        }
    }
    assert(rows[rows.len() - 1] == rows.last());
}

proof fn lemma_kept(
    tiles: Seq<TileEntryModel>,
    projects: Seq<ProjectRowModel>,
    path: Seq<char>,
    rows: Seq<LegacyDashboardModel>,
    tile: TileEntryModel,
)
    ensures
        kept(tiles, projects, path, rows).contains(tile) <==> tiles.contains(tile) && !on_some(
            projects,
            path,
            rows,
            tile,
        ),
    decreases rows.len(),
{
    if rows.len() > 0 {
        let rest = rows.drop_last();
        lemma_kept(tiles, projects, path, rest, tile);
        lemma_on_some(projects, path, rows, tile);
        lemma_removed(
            kept(tiles, projects, path, rest),
            tiles_on(home(projects, path, rows.last().token), rows.last().dashboard.id),
            tile,
        );
    }
}

proof fn lemma_blocks(
    projects: Seq<ProjectRowModel>,
    path: Seq<char>,
    rows: Seq<LegacyDashboardModel>,
    tile: TileEntryModel,
)
    requires
        blocks(projects, path, rows).contains(tile),
    ensures
        on_some(projects, path, rows, tile),
    decreases rows.len(),
{
    if rows.len() > 0 {
        let rest = rows.drop_last();
        let all = blocks(projects, path, rows);
        let before = blocks(projects, path, rest);
        let i = choose|i: int| 0 <= i < all.len() && all[i] == tile;
        lemma_on_some(projects, path, rows, tile);
        if i < before.len() {
            assert(before[i] == tile);
            lemma_blocks(projects, path, rest, tile);
        }
    }
}

proof fn lemma_kept_concat(
    a: Seq<TileEntryModel>,
    b: Seq<TileEntryModel>,
    projects: Seq<ProjectRowModel>,
    path: Seq<char>,
    rows: Seq<LegacyDashboardModel>,
)
    ensures
        kept(a + b, projects, path, rows) == kept(a, projects, path, rows) + kept(
            b,
            projects,
            path,
            rows,
        ),
    decreases rows.len(),
{
    if rows.len() > 0 {
        let rest = rows.drop_last();
        lemma_kept_concat(a, b, projects, path, rest);
        lemma_removed_concat(
            kept(a, projects, path, rest),
            kept(b, projects, path, rest),
            tiles_on(home(projects, path, rows.last().token), rows.last().dashboard.id),
        );
    }
}

proof fn lemma_kept_whole(
    tiles: Seq<TileEntryModel>,
    projects: Seq<ProjectRowModel>,
    path: Seq<char>,
    rows: Seq<LegacyDashboardModel>,
)
    requires
        forall|tile: TileEntryModel| #[trigger]
            tiles.contains(tile) ==> !on_some(projects, path, rows, tile),
    ensures
        kept(tiles, projects, path, rows) == tiles,
    decreases rows.len(),
{
    if rows.len() > 0 {
        let rest = rows.drop_last();
        let p = tiles_on(home(projects, path, rows.last().token), rows.last().dashboard.id);
        assert forall|tile: TileEntryModel| #[trigger] tiles.contains(tile) implies !on_some(
            projects,
            path,
            rest,
            tile,
        ) && !p(tile) by {
            lemma_on_some(projects, path, rows, tile);
        }
        lemma_kept_whole(tiles, projects, path, rest);
        lemma_removed_none(tiles, p);
    }
}

/// Setting aside the tiles of dashboards that are in place, and putting them back, changes nothing.
proof fn lemma_tiles_again(
    tiles: Seq<TileEntryModel>,
    projects: Seq<ProjectRowModel>,
    path: Seq<char>,
    rows: Seq<LegacyDashboardModel>,
)
    ensures
        ({
            let placed = kept(tiles, projects, path, rows) + blocks(projects, path, rows);
            kept(placed, projects, path, rows) + blocks(projects, path, rows) == placed
        }),
{
    let old_ones = kept(tiles, projects, path, rows);
    let new_ones = blocks(projects, path, rows);
    lemma_kept_concat(old_ones, new_ones, projects, path, rows);
    assert forall|tile: TileEntryModel| #[trigger] old_ones.contains(tile) implies !on_some(
        projects,
        path,
        rows,
        tile,
    ) by {
        lemma_kept(tiles, projects, path, rows, tile);
    }
    lemma_kept_whole(old_ones, projects, path, rows);
    let left = kept(new_ones, projects, path, rows);
    if left.len() > 0 {
        assert(left.contains(left[0]));
        lemma_kept(new_ones, projects, path, rows, left[0]);
        lemma_blocks(projects, path, rows, left[0]);
    }
    assert(left =~= Seq::<TileEntryModel>::empty());
    assert(old_ones + left =~= old_ones);
}

/// The tiles after one more dashboard.
proof fn lemma_one_more_block(
    tiles: Seq<TileEntryModel>,
    projects: Seq<ProjectRowModel>,
    path: Seq<char>,
    rows: Seq<LegacyDashboardModel>,
)
    requires
        rows.len() > 0,
        dashboards_keyed(rows),
    ensures
        tiles_replaced(
            kept(tiles, projects, path, rows.drop_last()) + blocks(
                projects,
                path,
                rows.drop_last(),
            ),
            home(projects, path, rows.last().token),
            rows.last().dashboard.id,
            rows.last().dashboard.tiles,
        ) == kept(tiles, projects, path, rows) + blocks(projects, path, rows),
{
    let rest = rows.drop_last();
    let row = rows.last();
    let project = home(projects, path, row.token);
    let p = tiles_on(project, row.dashboard.id);
    let old_ones = kept(tiles, projects, path, rest);
    let new_ones = blocks(projects, path, rest);
    lemma_removed_concat(old_ones, new_ones, p);
    assert forall|tile: TileEntryModel| #[trigger] new_ones.contains(tile) implies !p(tile) by {
        lemma_blocks(projects, path, rest, tile);
        let k = choose|k: int|
            0 <= k < rest.len() && tile.project_id == home(
                projects,
                path,
                (#[trigger] rest[k]).token,
            ) && tile.dashboard_id == rest[k].dashboard.id;
        assert(rows[k] == rest[k]);
        assert(rows[k].dashboard.id != rows[rows.len() - 1].dashboard.id);
    }
    lemma_removed_none(new_ones, p);
    let block = tile_block(project, row.dashboard.id, row.dashboard.tiles);
    assert(tiles_replaced(
        old_ones + new_ones,
        project,
        row.dashboard.id,
        row.dashboard.tiles,
    ) =~= removed(old_ones, p) + (new_ones + block));
}

proof fn lemma_dashboards_taken(
    m: ResourceModel,
    projects: Seq<ProjectRowModel>,
    path: Seq<char>,
    rows: Seq<LegacyDashboardModel>,
)
    requires
        dashboards_keyed(rows),
        runs(m, rows, dashboard_run(projects, path)).1 is None,
    ensures
        ({
            let after = runs(m, rows, dashboard_run(projects, path)).0;
            &&& after == (ResourceModel {
                dashboards: after.dashboards,
                tiles: kept(m.tiles, projects, path, rows) + blocks(projects, path, rows),
                ..m
            })
            &&& forall|k: int|
                0 <= k < rows.len() ==> dashboard_taken(after, projects, path, #[trigger] rows[k])
        }),
    decreases rows.len(),
{
    if rows.len() == 0 {
        assert(m.tiles + Seq::<TileEntryModel>::empty() =~= m.tiles);
    } else {
        let rest = rows.drop_last();
        let row = rows.last();
        assert forall|i: int, j: int| 0 <= i < j < rest.len() implies (
        #[trigger] rest[i]).dashboard.id != (#[trigger] rest[j]).dashboard.id by {
            assert(rows[i] == rest[i] && rows[j] == rest[j]);
        }
        lemma_dashboards_taken(m, projects, path, rest);
        let before = runs(m, rest, dashboard_run(projects, path)).0;
        let project = home(projects, path, row.token);
        let entry = dashboard_entry(project, row);
        let p = dashboard_at(project, row.dashboard.id);
        let (next, r) = dashboard_imported(
            before,
            project_known(projects, project),
            project,
            row.dashboard,
        );
        assert(r is Ok);
        assert(next.dashboards == put(before.dashboards, p, entry));
        lemma_put_own(before.dashboards, p, entry);
        lemma_one_more_block(m.tiles, projects, path, rows);
        assert forall|k: int| 0 <= k < rows.len() implies dashboard_taken(
            next,
            projects,
            path,
            #[trigger] rows[k],
        ) by {
            if k < rest.len() {
                let other = rest[k];
                assert(rows[k] == other);
                assert(dashboard_taken(before, projects, path, other));
                let theirs = home(projects, path, other.token);
                lemma_put_other(
                    before.dashboards,
                    p,
                    entry,
                    dashboard_at(theirs, other.dashboard.id),
                );
            }
        }
    }
}

proof fn lemma_dashboards_again(
    m: ResourceModel,
    projects: Seq<ProjectRowModel>,
    path: Seq<char>,
    rows: Seq<LegacyDashboardModel>,
)
    requires
        dashboards_keyed(rows),
        forall|k: int|
            0 <= k < rows.len() ==> dashboard_taken(m, projects, path, #[trigger] rows[k]),
    ensures
        runs(m, rows, dashboard_run(projects, path)) == (
            ResourceModel {
                tiles: kept(m.tiles, projects, path, rows) + blocks(projects, path, rows),
                ..m
            },
            None::<ResourceImportFault>,
        ),
    decreases rows.len(),
{
    if rows.len() == 0 {
        assert(m.tiles + Seq::<TileEntryModel>::empty() =~= m.tiles);
    } else {
        let rest = rows.drop_last();
        let row = rows.last();
        assert forall|i: int, j: int| 0 <= i < j < rest.len() implies (
        #[trigger] rest[i]).dashboard.id != (#[trigger] rest[j]).dashboard.id by {
            assert(rows[i] == rest[i] && rows[j] == rest[j]);
        }
        assert forall|k: int| 0 <= k < rest.len() implies dashboard_taken(
            m,
            projects,
            path,
            #[trigger] rest[k],
        ) by {
            assert(rows[k] == rest[k]);
        }
        lemma_dashboards_again(m, projects, path, rest);
        let before = runs(m, rest, dashboard_run(projects, path)).0;
        assert(rows[rows.len() - 1] == row);
        let project = home(projects, path, row.token);
        let entry = dashboard_entry(project, row);
        let p = dashboard_at(project, row.dashboard.id);
        lemma_put_again(m.dashboards, p, entry);
        lemma_one_more_block(m.tiles, projects, path, rows);
        assert(dashboard_taken(m, projects, path, row));
        assert(insights_known(before, project, row.dashboard.tiles));
        let (next, r) = dashboard_imported(
            before,
            project_known(projects, project),
            project,
            row.dashboard,
        );
        assert(next.dashboards == put(before.dashboards, p, entry));
        assert(r is Ok);
    }
}

// ── Share links ───────────────────────────────────────────────────────────────

spec fn share_entry(project: Seq<char>, row: LegacyShareModel) -> ShareEntryModel {
    ShareEntryModel {
        link: ShareLinkModel {
            id: row.share.id,
            project_id: project,
            object_type: row.share.target,
            object_id: row.share.object_id,
            token: row.share.token,
            created_at: row.share.created_at,
            expires_at: row.share.expires_at,
        },
        created_by: row.share.created_by,
    }
}

/// Whether a share link is in place.
spec fn share_taken(
    m: ResourceModel,
    projects: Seq<ProjectRowModel>,
    path: Seq<char>,
    row: LegacyShareModel,
) -> bool {
    let project = home(projects, path, row.project_token);
    &&& project_of_token(projects, path, row.project_token) is Ok
    &&& required_fault("id"@, row.share.id, MAX_NAME_BYTES as int) is None
    &&& required_fault("token"@, row.share.token, MAX_NAME_BYTES as int) is None
    &&& required_fault("object_id"@, row.share.object_id, MAX_NAME_BYTES as int) is None
    &&& required_fault("created_by"@, row.share.created_by, MAX_NAME_BYTES as int) is None
    &&& target_known(m, project, row.share.target, row.share.object_id)
    &&& !token_elsewhere(m, project, row.share.id, row.share.token)
    &&& found(m.shares, share_at(project, row.share.id)) == Some(share_entry(project, row))
}

proof fn lemma_shares_taken(
    m: ResourceModel,
    projects: Seq<ProjectRowModel>,
    path: Seq<char>,
    rows: Seq<LegacyShareModel>,
)
    requires
        shares_keyed(rows),
        runs(m, rows, share_run(projects, path)).1 is None,
    ensures
        ({
            let after = runs(m, rows, share_run(projects, path)).0;
            &&& after == (ResourceModel { shares: after.shares, ..m })
            &&& forall|k: int|
                0 <= k < rows.len() ==> share_taken(after, projects, path, #[trigger] rows[k])
        }),
    decreases rows.len(),
{
    if rows.len() > 0 {
        let rest = rows.drop_last();
        let row = rows.last();
        assert forall|i: int, j: int| 0 <= i < j < rest.len() implies (
        #[trigger] rest[i]).share.id != (#[trigger] rest[j]).share.id by {
            assert(rows[i] == rest[i] && rows[j] == rest[j]);
        }
        lemma_shares_taken(m, projects, path, rest);
        let before = runs(m, rest, share_run(projects, path)).0;
        let project = home(projects, path, row.project_token);
        let entry = share_entry(project, row);
        let p = share_at(project, row.share.id);
        let (next, r) = share_imported(before, project, row.share);
        assert(r is Ok);
        assert(next.shares == put(before.shares, p, entry));
        lemma_put_own(before.shares, p, entry);
        if token_elsewhere(next, project, row.share.id, row.share.token) {
            let i = choose|i: int|
                0 <= i < next.shares.len() && (#[trigger] next.shares[i]).link.token
                    == row.share.token && !(next.shares[i].link.project_id == project
                    && next.shares[i].link.id == row.share.id);
            lemma_put_rows(before.shares, p, entry, i);
            assert(before.shares[i] == next.shares[i]);
            assert(token_elsewhere(before, project, row.share.id, row.share.token));
        }
        assert forall|k: int| 0 <= k < rows.len() implies share_taken(
            next,
            projects,
            path,
            #[trigger] rows[k],
        ) by {
            if k < rest.len() {
                let other = rest[k];
                assert(rows[k] == other);
                assert(rows[k].share.id != rows[rows.len() - 1].share.id);
                assert(share_taken(before, projects, path, other));
                let theirs = home(projects, path, other.project_token);
                let q = share_at(theirs, other.share.id);
                lemma_put_other(before.shares, p, entry, q);
                lemma_index_of(before.shares, q);
                if row.share.token == other.share.token {
                    let at = index_of(before.shares, q)->Some_0;
                    assert(before.shares[at].link.token == row.share.token);
                    assert(token_elsewhere(before, project, row.share.id, row.share.token));
                }
                if token_elsewhere(next, theirs, other.share.id, other.share.token) {
                    let i = choose|i: int|
                        0 <= i < next.shares.len() && (#[trigger] next.shares[i]).link.token
                            == other.share.token && !(next.shares[i].link.project_id == theirs
                            && next.shares[i].link.id == other.share.id);
                    lemma_put_rows(before.shares, p, entry, i);
                    assert(before.shares[i] == next.shares[i]);
                    assert(token_elsewhere(before, theirs, other.share.id, other.share.token));
                }
            }
        }
    }
}

proof fn lemma_shares_again(
    m: ResourceModel,
    projects: Seq<ProjectRowModel>,
    path: Seq<char>,
    rows: Seq<LegacyShareModel>,
)
    requires
        forall|k: int| 0 <= k < rows.len() ==> share_taken(m, projects, path, #[trigger] rows[k]),
    ensures
        runs(m, rows, share_run(projects, path)) == (m, None::<ResourceImportFault>),
    decreases rows.len(),
{
    if rows.len() > 0 {
        let rest = rows.drop_last();
        let row = rows.last();
        assert forall|k: int| 0 <= k < rest.len() implies share_taken(
            m,
            projects,
            path,
            #[trigger] rest[k],
        ) by {
            assert(rows[k] == rest[k]);
        }
        lemma_shares_again(m, projects, path, rest);
        assert(rows[rows.len() - 1] == row);
        let project = home(projects, path, row.project_token);
        lemma_put_again(m.shares, share_at(project, row.share.id), share_entry(project, row));
    }
}

// ── The whole import ──────────────────────────────────────────────────────────

/// An import that is run again finds everything in place: where the first run took everything over, the second
/// does so too, with the same report, and leaves every stored resource as it is. The rows are keyed as the
/// tables that they come from are.
pub proof fn law_importing_again_changes_nothing(
    m: ResourceModel,
    projects: Seq<ProjectRowModel>,
    flags_path: Seq<char>,
    dashboards_path: Seq<char>,
    flags: Seq<LegacyFlagModel>,
    data: DashboardDataModel,
)
    requires
        projects_keyed(projects),
        flags_keyed(flags),
        insights_keyed(data.insights),
        dashboards_keyed(data.dashboards),
        shares_keyed(data.shares),
    ensures
        resources_imported(m, projects, flags_path, dashboards_path, flags, data) matches (
            after,
            None,
        ) ==> resources_imported(after, projects, flags_path, dashboards_path, flags, data) == (
            after,
            None::<ResourceImportFault>,
        ),
{
    if resources_imported(m, projects, flags_path, dashboards_path, flags, data).1 is None {
        let m1 = runs(m, flags, flag_run(projects, flags_path)).0;
        let m2 = runs(m1, data.insights, insight_run(projects, dashboards_path)).0;
        let m3 = runs(m2, data.dashboards, dashboard_run(projects, dashboards_path)).0;
        let m4 = runs(m3, data.shares, share_run(projects, dashboards_path)).0;
        lemma_flags_taken(m, projects, flags_path, flags);
        lemma_insights_taken(m1, projects, dashboards_path, data.insights);
        lemma_dashboards_taken(m2, projects, dashboards_path, data.dashboards);
        lemma_shares_taken(m3, projects, dashboards_path, data.shares);
        lemma_flags_again(m4, projects, flags_path, flags);
        lemma_insights_again(m4, projects, dashboards_path, data.insights);
        assert forall|k: int| 0 <= k < data.dashboards.len() implies dashboard_taken(
            m4,
            projects,
            dashboards_path,
            #[trigger] data.dashboards[k],
        ) by {
            assert(dashboard_taken(m3, projects, dashboards_path, data.dashboards[k]));
        }
        lemma_dashboards_again(m4, projects, dashboards_path, data.dashboards);
        lemma_tiles_again(m2.tiles, projects, dashboards_path, data.dashboards);
        lemma_shares_again(m4, projects, dashboards_path, data.shares);
    }
}

// ── What is taken over ────────────────────────────────────────────────────────

proof fn lemma_home(projects: Seq<ProjectRowModel>, path: Seq<char>, token: Seq<char>, i: int)
    requires
        0 <= i < projects.len(),
        projects[i].capture_token == token,
        forall|j: int| 0 <= j < i ==> (#[trigger] projects[j]).capture_token != token,
    ensures
        project_of_token(projects, path, token) == Ok::<Seq<char>, ResourceImportFault>(projects[i].id),
{
    lemma_index_is(projects, token_is(token), i);
}

proof fn lemma_found_in<V>(rows: Seq<V>, p: spec_fn(V) -> bool, row: V)
    requires
        found(rows, p) == Some(row),
    ensures
        rows.contains(row),
{
    lemma_index_of(rows, p);
}

/// A flag that is taken over is stored, as it was, in the project that its capture token belongs to.
pub proof fn law_flags_are_taken_over(
    m: ResourceModel,
    projects: Seq<ProjectRowModel>,
    flags_path: Seq<char>,
    dashboards_path: Seq<char>,
    flags: Seq<LegacyFlagModel>,
    data: DashboardDataModel,
    k: int,
    i: int,
)
    requires
        projects_keyed(projects),
        flags_keyed(flags),
        insights_keyed(data.insights),
        dashboards_keyed(data.dashboards),
        shares_keyed(data.shares),
        resources_imported(m, projects, flags_path, dashboards_path, flags, data).1 is None,
        0 <= k < flags.len(),
        0 <= i < projects.len(),
        projects[i].capture_token == flags[k].token,
        forall|j: int| 0 <= j < i ==> (#[trigger] projects[j]).capture_token != flags[k].token,
    ensures
        resources_imported(m, projects, flags_path, dashboards_path, flags, data).0.flags.contains(
            FlagEntryModel { project_id: projects[i].id, flag: flags[k].flag, created_at: 0, updated_at: 0 },
        ),
{
    let m1 = runs(m, flags, flag_run(projects, flags_path)).0;
    let m2 = runs(m1, data.insights, insight_run(projects, dashboards_path)).0;
    let m3 = runs(m2, data.dashboards, dashboard_run(projects, dashboards_path)).0;
    lemma_flags_taken(m, projects, flags_path, flags);
    lemma_insights_taken(m1, projects, dashboards_path, data.insights);
    lemma_dashboards_taken(m2, projects, dashboards_path, data.dashboards);
    lemma_shares_taken(m3, projects, dashboards_path, data.shares);
    assert(flag_taken(m1.flags, projects, flags_path, flags[k]));
    lemma_home(projects, flags_path, flags[k].token, i);
    lemma_found_in(
        m1.flags,
        flag_at(projects[i].id, flags[k].flag.key),
        flag_entry(projects[i].id, flags[k]),
    );
}

/// An insight that is taken over is stored in the project that its capture token belongs to, with its name, its
/// description, its query, who made it and when.
pub proof fn law_insights_are_taken_over(
    m: ResourceModel,
    projects: Seq<ProjectRowModel>,
    flags_path: Seq<char>,
    dashboards_path: Seq<char>,
    flags: Seq<LegacyFlagModel>,
    data: DashboardDataModel,
    k: int,
    i: int,
) -> (entry: InsightEntryModel)
    requires
        projects_keyed(projects),
        flags_keyed(flags),
        insights_keyed(data.insights),
        dashboards_keyed(data.dashboards),
        shares_keyed(data.shares),
        resources_imported(m, projects, flags_path, dashboards_path, flags, data).1 is None,
        0 <= k < data.insights.len(),
        0 <= i < projects.len(),
        projects[i].capture_token == data.insights[k].token,
        forall|j: int| 0 <= j < i ==> (#[trigger] projects[j]).capture_token != data.insights[k].token,
    ensures
        resources_imported(m, projects, flags_path, dashboards_path, flags, data).0.insights.contains(
            entry,
        ),
        entry.insight.project_id == projects[i].id,
        entry.insight.id == data.insights[k].insight.id,
        entry.insight.name == data.insights[k].insight.name,
        entry.insight.description == data.insights[k].insight.description,
        entry.insight.created_by == data.insights[k].insight.created_by,
        entry.insight.created_at == data.insights[k].insight.created_at,
        entry.insight.updated_at == data.insights[k].insight.updated_at,
        data.insights[k].verdict matches QueryModel::Supported(q) ==> entry.insight.query_ir == q
            && entry.query_supported,
        data.insights[k].verdict matches QueryModel::Unsupported(q, field, message)
            ==> entry.insight.query_ir == q && !entry.query_supported,
        !(data.insights[k].verdict is Invalid),
{
    let m1 = runs(m, flags, flag_run(projects, flags_path)).0;
    let m2 = runs(m1, data.insights, insight_run(projects, dashboards_path)).0;
    let m3 = runs(m2, data.dashboards, dashboard_run(projects, dashboards_path)).0;
    lemma_flags_taken(m, projects, flags_path, flags);
    lemma_insights_taken(m1, projects, dashboards_path, data.insights);
    lemma_dashboards_taken(m2, projects, dashboards_path, data.dashboards);
    lemma_shares_taken(m3, projects, dashboards_path, data.shares);
    let row = data.insights[k];
    assert(insight_taken(m2.insights, projects, dashboards_path, row));
    lemma_home(projects, dashboards_path, row.token, i);
    let entry = insight_entry(projects[i].id, row);
    lemma_found_in(m2.insights, insight_at(projects[i].id, row.insight.id), entry);
    entry
}

proof fn lemma_block_in(
    projects: Seq<ProjectRowModel>,
    path: Seq<char>,
    rows: Seq<LegacyDashboardModel>,
    k: int,
    t: int,
)
    requires
        0 <= k < rows.len(),
        0 <= t < rows[k].dashboard.tiles.len(),
    ensures
        blocks(projects, path, rows).contains(
            TileEntryModel {
                project_id: home(projects, path, rows[k].token),
                dashboard_id: rows[k].dashboard.id,
                position: t as usize,
                tile: rows[k].dashboard.tiles[t],
            },
        ),
    decreases rows.len(),
{
    let before = blocks(projects, path, rows.drop_last());
    let last = tile_block(
        home(projects, path, rows.last().token),
        rows.last().dashboard.id,
        rows.last().dashboard.tiles,
    );
    let tile = TileEntryModel {
        project_id: home(projects, path, rows[k].token),
        dashboard_id: rows[k].dashboard.id,
        position: t as usize,
        tile: rows[k].dashboard.tiles[t],
    };
    if k == rows.len() - 1 {
        assert((before + last)[before.len() + t] == tile);
    } else {
        lemma_block_in(projects, path, rows.drop_last(), k, t);
        let j = choose|j: int| 0 <= j < before.len() && before[j] == tile;
        assert((before + last)[j] == tile);
    }
}

/// A dashboard that is taken over is stored in the project that its capture token belongs to, with its name, its
/// dates and each of its tiles in its place.
pub proof fn law_dashboards_are_taken_over(
    m: ResourceModel,
    projects: Seq<ProjectRowModel>,
    flags_path: Seq<char>,
    dashboards_path: Seq<char>,
    flags: Seq<LegacyFlagModel>,
    data: DashboardDataModel,
    k: int,
    i: int,
    t: int,
)
    requires
        projects_keyed(projects),
        flags_keyed(flags),
        insights_keyed(data.insights),
        dashboards_keyed(data.dashboards),
        shares_keyed(data.shares),
        resources_imported(m, projects, flags_path, dashboards_path, flags, data).1 is None,
        0 <= k < data.dashboards.len(),
        0 <= i < projects.len(),
        projects[i].capture_token == data.dashboards[k].token,
        forall|j: int| 0 <= j < i ==> (#[trigger] projects[j]).capture_token != data.dashboards[k].token,
    ensures
        ({
            let (after, fault) = resources_imported(m, projects, flags_path, dashboards_path, flags, data);
            let row = data.dashboards[k].dashboard;
            &&& after.dashboards.contains(
                DashboardEntryModel {
                    project_id: projects[i].id,
                    id: row.id,
                    name: row.name,
                    created_by: row.created_by,
                    created_at: row.created_at,
                    updated_at: row.updated_at,
                },
            )
            &&& 0 <= t < row.tiles.len() ==> after.tiles.contains(
                TileEntryModel {
                    project_id: projects[i].id,
                    dashboard_id: row.id,
                    position: t as usize,
                    tile: row.tiles[t],
                },
            )
        }),
{
    let m1 = runs(m, flags, flag_run(projects, flags_path)).0;
    let m2 = runs(m1, data.insights, insight_run(projects, dashboards_path)).0;
    let m3 = runs(m2, data.dashboards, dashboard_run(projects, dashboards_path)).0;
    lemma_flags_taken(m, projects, flags_path, flags);
    lemma_insights_taken(m1, projects, dashboards_path, data.insights);
    lemma_dashboards_taken(m2, projects, dashboards_path, data.dashboards);
    lemma_shares_taken(m3, projects, dashboards_path, data.shares);
    let row = data.dashboards[k];
    assert(dashboard_taken(m3, projects, dashboards_path, row));
    lemma_home(projects, dashboards_path, row.token, i);
    lemma_found_in(
        m3.dashboards,
        dashboard_at(projects[i].id, row.dashboard.id),
        dashboard_entry(projects[i].id, row),
    );
    if 0 <= t < row.dashboard.tiles.len() {
        let kept_ones = kept(m2.tiles, projects, dashboards_path, data.dashboards);
        let new_ones = blocks(projects, dashboards_path, data.dashboards);
        let tile = TileEntryModel {
            project_id: projects[i].id,
            dashboard_id: row.dashboard.id,
            position: t as usize,
            tile: row.dashboard.tiles[t],
        };
        lemma_block_in(projects, dashboards_path, data.dashboards, k, t);
        let j = choose|j: int| 0 <= j < new_ones.len() && new_ones[j] == tile;
        assert((kept_ones + new_ones)[kept_ones.len() + j] == tile);
    }
}

/// A share link that is taken over opens the same thing, under the same token and for as long.
pub proof fn law_shares_are_taken_over(
    m: ResourceModel,
    projects: Seq<ProjectRowModel>,
    flags_path: Seq<char>,
    dashboards_path: Seq<char>,
    flags: Seq<LegacyFlagModel>,
    data: DashboardDataModel,
    k: int,
    i: int,
)
    requires
        projects_keyed(projects),
        flags_keyed(flags),
        insights_keyed(data.insights),
        dashboards_keyed(data.dashboards),
        shares_keyed(data.shares),
        resources_imported(m, projects, flags_path, dashboards_path, flags, data).1 is None,
        0 <= k < data.shares.len(),
        0 <= i < projects.len(),
        projects[i].capture_token == data.shares[k].project_token,
        forall|j: int| 0 <= j < i ==> (#[trigger] projects[j]).capture_token != data.shares[k].project_token,
    ensures
        resources_imported(m, projects, flags_path, dashboards_path, flags, data).0.shares.contains(
            ShareEntryModel {
                link: ShareLinkModel {
                    id: data.shares[k].share.id,
                    project_id: projects[i].id,
                    object_type: data.shares[k].share.target,
                    object_id: data.shares[k].share.object_id,
                    token: data.shares[k].share.token,
                    created_at: data.shares[k].share.created_at,
                    expires_at: data.shares[k].share.expires_at,
                },
                created_by: data.shares[k].share.created_by,
            },
        ),
{
    let m1 = runs(m, flags, flag_run(projects, flags_path)).0;
    let m2 = runs(m1, data.insights, insight_run(projects, dashboards_path)).0;
    let m3 = runs(m2, data.dashboards, dashboard_run(projects, dashboards_path)).0;
    lemma_flags_taken(m, projects, flags_path, flags);
    lemma_insights_taken(m1, projects, dashboards_path, data.insights);
    lemma_dashboards_taken(m2, projects, dashboards_path, data.dashboards);
    lemma_shares_taken(m3, projects, dashboards_path, data.shares);
    let m4 = runs(m3, data.shares, share_run(projects, dashboards_path)).0;
    let row = data.shares[k];
    assert(share_taken(m4, projects, dashboards_path, row));
    lemma_home(projects, dashboards_path, row.project_token, i);
    lemma_found_in(
        m4.shares,
        share_at(projects[i].id, row.share.id),
        share_entry(projects[i].id, row),
    );
}

} // verus!
