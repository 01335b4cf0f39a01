//! What flags, insights, dashboards and share links promise to the projects they belong to.
use vstd::prelude::*;
use vstd::string::*;
use vstd::utf8::encode_utf8;

use crate::control_resources::{
    dashboard_at, dashboard_created, dashboard_deleted, dashboard_got, dashboard_order, dashboard_seen,
    dashboard_tiled, dashboard_updated, dashboards_in, dashboards_listed, flag_at, flag_created,
    flag_deleted, flag_entry_order, flag_fault, flag_got, flag_imported, flag_updated, flags_in,
    flags_listed, insight_at, insight_created, insight_deleted, insight_got, insight_imported,
    insight_order, insight_updated, insights_in, insights_listed, required_fault, share_at,
    share_authorized, share_created, share_deleted, share_open, share_order, share_reset, share_token_is,
    shares_in, shares_listed, shares_of, tiles_fault, tiles_on, tiles_showing, variant_fault,
    variants_fault, DashboardDraftModel, DashboardEntryModel, DashboardModel, FeatureFlagModel,
    FlagEntryModel, ImportedFlagModel, ImportedInsightModel, InsightDraftModel, InsightEntryModel,
    InsightModel, QueryModel, ResourceFault, ResourceModel, ShareEntryModel, ShareLinkModel, ShareTarget,
    TileEntryModel, TileInputModel,
};
use crate::flags::VariantModel;
use crate::json::JsonValue;
use crate::rows::{
    found, holds_somewhere, is_order, law_sorting_orders, lemma_index_is, lemma_index_of, lemma_removed,
    lemma_selected, lemma_sorted, removed, selected, sorted,
};
use crate::text::{blank, lemma_text_le_total, lemma_text_le_transitive, text_le};

verus! {

// ── Validity ──────────────────────────────────────────────────────────────────

/// Whether bits are those of a number from 0 through 100.
pub open spec fn within_hundred(bits: u64) -> bool {
    bits <= 0x4059_0000_0000_0000 || bits == 0x8000_0000_0000_0000
}

/// A text that is asked for says something, in so many bytes at most.
pub proof fn law_texts_are_bounded(field: Seq<char>, value: Seq<char>, max: int)
    ensures
        required_fault(field, value, max) is None <==> !blank(value) && encode_utf8(value).len() <= max,
{
}

proof fn lemma_variants(variants: Seq<VariantModel>)
    ensures
        variants_fault(variants) is None <==> forall|i: int|
            0 <= i < variants.len() ==> variant_fault(variants.take(i), #[trigger] variants[i]) is None,
    decreases variants.len(),
{
    if variants.len() > 0 {
        let rest = variants.drop_last();
        lemma_variants(rest);
        assert forall|i: int| 0 <= i < rest.len() implies rest.take(i) == variants.take(i) && rest[i]
            == variants[i] by {
            assert(rest.take(i) =~= variants.take(i));
        }
        let last = variants.len() - 1;
        assert(variants.take(last) =~= rest);
        if variants_fault(variants) is None {
            assert forall|i: int| 0 <= i < variants.len() implies variant_fault(
                variants.take(i),
                #[trigger] variants[i],
            ) is None by {
                if i < last {
                    assert(variant_fault(rest.take(i), rest[i]) is None);
                }
            }
        }
        if forall|i: int|
            0 <= i < variants.len() ==> variant_fault(variants.take(i), #[trigger] variants[i]) is None {
            assert forall|i: int| 0 <= i < rest.len() implies variant_fault(
                rest.take(i),
                #[trigger] rest[i],
            ) is None by {
                assert(variant_fault(variants.take(i), variants[i]) is None);
            }
            assert(variant_fault(variants.take(last), variants[last]) is None);
        }
    }
}

/// A flag is accepted only with a key, with percentages from 0 through 100, and with variants of which each has a
/// key of its own.
pub proof fn law_accepted_flags_are_sound(flag: FeatureFlagModel, i: int, j: int)
    requires
        flag_fault(flag) is None,
    ensures
        !blank(flag.key) && encode_utf8(flag.key).len() <= 256,
        within_hundred(flag.rollout_percentage.bits),
        0 <= i < flag.variants.len() ==> !blank(flag.variants[i].key) && within_hundred(
            flag.variants[i].rollout.bits,
        ),
        0 <= i < j < flag.variants.len() ==> flag.variants[i].key != flag.variants[j].key,
{
    lemma_variants(flag.variants);
    if 0 <= i < flag.variants.len() {
        assert(variant_fault(flag.variants.take(i), flag.variants[i]) is None);
    }
    if 0 <= i < j < flag.variants.len() {
        assert(variant_fault(flag.variants.take(j), flag.variants[j]) is None);
        assert(flag.variants.take(j)[i] == flag.variants[i]);
    }
}

/// A flag that is sound is accepted.
pub proof fn law_sound_flags_are_accepted(flag: FeatureFlagModel)
    requires
        !blank(flag.key) && encode_utf8(flag.key).len() <= 256,
        within_hundred(flag.rollout_percentage.bits),
        forall|i: int|
            0 <= i < flag.variants.len() ==> !blank((#[trigger] flag.variants[i]).key) && encode_utf8(
                flag.variants[i].key,
            ).len() <= 256 && within_hundred(flag.variants[i].rollout.bits),
        forall|i: int, j: int|
            0 <= i < j < flag.variants.len() ==> (#[trigger] flag.variants[i]).key != (
            #[trigger] flag.variants[j]).key,
    ensures
        flag_fault(flag) is None,
{
    lemma_variants(flag.variants);
    assert forall|i: int| 0 <= i < flag.variants.len() implies variant_fault(
        flag.variants.take(i),
        #[trigger] flag.variants[i],
    ) is None by {
        let before = flag.variants.take(i);
        assert forall|j: int| 0 <= j < before.len() implies (#[trigger] before[j]).key
            != flag.variants[i].key by {
            assert(before[j] == flag.variants[j]);
        }
    }
}

/// A layout is accepted exactly if each of its tiles names an insight, begins at or after zero, and has a size.
pub proof fn law_layouts_are_sound(tiles: Seq<TileInputModel>)
    ensures
        tiles_fault(tiles) is None <==> forall|i: int|
            0 <= i < tiles.len() ==> !blank((#[trigger] tiles[i]).insight_id) && encode_utf8(
                tiles[i].insight_id,
            ).len() <= 512 && tiles[i].x >= 0 && tiles[i].y >= 0 && tiles[i].w > 0 && tiles[i].h > 0,
    decreases tiles.len(),
{
    if tiles.len() > 0 {
        let rest = tiles.drop_last();
        law_layouts_are_sound(rest);
        let last = tiles[tiles.len() - 1];
        assert(last == tiles.last());
        if tiles_fault(tiles) is None {
            assert forall|i: int| 0 <= i < tiles.len() implies !blank((#[trigger] tiles[i]).insight_id)
                && encode_utf8(tiles[i].insight_id).len() <= 512 && tiles[i].x >= 0 && tiles[i].y >= 0
                && tiles[i].w > 0 && tiles[i].h > 0 by {
                if i < rest.len() {
                    assert(rest[i] == tiles[i]);
                }
            }
        }
        if forall|i: int|
            0 <= i < tiles.len() ==> !blank((#[trigger] tiles[i]).insight_id) && encode_utf8(
                tiles[i].insight_id,
            ).len() <= 512 && tiles[i].x >= 0 && tiles[i].y >= 0 && tiles[i].w > 0 && tiles[i].h > 0 {
            assert forall|i: int| 0 <= i < rest.len() implies !blank((#[trigger] rest[i]).insight_id)
                && encode_utf8(rest[i].insight_id).len() <= 512 && rest[i].x >= 0 && rest[i].y >= 0
                && rest[i].w > 0 && rest[i].h > 0 by {
                assert(rest[i] == tiles[i]);
            }
        }
    }
}

// ── Flags ─────────────────────────────────────────────────────────────────────

/// A flag is made once for a project and a key: a second of them is a conflict. A project that is not known has
/// none. All that was there stays.
pub proof fn law_flags_are_made_once(
    m: ResourceModel,
    known: bool,
    project: Seq<char>,
    flag: FeatureFlagModel,
    now: i64,
)
    requires
        flag_fault(flag) is None,
    ensures
        ({
            let (next, r) = flag_created(m, known, project, flag, now);
            let there = exists|i: int|
                0 <= i < m.flags.len() && (#[trigger] m.flags[i]).project_id == project
                    && m.flags[i].flag.key == flag.key;
            &&& !known ==> r == Err::<FeatureFlagModel, ResourceFault>(ResourceFault::NotFound)
            &&& known && there ==> r == Err::<FeatureFlagModel, ResourceFault>(ResourceFault::Conflict)
            &&& known && !there ==> r == Ok::<FeatureFlagModel, ResourceFault>(flag) && next.flags
                == m.flags.push(
                FlagEntryModel { project_id: project, flag, created_at: now, updated_at: now },
            )
            &&& r is Err ==> next == m
            &&& next.insights == m.insights && next.dashboards == m.dashboards && next.tiles == m.tiles
                && next.shares == m.shares
        }),
{
    let p = flag_at(project, flag.key);
    lemma_index_of(m.flags, p);
    if holds_somewhere(m.flags, p) {
        let i = crate::rows::index_of(m.flags, p)->Some_0;
        assert(p(m.flags[i]));
        assert(m.flags[i].project_id == project);
    } else {
        assert forall|i: int| 0 <= i < m.flags.len() implies !((#[trigger] m.flags[i]).project_id
            == project && m.flags[i].flag.key == flag.key) by {
            assert(!p(m.flags[i]));
        }
    }
}

/// Changing a flag changes it alone, keeps when it was made, and never its key.
pub proof fn law_flags_change_alone(
    m: ResourceModel,
    project: Seq<char>,
    key: Seq<char>,
    flag: FeatureFlagModel,
    now: i64,
    i: int,
    j: int,
)
    requires
        0 <= i < m.flags.len(),
        m.flags[i].project_id == project,
        m.flags[i].flag.key == key,
        forall|k: int|
            0 <= k < i ==> (#[trigger] m.flags[k]).project_id != project || m.flags[k].flag.key != key,
        0 <= j < m.flags.len(),
    ensures
        ({
            let (next, r) = flag_updated(m, project, key, flag, now);
            &&& flag.key != key ==> r == Err::<FeatureFlagModel, ResourceFault>(ResourceFault::Conflict)
            &&& flag.key == key && flag_fault(flag) is None ==> {
                &&& r == Ok::<FeatureFlagModel, ResourceFault>(flag)
                &&& next.flags.len() == m.flags.len()
                &&& next.flags[i].flag == flag
                &&& next.flags[i].updated_at == now
                &&& next.flags[i].created_at == m.flags[i].created_at
                &&& next.flags[i].project_id == project
                &&& j != i ==> next.flags[j] == m.flags[j]
                &&& flag_got(next, project, key) == Ok::<FeatureFlagModel, ResourceFault>(flag)
            }
            &&& r is Err ==> next == m
        }),
{
    let p = flag_at(project, key);
    assert forall|k: int| 0 <= k < i implies !p(#[trigger] m.flags[k]) by {}
    lemma_index_is(m.flags, p, i);
    let (next, r) = flag_updated(m, project, key, flag, now);
    if r is Ok {
        assert forall|k: int| 0 <= k < i implies !p(#[trigger] next.flags[k]) by {
            assert(next.flags[k] == m.flags[k]);
        }
        lemma_index_is(next.flags, p, i);
    }
}

/// Deleting a flag deletes it alone, and a flag that is not there is not found.
pub proof fn law_flags_are_deleted_alone(
    m: ResourceModel,
    project: Seq<char>,
    key: Seq<char>,
    row: FlagEntryModel,
)
    ensures
        ({
            let (next, r) = flag_deleted(m, project, key);
            let there = exists|i: int|
                0 <= i < m.flags.len() && (#[trigger] m.flags[i]).project_id == project
                    && m.flags[i].flag.key == key;
            &&& there ==> r is Ok && (next.flags.contains(row) <==> m.flags.contains(row) && !(
            row.project_id == project && row.flag.key == key))
            &&& !there ==> r == Err::<(), ResourceFault>(ResourceFault::NotFound) && next == m
            &&& next.insights == m.insights && next.dashboards == m.dashboards && next.tiles == m.tiles
                && next.shares == m.shares
        }),
{
    let p = flag_at(project, key);
    lemma_index_of(m.flags, p);
    lemma_removed(m.flags, p, row);
    if holds_somewhere(m.flags, p) {
        let i = crate::rows::index_of(m.flags, p)->Some_0;
        assert(p(m.flags[i]));
        assert(m.flags[i].project_id == project);
    } else {
        assert forall|i: int| 0 <= i < m.flags.len() implies !((#[trigger] m.flags[i]).project_id
            == project && m.flags[i].flag.key == key) by {
            assert(!p(m.flags[i]));
        }
    }
}

/// A project lists its flags, all of them and no other.
pub proof fn law_projects_list_their_flags(
    m: ResourceModel,
    project: Seq<char>,
    row: FlagEntryModel,
    flag: FeatureFlagModel,
)
    ensures
        m.flags.contains(row) && row.project_id == project ==> flags_listed(m, project).contains(row.flag),
        flags_listed(m, project).contains(flag) ==> exists|r: FlagEntryModel| #[trigger]
            m.flags.contains(r) && r.project_id == project && r.flag == flag,
{
    let p = flags_in(project);
    let chosen = selected(m.flags, p);
    let rows = sorted(chosen, flag_entry_order());
    let list = flags_listed(m, project);
    if m.flags.contains(row) && row.project_id == project {
        lemma_selected(m.flags, p, row);
        lemma_sorted(chosen, flag_entry_order(), row);
        let k = choose|k: int| 0 <= k < rows.len() && rows[k] == row;
        assert(list[k] == row.flag);
    }
    if list.contains(flag) {
        let k = choose|k: int| 0 <= k < list.len() && list[k] == flag;
        lemma_sorted(chosen, flag_entry_order(), rows[k]);
        lemma_selected(m.flags, p, rows[k]);
        assert(m.flags.contains(rows[k]));
    }
}

/// A project lists its flags by key.
pub proof fn law_flags_are_listed_by_key(m: ResourceModel, project: Seq<char>, i: int, j: int)
    requires
        0 <= i < j < flags_listed(m, project).len(),
    ensures
        text_le(flags_listed(m, project)[i].key, flags_listed(m, project)[j].key),
{
    let before = flag_entry_order();
    assert(is_order(before)) by {
        assert forall|a: FlagEntryModel, b: FlagEntryModel| #[trigger] before(a, b) implies !before(b, a) by {
            lemma_text_le_total(a.flag.key, b.flag.key);
        }
        assert forall|a: FlagEntryModel, b: FlagEntryModel, c: FlagEntryModel| #[trigger]
            before(a, c) implies #[trigger] before(a, b) || before(b, c) by {
            lemma_text_le_total(a.flag.key, b.flag.key);
            lemma_text_le_total(b.flag.key, c.flag.key);
            lemma_text_le_total(a.flag.key, c.flag.key);
            if !before(a, b) && !before(b, c) {
                lemma_text_le_transitive(c.flag.key, b.flag.key, a.flag.key);
            }
        }
    }
    let chosen = selected(m.flags, flags_in(project));
    let rows = sorted(chosen, before);
    law_sorting_orders(chosen, before);
    assert(!before(rows[j], rows[i]));
    lemma_text_le_total(rows[i].flag.key, rows[j].flag.key);
}

/// An imported flag is there as it was, with its own instants, in place of one of its key or as a new one.
pub proof fn law_imported_flags_read_back(
    m: ResourceModel,
    project: Seq<char>,
    imported: ImportedFlagModel,
    row: FlagEntryModel,
)
    requires
        flag_fault(imported.flag) is None,
    ensures
        ({
            let (next, r) = flag_imported(m, true, project, imported);
            &&& r == Ok::<FeatureFlagModel, ResourceFault>(imported.flag)
            &&& found(next.flags, flag_at(project, imported.flag.key)) == Some(
                FlagEntryModel {
                    project_id: project,
                    flag: imported.flag,
                    created_at: imported.created_at,
                    updated_at: imported.updated_at,
                },
            )
            &&& m.flags.contains(row) && !(row.project_id == project && row.flag.key == imported.flag.key)
                ==> next.flags.contains(row)
        }),
{
    let p = flag_at(project, imported.flag.key);
    let made = FlagEntryModel {
        project_id: project,
        flag: imported.flag,
        created_at: imported.created_at,
        updated_at: imported.updated_at,
    };
    crate::rows::lemma_put_own(m.flags, p, made);
    let next = flag_imported(m, true, project, imported).0;
    assert(next.flags == crate::rows::put(m.flags, p, made));
    lemma_index_of(m.flags, p);
    if m.flags.contains(row) && !(row.project_id == project && row.flag.key == imported.flag.key) {
        let k = choose|k: int| 0 <= k < m.flags.len() && m.flags[k] == row;
        assert(!p(row));
        assert(next.flags[k] == row);
    }
}

// ── Insights ──────────────────────────────────────────────────────────────────

/// An insight is made with the query that was asked for, if that is supported, by whoever made it, and nothing
/// else changes.
pub proof fn law_insights_hold_their_query(
    m: ResourceModel,
    known: bool,
    project: Seq<char>,
    created_by: Seq<char>,
    draft: InsightDraftModel,
    verdict: QueryModel,
    now: i64,
    number: u128,
)
    ensures
        ({
            let (next, r) = insight_created(m, known, project, created_by, draft, verdict, now, number);
            &&& !(verdict is Supported) ==> r is Err
            &&& !known ==> r is Err
            &&& r is Ok ==> {
                &&& verdict == QueryModel::Supported(r->Ok_0.query_ir)
                &&& r->Ok_0.project_id == project
                &&& r->Ok_0.name == draft.name
                &&& r->Ok_0.description == draft.description
                &&& r->Ok_0.created_by == created_by
                &&& r->Ok_0.created_at == now && r->Ok_0.updated_at == now
                &&& next.insights == m.insights.push(
                    InsightEntryModel { insight: r->Ok_0, query_supported: true },
                )
            }
            &&& r is Err ==> next == m
            &&& next.flags == m.flags && next.dashboards == m.dashboards && next.tiles == m.tiles
                && next.shares == m.shares
        }),
{
}

/// Changing an insight changes its name, its description and its query, and nothing else of it or of another.
pub proof fn law_insights_change_alone(
    m: ResourceModel,
    project: Seq<char>,
    id: Seq<char>,
    draft: InsightDraftModel,
    query: JsonValue,
    now: i64,
    i: int,
    j: int,
)
    requires
        0 <= i < m.insights.len(),
        m.insights[i].insight.project_id == project,
        m.insights[i].insight.id == id,
        forall|k: int|
            0 <= k < i ==> (#[trigger] m.insights[k]).insight.project_id != project
                || m.insights[k].insight.id != id,
        0 <= j < m.insights.len(),
        !blank(draft.name) && encode_utf8(draft.name).len() <= 512,
    ensures
        ({
            let (next, r) = insight_updated(m, project, id, draft, QueryModel::Supported(query), now);
            let old_one = m.insights[i].insight;
            &&& r is Ok
            &&& next.insights.len() == m.insights.len()
            &&& next.insights[i].insight == r->Ok_0
            &&& r->Ok_0.name == draft.name
            &&& r->Ok_0.description == draft.description
            &&& r->Ok_0.query_ir == query
            &&& r->Ok_0.updated_at == now
            &&& r->Ok_0.id == id && r->Ok_0.project_id == project
            &&& r->Ok_0.created_by == old_one.created_by && r->Ok_0.created_at == old_one.created_at
            &&& j != i ==> next.insights[j] == m.insights[j]
            &&& next.flags == m.flags && next.dashboards == m.dashboards && next.tiles == m.tiles
                && next.shares == m.shares
        }),
{
    let p = insight_at(project, id);
    assert forall|k: int| 0 <= k < i implies !p(#[trigger] m.insights[k]) by {}
    lemma_index_is(m.insights, p, i);
}

/// Deleting an insight deletes it, the tiles that show it and the links that share it, and nothing else.
pub proof fn law_insights_are_deleted_alone(
    m: ResourceModel,
    project: Seq<char>,
    id: Seq<char>,
    row: InsightEntryModel,
    tile: TileEntryModel,
    share: ShareEntryModel,
)
    requires
        insight_deleted(m, project, id).1 is Ok,
    ensures
        ({
            let next = insight_deleted(m, project, id).0;
            &&& next.insights.contains(row) <==> m.insights.contains(row) && !(row.insight.project_id
                == project && row.insight.id == id)
            &&& next.tiles.contains(tile) <==> m.tiles.contains(tile) && !(tile.project_id == project
                && tile.tile.insight_id == id)
            &&& next.shares.contains(share) <==> m.shares.contains(share) && !(share.link.project_id
                == project && share.link.object_type == ShareTarget::Insight && share.link.object_id == id)
            &&& next.flags == m.flags && next.dashboards == m.dashboards
        }),
{
    lemma_removed(m.insights, insight_at(project, id), row);
    lemma_removed(m.tiles, tiles_showing(project, id), tile);
    lemma_removed(m.shares, shares_of(project, ShareTarget::Insight, id), share);
}

/// What is not there is neither read, nor changed, nor deleted.
pub proof fn law_missing_resources_are_not_found(
    m: ResourceModel,
    project: Seq<char>,
    id: Seq<char>,
    draft: InsightDraftModel,
    board: DashboardDraftModel,
    verdict: QueryModel,
    now: i64,
    expires_at: Option<i64>,
)
    ensures
        (forall|i: int|
            0 <= i < m.insights.len() ==> (#[trigger] m.insights[i]).insight.project_id != project
                || m.insights[i].insight.id != id) ==> insight_got(m, project, id) == Err::<
            InsightModel,
            ResourceFault,
        >(ResourceFault::NotFound) && insight_updated(m, project, id, draft, verdict, now) == (m, Err::<
            InsightModel,
            ResourceFault,
        >(ResourceFault::NotFound)) && insight_deleted(m, project, id) == (m, Err::<(), ResourceFault>(
            ResourceFault::NotFound,
        )),
        (forall|i: int|
            0 <= i < m.dashboards.len() ==> (#[trigger] m.dashboards[i]).project_id != project
                || m.dashboards[i].id != id) ==> dashboard_got(m, project, id) == Err::<
            DashboardModel,
            ResourceFault,
        >(ResourceFault::NotFound) && dashboard_updated(m, project, id, board, now) == (m, Err::<
            DashboardModel,
            ResourceFault,
        >(ResourceFault::NotFound)) && dashboard_deleted(m, project, id) == (m, Err::<(), ResourceFault>(
            ResourceFault::NotFound,
        )),
        (forall|i: int|
            0 <= i < m.shares.len() ==> (#[trigger] m.shares[i]).link.project_id != project
                || m.shares[i].link.id != id) ==> share_reset(m, project, id, expires_at) == (m, Err::<
            ShareLinkModel,
            ResourceFault,
        >(ResourceFault::NotFound)) && share_deleted(m, project, id) == (m, Err::<(), ResourceFault>(
            ResourceFault::NotFound,
        )),
{
    lemma_index_of(m.insights, insight_at(project, id));
    lemma_index_of(m.dashboards, dashboard_at(project, id));
    lemma_index_of(m.shares, share_at(project, id));
}

/// A project lists its insights, all of them and no other.
pub proof fn law_projects_list_their_insights(
    m: ResourceModel,
    project: Seq<char>,
    row: InsightEntryModel,
    insight: InsightModel,
)
    ensures
        m.insights.contains(row) && row.insight.project_id == project ==> insights_listed(m, project).contains(
            row.insight,
        ),
        insights_listed(m, project).contains(insight) ==> insight.project_id == project && exists|
            r: InsightEntryModel,
        | #[trigger]
            m.insights.contains(r) && r.insight == insight,
{
    let p = insights_in(project);
    let chosen = selected(m.insights, p);
    let rows = sorted(chosen, insight_order());
    let list = insights_listed(m, project);
    if m.insights.contains(row) && row.insight.project_id == project {
        lemma_selected(m.insights, p, row);
        lemma_sorted(chosen, insight_order(), row);
        let k = choose|k: int| 0 <= k < rows.len() && rows[k] == row;
        assert(list[k] == row.insight);
    }
    if list.contains(insight) {
        let k = choose|k: int| 0 <= k < list.len() && list[k] == insight;
        lemma_sorted(chosen, insight_order(), rows[k]);
        lemma_selected(m.insights, p, rows[k]);
        assert(m.insights.contains(rows[k]));
    }
}

/// An imported insight is kept even if its query is not supported, and marked as such.
pub proof fn law_imported_insights_are_kept(
    m: ResourceModel,
    project: Seq<char>,
    imported: ImportedInsightModel,
    verdict: QueryModel,
)
    requires
        insight_imported(m, true, project, imported, verdict).1 is Ok,
    ensures
        ({
            let (next, r) = insight_imported(m, true, project, imported, verdict);
            let row = found(next.insights, insight_at(project, imported.id));
            &&& row is Some && row->Some_0.insight == r->Ok_0
            &&& row->Some_0.query_supported <==> verdict is Supported
            &&& verdict is Supported ==> r->Ok_0.query_ir == verdict->Supported_0
            &&& verdict is Unsupported ==> r->Ok_0.query_ir == verdict->Unsupported_0
            &&& r->Ok_0.id == imported.id && r->Ok_0.name == imported.name && r->Ok_0.description
                == imported.description
            &&& r->Ok_0.created_by == imported.created_by && r->Ok_0.created_at == imported.created_at
                && r->Ok_0.updated_at == imported.updated_at
        }),
{
    let (next, r) = insight_imported(m, true, project, imported, verdict);
    let p = insight_at(project, imported.id);
    let made = InsightEntryModel { insight: r->Ok_0, query_supported: verdict is Supported };
    crate::rows::lemma_put_own(m.insights, p, made);
    assert(next.insights == crate::rows::put(m.insights, p, made));
}

// ── Dashboards ────────────────────────────────────────────────────────────────

/// A dashboard is made under its own id and name, by whoever made it.
pub proof fn law_dashboards_are_made(
    m: ResourceModel,
    known: bool,
    project: Seq<char>,
    created_by: Seq<char>,
    draft: DashboardDraftModel,
    now: i64,
    number: u128,
)
    ensures
        ({
            let (next, r) = dashboard_created(m, known, project, created_by, draft, now, number);
            &&& r is Ok ==> known && next.dashboards == m.dashboards.push(next.dashboards.last())
                && next.dashboards.last().project_id == project && next.dashboards.last().name == draft.name
                && next.dashboards.last().created_by == created_by && next.dashboards.last().created_at
                == now && r->Ok_0.id == next.dashboards.last().id && r->Ok_0.name == draft.name
                && r->Ok_0.project_id == project
            &&& r is Err ==> next == m
            &&& next.tiles == m.tiles && next.flags == m.flags && next.insights == m.insights
                && next.shares == m.shares
        }),
{
    let (next, r) = dashboard_created(m, known, project, created_by, draft, now, number);
    let id = crate::digest::uuid_text_of(number);
    let p = dashboard_at(project, id);
    lemma_index_of(m.dashboards, p);
    if next.dashboards.len() > m.dashboards.len() {
        let k = m.dashboards.len() as int;
        assert forall|j: int| 0 <= j < k implies !p(#[trigger] next.dashboards[j]) by {
            assert(next.dashboards[j] == m.dashboards[j]);
        }
        lemma_index_is(next.dashboards, p, k);
        assert(next.dashboards =~= m.dashboards.push(next.dashboards.last()));
    }
}

/// Renaming a dashboard changes its name alone, and no other dashboard.
pub proof fn law_dashboards_change_alone(
    m: ResourceModel,
    project: Seq<char>,
    id: Seq<char>,
    draft: DashboardDraftModel,
    now: i64,
    i: int,
    j: int,
)
    requires
        0 <= i < m.dashboards.len(),
        m.dashboards[i].project_id == project,
        m.dashboards[i].id == id,
        forall|k: int|
            0 <= k < i ==> (#[trigger] m.dashboards[k]).project_id != project || m.dashboards[k].id != id,
        0 <= j < m.dashboards.len(),
        !blank(draft.name) && encode_utf8(draft.name).len() <= 512,
    ensures
        ({
            let (next, r) = dashboard_updated(m, project, id, draft, now);
            &&& r is Ok && r->Ok_0.name == draft.name && r->Ok_0.id == id
            &&& next.dashboards.len() == m.dashboards.len()
            &&& next.dashboards[i] == (DashboardEntryModel {
                name: draft.name,
                updated_at: now,
                ..m.dashboards[i]
            })
            &&& j != i ==> next.dashboards[j] == m.dashboards[j]
            &&& next.tiles == m.tiles && next.flags == m.flags && next.insights == m.insights
                && next.shares == m.shares
        }),
{
    let p = dashboard_at(project, id);
    assert forall|k: int| 0 <= k < i implies !p(#[trigger] m.dashboards[k]) by {}
    lemma_index_is(m.dashboards, p, i);
    let next = dashboard_updated(m, project, id, draft, now).0;
    assert forall|k: int| 0 <= k < i implies !p(#[trigger] next.dashboards[k]) by {
        assert(next.dashboards[k] == m.dashboards[k]);
    }
    lemma_index_is(next.dashboards, p, i);
}

/// Laying out a dashboard changes no tile of another, and no insight of another project can stand on it.
pub proof fn law_layouts_stay_on_their_dashboard(
    m: ResourceModel,
    project: Seq<char>,
    id: Seq<char>,
    tiles: Seq<TileInputModel>,
    now: i64,
    tile: TileEntryModel,
    i: int,
)
    requires
        dashboard_tiled(m, project, id, tiles, now).1 is Ok,
        !(tile.project_id == project && tile.dashboard_id == id),
    ensures
        ({
            let next = dashboard_tiled(m, project, id, tiles, now).0;
            &&& next.tiles.contains(tile) <==> m.tiles.contains(tile)
            &&& 0 <= i < tiles.len() ==> exists|k: int|
                0 <= k < m.insights.len() && (#[trigger] m.insights[k]).insight.project_id == project
                    && m.insights[k].insight.id == tiles[i].insight_id
            &&& next.insights == m.insights && next.flags == m.flags && next.shares == m.shares
        }),
{
    let next = dashboard_tiled(m, project, id, tiles, now).0;
    let kept = removed(m.tiles, tiles_on(project, id));
    lemma_removed(m.tiles, tiles_on(project, id), tile);
    if next.tiles.contains(tile) {
        let k = choose|k: int| 0 <= k < next.tiles.len() && next.tiles[k] == tile;
        if k >= kept.len() {
            assert(next.tiles[k].project_id == project && next.tiles[k].dashboard_id == id);
        }
        assert(kept[k] == tile);
    }
    if kept.contains(tile) {
        let k = choose|k: int| 0 <= k < kept.len() && kept[k] == tile;
        assert(next.tiles[k] == tile);
    }
    if 0 <= i < tiles.len() {
        let p = insight_at(project, tiles[i].insight_id);
        lemma_index_of(m.insights, p);
        let k = crate::rows::index_of(m.insights, p)->Some_0;
        assert(p(m.insights[k]));
        assert(m.insights[k].insight.project_id == project);
    }
}

/// Deleting a dashboard deletes it, its tiles and the links that share it, and nothing else.
pub proof fn law_dashboards_are_deleted_alone(
    m: ResourceModel,
    project: Seq<char>,
    id: Seq<char>,
    row: DashboardEntryModel,
    tile: TileEntryModel,
    share: ShareEntryModel,
)
    requires
        dashboard_deleted(m, project, id).1 is Ok,
    ensures
        ({
            let next = dashboard_deleted(m, project, id).0;
            &&& next.dashboards.contains(row) <==> m.dashboards.contains(row) && !(row.project_id == project
                && row.id == id)
            &&& next.tiles.contains(tile) <==> m.tiles.contains(tile) && !(tile.project_id == project
                && tile.dashboard_id == id)
            &&& next.shares.contains(share) <==> m.shares.contains(share) && !(share.link.project_id
                == project && share.link.object_type == ShareTarget::Dashboard && share.link.object_id
                == id)
            &&& next.flags == m.flags && next.insights == m.insights
        }),
{
    lemma_removed(m.dashboards, dashboard_at(project, id), row);
    lemma_removed(m.tiles, tiles_on(project, id), tile);
    lemma_removed(m.shares, shares_of(project, ShareTarget::Dashboard, id), share);
}

/// A project lists its dashboards, all of them and no other.
pub proof fn law_projects_list_their_dashboards(
    m: ResourceModel,
    project: Seq<char>,
    row: DashboardEntryModel,
    board: DashboardModel,
)
    ensures
        m.dashboards.contains(row) && row.project_id == project ==> exists|b: DashboardModel| #[trigger]
            dashboards_listed(m, project).contains(b) && b.id == row.id && b.name == row.name
                && b.created_by == row.created_by,
        dashboards_listed(m, project).contains(board) ==> board.project_id == project && exists|
            r: DashboardEntryModel,
        | #[trigger]
            m.dashboards.contains(r) && r.id == board.id && r.project_id == project,
{
    let p = dashboards_in(project);
    let chosen = selected(m.dashboards, p);
    let rows = sorted(chosen, dashboard_order());
    let list = dashboards_listed(m, project);
    if m.dashboards.contains(row) && row.project_id == project {
        lemma_selected(m.dashboards, p, row);
        lemma_sorted(chosen, dashboard_order(), row);
        let k = choose|k: int| 0 <= k < rows.len() && rows[k] == row;
        assert(list[k] == dashboard_seen(m, row));
        assert(list.contains(list[k]));
    }
    if list.contains(board) {
        let k = choose|k: int| 0 <= k < list.len() && list[k] == board;
        lemma_sorted(chosen, dashboard_order(), rows[k]);
        lemma_selected(m.dashboards, p, rows[k]);
        assert(m.dashboards.contains(rows[k]));
    }
}

// ── Share links ───────────────────────────────────────────────────────────────

/// A link opens what it shares until the instant at which it expires, and one without such an instant always. A
/// token that no link has opens nothing.
pub proof fn law_links_open_until_they_expire(m: ResourceModel, token: Seq<char>, now: i64, i: int)
    ensures
        (forall|k: int|
            0 <= k < m.shares.len() && (#[trigger] m.shares[k]).link.token == token
                ==> m.shares[k].link.expires_at is Some && m.shares[k].link.expires_at->Some_0 <= now)
            ==> share_authorized(m, token, now) == Err::<ShareLinkModel, ResourceFault>(
            ResourceFault::NotFound,
        ),
        0 <= i < m.shares.len() && m.shares[i].link.token == token && (forall|k: int|
            0 <= k < i ==> (#[trigger] m.shares[k]).link.token != token) && (m.shares[i].link.expires_at is None
            || m.shares[i].link.expires_at->Some_0 > now) ==> share_authorized(m, token, now) == Ok::<
            ShareLinkModel,
            ResourceFault,
        >(m.shares[i].link),
{
    let p = share_open(token, now);
    lemma_index_of(m.shares, p);
    if 0 <= i < m.shares.len() && m.shares[i].link.token == token && (forall|k: int|
        0 <= k < i ==> (#[trigger] m.shares[k]).link.token != token) && (m.shares[i].link.expires_at is None
        || m.shares[i].link.expires_at->Some_0 > now) {
        assert forall|k: int| 0 <= k < i implies !p(#[trigger] m.shares[k]) by {}
        lemma_index_is(m.shares, p, i);
    }
}

/// A link is made for what is there, under a token that no other link has; else nothing changes.
pub proof fn law_links_share_what_is_there(
    m: ResourceModel,
    project: Seq<char>,
    target: ShareTarget,
    object: Seq<char>,
    created_by: Seq<char>,
    expires_at: Option<i64>,
    now: i64,
    id_number: u128,
    token_number: u128,
)
    ensures
        ({
            let (next, r) = share_created(
                m,
                project,
                target,
                object,
                created_by,
                expires_at,
                now,
                id_number,
                token_number,
            );
            &&& target == ShareTarget::Insight && (forall|i: int|
                0 <= i < m.insights.len() ==> (#[trigger] m.insights[i]).insight.project_id != project
                    || m.insights[i].insight.id != object) ==> r is Err
            &&& target == ShareTarget::Dashboard && (forall|i: int|
                0 <= i < m.dashboards.len() ==> (#[trigger] m.dashboards[i]).project_id != project
                    || m.dashboards[i].id != object) ==> r is Err
            &&& r is Ok ==> {
                let link = r->Ok_0;
                &&& next.shares == m.shares.push(ShareEntryModel { link, created_by })
                &&& link.project_id == project
                &&& link.object_type == target
                &&& link.object_id == object
                &&& link.expires_at == expires_at
                &&& link.created_at == now
                &&& link.token.len() >= 4 && link.token.take(4) == "phs_"@
                &&& forall|i: int|
                    0 <= i < m.shares.len() ==> (#[trigger] m.shares[i]).link.token != link.token
            }
            &&& r is Err ==> next == m
            &&& next.flags == m.flags && next.insights == m.insights && next.dashboards == m.dashboards
                && next.tiles == m.tiles
        }),
{
    reveal_strlit("phs_");
    let (next, r) = share_created(
        m,
        project,
        target,
        object,
        created_by,
        expires_at,
        now,
        id_number,
        token_number,
    );
    lemma_index_of(m.insights, insight_at(project, object));
    lemma_index_of(m.dashboards, dashboard_at(project, object));
    if r is Ok {
        let q = share_token_is(r->Ok_0.token);
        lemma_index_of(m.shares, q);
        assert(r->Ok_0.token.take(4) =~= "phs_"@);
        assert forall|i: int| 0 <= i < m.shares.len() implies (#[trigger] m.shares[i]).link.token
            != r->Ok_0.token by {
            assert(!q(m.shares[i]));
        }
    }
}

/// Resetting a link changes when it expires, and nothing else of it or of another.
pub proof fn law_links_are_reset_alone(
    m: ResourceModel,
    project: Seq<char>,
    id: Seq<char>,
    expires_at: Option<i64>,
    i: int,
    j: int,
)
    requires
        0 <= i < m.shares.len(),
        m.shares[i].link.project_id == project,
        m.shares[i].link.id == id,
        forall|k: int|
            0 <= k < i ==> (#[trigger] m.shares[k]).link.project_id != project || m.shares[k].link.id != id,
        0 <= j < m.shares.len(),
    ensures
        ({
            let (next, r) = share_reset(m, project, id, expires_at);
            &&& r == Ok::<ShareLinkModel, ResourceFault>(
                ShareLinkModel { expires_at, ..m.shares[i].link },
            )
            &&& next.shares.len() == m.shares.len()
            &&& next.shares[i].link == r->Ok_0 && next.shares[i].created_by == m.shares[i].created_by
            &&& j != i ==> next.shares[j] == m.shares[j]
        }),
{
    let p = share_at(project, id);
    assert forall|k: int| 0 <= k < i implies !p(#[trigger] m.shares[k]) by {}
    lemma_index_is(m.shares, p, i);
}

/// Deleting a link deletes it alone; a project lists its links, all of them and no other.
pub proof fn law_links_are_deleted_alone(
    m: ResourceModel,
    project: Seq<char>,
    id: Seq<char>,
    row: ShareEntryModel,
    link: ShareLinkModel,
)
    ensures
        share_deleted(m, project, id).1 is Ok ==> (share_deleted(m, project, id).0.shares.contains(row)
            <==> m.shares.contains(row) && !(row.link.project_id == project && row.link.id == id)),
        m.shares.contains(row) && row.link.project_id == project ==> shares_listed(m, project).contains(
            row.link,
        ),
        shares_listed(m, project).contains(link) ==> link.project_id == project && exists|
            r: ShareEntryModel,
        | #[trigger]
            m.shares.contains(r) && r.link == link,
{
    lemma_removed(m.shares, share_at(project, id), row);
    let p = shares_in(project);
    let chosen = selected(m.shares, p);
    let rows = sorted(chosen, share_order());
    let list = shares_listed(m, project);
    if m.shares.contains(row) && row.link.project_id == project {
        lemma_selected(m.shares, p, row);
        lemma_sorted(chosen, share_order(), row);
        let k = choose|k: int| 0 <= k < rows.len() && rows[k] == row;
        assert(list[k] == row.link);
    }
    if list.contains(link) {
        let k = choose|k: int| 0 <= k < list.len() && list[k] == link;
        lemma_sorted(chosen, share_order(), rows[k]);
        lemma_selected(m.shares, p, rows[k]);
        assert(m.shares.contains(rows[k]));
    }
}

} // verus!
