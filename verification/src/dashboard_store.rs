//! Saved insights, dashboards with their tiles, and links that share them.
use vstd::prelude::*;
use vstd::string::*;

use crate::capture::event::uuid_version;
use crate::digest::{fresh_v4, simple_text, simple_text_of, uuid_text, uuid_text_of};
use crate::json::{canonical, parsed_json, rendered, Json, JsonValue, MAX_DEPTH};
use crate::order::{outcome, views};
use crate::rows::{
    append, duplicate_all, find, found, holds_somewhere, index_of, lemma_index_is,
    lemma_index_none, lemma_index_of, lemma_removed, lemma_runs_stop, lemma_selected, remove,
    removed, replace, runs, select, select_sorted, selected, sorted, Query, Row, Sort,
};
use crate::text::same;

verus! {

// ── Types ─────────────────────────────────────────────────────────────────────

/// A query that was saved.
pub struct SavedInsight {
    pub id: String,
    pub token: String,
    pub name: String,
    pub description: String,
    pub query_ir: Json,
    pub created_by: String,
    pub created_at: i64,
    pub updated_at: i64,
}

/// The mathematical value of a [`SavedInsight`].
pub struct InsightModel {
    pub id: Seq<char>,
    pub token: Seq<char>,
    pub name: Seq<char>,
    pub description: Seq<char>,
    pub query_ir: JsonValue,
    pub created_by: Seq<char>,
    pub created_at: i64,
    pub updated_at: i64,
}

impl View for SavedInsight {
    type V = InsightModel;

    open spec fn view(&self) -> InsightModel {
        InsightModel {
            id: self.id@,
            token: self.token@,
            name: self.name@,
            description: self.description@,
            query_ir: self.query_ir@,
            created_by: self.created_by@,
            created_at: self.created_at,
            updated_at: self.updated_at,
        }
    }
}

impl Row for SavedInsight {
    fn duplicate(&self) -> (r: Self) {
        SavedInsight {
            id: self.id.clone(),
            token: self.token.clone(),
            name: self.name.clone(),
            description: self.description.clone(),
            query_ir: self.query_ir.duplicate(),
            created_by: self.created_by.clone(),
            created_at: self.created_at,
            updated_at: self.updated_at,
        }
    }
}

/// The value of an insight that may be absent.
pub open spec fn insight_view(insight: Option<SavedInsight>) -> Option<InsightModel> {
    match insight {
        Some(x) => Some(x@),
        None => None,
    }
}

fn copy_insight(insight: &Option<SavedInsight>) -> (r: Option<SavedInsight>)
    ensures
        insight_view(r) == insight_view(*insight),
{
    match insight {
        Some(x) => Some(x.duplicate()),
        None => None,
    }
}

/// An insight on a dashboard, in its place.
pub struct DashboardTile {
    pub insight_id: String,
    pub x: i32,
    pub y: i32,
    pub w: i32,
    pub h: i32,
    pub insight: Option<SavedInsight>,
}

/// The mathematical value of a [`DashboardTile`].
pub struct TileModel {
    pub insight_id: Seq<char>,
    pub x: i32,
    pub y: i32,
    pub w: i32,
    pub h: i32,
    pub insight: Option<InsightModel>,
}

impl View for DashboardTile {
    type V = TileModel;

    open spec fn view(&self) -> TileModel {
        TileModel {
            insight_id: self.insight_id@,
            x: self.x,
            y: self.y,
            w: self.w,
            h: self.h,
            insight: insight_view(self.insight),
        }
    }
}

impl Row for DashboardTile {
    fn duplicate(&self) -> (r: Self) {
        DashboardTile {
            insight_id: self.insight_id.clone(),
            x: self.x,
            y: self.y,
            w: self.w,
            h: self.h,
            insight: copy_insight(&self.insight),
        }
    }
}

/// The width of a tile that does not say how wide it is.
pub fn default_w() -> (r: i32)
    ensures
        r == 4,
{
    4
}

/// The height of a tile that does not say how high it is.
pub fn default_h() -> (r: i32)
    ensures
        r == 3,
{
    3
}

/// A dashboard with its tiles.
pub struct Dashboard {
    pub id: String,
    pub token: String,
    pub name: String,
    pub tiles: Vec<DashboardTile>,
    pub created_by: String,
    pub created_at: i64,
}

/// The mathematical value of a [`Dashboard`].
pub struct DashboardModel {
    pub id: Seq<char>,
    pub token: Seq<char>,
    pub name: Seq<char>,
    pub tiles: Seq<TileModel>,
    pub created_by: Seq<char>,
    pub created_at: i64,
}

impl View for Dashboard {
    type V = DashboardModel;

    open spec fn view(&self) -> DashboardModel {
        DashboardModel {
            id: self.id@,
            token: self.token@,
            name: self.name@,
            tiles: views(self.tiles@),
            created_by: self.created_by@,
            created_at: self.created_at,
        }
    }
}

impl Row for Dashboard {
    fn duplicate(&self) -> (r: Self) {
        Dashboard {
            id: self.id.clone(),
            token: self.token.clone(),
            name: self.name.clone(),
            tiles: duplicate_all(&self.tiles),
            created_by: self.created_by.clone(),
            created_at: self.created_at,
        }
    }
}

/// A link that shares something.
pub struct ShareLink {
    pub id: String,
    pub object_type: String,
    pub object_id: String,
    pub token: String,
    pub created_at: i64,
    pub expires_at: Option<i64>,
}

/// The mathematical value of a [`ShareLink`].
pub struct ShareModel {
    pub id: Seq<char>,
    pub object_type: Seq<char>,
    pub object_id: Seq<char>,
    pub token: Seq<char>,
    pub created_at: i64,
    pub expires_at: Option<i64>,
}

impl View for ShareLink {
    type V = ShareModel;

    open spec fn view(&self) -> ShareModel {
        ShareModel {
            id: self.id@,
            object_type: self.object_type@,
            object_id: self.object_id@,
            token: self.token@,
            created_at: self.created_at,
            expires_at: self.expires_at,
        }
    }
}

impl Row for ShareLink {
    fn duplicate(&self) -> (r: Self) {
        ShareLink {
            id: self.id.clone(),
            object_type: self.object_type.clone(),
            object_id: self.object_id.clone(),
            token: self.token.clone(),
            created_at: self.created_at,
            expires_at: self.expires_at,
        }
    }
}

/// What a link shares.
pub struct SharedObject {
    pub object_type: String,
    pub dashboard: Option<Dashboard>,
    pub insight: Option<SavedInsight>,
    pub token: String,
}

/// The mathematical value of a [`SharedObject`].
pub struct SharedModel {
    pub object_type: Seq<char>,
    pub dashboard: Option<DashboardModel>,
    pub insight: Option<InsightModel>,
    pub token: Seq<char>,
}

impl View for SharedObject {
    type V = SharedModel;

    open spec fn view(&self) -> SharedModel {
        SharedModel {
            object_type: self.object_type@,
            dashboard: match self.dashboard {
                Some(d) => Some(d@),
                None => None,
            },
            insight: insight_view(self.insight),
            token: self.token@,
        }
    }
}

/// Why a request fails.
#[derive(Debug)]
pub enum DashboardError {
    Db(String),
    NotFound,
}

/// The mathematical value of a [`DashboardError`].
pub enum DashboardFault {
    Db(Seq<char>),
    NotFound,
}

impl View for DashboardError {
    type V = DashboardFault;

    open spec fn view(&self) -> DashboardFault {
        match self {
            DashboardError::Db(s) => DashboardFault::Db(s@),
            DashboardError::NotFound => DashboardFault::NotFound,
        }
    }
}

// ── Rows ──────────────────────────────────────────────────────────────────────

/// A stored insight. Its query is kept as text.
pub struct InsightRow {
    pub id: String,
    pub token: String,
    pub name: String,
    pub description: String,
    pub query_ir: String,
    pub created_by: String,
    pub created_at: i64,
    pub updated_at: i64,
}

/// The mathematical value of a [`InsightRow`].
pub struct InsightRowModel {
    pub id: Seq<char>,
    pub token: Seq<char>,
    pub name: Seq<char>,
    pub description: Seq<char>,
    pub query_ir: Seq<char>,
    pub created_by: Seq<char>,
    pub created_at: i64,
    pub updated_at: i64,
}

impl View for InsightRow {
    type V = InsightRowModel;

    open spec fn view(&self) -> InsightRowModel {
        InsightRowModel {
            id: self.id@,
            token: self.token@,
            name: self.name@,
            description: self.description@,
            query_ir: self.query_ir@,
            created_by: self.created_by@,
            created_at: self.created_at,
            updated_at: self.updated_at,
        }
    }
}

impl Row for InsightRow {
    fn duplicate(&self) -> (r: Self) {
        InsightRow {
            id: self.id.clone(),
            token: self.token.clone(),
            name: self.name.clone(),
            description: self.description.clone(),
            query_ir: self.query_ir.clone(),
            created_by: self.created_by.clone(),
            created_at: self.created_at,
            updated_at: self.updated_at,
        }
    }
}

/// A stored dashboard.
pub struct DashboardRow {
    pub id: String,
    pub token: String,
    pub name: String,
    pub created_by: String,
    pub created_at: i64,
    pub updated_at: i64,
}

/// The mathematical value of a [`DashboardRow`].
pub struct DashboardRowModel {
    pub id: Seq<char>,
    pub token: Seq<char>,
    pub name: Seq<char>,
    pub created_by: Seq<char>,
    pub created_at: i64,
    pub updated_at: i64,
}

impl View for DashboardRow {
    type V = DashboardRowModel;

    open spec fn view(&self) -> DashboardRowModel {
        DashboardRowModel {
            id: self.id@,
            token: self.token@,
            name: self.name@,
            created_by: self.created_by@,
            created_at: self.created_at,
            updated_at: self.updated_at,
        }
    }
}

impl Row for DashboardRow {
    fn duplicate(&self) -> (r: Self) {
        DashboardRow {
            id: self.id.clone(),
            token: self.token.clone(),
            name: self.name.clone(),
            created_by: self.created_by.clone(),
            created_at: self.created_at,
            updated_at: self.updated_at,
        }
    }
}

/// A stored link.
pub struct ShareRow {
    pub link: ShareLink,
    pub created_by: String,
}

/// The mathematical value of a [`ShareRow`].
pub struct ShareRowModel {
    pub link: ShareModel,
    pub created_by: Seq<char>,
}

impl View for ShareRow {
    type V = ShareRowModel;

    open spec fn view(&self) -> ShareRowModel {
        ShareRowModel {
            link: self.link@,
            created_by: self.created_by@,
        }
    }
}

impl Row for ShareRow {
    fn duplicate(&self) -> (r: Self) {
        ShareRow {
            link: self.link.duplicate(),
            created_by: self.created_by.clone(),
        }
    }
}

/// A stored tile.
pub struct TileRow {
    pub id: String,
    pub dashboard_id: String,
    pub insight_id: String,
    pub x: i32,
    pub y: i32,
    pub w: i32,
    pub h: i32,
}

/// The mathematical value of a [`TileRow`].
pub struct TileRowModel {
    pub id: Seq<char>,
    pub dashboard_id: Seq<char>,
    pub insight_id: Seq<char>,
    pub x: i32,
    pub y: i32,
    pub w: i32,
    pub h: i32,
}

impl View for TileRow {
    type V = TileRowModel;

    open spec fn view(&self) -> TileRowModel {
        TileRowModel {
            id: self.id@,
            dashboard_id: self.dashboard_id@,
            insight_id: self.insight_id@,
            x: self.x,
            y: self.y,
            w: self.w,
            h: self.h,
        }
    }
}

impl Row for TileRow {
    fn duplicate(&self) -> (r: Self) {
        TileRow {
            id: self.id.clone(),
            dashboard_id: self.dashboard_id.clone(),
            insight_id: self.insight_id.clone(),
            x: self.x,
            y: self.y,
            w: self.w,
            h: self.h,
        }
    }
}

/// The insight with an id.
pub open spec fn insight_is(id: Seq<char>) -> spec_fn(InsightRowModel) -> bool {
    |row: InsightRowModel| row.id == id
}

/// Tests [`insight_is`].
pub struct InsightById<'a> {
    pub id: &'a str,
}

impl<'a> Query<InsightRow> for InsightById<'a> {
    open spec fn pred(&self) -> spec_fn(InsightRowModel) -> bool {
        insight_is(self.id@)
    }

    fn test(&self, row: &InsightRow) -> (r: bool) {
        same(row.id.as_str(), self.id)
    }
}

/// The insights of a token.
pub open spec fn insight_of(token: Seq<char>) -> spec_fn(InsightRowModel) -> bool {
    |row: InsightRowModel| row.token == token
}

/// Tests [`insight_of`].
pub struct InsightOf<'a> {
    pub token: &'a str,
}

impl<'a> Query<InsightRow> for InsightOf<'a> {
    open spec fn pred(&self) -> spec_fn(InsightRowModel) -> bool {
        insight_of(self.token@)
    }

    fn test(&self, row: &InsightRow) -> (r: bool) {
        same(row.token.as_str(), self.token)
    }
}

/// The dashboard with an id.
pub open spec fn dashboard_is(id: Seq<char>) -> spec_fn(DashboardRowModel) -> bool {
    |row: DashboardRowModel| row.id == id
}

/// Tests [`dashboard_is`].
pub struct DashboardById<'a> {
    pub id: &'a str,
}

impl<'a> Query<DashboardRow> for DashboardById<'a> {
    open spec fn pred(&self) -> spec_fn(DashboardRowModel) -> bool {
        dashboard_is(self.id@)
    }

    fn test(&self, row: &DashboardRow) -> (r: bool) {
        same(row.id.as_str(), self.id)
    }
}

/// The dashboards of a token.
pub open spec fn dashboard_of(token: Seq<char>) -> spec_fn(DashboardRowModel) -> bool {
    |row: DashboardRowModel| row.token == token
}

/// Tests [`dashboard_of`].
pub struct DashboardOf<'a> {
    pub token: &'a str,
}

impl<'a> Query<DashboardRow> for DashboardOf<'a> {
    open spec fn pred(&self) -> spec_fn(DashboardRowModel) -> bool {
        dashboard_of(self.token@)
    }

    fn test(&self, row: &DashboardRow) -> (r: bool) {
        same(row.token.as_str(), self.token)
    }
}

/// The tile with an id.
pub open spec fn tile_is(id: Seq<char>) -> spec_fn(TileRowModel) -> bool {
    |row: TileRowModel| row.id == id
}

/// Tests [`tile_is`].
pub struct TileById<'a> {
    pub id: &'a str,
}

impl<'a> Query<TileRow> for TileById<'a> {
    open spec fn pred(&self) -> spec_fn(TileRowModel) -> bool {
        tile_is(self.id@)
    }

    fn test(&self, row: &TileRow) -> (r: bool) {
        same(row.id.as_str(), self.id)
    }
}

/// The link with an id.
pub open spec fn share_is(id: Seq<char>) -> spec_fn(ShareRowModel) -> bool {
    |row: ShareRowModel| row.link.id == id
}

/// Tests [`share_is`].
pub struct ShareById<'a> {
    pub id: &'a str,
}

impl<'a> Query<ShareRow> for ShareById<'a> {
    open spec fn pred(&self) -> spec_fn(ShareRowModel) -> bool {
        share_is(self.id@)
    }

    fn test(&self, row: &ShareRow) -> (r: bool) {
        same(row.link.id.as_str(), self.id)
    }
}

/// The link with a token.
pub open spec fn share_token_is(token: Seq<char>) -> spec_fn(ShareRowModel) -> bool {
    |row: ShareRowModel| row.link.token == token
}

/// Tests [`share_token_is`].
pub struct ShareByToken<'a> {
    pub token: &'a str,
}

impl<'a> Query<ShareRow> for ShareByToken<'a> {
    open spec fn pred(&self) -> spec_fn(ShareRowModel) -> bool {
        share_token_is(self.token@)
    }

    fn test(&self, row: &ShareRow) -> (r: bool) {
        same(row.link.token.as_str(), self.token)
    }
}

/// The tiles of a dashboard.
pub open spec fn tile_on(dashboard: Seq<char>) -> spec_fn(TileRowModel) -> bool {
    |row: TileRowModel| row.dashboard_id == dashboard
}

/// Tests [`tile_on`].
pub struct TileOn<'a> {
    pub dashboard: &'a str,
}

impl<'a> Query<TileRow> for TileOn<'a> {
    open spec fn pred(&self) -> spec_fn(TileRowModel) -> bool {
        tile_on(self.dashboard@)
    }

    fn test(&self, row: &TileRow) -> (r: bool) {
        same(row.dashboard_id.as_str(), self.dashboard)
    }
}

/// The tiles of an insight.
pub open spec fn tile_of_insight(insight: Seq<char>) -> spec_fn(TileRowModel) -> bool {
    |row: TileRowModel| row.insight_id == insight
}

/// Tests [`tile_of_insight`].
pub struct TileOfInsight<'a> {
    pub insight: &'a str,
}

impl<'a> Query<TileRow> for TileOfInsight<'a> {
    open spec fn pred(&self) -> spec_fn(TileRowModel) -> bool {
        tile_of_insight(self.insight@)
    }

    fn test(&self, row: &TileRow) -> (r: bool) {
        same(row.insight_id.as_str(), self.insight)
    }
}

/// Insights, the latest change first.
pub open spec fn latest_insight() -> spec_fn(InsightRowModel, InsightRowModel) -> bool {
    |a: InsightRowModel, b: InsightRowModel| a.updated_at > b.updated_at
}

/// Decides [`latest_insight`].
pub struct LatestInsight;

impl Sort<InsightRow> for LatestInsight {
    open spec fn before(&self) -> spec_fn(InsightRowModel, InsightRowModel) -> bool {
        latest_insight()
    }

    fn is_before(&self, a: &InsightRow, b: &InsightRow) -> (r: bool) {
        a.updated_at > b.updated_at
    }
}

/// Dashboards, the latest change first.
pub open spec fn latest_dashboard() -> spec_fn(DashboardRowModel, DashboardRowModel) -> bool {
    |a: DashboardRowModel, b: DashboardRowModel| a.updated_at > b.updated_at
}

/// Decides [`latest_dashboard`].
pub struct LatestDashboard;

impl Sort<DashboardRow> for LatestDashboard {
    open spec fn before(&self) -> spec_fn(DashboardRowModel, DashboardRowModel) -> bool {
        latest_dashboard()
    }

    fn is_before(&self, a: &DashboardRow, b: &DashboardRow) -> (r: bool) {
        a.updated_at > b.updated_at
    }
}

/// The store of insights, dashboards and links.
pub struct DashboardStore {
    pub insights: Vec<InsightRow>,
    pub dashboards: Vec<DashboardRow>,
    pub tiles: Vec<TileRow>,
    pub shares: Vec<ShareRow>,
}

/// The mathematical value of the store.
pub struct StoreModel {
    pub insights: Seq<InsightRowModel>,
    pub dashboards: Seq<DashboardRowModel>,
    pub tiles: Seq<TileRowModel>,
    pub shares: Seq<ShareRowModel>,
}

impl View for DashboardStore {
    type V = StoreModel;

    open spec fn view(&self) -> StoreModel {
        StoreModel {
            insights: views(self.insights@),
            dashboards: views(self.dashboards@),
            tiles: views(self.tiles@),
            shares: views(self.shares@),
        }
    }
}

// ── What requests lead to ─────────────────────────────────────────────────────

/// The query that a stored text stands for; null where it stands for none.
pub open spec fn stored_query(text: Seq<char>) -> JsonValue {
    match parsed_json(text) {
        Some(value) => value,
        None => JsonValue::Null,
    }
}

/// An insight as it is read.
pub open spec fn insight_read(row: InsightRowModel) -> InsightModel {
    InsightModel {
        id: row.id,
        token: row.token,
        name: row.name,
        description: row.description,
        query_ir: stored_query(row.query_ir),
        created_by: row.created_by,
        created_at: row.created_at,
        updated_at: row.updated_at,
    }
}

/// The id under which something is saved: its own, or else that of a number drawn.
pub open spec fn saved_id(own: Seq<char>, number: u128) -> Seq<char> {
    if own.len() == 0 {
        uuid_text_of(number)
    } else {
        own
    }
}

/// The insights once one is saved: one that is there keeps its token, its maker and its age.
pub open spec fn insight_put(
    rows: Seq<InsightRowModel>,
    token: Seq<char>,
    insight: InsightModel,
    id: Seq<char>,
    now: i64,
) -> Seq<InsightRowModel> {
    match index_of(rows, insight_is(id)) {
        Some(i) => rows.update(
            i,
            InsightRowModel {
                name: insight.name,
                description: insight.description,
                query_ir: rendered(insight.query_ir),
                updated_at: now,
                ..rows[i]
            },
        ),
        None => rows.push(
            InsightRowModel {
                id,
                token,
                name: insight.name,
                description: insight.description,
                query_ir: rendered(insight.query_ir),
                created_by: insight.created_by,
                created_at: now,
                updated_at: now,
            },
        ),
    }
}

/// What is returned of an insight that was saved.
pub open spec fn insight_saved(
    token: Seq<char>,
    insight: InsightModel,
    id: Seq<char>,
    now: i64,
) -> InsightModel {
    InsightModel {
        id,
        token,
        created_at: if insight.id.len() == 0 {
            now
        } else {
            insight.created_at
        },
        updated_at: now,
        ..insight
    }
}

/// A tile as it is read, with its insight where that is there.
pub open spec fn tile_read(m: StoreModel, token: Seq<char>, row: TileRowModel) -> TileModel {
    TileModel {
        insight_id: row.insight_id,
        x: row.x,
        y: row.y,
        w: row.w,
        h: row.h,
        insight: match found(m.insights, insight_is(row.insight_id)) {
            Some(insight) => Some(
                InsightModel { id: row.insight_id, token, ..insight_read(insight) },
            ),
            None => None,
        },
    }
}

/// A dashboard as it is read, without its tiles.
pub open spec fn dashboard_bare(row: DashboardRowModel) -> DashboardModel {
    DashboardModel {
        id: row.id,
        token: row.token,
        name: row.name,
        tiles: Seq::empty(),
        created_by: row.created_by,
        created_at: row.created_at,
    }
}

/// A dashboard as it is read, with its tiles.
pub open spec fn dashboard_read(m: StoreModel, id: Seq<char>) -> Result<
    DashboardModel,
    DashboardFault,
> {
    match found(m.dashboards, dashboard_is(id)) {
        None => Err(DashboardFault::NotFound),
        Some(row) => Ok(
            DashboardModel {
                tiles: selected(m.tiles, tile_on(id)).map_values(
                    |tile: TileRowModel| tile_read(m, row.token, tile),
                ),
                ..dashboard_bare(row)
            },
        ),
    }
}

/// An insight by its id.
pub open spec fn insight_got(m: StoreModel, id: Seq<char>) -> Result<InsightModel, DashboardFault> {
    match found(m.insights, insight_is(id)) {
        Some(row) => Ok(insight_read(row)),
        None => Err(DashboardFault::NotFound),
    }
}

/// The dashboards once one is saved: one that is there keeps its token, its maker and its age.
pub open spec fn dashboard_put(
    rows: Seq<DashboardRowModel>,
    token: Seq<char>,
    dashboard: DashboardModel,
    id: Seq<char>,
    now: i64,
) -> Seq<DashboardRowModel> {
    match index_of(rows, dashboard_is(id)) {
        Some(i) => rows.update(
            i,
            DashboardRowModel { name: dashboard.name, updated_at: now, ..rows[i] },
        ),
        None => rows.push(
            DashboardRowModel {
                id,
                token,
                name: dashboard.name,
                created_by: dashboard.created_by,
                created_at: now,
                updated_at: now,
            },
        ),
    }
}

/// The store once a tile is put on a dashboard, unless its id is taken or its insight is not there.
pub open spec fn tile_put(dashboard: Seq<char>) -> spec_fn(StoreModel, (TileModel, u128)) -> (
    StoreModel,
    Option<DashboardFault>,
) {
    |m: StoreModel, tile: (TileModel, u128)|
        if holds_somewhere(m.tiles, tile_is(uuid_text_of(tile.1))) {
            (m, Some(DashboardFault::Db("UNIQUE constraint failed: dashboard_tiles.id"@)))
        } else if !holds_somewhere(m.dashboards, dashboard_is(dashboard)) || !holds_somewhere(
            m.insights,
            insight_is(tile.0.insight_id),
        ) {
            (m, Some(DashboardFault::Db("FOREIGN KEY constraint failed"@)))
        } else {
            (
                StoreModel {
                    tiles: m.tiles.push(
                        TileRowModel {
                            id: uuid_text_of(tile.1),
                            dashboard_id: dashboard,
                            insight_id: tile.0.insight_id,
                            x: tile.0.x,
                            y: tile.0.y,
                            w: tile.0.w,
                            h: tile.0.h,
                        },
                    ),
                    ..m
                },
                None,
            )
        }
}

/// Tiles, each with a number.
pub open spec fn numbered(tiles: Seq<TileModel>, numbers: Seq<u128>) -> Seq<(TileModel, u128)> {
    Seq::new(tiles.len(), |i: int| (tiles[i], numbers[i]))
}

/// What saving a dashboard leads to: it is there, and its tiles are replaced, up to the first that cannot
/// be.
pub open spec fn dashboard_led(
    m: StoreModel,
    token: Seq<char>,
    dashboard: DashboardModel,
    now: i64,
    number: u128,
    numbers: Seq<u128>,
) -> (StoreModel, Result<DashboardModel, DashboardFault>) {
    let id = saved_id(dashboard.id, number);
    let cleared = StoreModel {
        dashboards: dashboard_put(m.dashboards, token, dashboard, id, now),
        tiles: removed(m.tiles, tile_on(id)),
        ..m
    };
    let (next, fault) = runs(cleared, numbered(dashboard.tiles, numbers), tile_put(id));
    match fault {
        Some(fault) => (next, Err(fault)),
        None => (next, Ok(DashboardModel { id, token, ..dashboard })),
    }
}

/// What making a link leads to, given the numbers drawn.
pub open spec fn share_led(
    m: StoreModel,
    object_type: Seq<char>,
    object_id: Seq<char>,
    created_by: Seq<char>,
    now: i64,
    first: u128,
    second: u128,
) -> (StoreModel, Result<ShareModel, DashboardFault>) {
    let share = ShareModel {
        id: uuid_text_of(first),
        object_type,
        object_id,
        token: simple_text_of(second),
        created_at: now,
        expires_at: None,
    };
    if holds_somewhere(m.shares, share_is(share.id)) {
        (m, Err(DashboardFault::Db("UNIQUE constraint failed: share_links.id"@)))
    } else if holds_somewhere(m.shares, share_token_is(share.token)) {
        (m, Err(DashboardFault::Db("UNIQUE constraint failed: share_links.token"@)))
    } else {
        (
            StoreModel {
                shares: m.shares.push(ShareRowModel { link: share, created_by }),
                ..m
            },
            Ok(share),
        )
    }
}

/// What a link shares.
pub open spec fn shared(m: StoreModel, token: Seq<char>) -> Result<SharedModel, DashboardFault> {
    match found(m.shares, share_token_is(token)) {
        None => Err(DashboardFault::NotFound),
        Some(ShareRowModel { link: share, .. }) => if share.object_type == "dashboard"@ {
            match dashboard_read(m, share.object_id) {
                Ok(dashboard) => Ok(
                    SharedModel {
                        object_type: share.object_type,
                        dashboard: Some(dashboard),
                        insight: None,
                        token: share.token,
                    },
                ),
                Err(fault) => Err(fault),
            }
        } else if share.object_type == "insight"@ {
            match insight_got(m, share.object_id) {
                Ok(insight) => Ok(
                    SharedModel {
                        object_type: share.object_type,
                        dashboard: None,
                        insight: Some(insight),
                        token: share.token,
                    },
                ),
                Err(fault) => Err(fault),
            }
        } else {
            Err(DashboardFault::NotFound)
        },
    }
}

/// The store without an insight. Its tiles go with it.
pub open spec fn insight_deleted(m: StoreModel, id: Seq<char>) -> StoreModel {
    StoreModel {
        insights: removed(m.insights, insight_is(id)),
        tiles: removed(m.tiles, tile_of_insight(id)),
        ..m
    }
}

/// The store without a dashboard. Its tiles go with it.
pub open spec fn dashboard_deleted(m: StoreModel, id: Seq<char>) -> StoreModel {
    StoreModel {
        dashboards: removed(m.dashboards, dashboard_is(id)),
        tiles: removed(m.tiles, tile_on(id)),
        ..m
    }
}

// ── Store ─────────────────────────────────────────────────────────────────────

/// Whether a query was read as it was written: where the text is that of a value that can be read back, the
/// query is that value.
pub open spec fn reads_back(text: Seq<char>, query: JsonValue) -> bool {
    forall|v: JsonValue|
        canonical(v, MAX_DEPTH as nat) && text == #[trigger] rendered(v) ==> query == v
}

fn read_query(text: &str) -> (r: Json)
    ensures
        r@ == stored_query(text@),
        reads_back(text@, r@),
{
    match Json::parse(text) {
        Some(value) => value,
        None => Json::Null,
    }
}

fn row_to_insight(row: &InsightRow) -> (r: SavedInsight)
    ensures
        r@ == insight_read(row@),
        reads_back(row.query_ir@, r.query_ir@),
{
    SavedInsight {
        id: row.id.clone(),
        token: row.token.clone(),
        name: row.name.clone(),
        description: row.description.clone(),
        query_ir: read_query(row.query_ir.as_str()),
        created_by: row.created_by.clone(),
        created_at: row.created_at,
        updated_at: row.updated_at,
    }
}

fn own_or_drawn(own: &str, number: u128) -> (r: String)
    ensures
        r@ == saved_id(own@, number),
{
    if own.is_empty() {
        uuid_text(number)
    } else {
        own.to_owned()
    }
}

fn row_to_dashboard(row: &DashboardRow) -> (r: Dashboard)
    ensures
        r@ == dashboard_bare(row@),
{
    let tiles: Vec<DashboardTile> = Vec::new();
    assert(views(tiles@) =~= Seq::<TileModel>::empty());
    Dashboard {
        id: row.id.clone(),
        token: row.token.clone(),
        name: row.name.clone(),
        tiles,
        created_by: row.created_by.clone(),
        created_at: row.created_at,
    }
}

/// Whether numbers are those of random uuids.
pub open spec fn all_random(numbers: Seq<u128>) -> bool {
    forall|i: int| 0 <= i < numbers.len() ==> uuid_version(#[trigger] numbers[i]) == 4
}

fn draw_numbers(n: usize) -> (r: Vec<u128>)
    ensures
        r@.len() == n,
        all_random(r@),
{
    let mut out: Vec<u128> = Vec::new();
    let mut i: usize = 0;
    while i < n
        invariant
            i <= n,
            out@.len() == i,
            all_random(out@),
        decreases n - i,
    {
        out.push(fresh_v4());
        i += 1;
    }
    out
}

impl DashboardStore {
    /// An empty store.
    pub fn open_in_memory() -> (r: Result<DashboardStore, DashboardError>)
        ensures
            r matches Ok(store) && store@ == (StoreModel {
                insights: Seq::empty(),
                dashboards: Seq::empty(),
                tiles: Seq::empty(),
                shares: Seq::empty(),
            }),
    {
        let store = DashboardStore {
            insights: Vec::new(),
            dashboards: Vec::new(),
            tiles: Vec::new(),
            shares: Vec::new(),
        };
        assert(store@.insights =~= Seq::empty());
        assert(store@.dashboards =~= Seq::empty());
        assert(store@.tiles =~= Seq::empty());
        assert(store@.shares =~= Seq::empty());
        Ok(store)
    }

    /// The insights of a token, the latest change first.
    pub fn list_insights(&self, token: &str) -> (r: Result<Vec<SavedInsight>, DashboardError>)
        ensures
            r matches Ok(insights) && views(insights@) == sorted(
                selected(self@.insights, insight_of(token@)),
                latest_insight(),
            ).map_values(|row: InsightRowModel| insight_read(row)),
    {
        let rows = select_sorted(&self.insights, &InsightOf { token }, &LatestInsight);
        let mut out: Vec<SavedInsight> = Vec::new();
        let mut i: usize = 0;
        while i < rows.len()
            invariant
                i <= rows.len(),
                out@.len() == i,
                forall|j: int| 0 <= j < i ==> (#[trigger] out@[j])@ == insight_read(rows@[j]@),
            decreases rows.len() - i,
        {
            out.push(row_to_insight(&rows[i]));
            i += 1;
        }
        assert(views(out@) =~= views(rows@).map_values(
            |row: InsightRowModel| insight_read(row),
        ));
        Ok(out)
    }

    /// An insight by its id.
    pub fn get_insight(&self, id: &str) -> (r: Result<SavedInsight, DashboardError>)
        ensures
            outcome(r) == insight_got(self@, id@),
            r matches Ok(insight) ==> reads_back(
                found(self@.insights, insight_is(id@))->Some_0.query_ir,
                insight.query_ir@,
            ),
    {
        match find(&self.insights, &InsightById { id }) {
            Some(i) => Ok(row_to_insight(&self.insights[i])),
            None => Err(DashboardError::NotFound),
        }
    }

    /// Saves an insight, given the number for its id if it has none.
    pub fn save_insight_with(
        &mut self,
        token: &str,
        insight: &SavedInsight,
        now: i64,
        number: u128,
    ) -> (r: Result<SavedInsight, DashboardError>)
        ensures
            final(self)@ == (StoreModel {
                insights: insight_put(
                    old(self)@.insights,
                    token@,
                    insight@,
                    saved_id(insight@.id, number),
                    now,
                ),
                ..old(self)@
            }),
            r matches Ok(saved) && saved@ == insight_saved(
                token@,
                insight@,
                saved_id(insight@.id, number),
                now,
            ),
    {
        let id = own_or_drawn(insight.id.as_str(), number);
        let query_ir = insight.query_ir.render();
        match find(&self.insights, &InsightById { id: id.as_str() }) {
            Some(i) => {
                let mut row = self.insights[i].duplicate();
                assert(self@.insights[i as int] == self.insights@[i as int]@);
                row.name = insight.name.clone();
                row.description = insight.description.clone();
                row.query_ir = query_ir;
                row.updated_at = now;
                replace(&mut self.insights, i, row);
            },
            None => {
                append(
                    &mut self.insights,
                    InsightRow {
                        id: id.clone(),
                        token: token.to_owned(),
                        name: insight.name.clone(),
                        description: insight.description.clone(),
                        query_ir,
                        created_by: insight.created_by.clone(),
                        created_at: now,
                        updated_at: now,
                    },
                );
            },
        }
        Ok(
            SavedInsight {
                id,
                token: token.to_owned(),
                name: insight.name.clone(),
                description: insight.description.clone(),
                query_ir: insight.query_ir.copy(),
                created_by: insight.created_by.clone(),
                created_at: if insight.id.as_str().is_empty() {
                    now
                } else {
                    insight.created_at
                },
                updated_at: now,
            },
        )
    }

    /// Saves an insight.
    pub fn save_insight(&mut self, token: &str, insight: &SavedInsight, now: i64) -> (r: Result<
        SavedInsight,
        DashboardError,
    >)
        ensures
            exists|number: u128|
                uuid_version(number) == 4 && final(self)@ == (StoreModel {
                    insights: insight_put(
                        old(self)@.insights,
                        token@,
                        insight@,
                        #[trigger] saved_id(insight@.id, number),
                        now,
                    ),
                    ..old(self)@
                }) && (r matches Ok(saved) && saved@ == insight_saved(
                    token@,
                    insight@,
                    saved_id(insight@.id, number),
                    now,
                )),
    {
        let number: u128 = fresh_v4();
        self.save_insight_with(token, insight, now, number)
    }

    /// Deletes an insight with its tiles.
    pub fn delete_insight(&mut self, id: &str) -> (r: Result<(), DashboardError>)
        ensures
            if holds_somewhere(old(self)@.insights, insight_is(id@)) {
                r is Ok && final(self)@ == insight_deleted(old(self)@, id@)
            } else {
                r matches Err(e) && e@ == DashboardFault::NotFound && final(self)@ == old(self)@
            },
    {
        if find(&self.insights, &InsightById { id }).is_none() {
            return Err(DashboardError::NotFound);
        }
        remove(&mut self.insights, &InsightById { id });
        remove(&mut self.tiles, &TileOfInsight { insight: id });
        Ok(())
    }

    /// The dashboards of a token without their tiles, the latest change first.
    pub fn list_dashboards(&self, token: &str) -> (r: Result<Vec<Dashboard>, DashboardError>)
        ensures
            r matches Ok(dashboards) && views(dashboards@) == sorted(
                selected(self@.dashboards, dashboard_of(token@)),
                latest_dashboard(),
            ).map_values(|row: DashboardRowModel| dashboard_bare(row)),
    {
        let rows = select_sorted(&self.dashboards, &DashboardOf { token }, &LatestDashboard);
        let mut out: Vec<Dashboard> = Vec::new();
        let mut i: usize = 0;
        while i < rows.len()
            invariant
                i <= rows.len(),
                out@.len() == i,
                forall|j: int| 0 <= j < i ==> (#[trigger] out@[j])@ == dashboard_bare(rows@[j]@),
            decreases rows.len() - i,
        {
            out.push(row_to_dashboard(&rows[i]));
            i += 1;
        }
        assert(views(out@) =~= views(rows@).map_values(
            |row: DashboardRowModel| dashboard_bare(row),
        ));
        Ok(out)
    }

    fn read_tile(&self, token: &str, row: &TileRow) -> (r: DashboardTile)
        ensures
            r@ == tile_read(self@, token@, row@),
    {
        let insight = match find(&self.insights, &InsightById { id: row.insight_id.as_str() }) {
            Some(i) => {
                assert(self@.insights[i as int] == self.insights@[i as int]@);
                let mut insight = row_to_insight(&self.insights[i]);
                insight.id = row.insight_id.clone();
                insight.token = token.to_owned();
                Some(insight)
            },
            None => None,
        };
        DashboardTile {
            insight_id: row.insight_id.clone(),
            x: row.x,
            y: row.y,
            w: row.w,
            h: row.h,
            insight,
        }
    }

    /// A dashboard with its tiles and their insights.
    pub fn get_dashboard(&self, id: &str) -> (r: Result<Dashboard, DashboardError>)
        ensures
            outcome(r) == dashboard_read(self@, id@),
    {
        let k: usize = match find(&self.dashboards, &DashboardById { id }) {
            Some(k) => k,
            None => {
                return Err(DashboardError::NotFound);
            },
        };
        assert(self@.dashboards[k as int] == self.dashboards@[k as int]@);
        let mut dashboard = row_to_dashboard(&self.dashboards[k]);
        let rows = select(&self.tiles, &TileOn { dashboard: id });
        let mut tiles: Vec<DashboardTile> = Vec::new();
        let mut i: usize = 0;
        while i < rows.len()
            invariant
                i <= rows.len(),
                tiles@.len() == i,
                forall|j: int|
                    0 <= j < i ==> (#[trigger] tiles@[j])@ == tile_read(
                        self@,
                        dashboard@.token,
                        rows@[j]@,
                    ),
            decreases rows.len() - i,
        {
            tiles.push(self.read_tile(dashboard.token.as_str(), &rows[i]));
            i += 1;
        }
        assert(views(tiles@) =~= views(rows@).map_values(
            |tile: TileRowModel| tile_read(self@, dashboard@.token, tile),
        ));
        dashboard.tiles = tiles;
        Ok(dashboard)
    }

    fn put_dashboard(&mut self, token: &str, dashboard: &Dashboard, id: &str, now: i64)
        ensures
            final(self)@ == (StoreModel {
                dashboards: dashboard_put(
                    old(self)@.dashboards,
                    token@,
                    dashboard@,
                    id@,
                    now,
                ),
                ..old(self)@
            }),
    {
        match find(&self.dashboards, &DashboardById { id }) {
            Some(i) => {
                assert(self@.dashboards[i as int] == self.dashboards@[i as int]@);
                let mut row = self.dashboards[i].duplicate();
                row.name = dashboard.name.clone();
                row.updated_at = now;
                replace(&mut self.dashboards, i, row);
            },
            None => {
                append(
                    &mut self.dashboards,
                    DashboardRow {
                        id: id.to_owned(),
                        token: token.to_owned(),
                        name: dashboard.name.clone(),
                        created_by: dashboard.created_by.clone(),
                        created_at: now,
                        updated_at: now,
                    },
                );
            },
        }
    }

    fn put_tiles(&mut self, tiles: &Vec<DashboardTile>, id: &str, numbers: &Vec<u128>) -> (r: Result<
        (),
        DashboardError,
    >)
        requires
            numbers@.len() >= tiles@.len(),
        ensures
            ({
                let (next, fault) = runs(
                    old(self)@,
                    numbered(views(tiles@), numbers@),
                    tile_put(id@),
                );
                final(self)@ == next && match fault {
                    Some(fault) => r matches Err(e) && e@ == fault,
                    None => r is Ok,
                }
            }),
    {
        let ghost all = numbered(views(tiles@), numbers@);
        let ghost start = self@;
        let mut i: usize = 0;
        assert(all.take(0) =~= Seq::<(TileModel, u128)>::empty());
        while i < tiles.len()
            invariant
                i <= tiles.len(),
                numbers@.len() >= tiles@.len(),
                all == numbered(views(tiles@), numbers@),
                start == old(self)@,
                runs(start, all.take(i as int), tile_put(id@)) == (
                    self@,
                    None::<DashboardFault>,
                ),
            decreases tiles.len() - i,
        {
            assert(all.take(i + 1).drop_last() =~= all.take(i as int));
            assert(all.take(i + 1).last() == (tiles@[i as int]@, numbers@[i as int]));
            proof {
                lemma_runs_stop(start, all, tile_put(id@), i + 1);
            }
            let tile_id = uuid_text(numbers[i]);
            if find(&self.tiles, &TileById { id: tile_id.as_str() }).is_some() {
                return Err(
                    DashboardError::Db(
                        "UNIQUE constraint failed: dashboard_tiles.id".to_owned(),
                    ),
                );
            }
            if find(&self.dashboards, &DashboardById { id }).is_none() || find(
                &self.insights,
                &InsightById { id: tiles[i].insight_id.as_str() },
            ).is_none() {
                return Err(DashboardError::Db("FOREIGN KEY constraint failed".to_owned()));
            }
            append(
                &mut self.tiles,
                TileRow {
                    id: tile_id,
                    dashboard_id: id.to_owned(),
                    insight_id: tiles[i].insight_id.clone(),
                    x: tiles[i].x,
                    y: tiles[i].y,
                    w: tiles[i].w,
                    h: tiles[i].h,
                },
            );
            i += 1;
        }
        assert(all.take(all.len() as int) =~= all);
        Ok(())
    }

    /// Saves a dashboard with its tiles, given the numbers for ids.
    pub fn save_dashboard_with(
        &mut self,
        token: &str,
        dashboard: &Dashboard,
        now: i64,
        number: u128,
        numbers: &Vec<u128>,
    ) -> (r: Result<Dashboard, DashboardError>)
        requires
            numbers@.len() >= dashboard@.tiles.len(),
        ensures
            (final(self)@, outcome(r)) == dashboard_led(
                old(self)@,
                token@,
                dashboard@,
                now,
                number,
                numbers@,
            ),
    {
        let id = own_or_drawn(dashboard.id.as_str(), number);
        self.put_dashboard(token, dashboard, id.as_str(), now);
        remove(&mut self.tiles, &TileOn { dashboard: id.as_str() });
        assert(dashboard.tiles@.len() == views(dashboard.tiles@).len());
        match self.put_tiles(&dashboard.tiles, id.as_str(), numbers) {
            Ok(()) => {},
            Err(e) => {
                return Err(e);
            },
        }
        Ok(
            Dashboard {
                id,
                token: token.to_owned(),
                name: dashboard.name.clone(),
                tiles: duplicate_all(&dashboard.tiles),
                created_by: dashboard.created_by.clone(),
                created_at: dashboard.created_at,
            },
        )
    }

    /// Saves a dashboard with its tiles.
    pub fn save_dashboard(&mut self, token: &str, dashboard: &Dashboard, now: i64) -> (r: Result<
        Dashboard,
        DashboardError,
    >)
        ensures
            exists|number: u128, numbers: Seq<u128>|
                uuid_version(number) == 4 && all_random(numbers) && numbers.len()
                    == dashboard@.tiles.len() && (final(self)@, outcome(r))
                    == #[trigger] dashboard_led(
                    old(self)@,
                    token@,
                    dashboard@,
                    now,
                    number,
                    numbers,
                ),
    {
        let number: u128 = fresh_v4();
        let numbers = draw_numbers(dashboard.tiles.len());
        assert(dashboard.tiles@.len() == views(dashboard.tiles@).len());
        self.save_dashboard_with(token, dashboard, now, number, &numbers)
    }

    /// Deletes a dashboard with its tiles.
    pub fn delete_dashboard(&mut self, id: &str) -> (r: Result<(), DashboardError>)
        ensures
            if holds_somewhere(old(self)@.dashboards, dashboard_is(id@)) {
                r is Ok && final(self)@ == dashboard_deleted(old(self)@, id@)
            } else {
                r matches Err(e) && e@ == DashboardFault::NotFound && final(self)@ == old(self)@
            },
    {
        if find(&self.dashboards, &DashboardById { id }).is_none() {
            return Err(DashboardError::NotFound);
        }
        remove(&mut self.dashboards, &DashboardById { id });
        remove(&mut self.tiles, &TileOn { dashboard: id });
        Ok(())
    }

    /// Makes a link that shares something, given the numbers drawn.
    pub fn create_share_with(
        &mut self,
        object_type: &str,
        object_id: &str,
        created_by: &str,
        now: i64,
        first: u128,
        second: u128,
    ) -> (r: Result<ShareLink, DashboardError>)
        ensures
            (final(self)@, outcome(r)) == share_led(
                old(self)@,
                object_type@,
                object_id@,
                created_by@,
                now,
                first,
                second,
            ),
    {
        let share = ShareLink {
            id: uuid_text(first),
            object_type: object_type.to_owned(),
            object_id: object_id.to_owned(),
            token: simple_text(second),
            created_at: now,
            expires_at: None,
        };
        if find(&self.shares, &ShareById { id: share.id.as_str() }).is_some() {
            return Err(
                DashboardError::Db("UNIQUE constraint failed: share_links.id".to_owned()),
            );
        }
        if find(&self.shares, &ShareByToken { token: share.token.as_str() }).is_some() {
            return Err(
                DashboardError::Db("UNIQUE constraint failed: share_links.token".to_owned()),
            );
        }
        let made = share.duplicate();
        append(&mut self.shares, ShareRow { link: share, created_by: created_by.to_owned() });
        Ok(made)
    }

    /// Makes a link that shares something.
    pub fn create_share(
        &mut self,
        object_type: &str,
        object_id: &str,
        created_by: &str,
        now: i64,
    ) -> (r: Result<ShareLink, DashboardError>)
        ensures
            exists|first: u128, second: u128|
                uuid_version(first) == 4 && uuid_version(second) == 4 && (final(self)@, outcome(r)) == #[trigger] share_led(
                    old(self)@,
                    object_type@,
                    object_id@,
                    created_by@,
                    now,
                    first,
                    second,
                ),
    {
        let first: u128 = fresh_v4();
        let second: u128 = fresh_v4();
        self.create_share_with(object_type, object_id, created_by, now, first, second)
    }

    /// What a link shares.
    pub fn get_shared(&self, share_token: &str) -> (r: Result<SharedObject, DashboardError>)
        ensures
            outcome(r) == shared(self@, share_token@),
    {
        let i: usize = match find(&self.shares, &ShareByToken { token: share_token }) {
            Some(i) => i,
            None => {
                return Err(DashboardError::NotFound);
            },
        };
        let object_type = self.shares[i].link.object_type.clone();
        let token = self.shares[i].link.token.clone();
        if same(object_type.as_str(), "dashboard") {
            match self.get_dashboard(self.shares[i].link.object_id.as_str()) {
                Ok(dashboard) => Ok(
                    SharedObject { object_type, dashboard: Some(dashboard), insight: None, token },
                ),
                Err(e) => Err(e),
            }
        } else if same(object_type.as_str(), "insight") {
            match self.get_insight(self.shares[i].link.object_id.as_str()) {
                Ok(insight) => Ok(
                    SharedObject { object_type, dashboard: None, insight: Some(insight), token },
                ),
                Err(e) => Err(e),
            }
        } else {
            Err(DashboardError::NotFound)
        }
    }

    /// Deletes a link.
    pub fn delete_share(&mut self, id: &str) -> (r: Result<(), DashboardError>)
        ensures
            r is Ok,
            final(self)@ == (StoreModel {
                shares: removed(old(self)@.shares, share_is(id@)),
                ..old(self)@
            }),
    {
        remove(&mut self.shares, &ShareById { id });
        Ok(())
    }
}

// ── Laws ──────────────────────────────────────────────────────────────────────

/// An insight that was saved is read back under its id, with its name, its description and its query as
/// they were stored.
pub proof fn law_insights_read_back(
    m: StoreModel,
    token: Seq<char>,
    insight: InsightModel,
    now: i64,
    number: u128,
)
    ensures
        ({
            let id = saved_id(insight.id, number);
            let next = StoreModel {
                insights: insight_put(m.insights, token, insight, id, now),
                ..m
            };
            insight_got(next, id) matches Ok(read) && read.id == id && read.name == insight.name
                && read.description == insight.description && read.query_ir == stored_query(
                rendered(insight.query_ir),
            ) && read.updated_at == now
        }),
{
    let id = saved_id(insight.id, number);
    let rows = m.insights;
    let next = insight_put(rows, token, insight, id, now);
    let p = insight_is(id);
    lemma_index_of(rows, p);
    match index_of(rows, p) {
        Some(i) => {
            assert forall|j: int| 0 <= j < i implies !p(#[trigger] next[j]) by {
                assert(next[j] == rows[j]);
            }
            lemma_index_is(next, p, i);
        },
        None => {
            let n = rows.len() as int;
            assert forall|j: int| 0 <= j < n implies !p(#[trigger] next[j]) by {
                assert(next[j] == rows[j]);
            }
            lemma_index_is(next, p, n);
        },
    }
}

/// An insight that was deleted leaves nothing: it is not read, and no dashboard has a tile of it.
pub proof fn law_deleted_insights_leave_nothing(m: StoreModel, id: Seq<char>, dashboard: Seq<char>)
    ensures
        insight_got(insight_deleted(m, id), id) == Err::<InsightModel, DashboardFault>(
            DashboardFault::NotFound,
        ),
        dashboard_read(insight_deleted(m, id), dashboard) matches Ok(d) ==> forall|i: int|
            0 <= i < d.tiles.len() ==> (#[trigger] d.tiles[i]).insight_id != id,
{
    let next = insight_deleted(m, id);
    let left = next.insights;
    assert forall|j: int| 0 <= j < left.len() implies !insight_is(id)(#[trigger] left[j]) by {
        lemma_removed(m.insights, insight_is(id), left[j]);
        assert(left.contains(left[j]));
    }
    lemma_index_none(left, insight_is(id));
    let tiles = selected(next.tiles, tile_on(dashboard));
    if let Ok(d) = dashboard_read(next, dashboard) {
        assert forall|i: int| 0 <= i < d.tiles.len() implies (#[trigger] d.tiles[i]).insight_id
            != id by {
            lemma_selected(next.tiles, tile_on(dashboard), tiles[i]);
            assert(tiles.contains(tiles[i]));
            lemma_removed(m.tiles, tile_of_insight(id), tiles[i]);
        }
    }
}

/// A dashboard that was deleted is not read, and none of its tiles is left.
pub proof fn law_deleted_dashboards_leave_nothing(m: StoreModel, id: Seq<char>, row: TileRowModel)
    ensures
        dashboard_read(dashboard_deleted(m, id), id) == Err::<DashboardModel, DashboardFault>(
            DashboardFault::NotFound,
        ),
        dashboard_deleted(m, id).tiles.contains(row) ==> row.dashboard_id != id,
{
    let left = dashboard_deleted(m, id).dashboards;
    assert forall|j: int| 0 <= j < left.len() implies !dashboard_is(id)(#[trigger] left[j]) by {
        lemma_removed(m.dashboards, dashboard_is(id), left[j]);
        assert(left.contains(left[j]));
    }
    lemma_index_none(left, dashboard_is(id));
    lemma_removed(m.tiles, tile_on(id), row);
}

/// A link to an insight shares it for as long as it is there.
pub proof fn law_links_share_insights(
    m: StoreModel,
    object_id: Seq<char>,
    created_by: Seq<char>,
    now: i64,
    first: u128,
    second: u128,
)
    requires
        share_led(m, "insight"@, object_id, created_by, now, first, second).1 is Ok,
    ensures
        ({
            let (next, made) = share_led(m, "insight"@, object_id, created_by, now, first, second);
            match insight_got(m, object_id) {
                Ok(insight) => shared(next, made->Ok_0.token) == Ok::<SharedModel, DashboardFault>(
                    SharedModel {
                        object_type: "insight"@,
                        dashboard: None,
                        insight: Some(insight),
                        token: made->Ok_0.token,
                    },
                ),
                Err(fault) => shared(next, made->Ok_0.token) == Err::<
                    SharedModel,
                    DashboardFault,
                >(fault),
            }
        }),
{
    let (next, made) = share_led(m, "insight"@, object_id, created_by, now, first, second);
    reveal_strlit("insight");
    reveal_strlit("dashboard");
    assert("insight"@.len() != "dashboard"@.len());
    assert(next.shares.drop_last() =~= m.shares);
}

/// A link that was deleted shares nothing, if no other link has its token.
pub proof fn law_deleted_links_share_nothing(m: StoreModel, share: ShareRowModel)
    requires
        m.shares.contains(share),
        forall|i: int, j: int|
            0 <= i < m.shares.len() && 0 <= j < m.shares.len() && (#[trigger] m.shares[i]).link.token
                == (#[trigger] m.shares[j]).link.token ==> i == j,
    ensures
        shared(
            (StoreModel { shares: removed(m.shares, share_is(share.link.id)), ..m }),
            share.link.token,
        ) == Err::<SharedModel, DashboardFault>(DashboardFault::NotFound),
{
    let left = removed(m.shares, share_is(share.link.id));
    let k = choose|k: int| 0 <= k < m.shares.len() && m.shares[k] == share;
    assert forall|j: int| 0 <= j < left.len() implies !share_token_is(share.link.token)(
        #[trigger] left[j],
    ) by {
        lemma_removed(m.shares, share_is(share.link.id), left[j]);
        assert(left.contains(left[j]));
        let i = choose|i: int| 0 <= i < m.shares.len() && m.shares[i] == left[j];
        if m.shares[i].link.token == share.link.token {
            assert(m.shares[k].link.token == m.shares[i].link.token);
        }
    }
    lemma_index_none(left, share_token_is(share.link.token));
}

} // verus!
