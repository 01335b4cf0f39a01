//! The resources of projects: feature flags, saved insights, dashboards, tiles and share links.
//!
//! Every resource belongs to a project, and every operation names the project that it works in.
use vstd::prelude::*;
use vstd::string::*;
use vstd::utf8::encode_utf8;

use crate::capture::event::{option_view, uuid_version};
use crate::control::access::{project_is, ProjectAccess, ProjectById, ProjectRowModel};
use crate::digest::{fresh_v4, simple_text, simple_text_of, uuid_text, uuid_text_of};
use crate::flags::{is_percentage, percentage_ok, Percentage, Variant, VariantModel};
use crate::json::{Json, JsonValue};
use crate::order::{outcome, views};
use crate::rows::{
    append, duplicate_all, find, found, holds_somewhere, index_of, lemma_index_is,
    lemma_index_none, lemma_index_of, lemma_removed, lemma_selected_concat, lemma_selected_whole, remove,
    removed, replace, select_sorted,
    selected, sorted, Query, Row, Sort,
};
use crate::text::{
    blank, byte_len, copy_option, decimal, decimal_text, is_blank, joined, same, text_at_most,
    text_le,
};

verus! {

/// The longest key.
pub const MAX_KEY_BYTES: usize = 256;

/// The longest name.
pub const MAX_NAME_BYTES: usize = 512;

// ── Errors ────────────────────────────────────────────────────────────────────

/// Why an operation on resources fails.
#[derive(Debug)]
pub enum ControlResourceError {
    Database(String),
    InvalidStorage,
    Unavailable,
    NotFound,
    Conflict,
    InvalidResource { field: &'static str, message: String },
    InvalidQuery { place: String, message: String },
}

/// The mathematical value of a [`ControlResourceError`].
pub enum ResourceFault {
    Database(Seq<char>),
    InvalidStorage,
    Unavailable,
    NotFound,
    Conflict,
    InvalidResource(Seq<char>, Seq<char>),
    InvalidQuery(Seq<char>, Seq<char>),
}

impl View for ControlResourceError {
    type V = ResourceFault;

    open spec fn view(&self) -> ResourceFault {
        match self {
            ControlResourceError::Database(s) => ResourceFault::Database(s@),
            ControlResourceError::InvalidStorage => ResourceFault::InvalidStorage,
            ControlResourceError::Unavailable => ResourceFault::Unavailable,
            ControlResourceError::NotFound => ResourceFault::NotFound,
            ControlResourceError::Conflict => ResourceFault::Conflict,
            ControlResourceError::InvalidResource { field, message } =>
                ResourceFault::InvalidResource(field@, message@),
            ControlResourceError::InvalidQuery { place, message } => ResourceFault::InvalidQuery(
                place@,
                message@,
            ),
        }
    }
}

/// The message of an error.
pub open spec fn resource_message(fault: ResourceFault) -> Seq<char> {
    match fault {
        ResourceFault::Database(s) => "control resource database error: "@ + s,
        ResourceFault::InvalidStorage => "not a validated Hoglet control database"@,
        ResourceFault::Unavailable => "control resources unavailable"@,
        ResourceFault::NotFound => "resource not found"@,
        ResourceFault::Conflict => "resource conflict"@,
        ResourceFault::InvalidResource(field, message) => "invalid "@ + field + ": "@ + message,
        ResourceFault::InvalidQuery(field, message) => "invalid query at "@ + field + ": "@
            + message,
    }
}

impl ControlResourceError {
    /// What the error says.
    pub fn message(&self) -> (r: String)
        ensures
            r@ == resource_message(self@),
    {
        match self {
            ControlResourceError::Database(s) => joined(
                "control resource database error: ",
                s.as_str(),
            ),
            ControlResourceError::InvalidStorage =>
                "not a validated Hoglet control database".to_owned(),
            ControlResourceError::Unavailable => "control resources unavailable".to_owned(),
            ControlResourceError::NotFound => "resource not found".to_owned(),
            ControlResourceError::Conflict => "resource conflict".to_owned(),
            ControlResourceError::InvalidResource { field, message } => {
                let mut out = joined("invalid ", *field);
                out.append(": ");
                out.append(message.as_str());
                out
            },
            ControlResourceError::InvalidQuery { place, message } => {
                let mut out = joined("invalid query at ", place.as_str());
                out.append(": ");
                out.append(message.as_str());
                out
            },
        }
    }
}

// ── Values ────────────────────────────────────────────────────────────────────

/// A feature flag of a project.
pub struct FeatureFlag {
    pub key: String,
    pub active: bool,
    pub rollout_percentage: Percentage,
    pub variants: Vec<Variant>,
    pub payload: Option<String>,
}

/// The mathematical value of a [`FeatureFlag`].
pub struct FeatureFlagModel {
    pub key: Seq<char>,
    pub active: bool,
    pub rollout_percentage: Percentage,
    pub variants: Seq<VariantModel>,
    pub payload: Option<Seq<char>>,
}

impl View for FeatureFlag {
    type V = FeatureFlagModel;

    open spec fn view(&self) -> FeatureFlagModel {
        FeatureFlagModel {
            key: self.key@,
            active: self.active,
            rollout_percentage: self.rollout_percentage,
            variants: views(self.variants@),
            payload: option_view(self.payload),
        }
    }
}

impl Row for FeatureFlag {
    fn duplicate(&self) -> (r: Self) {
        FeatureFlag {
            key: self.key.clone(),
            active: self.active,
            rollout_percentage: self.rollout_percentage,
            variants: duplicate_all(&self.variants),
            payload: copy_option(&self.payload),
        }
    }
}

/// A flag that is taken over with its history.
pub struct ImportedFeatureFlag {
    pub flag: FeatureFlag,
    pub created_at: i64,
    pub updated_at: i64,
}

/// The mathematical value of a [`ImportedFeatureFlag`].
pub struct ImportedFlagModel {
    pub flag: FeatureFlagModel,
    pub created_at: i64,
    pub updated_at: i64,
}

impl View for ImportedFeatureFlag {
    type V = ImportedFlagModel;

    open spec fn view(&self) -> ImportedFlagModel {
        ImportedFlagModel {
            flag: self.flag@,
            created_at: self.created_at,
            updated_at: self.updated_at,
        }
    }
}

/// An insight that is to be saved.
pub struct InsightDraft {
    pub name: String,
    pub description: String,
    pub query_ir: Json,
}

/// The mathematical value of a [`InsightDraft`].
pub struct InsightDraftModel {
    pub name: Seq<char>,
    pub description: Seq<char>,
    pub query_ir: JsonValue,
}

impl View for InsightDraft {
    type V = InsightDraftModel;

    open spec fn view(&self) -> InsightDraftModel {
        InsightDraftModel {
            name: self.name@,
            description: self.description@,
            query_ir: self.query_ir@,
        }
    }
}

/// An insight that is taken over with its history.
pub struct ImportedInsight {
    pub id: String,
    pub name: String,
    pub description: String,
    pub query_ir: Json,
    pub created_by: String,
    pub created_at: i64,
    pub updated_at: i64,
}

/// The mathematical value of a [`ImportedInsight`].
pub struct ImportedInsightModel {
    pub id: Seq<char>,
    pub name: Seq<char>,
    pub description: Seq<char>,
    pub query_ir: JsonValue,
    pub created_by: Seq<char>,
    pub created_at: i64,
    pub updated_at: i64,
}

impl View for ImportedInsight {
    type V = ImportedInsightModel;

    open spec fn view(&self) -> ImportedInsightModel {
        ImportedInsightModel {
            id: self.id@,
            name: self.name@,
            description: self.description@,
            query_ir: self.query_ir@,
            created_by: self.created_by@,
            created_at: self.created_at,
            updated_at: self.updated_at,
        }
    }
}

/// A saved insight.
pub struct SavedInsight {
    pub id: String,
    pub project_id: String,
    pub name: String,
    pub description: String,
    pub query_ir: Json,
    pub created_by: String,
    pub created_at: i64,
    pub updated_at: i64,
}

/// The mathematical value of a [`SavedInsight`].
pub struct InsightModel {
    pub id: Seq<char>,
    pub project_id: Seq<char>,
    pub name: Seq<char>,
    pub description: Seq<char>,
    pub query_ir: JsonValue,
    pub created_by: Seq<char>,
    pub created_at: i64,
    pub updated_at: i64,
}

impl View for SavedInsight {
    type V = InsightModel;

    open spec fn view(&self) -> InsightModel {
        InsightModel {
            id: self.id@,
            project_id: self.project_id@,
            name: self.name@,
            description: self.description@,
            query_ir: self.query_ir@,
            created_by: self.created_by@,
            created_at: self.created_at,
            updated_at: self.updated_at,
        }
    }
}

impl Row for SavedInsight {
    fn duplicate(&self) -> (r: Self) {
        SavedInsight {
            id: self.id.clone(),
            project_id: self.project_id.clone(),
            name: self.name.clone(),
            description: self.description.clone(),
            query_ir: self.query_ir.duplicate(),
            created_by: self.created_by.clone(),
            created_at: self.created_at,
            updated_at: self.updated_at,
        }
    }
}

/// A dashboard that is to be made.
pub struct DashboardDraft {
    pub name: String,
}

/// The mathematical value of a [`DashboardDraft`].
pub struct DashboardDraftModel {
    pub name: Seq<char>,
}

impl View for DashboardDraft {
    type V = DashboardDraftModel;

    open spec fn view(&self) -> DashboardDraftModel {
        DashboardDraftModel {
            name: self.name@,
        }
    }
}

/// A place on a dashboard, and the insight that it shows.
pub struct DashboardTileInput {
    pub insight_id: String,
    pub x: i32,
    pub y: i32,
    pub w: i32,
    pub h: i32,
}

/// The mathematical value of a [`DashboardTileInput`].
pub struct TileInputModel {
    pub insight_id: Seq<char>,
    pub x: i32,
    pub y: i32,
    pub w: i32,
    pub h: i32,
}

impl View for DashboardTileInput {
    type V = TileInputModel;

    open spec fn view(&self) -> TileInputModel {
        TileInputModel {
            insight_id: self.insight_id@,
            x: self.x,
            y: self.y,
            w: self.w,
            h: self.h,
        }
    }
}

impl Row for DashboardTileInput {
    fn duplicate(&self) -> (r: Self) {
        DashboardTileInput {
            insight_id: self.insight_id.clone(),
            x: self.x,
            y: self.y,
            w: self.w,
            h: self.h,
        }
    }
}

/// A dashboard that is taken over with its history.
pub struct ImportedDashboard {
    pub id: String,
    pub name: String,
    pub tiles: Vec<DashboardTileInput>,
    pub created_by: String,
    pub created_at: i64,
    pub updated_at: i64,
}

/// The mathematical value of a [`ImportedDashboard`].
pub struct ImportedDashboardModel {
    pub id: Seq<char>,
    pub name: Seq<char>,
    pub tiles: Seq<TileInputModel>,
    pub created_by: Seq<char>,
    pub created_at: i64,
    pub updated_at: i64,
}

impl View for ImportedDashboard {
    type V = ImportedDashboardModel;

    open spec fn view(&self) -> ImportedDashboardModel {
        ImportedDashboardModel {
            id: self.id@,
            name: self.name@,
            tiles: views(self.tiles@),
            created_by: self.created_by@,
            created_at: self.created_at,
            updated_at: self.updated_at,
        }
    }
}

/// A place on a dashboard with the insight itself.
pub struct DashboardTile {
    pub insight_id: String,
    pub x: i32,
    pub y: i32,
    pub w: i32,
    pub h: i32,
    pub insight: Option<SavedInsight>,
}

/// The mathematical value of a [`DashboardTile`].
pub struct TileModel {
    pub insight_id: Seq<char>,
    pub x: i32,
    pub y: i32,
    pub w: i32,
    pub h: i32,
    pub insight: Option<InsightModel>,
}

impl View for DashboardTile {
    type V = TileModel;

    open spec fn view(&self) -> TileModel {
        TileModel {
            insight_id: self.insight_id@,
            x: self.x,
            y: self.y,
            w: self.w,
            h: self.h,
            insight: match self.insight {
                Some(i) => Some(i@),
                None => None,
            },
        }
    }
}

/// A dashboard with its tiles in order.
pub struct Dashboard {
    pub id: String,
    pub project_id: String,
    pub name: String,
    pub tiles: Vec<DashboardTile>,
    pub created_by: String,
    pub created_at: i64,
}

/// The mathematical value of a [`Dashboard`].
pub struct DashboardModel {
    pub id: Seq<char>,
    pub project_id: Seq<char>,
    pub name: Seq<char>,
    pub tiles: Seq<TileModel>,
    pub created_by: Seq<char>,
    pub created_at: i64,
}

impl View for Dashboard {
    type V = DashboardModel;

    open spec fn view(&self) -> DashboardModel {
        DashboardModel {
            id: self.id@,
            project_id: self.project_id@,
            name: self.name@,
            tiles: views(self.tiles@),
            created_by: self.created_by@,
            created_at: self.created_at,
        }
    }
}

/// What a link shares.
#[derive(Debug, Clone, Copy, PartialEq, Eq, Structural)]
pub enum ShareTarget {
    Insight,
    Dashboard,
}

/// A link that shares an insight or a dashboard.
pub struct ShareLink {
    pub id: String,
    pub project_id: String,
    pub object_type: ShareTarget,
    pub object_id: String,
    pub token: String,
    pub created_at: i64,
    pub expires_at: Option<i64>,
}

/// The mathematical value of a [`ShareLink`].
pub struct ShareLinkModel {
    pub id: Seq<char>,
    pub project_id: Seq<char>,
    pub object_type: ShareTarget,
    pub object_id: Seq<char>,
    pub token: Seq<char>,
    pub created_at: i64,
    pub expires_at: Option<i64>,
}

impl View for ShareLink {
    type V = ShareLinkModel;

    open spec fn view(&self) -> ShareLinkModel {
        ShareLinkModel {
            id: self.id@,
            project_id: self.project_id@,
            object_type: self.object_type,
            object_id: self.object_id@,
            token: self.token@,
            created_at: self.created_at,
            expires_at: self.expires_at,
        }
    }
}

impl Row for ShareLink {
    fn duplicate(&self) -> (r: Self) {
        ShareLink {
            id: self.id.clone(),
            project_id: self.project_id.clone(),
            object_type: self.object_type,
            object_id: self.object_id.clone(),
            token: self.token.clone(),
            created_at: self.created_at,
            expires_at: self.expires_at,
        }
    }
}

/// A share link that is taken over with its history.
pub struct ImportedShareLink {
    pub id: String,
    pub token: String,
    pub target: ShareTarget,
    pub object_id: String,
    pub created_by: String,
    pub created_at: i64,
    pub expires_at: Option<i64>,
}

/// The mathematical value of a [`ImportedShareLink`].
pub struct ImportedShareModel {
    pub id: Seq<char>,
    pub token: Seq<char>,
    pub target: ShareTarget,
    pub object_id: Seq<char>,
    pub created_by: Seq<char>,
    pub created_at: i64,
    pub expires_at: Option<i64>,
}

impl View for ImportedShareLink {
    type V = ImportedShareModel;

    open spec fn view(&self) -> ImportedShareModel {
        ImportedShareModel {
            id: self.id@,
            token: self.token@,
            target: self.target,
            object_id: self.object_id@,
            created_by: self.created_by@,
            created_at: self.created_at,
            expires_at: self.expires_at,
        }
    }
}

// ── Rows ──────────────────────────────────────────────────────────────────────

/// A stored flag.
pub struct FlagEntry {
    pub project_id: String,
    pub flag: FeatureFlag,
    pub created_at: i64,
    pub updated_at: i64,
}

/// The mathematical value of a [`FlagEntry`].
pub struct FlagEntryModel {
    pub project_id: Seq<char>,
    pub flag: FeatureFlagModel,
    pub created_at: i64,
    pub updated_at: i64,
}

impl View for FlagEntry {
    type V = FlagEntryModel;

    open spec fn view(&self) -> FlagEntryModel {
        FlagEntryModel {
            project_id: self.project_id@,
            flag: self.flag@,
            created_at: self.created_at,
            updated_at: self.updated_at,
        }
    }
}

impl Row for FlagEntry {
    fn duplicate(&self) -> (r: Self) {
        FlagEntry {
            project_id: self.project_id.clone(),
            flag: self.flag.duplicate(),
            created_at: self.created_at,
            updated_at: self.updated_at,
        }
    }
}

/// A stored insight, and whether its query can be run.
pub struct InsightEntry {
    pub insight: SavedInsight,
    pub query_supported: bool,
}

/// The mathematical value of a [`InsightEntry`].
pub struct InsightEntryModel {
    pub insight: InsightModel,
    pub query_supported: bool,
}

impl View for InsightEntry {
    type V = InsightEntryModel;

    open spec fn view(&self) -> InsightEntryModel {
        InsightEntryModel {
            insight: self.insight@,
            query_supported: self.query_supported,
        }
    }
}

impl Row for InsightEntry {
    fn duplicate(&self) -> (r: Self) {
        InsightEntry {
            insight: self.insight.duplicate(),
            query_supported: self.query_supported,
        }
    }
}

/// A stored dashboard.
pub struct DashboardEntry {
    pub project_id: String,
    pub id: String,
    pub name: String,
    pub created_by: String,
    pub created_at: i64,
    pub updated_at: i64,
}

/// The mathematical value of a [`DashboardEntry`].
pub struct DashboardEntryModel {
    pub project_id: Seq<char>,
    pub id: Seq<char>,
    pub name: Seq<char>,
    pub created_by: Seq<char>,
    pub created_at: i64,
    pub updated_at: i64,
}

impl View for DashboardEntry {
    type V = DashboardEntryModel;

    open spec fn view(&self) -> DashboardEntryModel {
        DashboardEntryModel {
            project_id: self.project_id@,
            id: self.id@,
            name: self.name@,
            created_by: self.created_by@,
            created_at: self.created_at,
            updated_at: self.updated_at,
        }
    }
}

impl Row for DashboardEntry {
    fn duplicate(&self) -> (r: Self) {
        DashboardEntry {
            project_id: self.project_id.clone(),
            id: self.id.clone(),
            name: self.name.clone(),
            created_by: self.created_by.clone(),
            created_at: self.created_at,
            updated_at: self.updated_at,
        }
    }
}

/// A stored tile.
pub struct TileEntry {
    pub project_id: String,
    pub dashboard_id: String,
    pub position: usize,
    pub tile: DashboardTileInput,
}

/// The mathematical value of a [`TileEntry`].
pub struct TileEntryModel {
    pub project_id: Seq<char>,
    pub dashboard_id: Seq<char>,
    pub position: usize,
    pub tile: TileInputModel,
}

impl View for TileEntry {
    type V = TileEntryModel;

    open spec fn view(&self) -> TileEntryModel {
        TileEntryModel {
            project_id: self.project_id@,
            dashboard_id: self.dashboard_id@,
            position: self.position,
            tile: self.tile@,
        }
    }
}

impl Row for TileEntry {
    fn duplicate(&self) -> (r: Self) {
        TileEntry {
            project_id: self.project_id.clone(),
            dashboard_id: self.dashboard_id.clone(),
            position: self.position,
            tile: self.tile.duplicate(),
        }
    }
}

/// A stored share link.
pub struct ShareEntry {
    pub link: ShareLink,
    pub created_by: String,
}

/// The mathematical value of a [`ShareEntry`].
pub struct ShareEntryModel {
    pub link: ShareLinkModel,
    pub created_by: Seq<char>,
}

impl View for ShareEntry {
    type V = ShareEntryModel;

    open spec fn view(&self) -> ShareEntryModel {
        ShareEntryModel {
            link: self.link@,
            created_by: self.created_by@,
        }
    }
}

impl Row for ShareEntry {
    fn duplicate(&self) -> (r: Self) {
        ShareEntry {
            link: self.link.duplicate(),
            created_by: self.created_by.clone(),
        }
    }
}

/// The stored resources of all projects.
pub struct ControlResources {
    pub flags: Vec<FlagEntry>,
    pub insights: Vec<InsightEntry>,
    pub dashboards: Vec<DashboardEntry>,
    pub tiles: Vec<TileEntry>,
    pub shares: Vec<ShareEntry>,
}

/// The mathematical value of the stored resources.
pub struct ResourceModel {
    pub flags: Seq<FlagEntryModel>,
    pub insights: Seq<InsightEntryModel>,
    pub dashboards: Seq<DashboardEntryModel>,
    pub tiles: Seq<TileEntryModel>,
    pub shares: Seq<ShareEntryModel>,
}

impl View for ControlResources {
    type V = ResourceModel;

    open spec fn view(&self) -> ResourceModel {
        ResourceModel {
            flags: views(self.flags@),
            insights: views(self.insights@),
            dashboards: views(self.dashboards@),
            tiles: views(self.tiles@),
            shares: views(self.shares@),
        }
    }
}

/// The flag of a project with a key.
pub open spec fn flag_at(project: Seq<char>, key: Seq<char>) -> spec_fn(FlagEntryModel) -> bool {
    |row: FlagEntryModel| row.project_id == project && row.flag.key == key
}

/// Tests [`flag_at`].
pub struct FlagAt<'a> {
    pub project: &'a str,
    pub key: &'a str,
}

impl<'a> Query<FlagEntry> for FlagAt<'a> {
    open spec fn pred(&self) -> spec_fn(FlagEntryModel) -> bool {
        flag_at(self.project@, self.key@)
    }

    fn test(&self, row: &FlagEntry) -> (r: bool) {
        same(row.project_id.as_str(), self.project) && same(row.flag.key.as_str(), self.key)
    }
}

/// The flags of a project.
pub open spec fn flags_in(project: Seq<char>) -> spec_fn(FlagEntryModel) -> bool {
    |row: FlagEntryModel| row.project_id == project
}

/// Tests [`flags_in`].
pub struct FlagsIn<'a> {
    pub project: &'a str,
}

impl<'a> Query<FlagEntry> for FlagsIn<'a> {
    open spec fn pred(&self) -> spec_fn(FlagEntryModel) -> bool {
        flags_in(self.project@)
    }

    fn test(&self, row: &FlagEntry) -> (r: bool) {
        same(row.project_id.as_str(), self.project)
    }
}

/// The insight of a project with an id.
pub open spec fn insight_at(project: Seq<char>, id: Seq<char>) -> spec_fn(InsightEntryModel) -> bool {
    |row: InsightEntryModel| row.insight.project_id == project && row.insight.id == id
}

/// Tests [`insight_at`].
pub struct InsightAt<'a> {
    pub project: &'a str,
    pub id: &'a str,
}

impl<'a> Query<InsightEntry> for InsightAt<'a> {
    open spec fn pred(&self) -> spec_fn(InsightEntryModel) -> bool {
        insight_at(self.project@, self.id@)
    }

    fn test(&self, row: &InsightEntry) -> (r: bool) {
        same(row.insight.project_id.as_str(), self.project) && same(row.insight.id.as_str(), self.id)
    }
}

/// The insights of a project.
pub open spec fn insights_in(project: Seq<char>) -> spec_fn(InsightEntryModel) -> bool {
    |row: InsightEntryModel| row.insight.project_id == project
}

/// Tests [`insights_in`].
pub struct InsightsIn<'a> {
    pub project: &'a str,
}

impl<'a> Query<InsightEntry> for InsightsIn<'a> {
    open spec fn pred(&self) -> spec_fn(InsightEntryModel) -> bool {
        insights_in(self.project@)
    }

    fn test(&self, row: &InsightEntry) -> (r: bool) {
        same(row.insight.project_id.as_str(), self.project)
    }
}

/// The dashboard of a project with an id.
pub open spec fn dashboard_at(project: Seq<char>, id: Seq<char>) -> spec_fn(DashboardEntryModel) -> bool {
    |row: DashboardEntryModel| row.project_id == project && row.id == id
}

/// Tests [`dashboard_at`].
pub struct DashboardAt<'a> {
    pub project: &'a str,
    pub id: &'a str,
}

impl<'a> Query<DashboardEntry> for DashboardAt<'a> {
    open spec fn pred(&self) -> spec_fn(DashboardEntryModel) -> bool {
        dashboard_at(self.project@, self.id@)
    }

    fn test(&self, row: &DashboardEntry) -> (r: bool) {
        same(row.project_id.as_str(), self.project) && same(row.id.as_str(), self.id)
    }
}

/// The dashboards of a project.
pub open spec fn dashboards_in(project: Seq<char>) -> spec_fn(DashboardEntryModel) -> bool {
    |row: DashboardEntryModel| row.project_id == project
}

/// Tests [`dashboards_in`].
pub struct DashboardsIn<'a> {
    pub project: &'a str,
}

impl<'a> Query<DashboardEntry> for DashboardsIn<'a> {
    open spec fn pred(&self) -> spec_fn(DashboardEntryModel) -> bool {
        dashboards_in(self.project@)
    }

    fn test(&self, row: &DashboardEntry) -> (r: bool) {
        same(row.project_id.as_str(), self.project)
    }
}

/// The tiles on a dashboard.
pub open spec fn tiles_on(project: Seq<char>, dashboard: Seq<char>) -> spec_fn(TileEntryModel) -> bool {
    |row: TileEntryModel| row.project_id == project && row.dashboard_id == dashboard
}

/// Tests [`tiles_on`].
pub struct TilesOn<'a> {
    pub project: &'a str,
    pub dashboard: &'a str,
}

impl<'a> Query<TileEntry> for TilesOn<'a> {
    open spec fn pred(&self) -> spec_fn(TileEntryModel) -> bool {
        tiles_on(self.project@, self.dashboard@)
    }

    fn test(&self, row: &TileEntry) -> (r: bool) {
        same(row.project_id.as_str(), self.project) && same(row.dashboard_id.as_str(), self.dashboard)
    }
}

/// The tiles that show an insight.
pub open spec fn tiles_showing(project: Seq<char>, insight: Seq<char>) -> spec_fn(TileEntryModel) -> bool {
    |row: TileEntryModel| row.project_id == project && row.tile.insight_id == insight
}

/// Tests [`tiles_showing`].
pub struct TilesShowing<'a> {
    pub project: &'a str,
    pub insight: &'a str,
}

impl<'a> Query<TileEntry> for TilesShowing<'a> {
    open spec fn pred(&self) -> spec_fn(TileEntryModel) -> bool {
        tiles_showing(self.project@, self.insight@)
    }

    fn test(&self, row: &TileEntry) -> (r: bool) {
        same(row.project_id.as_str(), self.project) && same(row.tile.insight_id.as_str(), self.insight)
    }
}

/// The share link of a project with an id.
pub open spec fn share_at(project: Seq<char>, id: Seq<char>) -> spec_fn(ShareEntryModel) -> bool {
    |row: ShareEntryModel| row.link.project_id == project && row.link.id == id
}

/// Tests [`share_at`].
pub struct ShareAt<'a> {
    pub project: &'a str,
    pub id: &'a str,
}

impl<'a> Query<ShareEntry> for ShareAt<'a> {
    open spec fn pred(&self) -> spec_fn(ShareEntryModel) -> bool {
        share_at(self.project@, self.id@)
    }

    fn test(&self, row: &ShareEntry) -> (r: bool) {
        same(row.link.project_id.as_str(), self.project) && same(row.link.id.as_str(), self.id)
    }
}

/// The share links of a project.
pub open spec fn shares_in(project: Seq<char>) -> spec_fn(ShareEntryModel) -> bool {
    |row: ShareEntryModel| row.link.project_id == project
}

/// Tests [`shares_in`].
pub struct SharesIn<'a> {
    pub project: &'a str,
}

impl<'a> Query<ShareEntry> for SharesIn<'a> {
    open spec fn pred(&self) -> spec_fn(ShareEntryModel) -> bool {
        shares_in(self.project@)
    }

    fn test(&self, row: &ShareEntry) -> (r: bool) {
        same(row.link.project_id.as_str(), self.project)
    }
}

/// The share links of an object.
pub open spec fn shares_of(project: Seq<char>, target: ShareTarget, object: Seq<char>) -> spec_fn(ShareEntryModel) -> bool {
    |row: ShareEntryModel| row.link.project_id == project && row.link.object_type == target && row.link.object_id == object
}

/// Tests [`shares_of`].
pub struct SharesOf<'a> {
    pub project: &'a str,
    pub target: ShareTarget,
    pub object: &'a str,
}

impl<'a> Query<ShareEntry> for SharesOf<'a> {
    open spec fn pred(&self) -> spec_fn(ShareEntryModel) -> bool {
        shares_of(self.project@, self.target, self.object@)
    }

    fn test(&self, row: &ShareEntry) -> (r: bool) {
        same(row.link.project_id.as_str(), self.project) && row.link.object_type == self.target && same(row.link.object_id.as_str(), self.object)
    }
}

/// The share link with a token.
pub open spec fn share_token_is(token: Seq<char>) -> spec_fn(ShareEntryModel) -> bool {
    |row: ShareEntryModel| row.link.token == token
}

/// Tests [`share_token_is`].
pub struct ShareByToken<'a> {
    pub token: &'a str,
}

impl<'a> Query<ShareEntry> for ShareByToken<'a> {
    open spec fn pred(&self) -> spec_fn(ShareEntryModel) -> bool {
        share_token_is(self.token@)
    }

    fn test(&self, row: &ShareEntry) -> (r: bool) {
        same(row.link.token.as_str(), self.token)
    }
}

/// Whether a link has not expired.
pub open spec fn unexpired(expires_at: Option<i64>, now: i64) -> bool {
    match expires_at {
        Some(t) => t > now,
        None => true,
    }
}

/// The share link with a token that has not expired.
pub open spec fn share_open(token: Seq<char>, now: i64) -> spec_fn(ShareEntryModel) -> bool {
    |row: ShareEntryModel| row.link.token == token && unexpired(row.link.expires_at, now)
}

/// Tests [`share_open`].
pub struct OpenShare<'a> {
    pub token: &'a str,
    pub now: i64,
}

impl<'a> Query<ShareEntry> for OpenShare<'a> {
    open spec fn pred(&self) -> spec_fn(ShareEntryModel) -> bool {
        share_open(self.token@, self.now)
    }

    fn test(&self, row: &ShareEntry) -> (r: bool) {
        same(row.link.token.as_str(), self.token) && (match row.link.expires_at {
            Some(t) => t > self.now,
            None => true,
        })
    }
}

/// Flags by key.
pub open spec fn flag_entry_order() -> spec_fn(FlagEntryModel, FlagEntryModel) -> bool {
    |a: FlagEntryModel, b: FlagEntryModel| a.flag.key != b.flag.key && text_le(a.flag.key, b.flag.key)
}

/// Decides [`flag_entry_order`].
pub struct FlagEntryOrder;

impl Sort<FlagEntry> for FlagEntryOrder {
    open spec fn before(&self) -> spec_fn(FlagEntryModel, FlagEntryModel) -> bool {
        flag_entry_order()
    }

    fn is_before(&self, a: &FlagEntry, b: &FlagEntry) -> (r: bool) {
        !same(a.flag.key.as_str(), b.flag.key.as_str()) && text_at_most(a.flag.key.as_str(), b.flag.key.as_str())
    }
}

/// Insights, the latest change first, then by id.
pub open spec fn insight_order() -> spec_fn(InsightEntryModel, InsightEntryModel) -> bool {
    |a: InsightEntryModel, b: InsightEntryModel| a.insight.updated_at > b.insight.updated_at || a.insight.updated_at == b.insight.updated_at && a.insight.id != b.insight.id && text_le(a.insight.id, b.insight.id)
}

/// Decides [`insight_order`].
pub struct InsightOrder;

impl Sort<InsightEntry> for InsightOrder {
    open spec fn before(&self) -> spec_fn(InsightEntryModel, InsightEntryModel) -> bool {
        insight_order()
    }

    fn is_before(&self, a: &InsightEntry, b: &InsightEntry) -> (r: bool) {
        a.insight.updated_at > b.insight.updated_at || a.insight.updated_at == b.insight.updated_at && !same(a.insight.id.as_str(), b.insight.id.as_str()) && text_at_most(a.insight.id.as_str(), b.insight.id.as_str())
    }
}

/// Dashboards, the latest change first, then by id.
pub open spec fn dashboard_order() -> spec_fn(DashboardEntryModel, DashboardEntryModel) -> bool {
    |a: DashboardEntryModel, b: DashboardEntryModel| a.updated_at > b.updated_at || a.updated_at == b.updated_at && a.id != b.id && text_le(a.id, b.id)
}

/// Decides [`dashboard_order`].
pub struct DashboardOrder;

impl Sort<DashboardEntry> for DashboardOrder {
    open spec fn before(&self) -> spec_fn(DashboardEntryModel, DashboardEntryModel) -> bool {
        dashboard_order()
    }

    fn is_before(&self, a: &DashboardEntry, b: &DashboardEntry) -> (r: bool) {
        a.updated_at > b.updated_at || a.updated_at == b.updated_at && !same(a.id.as_str(), b.id.as_str()) && text_at_most(a.id.as_str(), b.id.as_str())
    }
}

/// Share links, the newest first, then by id.
pub open spec fn share_order() -> spec_fn(ShareEntryModel, ShareEntryModel) -> bool {
    |a: ShareEntryModel, b: ShareEntryModel| a.link.created_at > b.link.created_at || a.link.created_at == b.link.created_at && a.link.id != b.link.id && text_le(a.link.id, b.link.id)
}

/// Decides [`share_order`].
pub struct ShareOrder;

impl Sort<ShareEntry> for ShareOrder {
    open spec fn before(&self) -> spec_fn(ShareEntryModel, ShareEntryModel) -> bool {
        share_order()
    }

    fn is_before(&self, a: &ShareEntry, b: &ShareEntry) -> (r: bool) {
        a.link.created_at > b.link.created_at || a.link.created_at == b.link.created_at && !same(a.link.id.as_str(), b.link.id.as_str()) && text_at_most(a.link.id.as_str(), b.link.id.as_str())
    }
}

/// Tiles by position.
pub open spec fn tile_order() -> spec_fn(TileEntryModel, TileEntryModel) -> bool {
    |a: TileEntryModel, b: TileEntryModel| a.position < b.position
}

/// Decides [`tile_order`].
pub struct TileOrder;

impl Sort<TileEntry> for TileOrder {
    open spec fn before(&self) -> spec_fn(TileEntryModel, TileEntryModel) -> bool {
        tile_order()
    }

    fn is_before(&self, a: &TileEntry, b: &TileEntry) -> (r: bool) {
        a.position < b.position
    }
}

// ── Rules ─────────────────────────────────────────────────────────────────────

/// What is wrong with a required text, if anything.
pub open spec fn required_fault(field: Seq<char>, value: Seq<char>, max: int) -> Option<
    ResourceFault,
> {
    if blank(value) {
        Some(ResourceFault::InvalidResource(field, "must not be empty"@))
    } else if encode_utf8(value).len() > max {
        Some(
            ResourceFault::InvalidResource(
                field,
                "must be at most "@ + decimal(max as nat) + " bytes"@,
            ),
        )
    } else {
        None
    }
}

fn invalid(field: &'static str, message: &str) -> (r: ControlResourceError)
    ensures
        r@ == ResourceFault::InvalidResource(field@, message@),
{
    ControlResourceError::InvalidResource { field, message: message.to_owned() }
}

/// Whether a check passed, or else why not.
pub open spec fn check(r: Result<(), ControlResourceError>, fault: Option<ResourceFault>) -> bool {
    match fault {
        Some(f) => r matches Err(e) && e@ == f,
        None => r is Ok,
    }
}

/// Checks a required text.
pub fn validate_required(field: &'static str, value: &str, max_bytes: usize) -> (r: Result<
    (),
    ControlResourceError,
>)
    ensures
        check(r, required_fault(field@, value@, max_bytes as int)),
{
    if is_blank(value) {
        return Err(invalid(field, "must not be empty"));
    }
    if byte_len(value) > max_bytes {
        let mut out = joined("must be at most ", decimal_text(max_bytes as u64).as_str());
        out.append(" bytes");
        return Err(ControlResourceError::InvalidResource { field, message: out });
    }
    Ok(())
}

/// What is wrong with a name, if anything.
pub open spec fn resource_name_fault(name: Seq<char>) -> Option<ResourceFault> {
    required_fault("name"@, name, MAX_NAME_BYTES as int)
}

/// What is wrong with one variant among those before it, if anything.
pub open spec fn variant_fault(before: Seq<VariantModel>, variant: VariantModel) -> Option<
    ResourceFault,
> {
    match required_fault("variants.key"@, variant.key, MAX_KEY_BYTES as int) {
        Some(fault) => Some(fault),
        None => if exists|i: int|
            0 <= i < before.len() && (#[trigger] before[i]).key == variant.key {
            Some(ResourceFault::InvalidResource("variants.key"@, "variant keys must be unique"@))
        } else if !percentage_ok(variant.rollout.bits) {
            Some(
                ResourceFault::InvalidResource(
                    "variants.rollout"@,
                    "must be a finite number from 0 through 100"@,
                ),
            )
        } else {
            None
        },
    }
}

/// What is wrong with the first variant that is wrong, if any is.
pub open spec fn variants_fault(variants: Seq<VariantModel>) -> Option<ResourceFault>
    decreases variants.len(),
{
    if variants.len() == 0 {
        None
    } else if variants_fault(variants.drop_last()) is Some {
        variants_fault(variants.drop_last())
    } else {
        variant_fault(variants.drop_last(), variants.last())
    }
}

/// What is wrong with a flag, if anything.
pub open spec fn flag_fault(flag: FeatureFlagModel) -> Option<ResourceFault> {
    match required_fault("key"@, flag.key, MAX_KEY_BYTES as int) {
        Some(fault) => Some(fault),
        None => if !percentage_ok(flag.rollout_percentage.bits) {
            Some(
                ResourceFault::InvalidResource(
                    "rollout_percentage"@,
                    "must be a finite number from 0 through 100"@,
                ),
            )
        } else {
            variants_fault(flag.variants)
        },
    }
}

proof fn lemma_variants_fault_stays(variants: Seq<VariantModel>, k: int)
    requires
        0 <= k <= variants.len(),
    ensures
        variants_fault(variants.take(k)) is Some ==> variants_fault(variants) == variants_fault(
            variants.take(k),
        ),
    decreases variants.len() - k,
{
    if k < variants.len() {
        lemma_variants_fault_stays(variants, k + 1);
        assert(variants.take(k + 1).drop_last() =~= variants.take(k));
    } else {
        assert(variants.take(k) =~= variants);
    }
}

fn key_used(variants: &Vec<Variant>, upto: usize, key: &str) -> (r: bool)
    requires
        upto <= variants.len(),
    ensures
        r == (exists|i: int|
            0 <= i < upto && (#[trigger] views(variants@).take(upto as int)[i]).key == key@),
{
    let ghost before = views(variants@).take(upto as int);
    let mut i: usize = 0;
    while i < upto
        invariant
            i <= upto,
            upto <= variants.len(),
            before == views(variants@).take(upto as int),
            forall|j: int| 0 <= j < i ==> (#[trigger] before[j]).key != key@,
        decreases upto - i,
    {
        assert(before[i as int] == variants@[i as int]@);
        if same(variants[i].key.as_str(), key) {
            return true;
        }
        i += 1;
    }
    false
}

/// Checks a flag.
pub fn validate_flag(flag: &FeatureFlag) -> (r: Result<(), ControlResourceError>)
    ensures
        check(r, flag_fault(flag@)),
{
    match validate_required("key", flag.key.as_str(), MAX_KEY_BYTES) {
        Ok(()) => {},
        Err(e) => {
            return Err(e);
        },
    }
    if !is_percentage(flag.rollout_percentage.bits) {
        return Err(
            invalid("rollout_percentage", "must be a finite number from 0 through 100"),
        );
    }
    let ghost all = views(flag.variants@);
    let mut i: usize = 0;
    assert(all.take(0) =~= Seq::<VariantModel>::empty());
    while i < flag.variants.len()
        invariant
            i <= flag.variants.len(),
            all == views(flag.variants@),
            flag_fault(flag@) == variants_fault(all),
            variants_fault(all.take(i as int)) is None,
        decreases flag.variants.len() - i,
    {
        assert(all.take(i + 1).drop_last() =~= all.take(i as int));
        assert(all.take(i + 1).last() == flag.variants@[i as int]@);
        proof {
            lemma_variants_fault_stays(all, i + 1);
        }
        let variant = &flag.variants[i];
        match validate_required("variants.key", variant.key.as_str(), MAX_KEY_BYTES) {
            Ok(()) => {},
            Err(e) => {
                return Err(e);
            },
        }
        if key_used(&flag.variants, i, variant.key.as_str()) {
            return Err(invalid("variants.key", "variant keys must be unique"));
        }
        if !is_percentage(variant.rollout.bits) {
            return Err(
                invalid("variants.rollout", "must be a finite number from 0 through 100"),
            );
        }
        i += 1;
    }
    assert(all.take(all.len() as int) =~= all);
    Ok(())
}

/// What is wrong with a tile, if anything.
pub open spec fn tile_fault(tile: TileInputModel) -> Option<ResourceFault> {
    match required_fault("insight_id"@, tile.insight_id, MAX_NAME_BYTES as int) {
        Some(fault) => Some(fault),
        None => if tile.x < 0 || tile.y < 0 || tile.w <= 0 || tile.h <= 0 {
            Some(
                ResourceFault::InvalidResource(
                    "tiles"@,
                    "x/y must be non-negative and w/h must be positive"@,
                ),
            )
        } else {
            None
        },
    }
}

/// Checks a tile.
pub fn validate_tile(tile: &DashboardTileInput) -> (r: Result<(), ControlResourceError>)
    ensures
        check(r, tile_fault(tile@)),
{
    match validate_required("insight_id", tile.insight_id.as_str(), MAX_NAME_BYTES) {
        Ok(()) => {},
        Err(e) => {
            return Err(e);
        },
    }
    if tile.x < 0 || tile.y < 0 || tile.w <= 0 || tile.h <= 0 {
        return Err(invalid("tiles", "x/y must be non-negative and w/h must be positive"));
    }
    Ok(())
}

/// What is wrong with the first tile that is wrong, if any is.
pub open spec fn tiles_fault(tiles: Seq<TileInputModel>) -> Option<ResourceFault>
    decreases tiles.len(),
{
    if tiles.len() == 0 {
        None
    } else if tiles_fault(tiles.drop_last()) is Some {
        tiles_fault(tiles.drop_last())
    } else {
        tile_fault(tiles.last())
    }
}

proof fn lemma_tiles_fault_stays(tiles: Seq<TileInputModel>, k: int)
    requires
        0 <= k <= tiles.len(),
    ensures
        tiles_fault(tiles.take(k)) is Some ==> tiles_fault(tiles) == tiles_fault(tiles.take(k)),
    decreases tiles.len() - k,
{
    if k < tiles.len() {
        lemma_tiles_fault_stays(tiles, k + 1);
        assert(tiles.take(k + 1).drop_last() =~= tiles.take(k));
    } else {
        assert(tiles.take(k) =~= tiles);
    }
}

fn validate_tiles(tiles: &Vec<DashboardTileInput>) -> (r: Result<(), ControlResourceError>)
    ensures
        check(r, tiles_fault(views(tiles@))),
{
    let ghost all = views(tiles@);
    let mut i: usize = 0;
    assert(all.take(0) =~= Seq::<TileInputModel>::empty());
    while i < tiles.len()
        invariant
            i <= tiles.len(),
            all == views(tiles@),
            tiles_fault(all.take(i as int)) is None,
        decreases tiles.len() - i,
    {
        assert(all.take(i + 1).drop_last() =~= all.take(i as int));
        assert(all.take(i + 1).last() == tiles@[i as int]@);
        proof {
            lemma_tiles_fault_stays(all, i + 1);
        }
        match validate_tile(&tiles[i]) {
            Ok(()) => {},
            Err(e) => {
                return Err(e);
            },
        }
        i += 1;
    }
    assert(all.take(all.len() as int) =~= all);
    Ok(())
}

/// The width of a tile that names none.
pub fn default_tile_width() -> (r: i32)
    ensures
        r == 4,
{
    4
}

/// The height of a tile that names none.
pub fn default_tile_height() -> (r: i32)
    ensures
        r == 3,
{
    3
}

/// What reading a query gave: one that can be run, one that is understood but cannot be run, or none. The
/// query is given as it is stored.
pub enum QueryVerdict {
    Supported(Json),
    Unsupported { query: Json, field: String, message: String },
    Invalid(String),
}

/// The mathematical value of a [`QueryVerdict`].
pub enum QueryModel {
    Supported(JsonValue),
    Unsupported(JsonValue, Seq<char>, Seq<char>),
    Invalid(Seq<char>),
}

impl View for QueryVerdict {
    type V = QueryModel;

    open spec fn view(&self) -> QueryModel {
        match self {
            QueryVerdict::Supported(q) => QueryModel::Supported(q@),
            QueryVerdict::Unsupported { query, field, message } => QueryModel::Unsupported(
                query@,
                field@,
                message@,
            ),
            QueryVerdict::Invalid(m) => QueryModel::Invalid(m@),
        }
    }
}

impl Row for QueryVerdict {
    fn duplicate(&self) -> (r: Self) {
        match self {
            QueryVerdict::Supported(q) => QueryVerdict::Supported(q.copy()),
            QueryVerdict::Unsupported { query, field, message } => QueryVerdict::Unsupported {
                query: query.copy(),
                field: field.clone(),
                message: message.clone(),
            },
            QueryVerdict::Invalid(m) => QueryVerdict::Invalid(m.clone()),
        }
    }
}

/// The query to store for a live insight: it has to be one that can be run.
pub open spec fn live_query(verdict: QueryModel) -> Result<JsonValue, ResourceFault> {
    match verdict {
        QueryModel::Supported(q) => Ok(q),
        QueryModel::Unsupported(_, field, message) => Err(
            ResourceFault::InvalidQuery(field, message),
        ),
        QueryModel::Invalid(message) => Err(ResourceFault::InvalidQuery("query_ir"@, message)),
    }
}

/// The query to store for a live insight.
pub fn supported_query_json(verdict: QueryVerdict) -> (r: Result<Json, ControlResourceError>)
    ensures
        outcome(r) == live_query(verdict@),
{
    match verdict {
        QueryVerdict::Supported(q) => Ok(q),
        QueryVerdict::Unsupported { query: _, field, message } => Err(
            ControlResourceError::InvalidQuery { place: field, message },
        ),
        QueryVerdict::Invalid(message) => Err(
            ControlResourceError::InvalidQuery { place: "query_ir".to_owned(), message },
        ),
    }
}

/// The query to store for an insight that is taken over, and whether it can be run.
pub open spec fn imported_query(verdict: QueryModel) -> Result<(JsonValue, bool), ResourceFault> {
    match verdict {
        QueryModel::Supported(q) => Ok((q, true)),
        QueryModel::Unsupported(q, _, _) => Ok((q, false)),
        QueryModel::Invalid(message) => Err(ResourceFault::InvalidQuery("query_ir"@, message)),
    }
}

/// The query to store for an insight that is taken over, and whether it can be run.
pub fn imported_query_json(verdict: QueryVerdict) -> (r: Result<
    (Json, bool),
    ControlResourceError,
>)
    ensures
        outcome(r) == imported_query(verdict@),
{
    match verdict {
        QueryVerdict::Supported(q) => Ok((q, true)),
        QueryVerdict::Unsupported { query, field: _, message: _ } => Ok((query, false)),
        QueryVerdict::Invalid(message) => Err(
            ControlResourceError::InvalidQuery { place: "query_ir".to_owned(), message },
        ),
    }
}

/// What a deletion of rows amounts to.
pub fn deleted(changed: usize) -> (r: Result<(), ControlResourceError>)
    ensures
        changed > 0 ==> r is Ok,
        changed == 0 ==> (r matches Err(e) && e@ == ResourceFault::NotFound),
{
    if changed == 0 {
        Err(ControlResourceError::NotFound)
    } else {
        Ok(())
    }
}

/// What a link shares, of the two columns that say so: exactly one is filled.
pub fn share_target(insight_id: Option<String>, dashboard_id: Option<String>) -> (r: Option<
    (ShareTarget, String),
>)
    ensures
        match (insight_id, dashboard_id) {
            (Some(id), None) => r == Some((ShareTarget::Insight, id)),
            (None, Some(id)) => r == Some((ShareTarget::Dashboard, id)),
            _ => r is None,
        },
{
    match (insight_id, dashboard_id) {
        (Some(id), None) => Some((ShareTarget::Insight, id)),
        (None, Some(id)) => Some((ShareTarget::Dashboard, id)),
        _ => None,
    }
}

/// Checks that a database is the control database of a pair. What could not be read is `None`.
pub fn validate_control_database(
    application_id: Option<i64>,
    expected: i64,
    metadata: &Option<(String, String)>,
) -> (r: Result<(), ControlResourceError>)
    ensures
        r is Ok <==> (application_id == Some(expected) && (metadata matches Some(m) && m.0@.len()
            > 0 && m.1@ == "control"@)),
        r matches Err(e) ==> e@ == ResourceFault::InvalidStorage,
{
    match application_id {
        Some(id) => {
            if id != expected {
                return Err(ControlResourceError::InvalidStorage);
            }
        },
        None => {
            return Err(ControlResourceError::InvalidStorage);
        },
    }
    match metadata {
        Some((pair, role)) => if !pair.as_str().is_empty() && same(role.as_str(), "control") {
            Ok(())
        } else {
            Err(ControlResourceError::InvalidStorage)
        },
        None => Err(ControlResourceError::InvalidStorage),
    }
}

/// `uuid::Uuid::now_v7`: a version 7 uuid; its time is the clock's and the rest is random.
#[verifier::external_body]
fn fresh_now_v7() -> (r: u128)
    ensures
        uuid_version(r) == 7,
{
    uuid::Uuid::now_v7().as_u128()
}

// ── Flags ─────────────────────────────────────────────────────────────────────

/// Whether a project is there.
pub open spec fn project_known(projects: Seq<ProjectRowModel>, project: Seq<char>) -> bool {
    holds_somewhere(projects, project_is(project))
}

/// The flag of a project with a key.
pub open spec fn flag_got(m: ResourceModel, project: Seq<char>, key: Seq<char>) -> Result<
    FeatureFlagModel,
    ResourceFault,
> {
    match found(m.flags, flag_at(project, key)) {
        Some(row) => Ok(row.flag),
        None => Err(ResourceFault::NotFound),
    }
}

/// What making a flag leads to.
pub open spec fn flag_created(
    m: ResourceModel,
    known: bool,
    project: Seq<char>,
    flag: FeatureFlagModel,
    now: i64,
) -> (ResourceModel, Result<FeatureFlagModel, ResourceFault>) {
    match flag_fault(flag) {
        Some(fault) => (m, Err(fault)),
        None => if !known {
            (m, Err(ResourceFault::NotFound))
        } else if holds_somewhere(m.flags, flag_at(project, flag.key)) {
            (m, Err(ResourceFault::Conflict))
        } else {
            (
                ResourceModel {
                    flags: m.flags.push(
                        FlagEntryModel {
                            project_id: project,
                            flag,
                            created_at: now,
                            updated_at: now,
                        },
                    ),
                    ..m
                },
                Ok(flag),
            )
        },
    }
}

/// What changing a flag leads to. Its key stays.
pub open spec fn flag_updated(
    m: ResourceModel,
    project: Seq<char>,
    key: Seq<char>,
    flag: FeatureFlagModel,
    now: i64,
) -> (ResourceModel, Result<FeatureFlagModel, ResourceFault>) {
    match index_of(m.flags, flag_at(project, key)) {
        None => (m, Err(ResourceFault::NotFound)),
        Some(i) => if key != flag.key {
            (m, Err(ResourceFault::Conflict))
        } else {
            match flag_fault(flag) {
                Some(fault) => (m, Err(fault)),
                None => (
                    ResourceModel {
                        flags: m.flags.update(
                            i,
                            FlagEntryModel { flag, updated_at: now, ..m.flags[i] },
                        ),
                        ..m
                    },
                    Ok(flag),
                ),
            }
        },
    }
}

/// What deleting a flag leads to.
pub open spec fn flag_deleted(m: ResourceModel, project: Seq<char>, key: Seq<char>) -> (
    ResourceModel,
    Result<(), ResourceFault>,
) {
    if holds_somewhere(m.flags, flag_at(project, key)) {
        (ResourceModel { flags: removed(m.flags, flag_at(project, key)), ..m }, Ok(()))
    } else {
        (m, Err(ResourceFault::NotFound))
    }
}

/// What taking a flag over leads to.
pub open spec fn flag_imported(
    m: ResourceModel,
    known: bool,
    project: Seq<char>,
    imported: ImportedFlagModel,
) -> (ResourceModel, Result<FeatureFlagModel, ResourceFault>) {
    let row = FlagEntryModel {
        project_id: project,
        flag: imported.flag,
        created_at: imported.created_at,
        updated_at: imported.updated_at,
    };
    match flag_fault(imported.flag) {
        Some(fault) => (m, Err(fault)),
        None => if !known {
            (m, Err(ResourceFault::NotFound))
        } else {
            (
                ResourceModel {
                    flags: match index_of(m.flags, flag_at(project, imported.flag.key)) {
                        Some(i) => m.flags.update(i, row),
                        None => m.flags.push(row),
                    },
                    ..m
                },
                Ok(imported.flag),
            )
        },
    }
}

/// The flags of a project by key.
pub open spec fn flags_listed(m: ResourceModel, project: Seq<char>) -> Seq<FeatureFlagModel> {
    sorted(selected(m.flags, flags_in(project)), flag_entry_order()).map_values(
        |row: FlagEntryModel| row.flag,
    )
}

/// A flag that was made is there to be read.
pub proof fn law_flags_read_back(
    m: ResourceModel,
    known: bool,
    project: Seq<char>,
    flag: FeatureFlagModel,
    now: i64,
)
    requires
        flag_created(m, known, project, flag, now).1 is Ok,
    ensures
        flag_got(flag_created(m, known, project, flag, now).0, project, flag.key) == Ok::<
            _,
            ResourceFault,
        >(flag),
{
    let next = flag_created(m, known, project, flag, now).0;
    assert(next.flags.drop_last() =~= m.flags);
}

proof fn lemma_found_after_push<V>(rows: Seq<V>, row: V, p: spec_fn(V) -> bool)
    requires
        !p(row),
    ensures
        found(rows.push(row), p) == found(rows, p),
{
    assert(rows.push(row).drop_last() =~= rows);
    lemma_index_of(rows, p);
}

proof fn lemma_found_after_update<V>(rows: Seq<V>, i: int, row: V, p: spec_fn(V) -> bool)
    requires
        0 <= i < rows.len(),
        !p(rows[i]),
        !p(row),
    ensures
        found(rows.update(i, row), p) == found(rows, p),
{
    let after = rows.update(i, row);
    lemma_index_of(rows, p);
    match index_of(rows, p) {
        Some(k) => {
            assert forall|j: int| 0 <= j < k implies !p(#[trigger] after[j]) by {
                if j != i {
                    assert(after[j] == rows[j]);
                }
            }
            lemma_index_is(after, p, k);
        },
        None => {
            assert forall|j: int| 0 <= j < after.len() implies !p(#[trigger] after[j]) by {
                if j != i {
                    assert(after[j] == rows[j]);
                }
            }
            lemma_index_none(after, p);
        },
    }
}

proof fn lemma_found_after_removal<V>(
    rows: Seq<V>,
    gone: spec_fn(V) -> bool,
    p: spec_fn(V) -> bool,
)
    requires
        forall|v: V| #[trigger] p(v) ==> !gone(v),
    ensures
        found(removed(rows, gone), p) == found(rows, p),
    decreases rows.len(),
{
    if rows.len() > 0 {
        let rest = rows.drop_last();
        lemma_found_after_removal(rest, gone, p);
        lemma_index_of(rest, p);
        let left = removed(rest, gone);
        lemma_index_of(left, p);
        if !gone(rows.last()) {
            assert(removed(rows, gone).drop_last() =~= left);
        } else {
            assert(!p(rows.last()));
        }
    }
}

/// Whatever is done to the flags of one project, the flags of every other stay as they are.
pub proof fn law_flags_stay_in_their_project(
    m: ResourceModel,
    known: bool,
    project: Seq<char>,
    key: Seq<char>,
    flag: FeatureFlagModel,
    now: i64,
    other: Seq<char>,
    other_key: Seq<char>,
)
    requires
        other != project,
    ensures
        flag_got(flag_created(m, known, project, flag, now).0, other, other_key) == flag_got(
            m,
            other,
            other_key,
        ),
        flag_got(flag_updated(m, project, key, flag, now).0, other, other_key) == flag_got(
            m,
            other,
            other_key,
        ),
        flag_got(flag_deleted(m, project, key).0, other, other_key) == flag_got(
            m,
            other,
            other_key,
        ),
{
    let p = flag_at(other, other_key);
    lemma_found_after_push(
        m.flags,
        FlagEntryModel { project_id: project, flag, created_at: now, updated_at: now },
        p,
    );
    lemma_index_of(m.flags, flag_at(project, key));
    if let Some(i) = index_of(m.flags, flag_at(project, key)) {
        lemma_found_after_update(
            m.flags,
            i,
            FlagEntryModel { flag, updated_at: now, ..m.flags[i] },
            p,
        );
    }
    lemma_found_after_removal(m.flags, flag_at(project, key), p);
}

// ── Insights ──────────────────────────────────────────────────────────────────

/// The insight of a project with an id.
pub open spec fn insight_got(m: ResourceModel, project: Seq<char>, id: Seq<char>) -> Result<
    InsightModel,
    ResourceFault,
> {
    match found(m.insights, insight_at(project, id)) {
        Some(row) => Ok(row.insight),
        None => Err(ResourceFault::NotFound),
    }
}

/// The insights of a project, the latest change first.
pub open spec fn insights_listed(m: ResourceModel, project: Seq<char>) -> Seq<InsightModel> {
    sorted(selected(m.insights, insights_in(project)), insight_order()).map_values(
        |row: InsightEntryModel| row.insight,
    )
}

/// The fault of a new row with an id that is taken.
pub open spec fn id_taken(columns: Seq<char>) -> ResourceFault {
    ResourceFault::Database("UNIQUE constraint failed: "@ + columns)
}

/// What saving an insight leads to, given the number drawn for it.
pub open spec fn insight_created(
    m: ResourceModel,
    known: bool,
    project: Seq<char>,
    created_by: Seq<char>,
    draft: InsightDraftModel,
    verdict: QueryModel,
    now: i64,
    number: u128,
) -> (ResourceModel, Result<InsightModel, ResourceFault>) {
    let id = uuid_text_of(number);
    match resource_name_fault(draft.name) {
        Some(fault) => (m, Err(fault)),
        None => match required_fault("created_by"@, created_by, MAX_NAME_BYTES as int) {
            Some(fault) => (m, Err(fault)),
            None => match live_query(verdict) {
                Err(fault) => (m, Err(fault)),
                Ok(query_ir) => if !known {
                    (m, Err(ResourceFault::NotFound))
                } else if holds_somewhere(m.insights, insight_at(project, id)) {
                    (m, Err(id_taken("saved_insights.project_id, saved_insights.id"@)))
                } else {
                    let insight = InsightModel {
                        id,
                        project_id: project,
                        name: draft.name,
                        description: draft.description,
                        query_ir,
                        created_by,
                        created_at: now,
                        updated_at: now,
                    };
                    (
                        ResourceModel {
                            insights: m.insights.push(
                                InsightEntryModel { insight, query_supported: true },
                            ),
                            ..m
                        },
                        Ok(insight),
                    )
                },
            },
        },
    }
}

/// What changing an insight leads to.
pub open spec fn insight_updated(
    m: ResourceModel,
    project: Seq<char>,
    id: Seq<char>,
    draft: InsightDraftModel,
    verdict: QueryModel,
    now: i64,
) -> (ResourceModel, Result<InsightModel, ResourceFault>) {
    match index_of(m.insights, insight_at(project, id)) {
        None => (m, Err(ResourceFault::NotFound)),
        Some(i) => match resource_name_fault(draft.name) {
            Some(fault) => (m, Err(fault)),
            None => match live_query(verdict) {
                Err(fault) => (m, Err(fault)),
                Ok(query_ir) => {
                    let insight = InsightModel {
                        name: draft.name,
                        description: draft.description,
                        query_ir,
                        updated_at: now,
                        ..m.insights[i].insight
                    };
                    (
                        ResourceModel {
                            insights: m.insights.update(
                                i,
                                InsightEntryModel { insight, query_supported: true },
                            ),
                            ..m
                        },
                        Ok(insight),
                    )
                },
            },
        },
    }
}

/// What deleting an insight leads to: the tiles that show it and the links that share it go too.
pub open spec fn insight_deleted(m: ResourceModel, project: Seq<char>, id: Seq<char>) -> (
    ResourceModel,
    Result<(), ResourceFault>,
) {
    if holds_somewhere(m.insights, insight_at(project, id)) {
        (
            ResourceModel {
                insights: removed(m.insights, insight_at(project, id)),
                tiles: removed(m.tiles, tiles_showing(project, id)),
                shares: removed(m.shares, shares_of(project, ShareTarget::Insight, id)),
                ..m
            },
            Ok(()),
        )
    } else {
        (m, Err(ResourceFault::NotFound))
    }
}

/// What taking an insight over leads to.
pub open spec fn insight_imported(
    m: ResourceModel,
    known: bool,
    project: Seq<char>,
    imported: ImportedInsightModel,
    verdict: QueryModel,
) -> (ResourceModel, Result<InsightModel, ResourceFault>) {
    match required_fault("id"@, imported.id, MAX_NAME_BYTES as int) {
        Some(fault) => (m, Err(fault)),
        None => match resource_name_fault(imported.name) {
            Some(fault) => (m, Err(fault)),
            None => match required_fault(
                "created_by"@,
                imported.created_by,
                MAX_NAME_BYTES as int,
            ) {
                Some(fault) => (m, Err(fault)),
                None => match imported_query(verdict) {
                    Err(fault) => (m, Err(fault)),
                    Ok((query_ir, query_supported)) => if !known {
                        (m, Err(ResourceFault::NotFound))
                    } else {
                        let insight = InsightModel {
                            id: imported.id,
                            project_id: project,
                            name: imported.name,
                            description: imported.description,
                            query_ir,
                            created_by: imported.created_by,
                            created_at: imported.created_at,
                            updated_at: imported.updated_at,
                        };
                        let row = InsightEntryModel { insight, query_supported };
                        (
                            ResourceModel {
                                insights: match index_of(
                                    m.insights,
                                    insight_at(project, imported.id),
                                ) {
                                    Some(i) => m.insights.update(i, row),
                                    None => m.insights.push(row),
                                },
                                ..m
                            },
                            Ok(insight),
                        )
                    },
                },
            },
        },
    }
}

/// A deleted insight leaves no tile and no share link behind.
pub proof fn law_deleted_insights_leave_nothing(m: ResourceModel, project: Seq<char>, id: Seq<char>)
    requires
        insight_deleted(m, project, id).1 is Ok,
    ensures
        insight_got(insight_deleted(m, project, id).0, project, id) == Err::<InsightModel, _>(
            ResourceFault::NotFound,
        ),
        !holds_somewhere(insight_deleted(m, project, id).0.tiles, tiles_showing(project, id)),
        !holds_somewhere(
            insight_deleted(m, project, id).0.shares,
            shares_of(project, ShareTarget::Insight, id),
        ),
{
    lemma_none_left(m.insights, insight_at(project, id));
    lemma_none_left(m.tiles, tiles_showing(project, id));
    lemma_none_left(m.shares, shares_of(project, ShareTarget::Insight, id));
}

proof fn lemma_none_left<V>(rows: Seq<V>, p: spec_fn(V) -> bool)
    ensures
        index_of(removed(rows, p), p) is None,
{
    let left = removed(rows, p);
    lemma_index_of(left, p);
    if let Some(i) = index_of(left, p) {
        assert(left.contains(left[i]));
        lemma_removed(rows, p, left[i]);
    }
}

// ── Dashboards ────────────────────────────────────────────────────────────────

/// The tiles of some rows with their insights. A tile whose insight is gone is left out.
pub open spec fn tiles_seen(m: ResourceModel, rows: Seq<TileEntryModel>) -> Seq<TileModel>
    decreases rows.len(),
{
    if rows.len() == 0 {
        Seq::empty()
    } else {
        let before = tiles_seen(m, rows.drop_last());
        let row = rows.last();
        match found(m.insights, insight_at(row.project_id, row.tile.insight_id)) {
            Some(entry) => before.push(
                TileModel {
                    insight_id: row.tile.insight_id,
                    x: row.tile.x,
                    y: row.tile.y,
                    w: row.tile.w,
                    h: row.tile.h,
                    insight: Some(entry.insight),
                },
            ),
            None => before,
        }
    }
}

/// A stored dashboard with its tiles by position.
pub open spec fn dashboard_seen(m: ResourceModel, row: DashboardEntryModel) -> DashboardModel {
    DashboardModel {
        id: row.id,
        project_id: row.project_id,
        name: row.name,
        tiles: tiles_seen(
            m,
            sorted(selected(m.tiles, tiles_on(row.project_id, row.id)), tile_order()),
        ),
        created_by: row.created_by,
        created_at: row.created_at,
    }
}

/// The dashboard of a project with an id.
pub open spec fn dashboard_got(m: ResourceModel, project: Seq<char>, id: Seq<char>) -> Result<
    DashboardModel,
    ResourceFault,
> {
    match found(m.dashboards, dashboard_at(project, id)) {
        Some(row) => Ok(dashboard_seen(m, row)),
        None => Err(ResourceFault::NotFound),
    }
}

/// The dashboards of a project, the latest change first.
pub open spec fn dashboards_listed(m: ResourceModel, project: Seq<char>) -> Seq<DashboardModel> {
    sorted(selected(m.dashboards, dashboards_in(project)), dashboard_order()).map_values(
        |row: DashboardEntryModel| dashboard_seen(m, row),
    )
}

/// What making a dashboard leads to, given the number drawn for it.
pub open spec fn dashboard_created(
    m: ResourceModel,
    known: bool,
    project: Seq<char>,
    created_by: Seq<char>,
    draft: DashboardDraftModel,
    now: i64,
    number: u128,
) -> (ResourceModel, Result<DashboardModel, ResourceFault>) {
    let id = uuid_text_of(number);
    match resource_name_fault(draft.name) {
        Some(fault) => (m, Err(fault)),
        None => match required_fault("created_by"@, created_by, MAX_NAME_BYTES as int) {
            Some(fault) => (m, Err(fault)),
            None => if !known {
                (m, Err(ResourceFault::NotFound))
            } else if holds_somewhere(m.dashboards, dashboard_at(project, id)) {
                (m, Err(id_taken("dashboards.project_id, dashboards.id"@)))
            } else {
                let next = ResourceModel {
                    dashboards: m.dashboards.push(
                        DashboardEntryModel {
                            project_id: project,
                            id,
                            name: draft.name,
                            created_by,
                            created_at: now,
                            updated_at: now,
                        },
                    ),
                    ..m
                };
                (next, dashboard_got(next, project, id))
            },
        },
    }
}

/// What renaming a dashboard leads to.
pub open spec fn dashboard_updated(
    m: ResourceModel,
    project: Seq<char>,
    id: Seq<char>,
    draft: DashboardDraftModel,
    now: i64,
) -> (ResourceModel, Result<DashboardModel, ResourceFault>) {
    match index_of(m.dashboards, dashboard_at(project, id)) {
        None => (m, Err(ResourceFault::NotFound)),
        Some(i) => match resource_name_fault(draft.name) {
            Some(fault) => (m, Err(fault)),
            None => {
                let next = ResourceModel {
                    dashboards: m.dashboards.update(
                        i,
                        DashboardEntryModel {
                            name: draft.name,
                            updated_at: now,
                            ..m.dashboards[i]
                        },
                    ),
                    ..m
                };
                (next, dashboard_got(next, project, id))
            },
        },
    }
}

/// Whether every insight that tiles name is in the project.
pub open spec fn insights_known(
    m: ResourceModel,
    project: Seq<char>,
    tiles: Seq<TileInputModel>,
) -> bool {
    forall|i: int|
        0 <= i < tiles.len() ==> holds_somewhere(
            m.insights,
            insight_at(project, (#[trigger] tiles[i]).insight_id),
        )
}

/// The tiles of all dashboards with those of one replaced.
pub open spec fn tiles_replaced(
    rows: Seq<TileEntryModel>,
    project: Seq<char>,
    dashboard: Seq<char>,
    tiles: Seq<TileInputModel>,
) -> Seq<TileEntryModel> {
    removed(rows, tiles_on(project, dashboard)) + Seq::new(
        tiles.len(),
        |i: int|
            TileEntryModel {
                project_id: project,
                dashboard_id: dashboard,
                position: i as usize,
                tile: tiles[i],
            },
    )
}

/// What replacing the tiles of a dashboard leads to.
pub open spec fn dashboard_tiled(
    m: ResourceModel,
    project: Seq<char>,
    id: Seq<char>,
    tiles: Seq<TileInputModel>,
    now: i64,
) -> (ResourceModel, Result<DashboardModel, ResourceFault>) {
    match tiles_fault(tiles) {
        Some(fault) => (m, Err(fault)),
        None => match index_of(m.dashboards, dashboard_at(project, id)) {
            None => (m, Err(ResourceFault::NotFound)),
            Some(i) => if !insights_known(m, project, tiles) {
                (m, Err(ResourceFault::NotFound))
            } else {
                let next = ResourceModel {
                    dashboards: m.dashboards.update(
                        i,
                        DashboardEntryModel { updated_at: now, ..m.dashboards[i] },
                    ),
                    tiles: tiles_replaced(m.tiles, project, id, tiles),
                    ..m
                };
                (next, dashboard_got(next, project, id))
            },
        },
    }
}

/// What deleting a dashboard leads to: its tiles and the links that share it go too.
pub open spec fn dashboard_deleted(m: ResourceModel, project: Seq<char>, id: Seq<char>) -> (
    ResourceModel,
    Result<(), ResourceFault>,
) {
    if holds_somewhere(m.dashboards, dashboard_at(project, id)) {
        (
            ResourceModel {
                dashboards: removed(m.dashboards, dashboard_at(project, id)),
                tiles: removed(m.tiles, tiles_on(project, id)),
                shares: removed(m.shares, shares_of(project, ShareTarget::Dashboard, id)),
                ..m
            },
            Ok(()),
        )
    } else {
        (m, Err(ResourceFault::NotFound))
    }
}

/// What taking a dashboard over leads to.
pub open spec fn dashboard_imported(
    m: ResourceModel,
    known: bool,
    project: Seq<char>,
    imported: ImportedDashboardModel,
) -> (ResourceModel, Result<DashboardModel, ResourceFault>) {
    match required_fault("id"@, imported.id, MAX_NAME_BYTES as int) {
        Some(fault) => (m, Err(fault)),
        None => match resource_name_fault(imported.name) {
            Some(fault) => (m, Err(fault)),
            None => match required_fault(
                "created_by"@,
                imported.created_by,
                MAX_NAME_BYTES as int,
            ) {
                Some(fault) => (m, Err(fault)),
                None => match tiles_fault(imported.tiles) {
                    Some(fault) => (m, Err(fault)),
                    None => if !known || !insights_known(m, project, imported.tiles) {
                        (m, Err(ResourceFault::NotFound))
                    } else {
                        let row = DashboardEntryModel {
                            project_id: project,
                            id: imported.id,
                            name: imported.name,
                            created_by: imported.created_by,
                            created_at: imported.created_at,
                            updated_at: imported.updated_at,
                        };
                        let next = ResourceModel {
                            dashboards: match index_of(
                                m.dashboards,
                                dashboard_at(project, imported.id),
                            ) {
                                Some(i) => m.dashboards.update(i, row),
                                None => m.dashboards.push(row),
                            },
                            tiles: tiles_replaced(m.tiles, project, imported.id, imported.tiles),
                            ..m
                        };
                        (next, dashboard_got(next, project, imported.id))
                    },
                },
            },
        },
    }
}

// ── Share links ───────────────────────────────────────────────────────────────

/// The share link of a project with an id.
pub open spec fn share_got(m: ResourceModel, project: Seq<char>, id: Seq<char>) -> Result<
    ShareLinkModel,
    ResourceFault,
> {
    match found(m.shares, share_at(project, id)) {
        Some(row) => Ok(row.link),
        None => Err(ResourceFault::NotFound),
    }
}

/// The share links of a project, the newest first.
pub open spec fn shares_listed(m: ResourceModel, project: Seq<char>) -> Seq<ShareLinkModel> {
    sorted(selected(m.shares, shares_in(project)), share_order()).map_values(
        |row: ShareEntryModel| row.link,
    )
}

/// What the holder of a share token is let in to.
pub open spec fn share_authorized(m: ResourceModel, token: Seq<char>, now: i64) -> Result<
    ShareLinkModel,
    ResourceFault,
> {
    match found(m.shares, share_open(token, now)) {
        Some(row) => Ok(row.link),
        None => Err(ResourceFault::NotFound),
    }
}

/// A share token lets its holder in to an object of that token only, and never after it has expired.
pub proof fn law_shares_open_until_they_expire(m: ResourceModel, token: Seq<char>, now: i64)
    ensures
        share_authorized(m, token, now) matches Ok(link) ==> link.token == token && unexpired(
            link.expires_at,
            now,
        ),
{
    lemma_index_of(m.shares, share_open(token, now));
}

/// Whether the object of a share link is in the project.
pub open spec fn target_known(
    m: ResourceModel,
    project: Seq<char>,
    target: ShareTarget,
    object: Seq<char>,
) -> bool {
    match target {
        ShareTarget::Insight => holds_somewhere(m.insights, insight_at(project, object)),
        ShareTarget::Dashboard => holds_somewhere(m.dashboards, dashboard_at(project, object)),
    }
}

/// The token of a new share link, of a number drawn.
pub open spec fn share_token(number: u128) -> Seq<char> {
    "phs_"@ + simple_text_of(number)
}

/// What making a share link leads to, given the numbers drawn.
pub open spec fn share_created(
    m: ResourceModel,
    project: Seq<char>,
    target: ShareTarget,
    object: Seq<char>,
    created_by: Seq<char>,
    expires_at: Option<i64>,
    now: i64,
    id_number: u128,
    token_number: u128,
) -> (ResourceModel, Result<ShareLinkModel, ResourceFault>) {
    let link = ShareLinkModel {
        id: uuid_text_of(id_number),
        project_id: project,
        object_type: target,
        object_id: object,
        token: share_token(token_number),
        created_at: now,
        expires_at,
    };
    match required_fault("created_by"@, created_by, MAX_NAME_BYTES as int) {
        Some(fault) => (m, Err(fault)),
        None => if !target_known(m, project, target, object) {
            (m, Err(ResourceFault::NotFound))
        } else if holds_somewhere(m.shares, share_at(project, link.id)) || holds_somewhere(
            m.shares,
            share_token_is(link.token),
        ) {
            (m, Err(ResourceFault::Conflict))
        } else {
            (
                ResourceModel { shares: m.shares.push(ShareEntryModel { link, created_by }), ..m },
                Ok(link),
            )
        },
    }
}

/// What changing the expiry of a share link leads to.
pub open spec fn share_reset(
    m: ResourceModel,
    project: Seq<char>,
    id: Seq<char>,
    expires_at: Option<i64>,
) -> (ResourceModel, Result<ShareLinkModel, ResourceFault>) {
    match index_of(m.shares, share_at(project, id)) {
        None => (m, Err(ResourceFault::NotFound)),
        Some(i) => {
            let link = ShareLinkModel { expires_at, ..m.shares[i].link };
            (
                ResourceModel {
                    shares: m.shares.update(i, ShareEntryModel { link, ..m.shares[i] }),
                    ..m
                },
                Ok(link),
            )
        },
    }
}

/// Whether a token is used by a link other than the one with an id.
pub open spec fn token_elsewhere(
    m: ResourceModel,
    project: Seq<char>,
    id: Seq<char>,
    token: Seq<char>,
) -> bool {
    exists|i: int|
        0 <= i < m.shares.len() && (#[trigger] m.shares[i]).link.token == token && !(
        m.shares[i].link.project_id == project && m.shares[i].link.id == id)
}

/// What taking a share link over leads to.
pub open spec fn share_imported(
    m: ResourceModel,
    project: Seq<char>,
    imported: ImportedShareModel,
) -> (ResourceModel, Result<ShareLinkModel, ResourceFault>) {
    let link = ShareLinkModel {
        id: imported.id,
        project_id: project,
        object_type: imported.target,
        object_id: imported.object_id,
        token: imported.token,
        created_at: imported.created_at,
        expires_at: imported.expires_at,
    };
    let row = ShareEntryModel { link, created_by: imported.created_by };
    match required_fault("id"@, imported.id, MAX_NAME_BYTES as int) {
        Some(fault) => (m, Err(fault)),
        None => match required_fault("token"@, imported.token, MAX_NAME_BYTES as int) {
            Some(fault) => (m, Err(fault)),
            None => match required_fault("object_id"@, imported.object_id, MAX_NAME_BYTES as int) {
                Some(fault) => (m, Err(fault)),
                None => match required_fault(
                    "created_by"@,
                    imported.created_by,
                    MAX_NAME_BYTES as int,
                ) {
                    Some(fault) => (m, Err(fault)),
                    None => if !target_known(m, project, imported.target, imported.object_id) {
                        (m, Err(ResourceFault::NotFound))
                    } else if token_elsewhere(m, project, imported.id, imported.token) {
                        (m, Err(ResourceFault::Conflict))
                    } else {
                        (
                            ResourceModel {
                                shares: match index_of(
                                    m.shares,
                                    share_at(project, imported.id),
                                ) {
                                    Some(i) => m.shares.update(i, row),
                                    None => m.shares.push(row),
                                },
                                ..m
                            },
                            Ok(link),
                        )
                    },
                },
            },
        },
    }
}

/// What deleting a share link leads to.
pub open spec fn share_deleted(m: ResourceModel, project: Seq<char>, id: Seq<char>) -> (
    ResourceModel,
    Result<(), ResourceFault>,
) {
    if holds_somewhere(m.shares, share_at(project, id)) {
        (ResourceModel { shares: removed(m.shares, share_at(project, id)), ..m }, Ok(()))
    } else {
        (m, Err(ResourceFault::NotFound))
    }
}

/// A link that was just made opens with its token for as long as it has not expired.
pub proof fn law_new_shares_open(
    m: ResourceModel,
    project: Seq<char>,
    target: ShareTarget,
    object: Seq<char>,
    created_by: Seq<char>,
    expires_at: Option<i64>,
    now: i64,
    id_number: u128,
    token_number: u128,
    later: i64,
)
    requires
        unexpired(expires_at, later),
    ensures
        ({
            let (next, made) = share_created(
                m,
                project,
                target,
                object,
                created_by,
                expires_at,
                now,
                id_number,
                token_number,
            );
            made matches Ok(link) ==> share_authorized(next, link.token, later) == Ok::<
                _,
                ResourceFault,
            >(link)
        }),
{
    let (next, made) = share_created(
        m,
        project,
        target,
        object,
        created_by,
        expires_at,
        now,
        id_number,
        token_number,
    );
    if let Ok(link) = made {
        let p = share_open(link.token, later);
        let n = m.shares.len() as int;
        lemma_index_of(m.shares, share_token_is(link.token));
        assert forall|j: int| 0 <= j < n implies !p(#[trigger] next.shares[j]) by {
            assert(next.shares[j] == m.shares[j]);
            assert(!(share_token_is(link.token))(m.shares[j]));
        }
        assert(next.shares[n].link == link);
        lemma_index_is(next.shares, p, n);
    }
}

// ── Laws over all of it ───────────────────────────────────────────────────────

/// An insight that was made is there to be read.
pub proof fn law_insights_read_back(
    m: ResourceModel,
    known: bool,
    project: Seq<char>,
    created_by: Seq<char>,
    draft: InsightDraftModel,
    verdict: QueryModel,
    now: i64,
    number: u128,
)
    ensures
        ({
            let (next, made) = insight_created(
                m,
                known,
                project,
                created_by,
                draft,
                verdict,
                now,
                number,
            );
            made matches Ok(insight) ==> insight_got(next, project, insight.id) == Ok::<
                _,
                ResourceFault,
            >(insight) && insight.name == draft.name && insight.description == draft.description
        }),
{
    let (next, made) = insight_created(m, known, project, created_by, draft, verdict, now, number);
    if made is Ok {
        assert(next.insights.drop_last() =~= m.insights);
    }
}

/// Whatever is done to the insights of one project, those of every other stay as they are.
pub proof fn law_insights_stay_in_their_project(
    m: ResourceModel,
    known: bool,
    project: Seq<char>,
    id: Seq<char>,
    created_by: Seq<char>,
    draft: InsightDraftModel,
    verdict: QueryModel,
    now: i64,
    number: u128,
    other: Seq<char>,
    other_id: Seq<char>,
)
    requires
        other != project,
    ensures
        insight_got(
            insight_created(m, known, project, created_by, draft, verdict, now, number).0,
            other,
            other_id,
        ) == insight_got(m, other, other_id),
        insight_got(
            insight_updated(m, project, id, draft, verdict, now).0,
            other,
            other_id,
        ) == insight_got(m, other, other_id),
        insight_got(insight_deleted(m, project, id).0, other, other_id) == insight_got(
            m,
            other,
            other_id,
        ),
{
    let p = insight_at(other, other_id);
    let created = insight_created(m, known, project, created_by, draft, verdict, now, number).0;
    if created.insights.len() > m.insights.len() {
        lemma_found_after_push(m.insights, created.insights.last(), p);
    }
    lemma_index_of(m.insights, insight_at(project, id));
    if let Some(i) = index_of(m.insights, insight_at(project, id)) {
        let updated = insight_updated(m, project, id, draft, verdict, now).0;
        assert(m.insights.update(i, m.insights[i]) =~= m.insights);
        assert(updated.insights =~= m.insights.update(i, updated.insights[i]));
        lemma_found_after_update(m.insights, i, updated.insights[i], p);
    }
    lemma_found_after_removal(m.insights, insight_at(project, id), p);
}

/// Rows that are in order already stay where they are.
proof fn lemma_sorted_stays<V>(rows: Seq<V>, before: spec_fn(V, V) -> bool)
    requires
        forall|i: int, j: int|
            0 <= i < j < rows.len() ==> !before(#[trigger] rows[j], #[trigger] rows[i]),
    ensures
        sorted(rows, before) == rows,
    decreases rows.len(),
{
    if rows.len() > 0 {
        lemma_sorted_stays(rows.drop_last(), before);
        if rows.len() > 1 {
            assert(!before(rows[rows.len() - 1], rows[rows.len() - 2]));
        }
        assert(rows =~= rows.drop_last().push(rows.last()));
    } else {
        assert(sorted(rows, before) =~= rows);
    }
}

/// The tiles of rows whose insights are all there.
proof fn lemma_tiles_seen(m: ResourceModel, rows: Seq<TileEntryModel>, i: int)
    requires
        0 <= i < rows.len(),
        forall|j: int|
            0 <= j < rows.len() ==> found(
                m.insights,
                insight_at(
                    (#[trigger] rows[j]).project_id,
                    rows[j].tile.insight_id,
                ),
            ) is Some,
    ensures
        tiles_seen(m, rows).len() == rows.len(),
        tiles_seen(m, rows)[i].insight_id == rows[i].tile.insight_id,
        tiles_seen(m, rows)[i].x == rows[i].tile.x,
        tiles_seen(m, rows)[i].y == rows[i].tile.y,
        tiles_seen(m, rows)[i].w == rows[i].tile.w,
        tiles_seen(m, rows)[i].h == rows[i].tile.h,
        tiles_seen(m, rows)[i].insight is Some,
    decreases rows.len(),
{
    let rest = rows.drop_last();
    assert forall|j: int| 0 <= j < rest.len() implies found(
        m.insights,
        insight_at((#[trigger] rest[j]).project_id, rest[j].tile.insight_id),
    ) is Some by {
        assert(rest[j] == rows[j]);
    }
    assert(found(
        m.insights,
        insight_at(
            rows[rows.len() - 1].project_id,
            rows[rows.len() - 1].tile.insight_id,
        ),
    ) is Some);
    if i < rest.len() {
        lemma_tiles_seen(m, rest, i);
        assert(rest[i] == rows[i]);
    } else if rest.len() > 0 {
        lemma_tiles_seen(m, rest, 0);
    }
}

/// The tiles that a dashboard was given are the tiles that it shows, in the same order, each with its insight.
pub proof fn law_tiles_read_back(
    m: ResourceModel,
    project: Seq<char>,
    id: Seq<char>,
    tiles: Seq<TileInputModel>,
    now: i64,
    i: int,
)
    requires
        tiles.len() <= usize::MAX,
        0 <= i < tiles.len(),
    ensures
        dashboard_tiled(m, project, id, tiles, now).1 matches Ok(dashboard) ==> {
            &&& dashboard.tiles.len() == tiles.len()
            &&& dashboard.tiles[i].insight_id == tiles[i].insight_id
            &&& dashboard.tiles[i].x == tiles[i].x
            &&& dashboard.tiles[i].y == tiles[i].y
            &&& dashboard.tiles[i].w == tiles[i].w
            &&& dashboard.tiles[i].h == tiles[i].h
            &&& dashboard.tiles[i].insight is Some
        },
{
    let (next, tiled) = dashboard_tiled(m, project, id, tiles, now);
    if tiled is Ok {
        let p = tiles_on(project, id);
        let head = removed(m.tiles, p);
        let tail = Seq::new(
            tiles.len(),
            |k: int|
                TileEntryModel {
                    project_id: project,
                    dashboard_id: id,
                    position: k as usize,
                    tile: tiles[k],
                },
        );
        assert forall|k: int| 0 <= k < head.len() implies !p(#[trigger] head[k]) by {
            assert(head.contains(head[k]));
            lemma_removed(m.tiles, p, head[k]);
        }
        lemma_selected_concat(head, tail, p);
        lemma_selected_whole(head, p);
        lemma_selected_whole(tail, p);
        assert(Seq::<TileEntryModel>::empty() + tail =~= tail);
        lemma_sorted_stays(tail, tile_order());
        lemma_index_of(m.dashboards, dashboard_at(project, id));
        lemma_index_of(next.dashboards, dashboard_at(project, id));
        assert forall|k: int| 0 <= k < tail.len() implies found(
            next.insights,
            insight_at((#[trigger] tail[k]).project_id, tail[k].tile.insight_id),
        ) is Some by {
            assert(holds_somewhere(m.insights, insight_at(project, tiles[k].insight_id)));
            lemma_index_of(m.insights, insight_at(project, tiles[k].insight_id));
        }
        lemma_tiles_seen(next, tail, i);
    }
}

/// A change that is refused leaves no trace.
pub proof fn law_refused_changes_leave_no_trace(
    m: ResourceModel,
    known: bool,
    project: Seq<char>,
    id: Seq<char>,
    created_by: Seq<char>,
    flag: FeatureFlagModel,
    insight: InsightDraftModel,
    verdict: QueryModel,
    dashboard: DashboardDraftModel,
    target: ShareTarget,
    expires_at: Option<i64>,
    now: i64,
    first: u128,
    second: u128,
)
    ensures
        flag_created(m, known, project, flag, now).1 is Err ==> flag_created(
            m,
            known,
            project,
            flag,
            now,
        ).0 == m,
        flag_updated(m, project, id, flag, now).1 is Err ==> flag_updated(
            m,
            project,
            id,
            flag,
            now,
        ).0 == m,
        flag_deleted(m, project, id).1 is Err ==> flag_deleted(m, project, id).0 == m,
        insight_created(m, known, project, created_by, insight, verdict, now, first).1 is Err
            ==> insight_created(
            m,
            known,
            project,
            created_by,
            insight,
            verdict,
            now,
            first,
        ).0 == m,
        insight_updated(m, project, id, insight, verdict, now).1 is Err ==> insight_updated(
            m,
            project,
            id,
            insight,
            verdict,
            now,
        ).0 == m,
        insight_deleted(m, project, id).1 is Err ==> insight_deleted(m, project, id).0 == m,
        dashboard_created(m, known, project, created_by, dashboard, now, first).1 is Err
            ==> dashboard_created(m, known, project, created_by, dashboard, now, first).0 == m,
        dashboard_updated(m, project, id, dashboard, now).1 is Err ==> dashboard_updated(
            m,
            project,
            id,
            dashboard,
            now,
        ).0 == m,
        dashboard_deleted(m, project, id).1 is Err ==> dashboard_deleted(m, project, id).0 == m,
        share_created(
            m,
            project,
            target,
            id,
            created_by,
            expires_at,
            now,
            first,
            second,
        ).1 is Err ==> share_created(
            m,
            project,
            target,
            id,
            created_by,
            expires_at,
            now,
            first,
            second,
        ).0 == m,
        share_reset(m, project, id, expires_at).1 is Err ==> share_reset(
            m,
            project,
            id,
            expires_at,
        ).0 == m,
        share_deleted(m, project, id).1 is Err ==> share_deleted(m, project, id).0 == m,
{
    let created = dashboard_created(m, known, project, created_by, dashboard, now, first).0;
    if created.dashboards.len() > m.dashboards.len() {
        assert(created.dashboards.drop_last() =~= m.dashboards);
        assert(index_of(created.dashboards, dashboard_at(project, uuid_text_of(first))) is Some);
    }
    lemma_index_of(m.dashboards, dashboard_at(project, id));
    let updated = dashboard_updated(m, project, id, dashboard, now).0;
    if let Some(i) = index_of(m.dashboards, dashboard_at(project, id)) {
        if resource_name_fault(dashboard.name) is None {
            assert forall|j: int| 0 <= j < i implies !(dashboard_at(project, id))(
                #[trigger] updated.dashboards[j],
            ) by {
                assert(updated.dashboards[j] == m.dashboards[j]);
            }
            lemma_index_is(updated.dashboards, dashboard_at(project, id), i);
        }
    }
}

/// Tiles that are refused, and a dashboard whose import is refused, leave no trace.
pub proof fn law_refused_layouts_leave_no_trace(
    m: ResourceModel,
    known: bool,
    project: Seq<char>,
    id: Seq<char>,
    tiles: Seq<TileInputModel>,
    imported: ImportedDashboardModel,
    now: i64,
)
    ensures
        dashboard_tiled(m, project, id, tiles, now).1 is Err ==> dashboard_tiled(
            m,
            project,
            id,
            tiles,
            now,
        ).0 == m,
        dashboard_imported(m, known, project, imported).1 is Err ==> dashboard_imported(
            m,
            known,
            project,
            imported,
        ).0 == m,
{
    lemma_index_of(m.dashboards, dashboard_at(project, id));
    let tiled = dashboard_tiled(m, project, id, tiles, now).0;
    lemma_index_of(tiled.dashboards, dashboard_at(project, id));
    if let Some(i) = index_of(m.dashboards, dashboard_at(project, id)) {
        if tiled != m {
            assert((dashboard_at(project, id))(tiled.dashboards[i]));
        }
    }
    lemma_index_of(m.dashboards, dashboard_at(project, imported.id));
    let taken = dashboard_imported(m, known, project, imported).0;
    lemma_index_of(taken.dashboards, dashboard_at(project, imported.id));
    if taken != m {
        match index_of(m.dashboards, dashboard_at(project, imported.id)) {
            Some(i) => {
                assert((dashboard_at(project, imported.id))(taken.dashboards[i]));
            },
            None => {
                assert((dashboard_at(project, imported.id))(
                    taken.dashboards[m.dashboards.len() as int],
                ));
            },
        }
    }
}

// ── Operations ────────────────────────────────────────────────────────────────

fn is_known(access: &ProjectAccess, project_id: &str) -> (r: bool)
    ensures
        r == project_known(access@.projects, project_id@),
{
    find(&access.projects, &ProjectById { id: project_id }).is_some()
}

impl ControlResources {
    /// No resources.
    pub fn new() -> (r: ControlResources)
        ensures
            r@ == (ResourceModel {
                flags: Seq::empty(),
                insights: Seq::empty(),
                dashboards: Seq::empty(),
                tiles: Seq::empty(),
                shares: Seq::empty(),
            }),
    {
        let r = ControlResources {
            flags: Vec::new(),
            insights: Vec::new(),
            dashboards: Vec::new(),
            tiles: Vec::new(),
            shares: Vec::new(),
        };
        assert(r@.flags =~= Seq::<FlagEntryModel>::empty());
        assert(r@.insights =~= Seq::<InsightEntryModel>::empty());
        assert(r@.dashboards =~= Seq::<DashboardEntryModel>::empty());
        assert(r@.tiles =~= Seq::<TileEntryModel>::empty());
        assert(r@.shares =~= Seq::<ShareEntryModel>::empty());
        r
    }

    /// Lists the flags of a project by key.
    pub fn list_flags(&self, project_id: &str) -> (r: Vec<FeatureFlag>)
        ensures
            views(r@) == flags_listed(self@, project_id@),
    {
        let rows = select_sorted(&self.flags, &FlagsIn { project: project_id }, &FlagEntryOrder);
        let mut out: Vec<FeatureFlag> = Vec::new();
        let mut i: usize = 0;
        while i < rows.len()
            invariant
                i <= rows.len(),
                out@.len() == i,
                forall|j: int| 0 <= j < i ==> (#[trigger] out@[j])@ == rows@[j]@.flag,
            decreases rows.len() - i,
        {
            out.push(rows[i].flag.duplicate());
            i += 1;
        }
        assert(views(out@) =~= flags_listed(self@, project_id@));
        out
    }

    /// The flag of a project with a key.
    pub fn get_flag(&self, project_id: &str, key: &str) -> (r: Result<
        FeatureFlag,
        ControlResourceError,
    >)
        ensures
            outcome(r) == flag_got(self@, project_id@, key@),
    {
        match find(&self.flags, &FlagAt { project: project_id, key }) {
            Some(i) => Ok(self.flags[i].flag.duplicate()),
            None => Err(ControlResourceError::NotFound),
        }
    }

    /// Makes a flag.
    pub fn create_flag(
        &mut self,
        access: &ProjectAccess,
        project_id: &str,
        flag: &FeatureFlag,
        now: i64,
    ) -> (r: Result<FeatureFlag, ControlResourceError>)
        ensures
            (final(self)@, outcome(r)) == flag_created(
                old(self)@,
                project_known(access@.projects, project_id@),
                project_id@,
                flag@,
                now,
            ),
    {
        match validate_flag(flag) {
            Ok(()) => {},
            Err(e) => {
                return Err(e);
            },
        }
        if !is_known(access, project_id) {
            return Err(ControlResourceError::NotFound);
        }
        if find(&self.flags, &FlagAt { project: project_id, key: flag.key.as_str() }).is_some() {
            return Err(ControlResourceError::Conflict);
        }
        append(
            &mut self.flags,
            FlagEntry {
                project_id: project_id.to_owned(),
                flag: flag.duplicate(),
                created_at: now,
                updated_at: now,
            },
        );
        Ok(flag.duplicate())
    }

    /// Changes a flag. Its key stays.
    pub fn update_flag(&mut self, project_id: &str, key: &str, flag: &FeatureFlag, now: i64) -> (r:
        Result<FeatureFlag, ControlResourceError>)
        ensures
            (final(self)@, outcome(r)) == flag_updated(
                old(self)@,
                project_id@,
                key@,
                flag@,
                now,
            ),
    {
        let i: usize = match find(&self.flags, &FlagAt { project: project_id, key }) {
            Some(i) => i,
            None => {
                return Err(ControlResourceError::NotFound);
            },
        };
        if !same(key, flag.key.as_str()) {
            return Err(ControlResourceError::Conflict);
        }
        match validate_flag(flag) {
            Ok(()) => {},
            Err(e) => {
                return Err(e);
            },
        }
        let mut row = self.flags[i].duplicate();
        row.flag = flag.duplicate();
        row.updated_at = now;
        replace(&mut self.flags, i, row);
        Ok(flag.duplicate())
    }

    /// Deletes a flag.
    pub fn delete_flag(&mut self, project_id: &str, key: &str) -> (r: Result<
        (),
        ControlResourceError,
    >)
        ensures
            (final(self)@, outcome(r)) == flag_deleted(old(self)@, project_id@, key@),
    {
        let query = FlagAt { project: project_id, key };
        if find(&self.flags, &query).is_none() {
            return Err(ControlResourceError::NotFound);
        }
        remove(&mut self.flags, &query);
        Ok(())
    }

    /// Takes a flag over with its history.
    pub fn import_flag(
        &mut self,
        access: &ProjectAccess,
        project_id: &str,
        imported: &ImportedFeatureFlag,
    ) -> (r: Result<FeatureFlag, ControlResourceError>)
        ensures
            (final(self)@, outcome(r)) == flag_imported(
                old(self)@,
                project_known(access@.projects, project_id@),
                project_id@,
                imported@,
            ),
    {
        match validate_flag(&imported.flag) {
            Ok(()) => {},
            Err(e) => {
                return Err(e);
            },
        }
        if !is_known(access, project_id) {
            return Err(ControlResourceError::NotFound);
        }
        let row = FlagEntry {
            project_id: project_id.to_owned(),
            flag: imported.flag.duplicate(),
            created_at: imported.created_at,
            updated_at: imported.updated_at,
        };
        match find(
            &self.flags,
            &FlagAt { project: project_id, key: imported.flag.key.as_str() },
        ) {
            Some(i) => {
                replace(&mut self.flags, i, row);
            },
            None => {
                append(&mut self.flags, row);
            },
        }
        Ok(imported.flag.duplicate())
    }

    /// Lists the insights of a project, the latest change first.
    pub fn list_insights(&self, project_id: &str) -> (r: Vec<SavedInsight>)
        ensures
            views(r@) == insights_listed(self@, project_id@),
    {
        let rows = select_sorted(
            &self.insights,
            &InsightsIn { project: project_id },
            &InsightOrder,
        );
        let mut out: Vec<SavedInsight> = Vec::new();
        let mut i: usize = 0;
        while i < rows.len()
            invariant
                i <= rows.len(),
                out@.len() == i,
                forall|j: int| 0 <= j < i ==> (#[trigger] out@[j])@ == rows@[j]@.insight,
            decreases rows.len() - i,
        {
            out.push(rows[i].insight.duplicate());
            i += 1;
        }
        assert(views(out@) =~= insights_listed(self@, project_id@));
        out
    }

    /// The insight of a project with an id.
    pub fn get_insight(&self, project_id: &str, insight_id: &str) -> (r: Result<
        SavedInsight,
        ControlResourceError,
    >)
        ensures
            outcome(r) == insight_got(self@, project_id@, insight_id@),
    {
        match find(&self.insights, &InsightAt { project: project_id, id: insight_id }) {
            Some(i) => Ok(self.insights[i].insight.duplicate()),
            None => Err(ControlResourceError::NotFound),
        }
    }

    /// Saves an insight, given the number drawn for it.
    pub fn create_insight_with(
        &mut self,
        access: &ProjectAccess,
        project_id: &str,
        created_by: &str,
        draft: &InsightDraft,
        verdict: QueryVerdict,
        now: i64,
        number: u128,
    ) -> (r: Result<SavedInsight, ControlResourceError>)
        ensures
            (final(self)@, outcome(r)) == insight_created(
                old(self)@,
                project_known(access@.projects, project_id@),
                project_id@,
                created_by@,
                draft@,
                verdict@,
                now,
                number,
            ),
    {
        match validate_required("name", draft.name.as_str(), MAX_NAME_BYTES) {
            Ok(()) => {},
            Err(e) => {
                return Err(e);
            },
        }
        match validate_required("created_by", created_by, MAX_NAME_BYTES) {
            Ok(()) => {},
            Err(e) => {
                return Err(e);
            },
        }
        let query_ir = match supported_query_json(verdict) {
            Ok(q) => q,
            Err(e) => {
                return Err(e);
            },
        };
        if !is_known(access, project_id) {
            return Err(ControlResourceError::NotFound);
        }
        let id = uuid_text(number);
        if find(&self.insights, &InsightAt { project: project_id, id: id.as_str() }).is_some() {
            return Err(
                ControlResourceError::Database(
                    joined(
                        "UNIQUE constraint failed: ",
                        "saved_insights.project_id, saved_insights.id",
                    ),
                ),
            );
        }
        let insight = SavedInsight {
            id,
            project_id: project_id.to_owned(),
            name: draft.name.clone(),
            description: draft.description.clone(),
            query_ir,
            created_by: created_by.to_owned(),
            created_at: now,
            updated_at: now,
        };
        append(
            &mut self.insights,
            InsightEntry { insight: insight.duplicate(), query_supported: true },
        );
        Ok(insight)
    }

    /// Saves an insight.
    pub fn create_insight(
        &mut self,
        access: &ProjectAccess,
        project_id: &str,
        created_by: &str,
        draft: &InsightDraft,
        verdict: QueryVerdict,
        now: i64,
    ) -> (r: Result<SavedInsight, ControlResourceError>)
        ensures
            exists|number: u128|
                uuid_version(number) == 7 && (final(self)@, outcome(r)) == #[trigger] insight_created(
                    old(self)@,
                    project_known(access@.projects, project_id@),
                    project_id@,
                    created_by@,
                    draft@,
                    verdict@,
                    now,
                    number,
                ),
    {
        let number: u128 = fresh_now_v7();
        let ghost view = verdict@;
        let r = self.create_insight_with(
            access,
            project_id,
            created_by,
            draft,
            verdict,
            now,
            number,
        );
        assert((self@, outcome(r)) == insight_created(
            old(self)@,
            project_known(access@.projects, project_id@),
            project_id@,
            created_by@,
            draft@,
            view,
            now,
            number,
        ));
        r
    }

    /// Changes an insight.
    pub fn update_insight(
        &mut self,
        project_id: &str,
        insight_id: &str,
        draft: &InsightDraft,
        verdict: QueryVerdict,
        now: i64,
    ) -> (r: Result<SavedInsight, ControlResourceError>)
        ensures
            (final(self)@, outcome(r)) == insight_updated(
                old(self)@,
                project_id@,
                insight_id@,
                draft@,
                verdict@,
                now,
            ),
    {
        let i: usize = match find(
            &self.insights,
            &InsightAt { project: project_id, id: insight_id },
        ) {
            Some(i) => i,
            None => {
                return Err(ControlResourceError::NotFound);
            },
        };
        match validate_required("name", draft.name.as_str(), MAX_NAME_BYTES) {
            Ok(()) => {},
            Err(e) => {
                return Err(e);
            },
        }
        let query_ir = match supported_query_json(verdict) {
            Ok(q) => q,
            Err(e) => {
                return Err(e);
            },
        };
        let mut insight = self.insights[i].insight.duplicate();
        insight.name = draft.name.clone();
        insight.description = draft.description.clone();
        insight.query_ir = query_ir;
        insight.updated_at = now;
        replace(
            &mut self.insights,
            i,
            InsightEntry { insight: insight.duplicate(), query_supported: true },
        );
        Ok(insight)
    }

    /// Deletes an insight, the tiles that show it and the links that share it.
    pub fn delete_insight(&mut self, project_id: &str, insight_id: &str) -> (r: Result<
        (),
        ControlResourceError,
    >)
        ensures
            (final(self)@, outcome(r)) == insight_deleted(old(self)@, project_id@, insight_id@),
    {
        let query = InsightAt { project: project_id, id: insight_id };
        if find(&self.insights, &query).is_none() {
            return Err(ControlResourceError::NotFound);
        }
        remove(&mut self.insights, &query);
        remove(&mut self.tiles, &TilesShowing { project: project_id, insight: insight_id });
        remove(
            &mut self.shares,
            &SharesOf { project: project_id, target: ShareTarget::Insight, object: insight_id },
        );
        Ok(())
    }

    /// Takes an insight over with its history. Its query need not be one that can be run.
    pub fn import_insight(
        &mut self,
        access: &ProjectAccess,
        project_id: &str,
        imported: &ImportedInsight,
        verdict: QueryVerdict,
    ) -> (r: Result<SavedInsight, ControlResourceError>)
        ensures
            (final(self)@, outcome(r)) == insight_imported(
                old(self)@,
                project_known(access@.projects, project_id@),
                project_id@,
                imported@,
                verdict@,
            ),
    {
        match validate_required("id", imported.id.as_str(), MAX_NAME_BYTES) {
            Ok(()) => {},
            Err(e) => {
                return Err(e);
            },
        }
        match validate_required("name", imported.name.as_str(), MAX_NAME_BYTES) {
            Ok(()) => {},
            Err(e) => {
                return Err(e);
            },
        }
        match validate_required("created_by", imported.created_by.as_str(), MAX_NAME_BYTES) {
            Ok(()) => {},
            Err(e) => {
                return Err(e);
            },
        }
        let (query_ir, query_supported) = match imported_query_json(verdict) {
            Ok(q) => q,
            Err(e) => {
                return Err(e);
            },
        };
        if !is_known(access, project_id) {
            return Err(ControlResourceError::NotFound);
        }
        let insight = SavedInsight {
            id: imported.id.clone(),
            project_id: project_id.to_owned(),
            name: imported.name.clone(),
            description: imported.description.clone(),
            query_ir,
            created_by: imported.created_by.clone(),
            created_at: imported.created_at,
            updated_at: imported.updated_at,
        };
        let row = InsightEntry { insight: insight.duplicate(), query_supported };
        match find(
            &self.insights,
            &InsightAt { project: project_id, id: imported.id.as_str() },
        ) {
            Some(i) => {
                replace(&mut self.insights, i, row);
            },
            None => {
                append(&mut self.insights, row);
            },
        }
        Ok(insight)
    }

    fn load_tiles(&self, rows: &Vec<TileEntry>) -> (r: Vec<DashboardTile>)
        ensures
            views(r@) == tiles_seen(self@, views(rows@)),
    {
        let ghost all = views(rows@);
        let mut out: Vec<DashboardTile> = Vec::new();
        let mut i: usize = 0;
        assert(all.take(0) =~= Seq::<TileEntryModel>::empty());
        assert(views(out@) =~= Seq::<TileModel>::empty());
        while i < rows.len()
            invariant
                i <= rows.len(),
                all == views(rows@),
                views(out@) == tiles_seen(self@, all.take(i as int)),
            decreases rows.len() - i,
        {
            assert(all.take(i + 1).drop_last() =~= all.take(i as int));
            assert(all.take(i + 1).last() == rows@[i as int]@);
            let row = &rows[i];
            match find(
                &self.insights,
                &InsightAt {
                    project: row.project_id.as_str(),
                    id: row.tile.insight_id.as_str(),
                },
            ) {
                Some(k) => {
                    append(
                        &mut out,
                        DashboardTile {
                            insight_id: row.tile.insight_id.clone(),
                            x: row.tile.x,
                            y: row.tile.y,
                            w: row.tile.w,
                            h: row.tile.h,
                            insight: Some(self.insights[k].insight.duplicate()),
                        },
                    );
                },
                None => {},
            }
            i += 1;
        }
        assert(all.take(all.len() as int) =~= all);
        out
    }

    fn load_dashboard(&self, row: &DashboardEntry) -> (r: Dashboard)
        ensures
            r@ == dashboard_seen(self@, row@),
    {
        let rows = select_sorted(
            &self.tiles,
            &TilesOn { project: row.project_id.as_str(), dashboard: row.id.as_str() },
            &TileOrder,
        );
        let tiles = self.load_tiles(&rows);
        Dashboard {
            id: row.id.clone(),
            project_id: row.project_id.clone(),
            name: row.name.clone(),
            tiles,
            created_by: row.created_by.clone(),
            created_at: row.created_at,
        }
    }

    /// Lists the dashboards of a project, the latest change first.
    pub fn list_dashboards(&self, project_id: &str) -> (r: Vec<Dashboard>)
        ensures
            views(r@) == dashboards_listed(self@, project_id@),
    {
        let rows = select_sorted(
            &self.dashboards,
            &DashboardsIn { project: project_id },
            &DashboardOrder,
        );
        let mut out: Vec<Dashboard> = Vec::new();
        let mut i: usize = 0;
        while i < rows.len()
            invariant
                i <= rows.len(),
                out@.len() == i,
                forall|j: int|
                    0 <= j < i ==> (#[trigger] out@[j])@ == dashboard_seen(self@, rows@[j]@),
            decreases rows.len() - i,
        {
            out.push(self.load_dashboard(&rows[i]));
            i += 1;
        }
        assert(views(out@) =~= dashboards_listed(self@, project_id@));
        out
    }

    /// The dashboard of a project with an id.
    pub fn get_dashboard(&self, project_id: &str, dashboard_id: &str) -> (r: Result<
        Dashboard,
        ControlResourceError,
    >)
        ensures
            outcome(r) == dashboard_got(self@, project_id@, dashboard_id@),
    {
        match find(&self.dashboards, &DashboardAt { project: project_id, id: dashboard_id }) {
            Some(i) => Ok(self.load_dashboard(&self.dashboards[i])),
            None => Err(ControlResourceError::NotFound),
        }
    }

    /// Makes a dashboard, given the number drawn for it.
    pub fn create_dashboard_with(
        &mut self,
        access: &ProjectAccess,
        project_id: &str,
        created_by: &str,
        draft: &DashboardDraft,
        now: i64,
        number: u128,
    ) -> (r: Result<Dashboard, ControlResourceError>)
        ensures
            (final(self)@, outcome(r)) == dashboard_created(
                old(self)@,
                project_known(access@.projects, project_id@),
                project_id@,
                created_by@,
                draft@,
                now,
                number,
            ),
    {
        match validate_required("name", draft.name.as_str(), MAX_NAME_BYTES) {
            Ok(()) => {},
            Err(e) => {
                return Err(e);
            },
        }
        match validate_required("created_by", created_by, MAX_NAME_BYTES) {
            Ok(()) => {},
            Err(e) => {
                return Err(e);
            },
        }
        if !is_known(access, project_id) {
            return Err(ControlResourceError::NotFound);
        }
        let id = uuid_text(number);
        if find(
            &self.dashboards,
            &DashboardAt { project: project_id, id: id.as_str() },
        ).is_some() {
            return Err(
                ControlResourceError::Database(
                    joined(
                        "UNIQUE constraint failed: ",
                        "dashboards.project_id, dashboards.id",
                    ),
                ),
            );
        }
        append(
            &mut self.dashboards,
            DashboardEntry {
                project_id: project_id.to_owned(),
                id: id.clone(),
                name: draft.name.clone(),
                created_by: created_by.to_owned(),
                created_at: now,
                updated_at: now,
            },
        );
        self.get_dashboard(project_id, id.as_str())
    }

    /// Makes a dashboard.
    pub fn create_dashboard(
        &mut self,
        access: &ProjectAccess,
        project_id: &str,
        created_by: &str,
        draft: &DashboardDraft,
        now: i64,
    ) -> (r: Result<Dashboard, ControlResourceError>)
        ensures
            exists|number: u128|
                uuid_version(number) == 7 && (final(self)@, outcome(r)) == #[trigger] dashboard_created(
                    old(self)@,
                    project_known(access@.projects, project_id@),
                    project_id@,
                    created_by@,
                    draft@,
                    now,
                    number,
                ),
    {
        let number: u128 = fresh_now_v7();
        let r = self.create_dashboard_with(access, project_id, created_by, draft, now, number);
        assert((self@, outcome(r)) == dashboard_created(
            old(self)@,
            project_known(access@.projects, project_id@),
            project_id@,
            created_by@,
            draft@,
            now,
            number,
        ));
        r
    }

    /// Renames a dashboard.
    pub fn update_dashboard(
        &mut self,
        project_id: &str,
        dashboard_id: &str,
        draft: &DashboardDraft,
        now: i64,
    ) -> (r: Result<Dashboard, ControlResourceError>)
        ensures
            (final(self)@, outcome(r)) == dashboard_updated(
                old(self)@,
                project_id@,
                dashboard_id@,
                draft@,
                now,
            ),
    {
        let i: usize = match find(
            &self.dashboards,
            &DashboardAt { project: project_id, id: dashboard_id },
        ) {
            Some(i) => i,
            None => {
                return Err(ControlResourceError::NotFound);
            },
        };
        match validate_required("name", draft.name.as_str(), MAX_NAME_BYTES) {
            Ok(()) => {},
            Err(e) => {
                return Err(e);
            },
        }
        let mut row = self.dashboards[i].duplicate();
        row.name = draft.name.clone();
        row.updated_at = now;
        replace(&mut self.dashboards, i, row);
        self.get_dashboard(project_id, dashboard_id)
    }

    fn knows_insights(&self, project_id: &str, tiles: &Vec<DashboardTileInput>) -> (r: bool)
        ensures
            r == insights_known(self@, project_id@, views(tiles@)),
    {
        let ghost all = views(tiles@);
        let mut i: usize = 0;
        while i < tiles.len()
            invariant
                i <= tiles.len(),
                all == views(tiles@),
                forall|j: int|
                    0 <= j < i ==> holds_somewhere(
                        self@.insights,
                        insight_at(project_id@, (#[trigger] all[j]).insight_id),
                    ),
            decreases tiles.len() - i,
        {
            assert(all[i as int] == tiles@[i as int]@);
            if find(
                &self.insights,
                &InsightAt { project: project_id, id: tiles[i].insight_id.as_str() },
            ).is_none() {
                return false;
            }
            i += 1;
        }
        true
    }

    fn put_tiles(
        &mut self,
        project_id: &str,
        dashboard_id: &str,
        tiles: &Vec<DashboardTileInput>,
    )
        ensures
            final(self)@ == (ResourceModel {
                tiles: tiles_replaced(
                    old(self)@.tiles,
                    project_id@,
                    dashboard_id@,
                    views(tiles@),
                ),
                ..old(self)@
            }),
    {
        remove(&mut self.tiles, &TilesOn { project: project_id, dashboard: dashboard_id });
        let ghost left = views(self.tiles@);
        let ghost all = views(tiles@);
        let ghost fresh = Seq::new(
            all.len(),
            |i: int|
                TileEntryModel {
                    project_id: project_id@,
                    dashboard_id: dashboard_id@,
                    position: i as usize,
                    tile: all[i],
                },
        );
        let mut i: usize = 0;
        assert(left + fresh.take(0) =~= left);
        while i < tiles.len()
            invariant
                i <= tiles.len(),
                all == views(tiles@),
                fresh == Seq::new(
                    all.len(),
                    |i: int|
                        TileEntryModel {
                            project_id: project_id@,
                            dashboard_id: dashboard_id@,
                            position: i as usize,
                            tile: all[i],
                        },
                ),
                self@ == (ResourceModel { tiles: left + fresh.take(i as int), ..old(self)@ }),
            decreases tiles.len() - i,
        {
            append(
                &mut self.tiles,
                TileEntry {
                    project_id: project_id.to_owned(),
                    dashboard_id: dashboard_id.to_owned(),
                    position: i,
                    tile: tiles[i].duplicate(),
                },
            );
            assert(left + fresh.take(i + 1) =~= (left + fresh.take(i as int)).push(
                fresh[i as int],
            ));
            i += 1;
        }
        assert(fresh.take(fresh.len() as int) =~= fresh);
    }

    /// Replaces the tiles of a dashboard.
    pub fn replace_dashboard_tiles(
        &mut self,
        project_id: &str,
        dashboard_id: &str,
        tiles: &Vec<DashboardTileInput>,
        now: i64,
    ) -> (r: Result<Dashboard, ControlResourceError>)
        ensures
            (final(self)@, outcome(r)) == dashboard_tiled(
                old(self)@,
                project_id@,
                dashboard_id@,
                views(tiles@),
                now,
            ),
    {
        match validate_tiles(tiles) {
            Ok(()) => {},
            Err(e) => {
                return Err(e);
            },
        }
        let i: usize = match find(
            &self.dashboards,
            &DashboardAt { project: project_id, id: dashboard_id },
        ) {
            Some(i) => i,
            None => {
                return Err(ControlResourceError::NotFound);
            },
        };
        if !self.knows_insights(project_id, tiles) {
            return Err(ControlResourceError::NotFound);
        }
        self.put_tiles(project_id, dashboard_id, tiles);
        assert(views(self.dashboards@) == old(self)@.dashboards);
        assert(self.dashboards@.len() == views(self.dashboards@).len());
        let mut row = self.dashboards[i].duplicate();
        assert(row@ == views(self.dashboards@)[i as int]);
        row.updated_at = now;
        replace(&mut self.dashboards, i, row);
        self.get_dashboard(project_id, dashboard_id)
    }

    /// Deletes a dashboard, its tiles and the links that share it.
    pub fn delete_dashboard(&mut self, project_id: &str, dashboard_id: &str) -> (r: Result<
        (),
        ControlResourceError,
    >)
        ensures
            (final(self)@, outcome(r)) == dashboard_deleted(
                old(self)@,
                project_id@,
                dashboard_id@,
            ),
    {
        let query = DashboardAt { project: project_id, id: dashboard_id };
        if find(&self.dashboards, &query).is_none() {
            return Err(ControlResourceError::NotFound);
        }
        remove(&mut self.dashboards, &query);
        remove(&mut self.tiles, &TilesOn { project: project_id, dashboard: dashboard_id });
        remove(
            &mut self.shares,
            &SharesOf {
                project: project_id,
                target: ShareTarget::Dashboard,
                object: dashboard_id,
            },
        );
        Ok(())
    }

    /// Takes a dashboard over with its history and its tiles in order.
    pub fn import_dashboard(
        &mut self,
        access: &ProjectAccess,
        project_id: &str,
        imported: &ImportedDashboard,
    ) -> (r: Result<Dashboard, ControlResourceError>)
        ensures
            (final(self)@, outcome(r)) == dashboard_imported(
                old(self)@,
                project_known(access@.projects, project_id@),
                project_id@,
                imported@,
            ),
    {
        match validate_required("id", imported.id.as_str(), MAX_NAME_BYTES) {
            Ok(()) => {},
            Err(e) => {
                return Err(e);
            },
        }
        match validate_required("name", imported.name.as_str(), MAX_NAME_BYTES) {
            Ok(()) => {},
            Err(e) => {
                return Err(e);
            },
        }
        match validate_required("created_by", imported.created_by.as_str(), MAX_NAME_BYTES) {
            Ok(()) => {},
            Err(e) => {
                return Err(e);
            },
        }
        match validate_tiles(&imported.tiles) {
            Ok(()) => {},
            Err(e) => {
                return Err(e);
            },
        }
        if !is_known(access, project_id) || !self.knows_insights(project_id, &imported.tiles) {
            return Err(ControlResourceError::NotFound);
        }
        let row = DashboardEntry {
            project_id: project_id.to_owned(),
            id: imported.id.clone(),
            name: imported.name.clone(),
            created_by: imported.created_by.clone(),
            created_at: imported.created_at,
            updated_at: imported.updated_at,
        };
        match find(
            &self.dashboards,
            &DashboardAt { project: project_id, id: imported.id.as_str() },
        ) {
            Some(i) => {
                replace(&mut self.dashboards, i, row);
            },
            None => {
                append(&mut self.dashboards, row);
            },
        }
        self.put_tiles(project_id, imported.id.as_str(), &imported.tiles);
        self.get_dashboard(project_id, imported.id.as_str())
    }

    /// Lists the share links of a project, the newest first.
    pub fn list_shares(&self, project_id: &str) -> (r: Vec<ShareLink>)
        ensures
            views(r@) == shares_listed(self@, project_id@),
    {
        let rows = select_sorted(&self.shares, &SharesIn { project: project_id }, &ShareOrder);
        let mut out: Vec<ShareLink> = Vec::new();
        let mut i: usize = 0;
        while i < rows.len()
            invariant
                i <= rows.len(),
                out@.len() == i,
                forall|j: int| 0 <= j < i ==> (#[trigger] out@[j])@ == rows@[j]@.link,
            decreases rows.len() - i,
        {
            out.push(rows[i].link.duplicate());
            i += 1;
        }
        assert(views(out@) =~= shares_listed(self@, project_id@));
        out
    }

    /// The share link of a project with an id.
    pub fn get_share(&self, project_id: &str, share_id: &str) -> (r: Result<
        ShareLink,
        ControlResourceError,
    >)
        ensures
            outcome(r) == share_got(self@, project_id@, share_id@),
    {
        match find(&self.shares, &ShareAt { project: project_id, id: share_id }) {
            Some(i) => Ok(self.shares[i].link.duplicate()),
            None => Err(ControlResourceError::NotFound),
        }
    }

    /// Resolves a public share token, unless it has expired.
    pub fn authorize_share_token(&self, token: &str, now: i64) -> (r: Result<
        ShareLink,
        ControlResourceError,
    >)
        ensures
            outcome(r) == share_authorized(self@, token@, now),
    {
        match find(&self.shares, &OpenShare { token, now }) {
            Some(i) => Ok(self.shares[i].link.duplicate()),
            None => Err(ControlResourceError::NotFound),
        }
    }

    fn knows_target(&self, project_id: &str, target: ShareTarget, object_id: &str) -> (r: bool)
        ensures
            r == target_known(self@, project_id@, target, object_id@),
    {
        match target {
            ShareTarget::Insight => find(
                &self.insights,
                &InsightAt { project: project_id, id: object_id },
            ).is_some(),
            ShareTarget::Dashboard => find(
                &self.dashboards,
                &DashboardAt { project: project_id, id: object_id },
            ).is_some(),
        }
    }

    /// Makes a share link, given the numbers drawn.
    pub fn create_share_with(
        &mut self,
        project_id: &str,
        target: ShareTarget,
        object_id: &str,
        created_by: &str,
        expires_at: Option<i64>,
        now: i64,
        id_number: u128,
        token_number: u128,
    ) -> (r: Result<ShareLink, ControlResourceError>)
        ensures
            (final(self)@, outcome(r)) == share_created(
                old(self)@,
                project_id@,
                target,
                object_id@,
                created_by@,
                expires_at,
                now,
                id_number,
                token_number,
            ),
    {
        match validate_required("created_by", created_by, MAX_NAME_BYTES) {
            Ok(()) => {},
            Err(e) => {
                return Err(e);
            },
        }
        if !self.knows_target(project_id, target, object_id) {
            return Err(ControlResourceError::NotFound);
        }
        let id = uuid_text(id_number);
        let token = joined("phs_", simple_text(token_number).as_str());
        if find(&self.shares, &ShareAt { project: project_id, id: id.as_str() }).is_some() || find(
            &self.shares,
            &ShareByToken { token: token.as_str() },
        ).is_some() {
            return Err(ControlResourceError::Conflict);
        }
        let link = ShareLink {
            id,
            project_id: project_id.to_owned(),
            object_type: target,
            object_id: object_id.to_owned(),
            token,
            created_at: now,
            expires_at,
        };
        append(
            &mut self.shares,
            ShareEntry { link: link.duplicate(), created_by: created_by.to_owned() },
        );
        Ok(link)
    }

    /// Makes a share link.
    pub fn create_share(
        &mut self,
        project_id: &str,
        target: ShareTarget,
        object_id: &str,
        created_by: &str,
        expires_at: Option<i64>,
        now: i64,
    ) -> (r: Result<ShareLink, ControlResourceError>)
        ensures
            exists|id_number: u128, token_number: u128|
                uuid_version(id_number) == 7 && uuid_version(token_number) == 4 && (final(self)@, outcome(r)) == #[trigger] share_created(
                    old(self)@,
                    project_id@,
                    target,
                    object_id@,
                    created_by@,
                    expires_at,
                    now,
                    id_number,
                    token_number,
                ),
    {
        let id_number: u128 = fresh_now_v7();
        let token_number: u128 = fresh_v4();
        let r = self.create_share_with(
            project_id,
            target,
            object_id,
            created_by,
            expires_at,
            now,
            id_number,
            token_number,
        );
        assert((self@, outcome(r)) == share_created(
            old(self)@,
            project_id@,
            target,
            object_id@,
            created_by@,
            expires_at,
            now,
            id_number,
            token_number,
        ));
        r
    }

    /// Changes when a share link expires.
    pub fn update_share_expiry(
        &mut self,
        project_id: &str,
        share_id: &str,
        expires_at: Option<i64>,
    ) -> (r: Result<ShareLink, ControlResourceError>)
        ensures
            (final(self)@, outcome(r)) == share_reset(
                old(self)@,
                project_id@,
                share_id@,
                expires_at,
            ),
    {
        let i: usize = match find(&self.shares, &ShareAt { project: project_id, id: share_id }) {
            Some(i) => i,
            None => {
                return Err(ControlResourceError::NotFound);
            },
        };
        let mut row = self.shares[i].duplicate();
        row.link.expires_at = expires_at;
        let link = row.link.duplicate();
        replace(&mut self.shares, i, row);
        Ok(link)
    }

    fn uses_token_elsewhere(&self, project_id: &str, id: &str, token: &str) -> (r: bool)
        ensures
            r == token_elsewhere(self@, project_id@, id@, token@),
    {
        let ghost all = self@.shares;
        let mut i: usize = 0;
        while i < self.shares.len()
            invariant
                i <= self.shares.len(),
                all == self@.shares,
                forall|j: int|
                    0 <= j < i ==> !((#[trigger] all[j]).link.token == token@ && !(
                    all[j].link.project_id == project_id@ && all[j].link.id == id@)),
            decreases self.shares.len() - i,
        {
            assert(all[i as int] == self.shares@[i as int]@);
            let link = &self.shares[i].link;
            if same(link.token.as_str(), token) && !(same(link.project_id.as_str(), project_id)
                && same(link.id.as_str(), id)) {
                return true;
            }
            i += 1;
        }
        false
    }

    /// Takes a share link over with its token.
    pub fn import_share(&mut self, project_id: &str, imported: &ImportedShareLink) -> (r: Result<
        ShareLink,
        ControlResourceError,
    >)
        ensures
            (final(self)@, outcome(r)) == share_imported(old(self)@, project_id@, imported@),
    {
        match validate_required("id", imported.id.as_str(), MAX_NAME_BYTES) {
            Ok(()) => {},
            Err(e) => {
                return Err(e);
            },
        }
        match validate_required("token", imported.token.as_str(), MAX_NAME_BYTES) {
            Ok(()) => {},
            Err(e) => {
                return Err(e);
            },
        }
        match validate_required("object_id", imported.object_id.as_str(), MAX_NAME_BYTES) {
            Ok(()) => {},
            Err(e) => {
                return Err(e);
            },
        }
        match validate_required("created_by", imported.created_by.as_str(), MAX_NAME_BYTES) {
            Ok(()) => {},
            Err(e) => {
                return Err(e);
            },
        }
        if !self.knows_target(project_id, imported.target, imported.object_id.as_str()) {
            return Err(ControlResourceError::NotFound);
        }
        if self.uses_token_elsewhere(project_id, imported.id.as_str(), imported.token.as_str()) {
            return Err(ControlResourceError::Conflict);
        }
        let link = ShareLink {
            id: imported.id.clone(),
            project_id: project_id.to_owned(),
            object_type: imported.target,
            object_id: imported.object_id.clone(),
            token: imported.token.clone(),
            created_at: imported.created_at,
            expires_at: imported.expires_at,
        };
        let row = ShareEntry {
            link: link.duplicate(),
            created_by: imported.created_by.clone(),
        };
        match find(&self.shares, &ShareAt { project: project_id, id: imported.id.as_str() }) {
            Some(i) => {
                replace(&mut self.shares, i, row);
            },
            None => {
                append(&mut self.shares, row);
            },
        }
        Ok(link)
    }

    /// Deletes a share link.
    pub fn delete_share(&mut self, project_id: &str, share_id: &str) -> (r: Result<
        (),
        ControlResourceError,
    >)
        ensures
            (final(self)@, outcome(r)) == share_deleted(old(self)@, project_id@, share_id@),
    {
        let query = ShareAt { project: project_id, id: share_id };
        if find(&self.shares, &query).is_none() {
            return Err(ControlResourceError::NotFound);
        }
        remove(&mut self.shares, &query);
        Ok(())
    }
}

} // verus!
