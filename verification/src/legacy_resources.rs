//! Import of the flags, insights, dashboards and share links of an earlier installation.
use vstd::prelude::*;
use vstd::string::*;

use crate::control::access::{token_is, ProjectAccess, ProjectByToken, ProjectRowModel};
use crate::control_resources::{
    dashboard_imported, flag_imported, insight_imported, project_known, resource_message,
    share_imported, ControlResourceError, ControlResources, DashboardTileInput, FeatureFlag,
    FeatureFlagModel, ImportedDashboard, ImportedDashboardModel, ImportedFeatureFlag,
    ImportedFlagModel, ImportedInsight, ImportedInsightModel, ImportedShareLink,
    ImportedShareModel, QueryModel, QueryVerdict, ResourceFault, ResourceModel, ShareTarget,
    TileInputModel,
};
use crate::event_lake::{debug_quoted, debug_text};
use crate::flags::{
    conditions_view, Conditions, ConditionsModel, Percentage, Variant, VariantModel,
};
use crate::json::{Json, JsonValue};
use crate::order::{outcome, views};
use crate::rows::{
    append, duplicate_all, find, found, lemma_runs_stop, lemma_steps_error, remove, removed, runs,
    select, selected, sort, sorted, steps, Query, Row, Sort,
};
use crate::text::{copy_option, joined, same, text_at_most, text_le};

verus! {

/// How many resources an import took over.
#[derive(Debug, Clone, Copy, PartialEq, Eq, Structural)]
pub struct LegacyResourceImportReport {
    pub flags: usize,
    pub insights: usize,
    pub dashboards: usize,
    pub tiles: usize,
    pub shares: usize,
}

/// Why an import fails.
#[derive(Debug)]
pub enum LegacyResourceImportError {
    Database { path: String, message: String },
    Resource(ControlResourceError),
    Invalid { path: String, detail: String },
}

/// The mathematical value of a [`LegacyResourceImportError`].
pub enum ResourceImportFault {
    Database(Seq<char>, Seq<char>),
    Resource(ResourceFault),
    Invalid(Seq<char>, Seq<char>),
}

impl View for LegacyResourceImportError {
    type V = ResourceImportFault;

    open spec fn view(&self) -> ResourceImportFault {
        match self {
            LegacyResourceImportError::Database { path, message } => ResourceImportFault::Database(
                path@,
                message@,
            ),
            LegacyResourceImportError::Resource(e) => ResourceImportFault::Resource(e@),
            LegacyResourceImportError::Invalid { path, detail } => ResourceImportFault::Invalid(
                path@,
                detail@,
            ),
        }
    }
}

/// The message of an error.
pub open spec fn resource_import_message(fault: ResourceImportFault) -> Seq<char> {
    match fault {
        ResourceImportFault::Database(path, message) => path + ": "@ + message,
        ResourceImportFault::Resource(e) => "control resource import failed: "@
            + resource_message(e),
        ResourceImportFault::Invalid(path, detail) => "invalid legacy resources in "@ + path
            + ": "@ + detail,
    }
}

impl LegacyResourceImportError {
    /// What the error says.
    pub fn message(&self) -> (r: String)
        ensures
            r@ == resource_import_message(self@),
    {
        match self {
            LegacyResourceImportError::Database { path, message } => {
                let mut out = joined(path.as_str(), ": ");
                out.append(message.as_str());
                out
            },
            LegacyResourceImportError::Resource(e) => joined(
                "control resource import failed: ",
                e.message().as_str(),
            ),
            LegacyResourceImportError::Invalid { path, detail } => {
                let mut out = joined("invalid legacy resources in ", path.as_str());
                out.append(": ");
                out.append(detail.as_str());
                out
            },
        }
    }
}

fn invalid(path: &str, detail: &str) -> (r: LegacyResourceImportError)
    ensures
        r@ == ResourceImportFault::Invalid(path@, detail@),
{
    LegacyResourceImportError::Invalid { path: path.to_owned(), detail: detail.to_owned() }
}

/// The first table that is required and absent, as a fault.
pub open spec fn table_fault(
    path: Seq<char>,
    present: Seq<Seq<char>>,
    required: Seq<Seq<char>>,
) -> Option<ResourceImportFault>
    decreases required.len(),
{
    if required.len() == 0 {
        None
    } else if table_fault(path, present, required.drop_last()) is Some {
        table_fault(path, present, required.drop_last())
    } else if present.contains(required.last()) {
        None
    } else {
        Some(
            ResourceImportFault::Invalid(
                path,
                "required table "@ + debug_text(required.last()) + " is absent"@,
            ),
        )
    }
}

proof fn lemma_table_fault_stays(
    path: Seq<char>,
    present: Seq<Seq<char>>,
    required: Seq<Seq<char>>,
    k: int,
)
    requires
        0 <= k <= required.len(),
    ensures
        table_fault(path, present, required.take(k)) is Some ==> table_fault(
            path,
            present,
            required,
        ) == table_fault(path, present, required.take(k)),
    decreases required.len() - k,
{
    if k < required.len() {
        lemma_table_fault_stays(path, present, required, k + 1);
        assert(required.take(k + 1).drop_last() =~= required.take(k));
    } else {
        assert(required.take(k) =~= required);
    }
}

fn lists(texts: &Vec<String>, text: &str) -> (r: bool)
    ensures
        r == views(texts@).contains(text@),
{
    let mut i: usize = 0;
    while i < texts.len()
        invariant
            i <= texts.len(),
            forall|j: int| 0 <= j < i ==> (#[trigger] views(texts@)[j]) != text@,
        decreases texts.len() - i,
    {
        assert(views(texts@)[i as int] == texts@[i as int]@);
        if same(texts[i].as_str(), text) {
            return true;
        }
        i += 1;
    }
    false
}

/// Checks that the required tables are there.
pub fn require_tables(path: &str, present: &Vec<String>, required: &Vec<String>) -> (r: Result<
    (),
    LegacyResourceImportError,
>)
    ensures
        match table_fault(path@, views(present@), views(required@)) {
            Some(fault) => r matches Err(e) && e@ == fault,
            None => r is Ok,
        },
{
    let ghost all = views(required@);
    let mut i: usize = 0;
    assert(all.take(0) =~= Seq::<Seq<char>>::empty());
    while i < required.len()
        invariant
            i <= required.len(),
            all == views(required@),
            table_fault(path@, views(present@), all.take(i as int)) is None,
        decreases required.len() - i,
    {
        assert(all.take(i + 1).drop_last() =~= all.take(i as int));
        assert(all.take(i + 1).last() == required@[i as int]@);
        proof {
            lemma_table_fault_stays(path@, views(present@), all, i + 1);
        }
        if !lists(present, required[i].as_str()) {
            let mut out = joined(
                "required table ",
                debug_quoted(required[i].as_str()).as_str(),
            );
            out.append(" is absent");
            return Err(
                LegacyResourceImportError::Invalid { path: path.to_owned(), detail: out },
            );
        }
        i += 1;
    }
    assert(all.take(all.len() as int) =~= all);
    Ok(())
}

// ── Flags ─────────────────────────────────────────────────────────────────────

/// A flag as it is stored: the variants and the conditions as they were read, or why they could not be.
pub struct LegacyFlagRow {
    pub token: String,
    pub key: String,
    pub active: bool,
    pub rollout: Percentage,
    pub variants: Result<Vec<Variant>, String>,
    pub conditions: Result<Option<Conditions>, String>,
}

/// The mathematical value of a [`LegacyFlagRow`].
pub struct LegacyFlagRowModel {
    pub token: Seq<char>,
    pub key: Seq<char>,
    pub active: bool,
    pub rollout: Percentage,
    pub variants: Result<Seq<VariantModel>, Seq<char>>,
    pub conditions: Result<Option<ConditionsModel>, Seq<char>>,
}

impl View for LegacyFlagRow {
    type V = LegacyFlagRowModel;

    open spec fn view(&self) -> LegacyFlagRowModel {
        LegacyFlagRowModel {
            token: self.token@,
            key: self.key@,
            active: self.active,
            rollout: self.rollout,
            variants: match self.variants {
                Ok(v) => Ok(views(v@)),
                Err(s) => Err(s@),
            },
            conditions: match self.conditions {
                Ok(c) => Ok(conditions_view(c)),
                Err(s) => Err(s@),
            },
        }
    }
}

/// A flag and the token of its project.
pub struct LegacyFlag {
    pub token: String,
    pub flag: FeatureFlag,
}

/// The mathematical value of a [`LegacyFlag`].
pub struct LegacyFlagModel {
    pub token: Seq<char>,
    pub flag: FeatureFlagModel,
}

impl View for LegacyFlag {
    type V = LegacyFlagModel;

    open spec fn view(&self) -> LegacyFlagModel {
        LegacyFlagModel {
            token: self.token@,
            flag: self.flag@,
        }
    }
}

/// Flags by token, then by key.
pub open spec fn legacy_flag_order() -> spec_fn(LegacyFlagRowModel, LegacyFlagRowModel) -> bool {
    |a: LegacyFlagRowModel, b: LegacyFlagRowModel| a.token != b.token && text_le(a.token, b.token) || a.token == b.token && a.key != b.key && text_le(a.key, b.key)
}

/// Decides [`legacy_flag_order`].
pub struct LegacyFlagOrder;

impl Sort<LegacyFlagRow> for LegacyFlagOrder {
    open spec fn before(&self) -> spec_fn(LegacyFlagRowModel, LegacyFlagRowModel) -> bool {
        legacy_flag_order()
    }

    fn is_before(&self, a: &LegacyFlagRow, b: &LegacyFlagRow) -> (r: bool) {
        let equal = same(a.token.as_str(), b.token.as_str());
        !equal && text_at_most(a.token.as_str(), b.token.as_str()) || equal && !same(a.key.as_str(), b.key.as_str()) && text_at_most(a.key.as_str(), b.key.as_str())
    }
}

/// The fault of text that is not the JSON that it should be.
pub open spec fn json_fault(path: Seq<char>, error: Seq<char>) -> ResourceImportFault {
    ResourceImportFault::Invalid(path, "invalid resource JSON: "@ + error)
}

/// A flag that can be taken over. One that is meant for some people only cannot.
pub open spec fn flag_read(path: Seq<char>, row: LegacyFlagRowModel) -> Result<
    LegacyFlagModel,
    ResourceImportFault,
> {
    match row.variants {
        Err(error) => Err(json_fault(path, error)),
        Ok(variants) => match row.conditions {
            Err(error) => Err(json_fault(path, error)),
            Ok(conditions) => if conditions matches Some(c) && (c.properties.len() > 0
                || c.cohort_ids.len() > 0) {
                Err(
                    ResourceImportFault::Invalid(
                        path,
                        "targeted feature-flag conditions are not representable in control state"@,
                    ),
                )
            } else {
                Ok(
                    LegacyFlagModel {
                        token: row.token,
                        flag: FeatureFlagModel {
                            key: row.key,
                            active: row.active,
                            rollout_percentage: row.rollout,
                            variants,
                            payload: match conditions {
                                Some(c) => c.payload,
                                None => None,
                            },
                        },
                    },
                )
            },
        },
    }
}

/// One more flag.
pub open spec fn flag_pushed(path: Seq<char>) -> spec_fn(
    Seq<LegacyFlagModel>,
    LegacyFlagRowModel,
) -> Result<Seq<LegacyFlagModel>, ResourceImportFault> {
    |flags: Seq<LegacyFlagModel>, row: LegacyFlagRowModel|
        match flag_read(path, row) {
            Ok(flag) => Ok(flags.push(flag)),
            Err(fault) => Err(fault),
        }
}

/// The flags of a table, by token and key; without a database there are none.
pub open spec fn flags_loaded(
    path: Seq<char>,
    present: Seq<Seq<char>>,
    rows: Option<Seq<LegacyFlagRowModel>>,
) -> Result<Seq<LegacyFlagModel>, ResourceImportFault> {
    match rows {
        None => Ok(Seq::empty()),
        Some(rows) => match table_fault(path, present, seq!["feature_flags"@]) {
            Some(fault) => Err(fault),
            None => steps(
                Seq::<LegacyFlagModel>::empty(),
                sorted(rows, legacy_flag_order()),
                flag_pushed(path),
            ),
        },
    }
}

/// The rows of a table, where there is a database.
pub open spec fn rows_given(rows: Option<Vec<LegacyFlagRow>>) -> Option<Seq<LegacyFlagRowModel>> {
    match rows {
        Some(v) => Some(views(v@)),
        None => None,
    }
}

fn read_flag(path: &str, row: &LegacyFlagRow) -> (r: Result<LegacyFlag, LegacyResourceImportError>)
    ensures
        outcome(r) == flag_read(path@, row@),
{
    let variants = match &row.variants {
        Ok(variants) => duplicate_all(variants),
        Err(error) => {
            return Err(
                LegacyResourceImportError::Invalid {
                    path: path.to_owned(),
                    detail: joined("invalid resource JSON: ", error.as_str()),
                },
            );
        },
    };
    let payload = match &row.conditions {
        Ok(Some(c)) => {
            if c.properties.len() > 0 || c.cohort_ids.len() > 0 {
                return Err(
                    invalid(
                        path,
                        "targeted feature-flag conditions are not representable in control state",
                    ),
                );
            }
            copy_option(&c.payload)
        },
        Ok(None) => None,
        Err(error) => {
            return Err(
                LegacyResourceImportError::Invalid {
                    path: path.to_owned(),
                    detail: joined("invalid resource JSON: ", error.as_str()),
                },
            );
        },
    };
    Ok(
        LegacyFlag {
            token: row.token.clone(),
            flag: FeatureFlag {
                key: row.key.clone(),
                active: row.active,
                rollout_percentage: row.rollout,
                variants,
                payload,
            },
        },
    )
}

fn read_flags(path: &str, rows: &Vec<LegacyFlagRow>) -> (r: Result<
    Vec<LegacyFlag>,
    LegacyResourceImportError,
>)
    ensures
        match steps(Seq::<LegacyFlagModel>::empty(), views(rows@), flag_pushed(path@)) {
            Ok(flags) => r matches Ok(v) && views(v@) == flags,
            Err(fault) => r matches Err(e) && e@ == fault,
        },
{
    let ghost all = views(rows@);
    let ghost none = Seq::<LegacyFlagModel>::empty();
    let mut out: Vec<LegacyFlag> = Vec::new();
    let mut i: usize = 0;
    assert(views(out@) =~= none);
    assert(all.take(0) =~= Seq::<LegacyFlagRowModel>::empty());
    while i < rows.len()
        invariant
            i <= rows.len(),
            all == views(rows@),
            none == Seq::<LegacyFlagModel>::empty(),
            steps(none, all.take(i as int), flag_pushed(path@)) == Ok::<_, ResourceImportFault>(
                views(out@),
            ),
        decreases rows.len() - i,
    {
        assert(all.take(i + 1).drop_last() =~= all.take(i as int));
        assert(all.take(i + 1).last() == rows@[i as int]@);
        proof {
            lemma_steps_error(none, all, flag_pushed(path@), i + 1);
        }
        match read_flag(path, &rows[i]) {
            Ok(flag) => {
                append(&mut out, flag);
            },
            Err(e) => {
                return Err(e);
            },
        }
        i += 1;
    }
    assert(all.take(all.len() as int) =~= all);
    Ok(out)
}

/// Reads the flags that are to be taken over. Given are the tables that the database holds and the rows of
/// the table of flags, or nothing where there is no database.
pub fn load_flags(path: &str, present: &Vec<String>, rows: Option<Vec<LegacyFlagRow>>) -> (r: Result<
    Vec<LegacyFlag>,
    LegacyResourceImportError,
>)
    ensures
        match flags_loaded(
            path@,
            views(present@),
            rows_given(rows),
        ) {
            Ok(flags) => r matches Ok(v) && views(v@) == flags,
            Err(fault) => r matches Err(e) && e@ == fault,
        },
{
    let rows = match rows {
        Some(rows) => rows,
        None => {
            let out: Vec<LegacyFlag> = Vec::new();
            assert(views(out@) =~= Seq::<LegacyFlagModel>::empty());
            return Ok(out);
        },
    };
    let mut required: Vec<String> = Vec::new();
    required.push("feature_flags".to_owned());
    assert(views(required@) =~= seq!["feature_flags"@]);
    match require_tables(path, present, &required) {
        Ok(()) => {},
        Err(e) => {
            return Err(e);
        },
    }
    let rows = sort(rows, &LegacyFlagOrder);
    read_flags(path, &rows)
}


// ── Dashboards ────────────────────────────────────────────────────────────────

/// An insight, the token of its project, and what reading its query gave.
pub struct LegacyInsight {
    pub token: String,
    pub insight: ImportedInsight,
    pub verdict: QueryVerdict,
}

/// The mathematical value of a [`LegacyInsight`].
pub struct LegacyInsightModel {
    pub token: Seq<char>,
    pub insight: ImportedInsightModel,
    pub verdict: QueryModel,
}

impl View for LegacyInsight {
    type V = LegacyInsightModel;

    open spec fn view(&self) -> LegacyInsightModel {
        LegacyInsightModel {
            token: self.token@,
            insight: self.insight@,
            verdict: self.verdict@,
        }
    }
}

/// An insight as it is stored: its query as it was read, or why it could not be, and what judging the query
/// gave.
pub struct RawInsight {
    pub id: String,
    pub token: String,
    pub name: String,
    pub description: String,
    pub query_ir: Result<Json, String>,
    pub created_by: String,
    pub created_at: i64,
    pub updated_at: i64,
    pub verdict: QueryVerdict,
}

/// The mathematical value of a [`RawInsight`].
pub struct RawInsightModel {
    pub id: Seq<char>,
    pub token: Seq<char>,
    pub name: Seq<char>,
    pub description: Seq<char>,
    pub query_ir: Result<JsonValue, Seq<char>>,
    pub created_by: Seq<char>,
    pub created_at: i64,
    pub updated_at: i64,
    pub verdict: QueryModel,
}

impl View for RawInsight {
    type V = RawInsightModel;

    open spec fn view(&self) -> RawInsightModel {
        RawInsightModel {
            id: self.id@,
            token: self.token@,
            name: self.name@,
            description: self.description@,
            query_ir: match self.query_ir {
                Ok(q) => Ok(q@),
                Err(s) => Err(s@),
            },
            created_by: self.created_by@,
            created_at: self.created_at,
            updated_at: self.updated_at,
            verdict: self.verdict@,
        }
    }
}

/// A dashboard without its tiles.
pub struct RawDashboard {
    pub id: String,
    pub token: String,
    pub name: String,
    pub created_by: String,
    pub created_at: i64,
    pub updated_at: i64,
}

/// The mathematical value of a [`RawDashboard`].
pub struct RawDashboardModel {
    pub id: Seq<char>,
    pub token: Seq<char>,
    pub name: Seq<char>,
    pub created_by: Seq<char>,
    pub created_at: i64,
    pub updated_at: i64,
}

impl View for RawDashboard {
    type V = RawDashboardModel;

    open spec fn view(&self) -> RawDashboardModel {
        RawDashboardModel {
            id: self.id@,
            token: self.token@,
            name: self.name@,
            created_by: self.created_by@,
            created_at: self.created_at,
            updated_at: self.updated_at,
        }
    }
}

impl Row for RawDashboard {
    fn duplicate(&self) -> (r: Self) {
        RawDashboard {
            id: self.id.clone(),
            token: self.token.clone(),
            name: self.name.clone(),
            created_by: self.created_by.clone(),
            created_at: self.created_at,
            updated_at: self.updated_at,
        }
    }
}

/// A tile and the dashboard that it is on.
pub struct RawTile {
    pub id: String,
    pub dashboard_id: String,
    pub tile: DashboardTileInput,
}

/// The mathematical value of a [`RawTile`].
pub struct RawTileModel {
    pub id: Seq<char>,
    pub dashboard_id: Seq<char>,
    pub tile: TileInputModel,
}

impl View for RawTile {
    type V = RawTileModel;

    open spec fn view(&self) -> RawTileModel {
        RawTileModel {
            id: self.id@,
            dashboard_id: self.dashboard_id@,
            tile: self.tile@,
        }
    }
}

impl Row for RawTile {
    fn duplicate(&self) -> (r: Self) {
        RawTile {
            id: self.id.clone(),
            dashboard_id: self.dashboard_id.clone(),
            tile: self.tile.duplicate(),
        }
    }
}

/// A share link as it is stored.
pub struct RawShare {
    pub id: String,
    pub object_type: String,
    pub object_id: String,
    pub token: String,
    pub created_by: String,
    pub created_at: i64,
    pub expires_at: Option<i64>,
}

/// The mathematical value of a [`RawShare`].
pub struct RawShareModel {
    pub id: Seq<char>,
    pub object_type: Seq<char>,
    pub object_id: Seq<char>,
    pub token: Seq<char>,
    pub created_by: Seq<char>,
    pub created_at: i64,
    pub expires_at: Option<i64>,
}

impl View for RawShare {
    type V = RawShareModel;

    open spec fn view(&self) -> RawShareModel {
        RawShareModel {
            id: self.id@,
            object_type: self.object_type@,
            object_id: self.object_id@,
            token: self.token@,
            created_by: self.created_by@,
            created_at: self.created_at,
            expires_at: self.expires_at,
        }
    }
}

impl Row for RawShare {
    fn duplicate(&self) -> (r: Self) {
        RawShare {
            id: self.id.clone(),
            object_type: self.object_type.clone(),
            object_id: self.object_id.clone(),
            token: self.token.clone(),
            created_by: self.created_by.clone(),
            created_at: self.created_at,
            expires_at: self.expires_at,
        }
    }
}

/// A dashboard and the token of its project.
pub struct LegacyDashboard {
    pub token: String,
    pub dashboard: ImportedDashboard,
}

/// The mathematical value of a [`LegacyDashboard`].
pub struct LegacyDashboardModel {
    pub token: Seq<char>,
    pub dashboard: ImportedDashboardModel,
}

impl View for LegacyDashboard {
    type V = LegacyDashboardModel;

    open spec fn view(&self) -> LegacyDashboardModel {
        LegacyDashboardModel {
            token: self.token@,
            dashboard: self.dashboard@,
        }
    }
}

/// A share link and the token of its project.
pub struct LegacyShare {
    pub project_token: String,
    pub share: ImportedShareLink,
}

/// The mathematical value of a [`LegacyShare`].
pub struct LegacyShareModel {
    pub project_token: Seq<char>,
    pub share: ImportedShareModel,
}

impl View for LegacyShare {
    type V = LegacyShareModel;

    open spec fn view(&self) -> LegacyShareModel {
        LegacyShareModel {
            project_token: self.project_token@,
            share: self.share@,
        }
    }
}

/// The tables of dashboards.
pub struct DashboardTables {
    /// The names of the tables that the database holds.
    pub present: Vec<String>,
    pub insights: Vec<RawInsight>,
    pub dashboards: Vec<RawDashboard>,
    pub tiles: Vec<RawTile>,
    pub shares: Vec<RawShare>,
}

/// Everything that is taken over of dashboards.
pub struct LegacyDashboardData {
    pub insights: Vec<LegacyInsight>,
    pub dashboards: Vec<LegacyDashboard>,
    pub shares: Vec<LegacyShare>,
    pub tile_count: usize,
}

/// The mathematical value of [`LegacyDashboardData`].
pub struct DashboardDataModel {
    pub insights: Seq<LegacyInsightModel>,
    pub dashboards: Seq<LegacyDashboardModel>,
    pub shares: Seq<LegacyShareModel>,
    pub tile_count: nat,
}

impl View for LegacyDashboardData {
    type V = DashboardDataModel;

    open spec fn view(&self) -> DashboardDataModel {
        DashboardDataModel {
            insights: views(self.insights@),
            dashboards: views(self.dashboards@),
            shares: views(self.shares@),
            tile_count: self.tile_count as nat,
        }
    }
}

/// Insights by token, then by id.
pub open spec fn raw_insight_order() -> spec_fn(RawInsightModel, RawInsightModel) -> bool {
    |a: RawInsightModel, b: RawInsightModel| a.token != b.token && text_le(a.token, b.token) || a.token == b.token && a.id != b.id && text_le(a.id, b.id)
}

/// Decides [`raw_insight_order`].
pub struct RawInsightOrder;

impl Sort<RawInsight> for RawInsightOrder {
    open spec fn before(&self) -> spec_fn(RawInsightModel, RawInsightModel) -> bool {
        raw_insight_order()
    }

    fn is_before(&self, a: &RawInsight, b: &RawInsight) -> (r: bool) {
        let equal = same(a.token.as_str(), b.token.as_str());
        !equal && text_at_most(a.token.as_str(), b.token.as_str()) || equal && !same(a.id.as_str(), b.id.as_str()) && text_at_most(a.id.as_str(), b.id.as_str())
    }
}

/// An insight that can be taken over. One whose query cannot be read cannot.
pub open spec fn insight_read(path: Seq<char>, row: RawInsightModel) -> Result<
    LegacyInsightModel,
    ResourceImportFault,
> {
    match row.query_ir {
        Err(error) => Err(ResourceImportFault::Database(path, error)),
        Ok(query_ir) => Ok(
            LegacyInsightModel {
                token: row.token,
                insight: ImportedInsightModel {
                    id: row.id,
                    name: row.name,
                    description: row.description,
                    query_ir,
                    created_by: row.created_by,
                    created_at: row.created_at,
                    updated_at: row.updated_at,
                },
                verdict: row.verdict,
            },
        ),
    }
}

/// One more insight.
pub open spec fn insight_pushed(path: Seq<char>) -> spec_fn(
    Seq<LegacyInsightModel>,
    RawInsightModel,
) -> Result<Seq<LegacyInsightModel>, ResourceImportFault> {
    |insights: Seq<LegacyInsightModel>, row: RawInsightModel|
        match insight_read(path, row) {
            Ok(insight) => Ok(insights.push(insight)),
            Err(fault) => Err(fault),
        }
}

fn read_insight(path: &str, row: &RawInsight) -> (r: Result<
    LegacyInsight,
    LegacyResourceImportError,
>)
    ensures
        outcome(r) == insight_read(path@, row@),
{
    let query_ir = match &row.query_ir {
        Ok(query) => query.copy(),
        Err(error) => {
            return Err(
                LegacyResourceImportError::Database {
                    path: path.to_owned(),
                    message: error.clone(),
                },
            );
        },
    };
    Ok(
        LegacyInsight {
            token: row.token.clone(),
            insight: ImportedInsight {
                id: row.id.clone(),
                name: row.name.clone(),
                description: row.description.clone(),
                query_ir,
                created_by: row.created_by.clone(),
                created_at: row.created_at,
                updated_at: row.updated_at,
            },
            verdict: row.verdict.duplicate(),
        },
    )
}

fn read_insights(path: &str, rows: &Vec<RawInsight>) -> (r: Result<
    Vec<LegacyInsight>,
    LegacyResourceImportError,
>)
    ensures
        match steps(Seq::<LegacyInsightModel>::empty(), views(rows@), insight_pushed(path@)) {
            Ok(insights) => r matches Ok(v) && views(v@) == insights,
            Err(fault) => r matches Err(e) && e@ == fault,
        },
{
    let ghost all = views(rows@);
    let ghost none = Seq::<LegacyInsightModel>::empty();
    let mut out: Vec<LegacyInsight> = Vec::new();
    let mut i: usize = 0;
    assert(views(out@) =~= none);
    assert(all.take(0) =~= Seq::<RawInsightModel>::empty());
    while i < rows.len()
        invariant
            i <= rows.len(),
            all == views(rows@),
            none == Seq::<LegacyInsightModel>::empty(),
            steps(none, all.take(i as int), insight_pushed(path@)) == Ok::<_, ResourceImportFault>(
                views(out@),
            ),
        decreases rows.len() - i,
    {
        assert(all.take(i + 1).drop_last() =~= all.take(i as int));
        assert(all.take(i + 1).last() == rows@[i as int]@);
        proof {
            lemma_steps_error(none, all, insight_pushed(path@), i + 1);
        }
        match read_insight(path, &rows[i]) {
            Ok(insight) => {
                append(&mut out, insight);
            },
            Err(e) => {
                return Err(e);
            },
        }
        i += 1;
    }
    assert(all.take(all.len() as int) =~= all);
    Ok(out)
}

/// Dashboards by token, then by id.
pub open spec fn raw_dashboard_order() -> spec_fn(RawDashboardModel, RawDashboardModel) -> bool {
    |a: RawDashboardModel, b: RawDashboardModel| a.token != b.token && text_le(a.token, b.token) || a.token == b.token && a.id != b.id && text_le(a.id, b.id)
}

/// Decides [`raw_dashboard_order`].
pub struct RawDashboardOrder;

impl Sort<RawDashboard> for RawDashboardOrder {
    open spec fn before(&self) -> spec_fn(RawDashboardModel, RawDashboardModel) -> bool {
        raw_dashboard_order()
    }

    fn is_before(&self, a: &RawDashboard, b: &RawDashboard) -> (r: bool) {
        let equal = same(a.token.as_str(), b.token.as_str());
        !equal && text_at_most(a.token.as_str(), b.token.as_str()) || equal && !same(a.id.as_str(), b.id.as_str()) && text_at_most(a.id.as_str(), b.id.as_str())
    }
}

/// Tiles by dashboard, then by id.
pub open spec fn raw_tile_order() -> spec_fn(RawTileModel, RawTileModel) -> bool {
    |a: RawTileModel, b: RawTileModel| a.dashboard_id != b.dashboard_id && text_le(a.dashboard_id, b.dashboard_id) || a.dashboard_id == b.dashboard_id && a.id != b.id && text_le(a.id, b.id)
}

/// Decides [`raw_tile_order`].
pub struct RawTileOrder;

impl Sort<RawTile> for RawTileOrder {
    open spec fn before(&self) -> spec_fn(RawTileModel, RawTileModel) -> bool {
        raw_tile_order()
    }

    fn is_before(&self, a: &RawTile, b: &RawTile) -> (r: bool) {
        let equal = same(a.dashboard_id.as_str(), b.dashboard_id.as_str());
        !equal && text_at_most(a.dashboard_id.as_str(), b.dashboard_id.as_str()) || equal && !same(a.id.as_str(), b.id.as_str()) && text_at_most(a.id.as_str(), b.id.as_str())
    }
}

/// Share links by id.
pub open spec fn raw_share_order() -> spec_fn(RawShareModel, RawShareModel) -> bool {
    |a: RawShareModel, b: RawShareModel| a.id != b.id && text_le(a.id, b.id)
}

/// Decides [`raw_share_order`].
pub struct RawShareOrder;

impl Sort<RawShare> for RawShareOrder {
    open spec fn before(&self) -> spec_fn(RawShareModel, RawShareModel) -> bool {
        raw_share_order()
    }

    fn is_before(&self, a: &RawShare, b: &RawShare) -> (r: bool) {
        !same(a.id.as_str(), b.id.as_str()) && text_at_most(a.id.as_str(), b.id.as_str())
    }
}

/// The tiles on a dashboard.
pub open spec fn tile_on(dashboard: Seq<char>) -> spec_fn(RawTileModel) -> bool {
    |row: RawTileModel| row.dashboard_id == dashboard
}

/// Tests [`tile_on`].
pub struct TileOn<'a> {
    pub dashboard: &'a str,
}

impl<'a> Query<RawTile> for TileOn<'a> {
    open spec fn pred(&self) -> spec_fn(RawTileModel) -> bool {
        tile_on(self.dashboard@)
    }

    fn test(&self, row: &RawTile) -> (r: bool) {
        same(row.dashboard_id.as_str(), self.dashboard)
    }
}

/// The token of the project of an insight.
pub open spec fn insight_token(insights: Seq<LegacyInsightModel>, id: Seq<char>) -> Option<Seq<char>>
    decreases insights.len(),
{
    if insights.len() == 0 {
        None
    } else if insights.last().insight.id == id {
        Some(insights.last().token)
    } else {
        insight_token(insights.drop_last(), id)
    }
}

/// The token of the project of a dashboard.
pub open spec fn dashboard_token(dashboards: Seq<LegacyDashboardModel>, id: Seq<char>) -> Option<
    Seq<char>,
>
    decreases dashboards.len(),
{
    if dashboards.len() == 0 {
        None
    } else if dashboards.last().dashboard.id == id {
        Some(dashboards.last().token)
    } else {
        dashboard_token(dashboards.drop_last(), id)
    }
}

/// The inputs of tiles.
pub open spec fn tile_inputs(tiles: Seq<RawTileModel>) -> Seq<TileInputModel> {
    tiles.map_values(|t: RawTileModel| t.tile)
}

/// Whether a tile shows an insight of another project than that of a token.
pub open spec fn crosses(
    insights: Seq<LegacyInsightModel>,
    token: Seq<char>,
    tile: TileInputModel,
) -> bool {
    insight_token(insights, tile.insight_id) matches Some(other) && other != token
}

/// The dashboards so far, and the tiles that are on none of them.
pub struct Assembly {
    pub remaining: Seq<RawTileModel>,
    pub done: Seq<LegacyDashboardModel>,
}

/// One more dashboard, with its tiles.
pub open spec fn dashboard_assembled(
    path: Seq<char>,
    insights: Seq<LegacyInsightModel>,
) -> spec_fn(Assembly, RawDashboardModel) -> Result<Assembly, ResourceImportFault> {
    |state: Assembly, row: RawDashboardModel|
        {
            let own = tile_inputs(selected(state.remaining, tile_on(row.id)));
            if exists|i: int|
                0 <= i < own.len() && crosses(insights, row.token, #[trigger] own[i]) {
                Err(
                    ResourceImportFault::Invalid(
                        path,
                        "dashboard tile crosses project-token boundaries"@,
                    ),
                )
            } else {
                Ok(
                    Assembly {
                        remaining: removed(state.remaining, tile_on(row.id)),
                        done: state.done.push(
                            LegacyDashboardModel {
                                token: row.token,
                                dashboard: ImportedDashboardModel {
                                    id: row.id,
                                    name: row.name,
                                    tiles: own,
                                    created_by: row.created_by,
                                    created_at: row.created_at,
                                    updated_at: row.updated_at,
                                },
                            },
                        ),
                    },
                )
            }
        }
}

/// A share link with the token of its project.
pub open spec fn share_read(
    path: Seq<char>,
    insights: Seq<LegacyInsightModel>,
    dashboards: Seq<LegacyDashboardModel>,
    row: RawShareModel,
) -> Result<LegacyShareModel, ResourceImportFault> {
    let share = |target: ShareTarget|
        ImportedShareModel {
            id: row.id,
            token: row.token,
            target,
            object_id: row.object_id,
            created_by: row.created_by,
            created_at: row.created_at,
            expires_at: row.expires_at,
        };
    if row.object_type == "insight"@ {
        match insight_token(insights, row.object_id) {
            Some(project_token) => Ok(
                LegacyShareModel { project_token, share: share(ShareTarget::Insight) },
            ),
            None => Err(
                ResourceImportFault::Invalid(path, "share link references a missing insight"@),
            ),
        }
    } else if row.object_type == "dashboard"@ {
        match dashboard_token(dashboards, row.object_id) {
            Some(project_token) => Ok(
                LegacyShareModel { project_token, share: share(ShareTarget::Dashboard) },
            ),
            None => Err(
                ResourceImportFault::Invalid(path, "share link references a missing dashboard"@),
            ),
        }
    } else {
        Err(ResourceImportFault::Invalid(path, "share link has an unsupported object type"@))
    }
}

/// One more share link.
pub open spec fn share_pushed(
    path: Seq<char>,
    insights: Seq<LegacyInsightModel>,
    dashboards: Seq<LegacyDashboardModel>,
) -> spec_fn(Seq<LegacyShareModel>, RawShareModel) -> Result<
    Seq<LegacyShareModel>,
    ResourceImportFault,
> {
    |shares: Seq<LegacyShareModel>, row: RawShareModel|
        match share_read(path, insights, dashboards, row) {
            Ok(share) => Ok(shares.push(share)),
            Err(fault) => Err(fault),
        }
}

/// The tables that dashboards are read from.
pub open spec fn dashboard_tables() -> Seq<Seq<char>> {
    seq!["saved_insights"@, "dashboards"@, "dashboard_tiles"@, "share_links"@]
}

/// Whether some tile shows an insight that is not there.
pub open spec fn shows_missing(
    insights: Seq<LegacyInsightModel>,
    tiles: Seq<RawTileModel>,
) -> bool {
    exists|i: int|
        0 <= i < tiles.len() && insight_token(
            insights,
            (#[trigger] tiles[i]).tile.insight_id,
        ) is None
}

/// How many tiles dashboards have.
pub open spec fn tile_total(dashboards: Seq<LegacyDashboardModel>) -> nat
    decreases dashboards.len(),
{
    if dashboards.len() == 0 {
        0
    } else {
        tile_total(dashboards.drop_last()) + dashboards.last().dashboard.tiles.len()
    }
}

/// What is taken over of dashboards: every insight, every tile on a dashboard of the project of its insight,
/// and every share link of an object that is there. Anything else is an error, and so is a query that cannot
/// be read.
pub open spec fn dashboards_loaded(path: Seq<char>, tables: Option<DashboardTables>) -> Result<
    DashboardDataModel,
    ResourceImportFault,
> {
    match tables {
        None => Ok(
            DashboardDataModel {
                insights: Seq::empty(),
                dashboards: Seq::empty(),
                shares: Seq::empty(),
                tile_count: 0,
            },
        ),
        Some(t) => {
            let raw_insights = sorted(views(t.insights@), raw_insight_order());
            let dashboards = sorted(views(t.dashboards@), raw_dashboard_order());
            let tiles = sorted(views(t.tiles@), raw_tile_order());
            let shares = sorted(views(t.shares@), raw_share_order());
            match table_fault(path, views(t.present@), dashboard_tables()) {
                Some(fault) => Err(fault),
                None => match steps(
                    Seq::<LegacyInsightModel>::empty(),
                    raw_insights,
                    insight_pushed(path),
                ) {
                    Err(fault) => Err(fault),
                    Ok(insights) => if shows_missing(insights, tiles) {
                        Err(
                            ResourceImportFault::Invalid(
                                path,
                                "dashboard tile references a missing insight"@,
                            ),
                        )
                    } else {
                        match steps(
                            Assembly { remaining: tiles, done: Seq::empty() },
                            dashboards,
                            dashboard_assembled(path, insights),
                        ) {
                            Err(fault) => Err(fault),
                            Ok(assembly) => if assembly.remaining.len() > 0 {
                                Err(
                                    ResourceImportFault::Invalid(
                                        path,
                                        "dashboard tile references a missing dashboard"@,
                                    ),
                                )
                            } else {
                                match steps(
                                    Seq::<LegacyShareModel>::empty(),
                                    shares,
                                    share_pushed(path, insights, assembly.done),
                                ) {
                                    Err(fault) => Err(fault),
                                    Ok(links) => Ok(
                                        DashboardDataModel {
                                            insights,
                                            dashboards: assembly.done,
                                            shares: links,
                                            tile_count: tile_total(assembly.done),
                                        },
                                    ),
                                }
                            },
                        }
                    },
                },
            }
        },
    }
}

fn token_of_insight<'a>(insights: &'a Vec<LegacyInsight>, id: &str) -> (r: Option<&'a String>)
    ensures
        match r {
            Some(t) => insight_token(views(insights@), id@) == Some(t@),
            None => insight_token(views(insights@), id@) is None,
        },
{
    let ghost all = views(insights@);
    let mut i: usize = insights.len();
    assert(all.take(all.len() as int) =~= all);
    while i > 0
        invariant
            i <= insights.len(),
            all == views(insights@),
            insight_token(all, id@) == insight_token(all.take(i as int), id@),
        decreases i,
    {
        assert(all.take(i as int).last() == insights@[i - 1]@);
        if same(insights[i - 1].insight.id.as_str(), id) {
            return Some(&insights[i - 1].token);
        }
        assert(all.take(i as int).drop_last() =~= all.take(i - 1));
        i -= 1;
    }
    None
}

fn token_of_dashboard<'a>(dashboards: &'a Vec<LegacyDashboard>, id: &str) -> (r: Option<&'a String>)
    ensures
        match r {
            Some(t) => dashboard_token(views(dashboards@), id@) == Some(t@),
            None => dashboard_token(views(dashboards@), id@) is None,
        },
{
    let ghost all = views(dashboards@);
    let mut i: usize = dashboards.len();
    assert(all.take(all.len() as int) =~= all);
    while i > 0
        invariant
            i <= dashboards.len(),
            all == views(dashboards@),
            dashboard_token(all, id@) == dashboard_token(all.take(i as int), id@),
        decreases i,
    {
        assert(all.take(i as int).last() == dashboards@[i - 1]@);
        if same(dashboards[i - 1].dashboard.id.as_str(), id) {
            return Some(&dashboards[i - 1].token);
        }
        assert(all.take(i as int).drop_last() =~= all.take(i - 1));
        i -= 1;
    }
    None
}

fn shows_a_missing_insight(insights: &Vec<LegacyInsight>, tiles: &Vec<RawTile>) -> (r: bool)
    ensures
        r == shows_missing(views(insights@), views(tiles@)),
{
    let ghost all = views(tiles@);
    let mut i: usize = 0;
    while i < tiles.len()
        invariant
            i <= tiles.len(),
            all == views(tiles@),
            forall|j: int|
                0 <= j < i ==> insight_token(
                    views(insights@),
                    (#[trigger] all[j]).tile.insight_id,
                ) is Some,
        decreases tiles.len() - i,
    {
        assert(all[i as int] == tiles@[i as int]@);
        if token_of_insight(insights, tiles[i].tile.insight_id.as_str()).is_none() {
            return true;
        }
        i += 1;
    }
    false
}

fn inputs_of(tiles: &Vec<RawTile>) -> (r: Vec<DashboardTileInput>)
    ensures
        views(r@) == tile_inputs(views(tiles@)),
{
    let mut out: Vec<DashboardTileInput> = Vec::new();
    let mut i: usize = 0;
    while i < tiles.len()
        invariant
            i <= tiles.len(),
            out@.len() == i,
            forall|j: int| 0 <= j < i ==> (#[trigger] out@[j])@ == tiles@[j]@.tile,
        decreases tiles.len() - i,
    {
        out.push(tiles[i].tile.duplicate());
        i += 1;
    }
    assert(views(out@) =~= tile_inputs(views(tiles@)));
    out
}

fn some_cross(insights: &Vec<LegacyInsight>, token: &str, tiles: &Vec<DashboardTileInput>) -> (r:
    bool)
    ensures
        r == (exists|i: int|
            0 <= i < views(tiles@).len() && crosses(
                views(insights@),
                token@,
                #[trigger] views(tiles@)[i],
            )),
{
    let ghost all = views(tiles@);
    let mut i: usize = 0;
    while i < tiles.len()
        invariant
            i <= tiles.len(),
            all == views(tiles@),
            forall|j: int|
                0 <= j < i ==> !crosses(views(insights@), token@, #[trigger] all[j]),
        decreases tiles.len() - i,
    {
        assert(all[i as int] == tiles@[i as int]@);
        let other = match token_of_insight(insights, tiles[i].insight_id.as_str()) {
            Some(other) => !same(other.as_str(), token),
            None => false,
        };
        if other {
            assert(crosses(views(insights@), token@, all[i as int]));
            return true;
        }
        i += 1;
    }
    false
}

fn assemble(
    path: &str,
    insights: &Vec<LegacyInsight>,
    rows: &Vec<RawDashboard>,
    tiles: Vec<RawTile>,
) -> (r: Result<(Vec<RawTile>, Vec<LegacyDashboard>), LegacyResourceImportError>)
    ensures
        match steps(
            Assembly { remaining: views(tiles@), done: Seq::empty() },
            views(rows@),
            dashboard_assembled(path@, views(insights@)),
        ) {
            Ok(assembly) => r matches Ok(p) && views(p.0@) == assembly.remaining && views(p.1@)
                == assembly.done,
            Err(fault) => r matches Err(e) && e@ == fault,
        },
{
    let ghost start = Assembly { remaining: views(tiles@), done: Seq::empty() };
    let ghost step = dashboard_assembled(path@, views(insights@));
    let ghost all = views(rows@);
    let mut remaining = tiles;
    let mut done: Vec<LegacyDashboard> = Vec::new();
    let mut i: usize = 0;
    assert(all.take(0) =~= Seq::<RawDashboardModel>::empty());
    assert(views(done@) =~= Seq::<LegacyDashboardModel>::empty());
    while i < rows.len()
        invariant
            i <= rows.len(),
            all == views(rows@),
            step == dashboard_assembled(path@, views(insights@)),
            start == (Assembly { remaining: views(tiles@), done: Seq::empty() }),
            steps(start, all.take(i as int), step) == Ok::<_, ResourceImportFault>(
                Assembly { remaining: views(remaining@), done: views(done@) },
            ),
        decreases rows.len() - i,
    {
        assert(all.take(i + 1).drop_last() =~= all.take(i as int));
        assert(all.take(i + 1).last() == rows@[i as int]@);
        proof {
            lemma_steps_error(start, all, step, i + 1);
        }
        let row = &rows[i];
        let query = TileOn { dashboard: row.id.as_str() };
        let own = inputs_of(&select(&remaining, &query));
        if some_cross(insights, row.token.as_str(), &own) {
            return Err(invalid(path, "dashboard tile crosses project-token boundaries"));
        }
        remove(&mut remaining, &query);
        append(
            &mut done,
            LegacyDashboard {
                token: row.token.clone(),
                dashboard: ImportedDashboard {
                    id: row.id.clone(),
                    name: row.name.clone(),
                    tiles: own,
                    created_by: row.created_by.clone(),
                    created_at: row.created_at,
                    updated_at: row.updated_at,
                },
            },
        );
        i += 1;
    }
    assert(all.take(all.len() as int) =~= all);
    Ok((remaining, done))
}

fn read_share(
    path: &str,
    insights: &Vec<LegacyInsight>,
    dashboards: &Vec<LegacyDashboard>,
    row: &RawShare,
) -> (r: Result<LegacyShare, LegacyResourceImportError>)
    ensures
        outcome(r) == share_read(path@, views(insights@), views(dashboards@), row@),
{
    let (target, project_token) = if same(row.object_type.as_str(), "insight") {
        match token_of_insight(insights, row.object_id.as_str()) {
            Some(token) => (ShareTarget::Insight, token.clone()),
            None => {
                return Err(invalid(path, "share link references a missing insight"));
            },
        }
    } else if same(row.object_type.as_str(), "dashboard") {
        match token_of_dashboard(dashboards, row.object_id.as_str()) {
            Some(token) => (ShareTarget::Dashboard, token.clone()),
            None => {
                return Err(invalid(path, "share link references a missing dashboard"));
            },
        }
    } else {
        return Err(invalid(path, "share link has an unsupported object type"));
    };
    Ok(
        LegacyShare {
            project_token,
            share: ImportedShareLink {
                id: row.id.clone(),
                token: row.token.clone(),
                target,
                object_id: row.object_id.clone(),
                created_by: row.created_by.clone(),
                created_at: row.created_at,
                expires_at: row.expires_at,
            },
        },
    )
}

fn read_shares(
    path: &str,
    insights: &Vec<LegacyInsight>,
    dashboards: &Vec<LegacyDashboard>,
    rows: &Vec<RawShare>,
) -> (r: Result<Vec<LegacyShare>, LegacyResourceImportError>)
    ensures
        match steps(
            Seq::<LegacyShareModel>::empty(),
            views(rows@),
            share_pushed(path@, views(insights@), views(dashboards@)),
        ) {
            Ok(links) => r matches Ok(v) && views(v@) == links,
            Err(fault) => r matches Err(e) && e@ == fault,
        },
{
    let ghost none = Seq::<LegacyShareModel>::empty();
    let ghost step = share_pushed(path@, views(insights@), views(dashboards@));
    let ghost all = views(rows@);
    let mut out: Vec<LegacyShare> = Vec::new();
    let mut i: usize = 0;
    assert(all.take(0) =~= Seq::<RawShareModel>::empty());
    assert(views(out@) =~= none);
    while i < rows.len()
        invariant
            i <= rows.len(),
            all == views(rows@),
            step == share_pushed(path@, views(insights@), views(dashboards@)),
            none == Seq::<LegacyShareModel>::empty(),
            steps(none, all.take(i as int), step) == Ok::<_, ResourceImportFault>(views(out@)),
        decreases rows.len() - i,
    {
        assert(all.take(i + 1).drop_last() =~= all.take(i as int));
        assert(all.take(i + 1).last() == rows@[i as int]@);
        proof {
            lemma_steps_error(none, all, step, i + 1);
        }
        match read_share(path, insights, dashboards, &rows[i]) {
            Ok(share) => {
                append(&mut out, share);
            },
            Err(e) => {
                return Err(e);
            },
        }
        i += 1;
    }
    assert(all.take(all.len() as int) =~= all);
    Ok(out)
}

proof fn lemma_split_counts<V>(rows: Seq<V>, p: spec_fn(V) -> bool)
    ensures
        selected(rows, p).len() + removed(rows, p).len() == rows.len(),
    decreases rows.len(),
{
    if rows.len() > 0 {
        lemma_split_counts(rows.drop_last(), p);
    }
}

/// Every tile ends up on a dashboard or is left over: none is lost and none is added.
pub proof fn law_assembly_keeps_every_tile(
    path: Seq<char>,
    insights: Seq<LegacyInsightModel>,
    tiles: Seq<RawTileModel>,
    rows: Seq<RawDashboardModel>,
)
    ensures
        steps(
            Assembly { remaining: tiles, done: Seq::empty() },
            rows,
            dashboard_assembled(path, insights),
        ) matches Ok(assembly) ==> tile_total(assembly.done) + assembly.remaining.len()
            == tiles.len(),
    decreases rows.len(),
{
    let start = Assembly { remaining: tiles, done: Seq::empty() };
    let step = dashboard_assembled(path, insights);
    if rows.len() > 0 {
        law_assembly_keeps_every_tile(path, insights, tiles, rows.drop_last());
        if let Ok(before) = steps(start, rows.drop_last(), step) {
            lemma_split_counts(before.remaining, tile_on(rows.last().id));
            if let Ok(after) = steps(start, rows, step) {
                assert(after.done.drop_last() =~= before.done);
            }
        }
    }
}

fn table_list() -> (r: Vec<String>)
    ensures
        views(r@) == dashboard_tables(),
{
    let mut required: Vec<String> = Vec::new();
    required.push("saved_insights".to_owned());
    required.push("dashboards".to_owned());
    required.push("dashboard_tiles".to_owned());
    required.push("share_links".to_owned());
    assert(views(required@) =~= dashboard_tables());
    required
}

/// Reads the insights, dashboards and share links that are to be taken over, and checks every reference
/// among them. Without a database there are none.
pub fn load_dashboards(path: &str, tables: Option<DashboardTables>) -> (r: Result<
    LegacyDashboardData,
    LegacyResourceImportError,
>)
    ensures
        outcome(r) == dashboards_loaded(path@, tables),
{
    let tables = match tables {
        Some(tables) => tables,
        None => {
            let r = LegacyDashboardData {
                insights: Vec::new(),
                dashboards: Vec::new(),
                shares: Vec::new(),
                tile_count: 0,
            };
            assert(r@.insights =~= Seq::<LegacyInsightModel>::empty());
            assert(r@.dashboards =~= Seq::<LegacyDashboardModel>::empty());
            assert(r@.shares =~= Seq::<LegacyShareModel>::empty());
            return Ok(r);
        },
    };
    match require_tables(path, &tables.present, &table_list()) {
        Ok(()) => {},
        Err(e) => {
            return Err(e);
        },
    }
    let raw_insights = sort(tables.insights, &RawInsightOrder);
    let insights = match read_insights(path, &raw_insights) {
        Ok(insights) => insights,
        Err(e) => {
            return Err(e);
        },
    };
    let rows = sort(tables.dashboards, &RawDashboardOrder);
    let tiles = sort(tables.tiles, &RawTileOrder);
    let raw_shares = sort(tables.shares, &RawShareOrder);
    if shows_a_missing_insight(&insights, &tiles) {
        return Err(invalid(path, "dashboard tile references a missing insight"));
    }
    // Every tile ends up on a dashboard, so there are as many on all of them.
    let tile_count: usize = tiles.len();
    proof {
        law_assembly_keeps_every_tile(path@, views(insights@), views(tiles@), views(rows@));
    }
    let (remaining, dashboards) = match assemble(path, &insights, &rows, tiles) {
        Ok(p) => p,
        Err(e) => {
            return Err(e);
        },
    };
    assert(remaining@.len() == views(remaining@).len());
    if remaining.len() > 0 {
        return Err(invalid(path, "dashboard tile references a missing dashboard"));
    }
    let shares = match read_shares(path, &insights, &dashboards, &raw_shares) {
        Ok(shares) => shares,
        Err(e) => {
            return Err(e);
        },
    };
    Ok(LegacyDashboardData { insights, dashboards, shares, tile_count })
}

// ── The import ────────────────────────────────────────────────────────────────

/// The project of a token.
pub open spec fn project_of_token(
    projects: Seq<ProjectRowModel>,
    path: Seq<char>,
    token: Seq<char>,
) -> Result<Seq<char>, ResourceImportFault> {
    match found(projects, token_is(token)) {
        Some(row) => Ok(row.id),
        None => Err(
            ResourceImportFault::Invalid(path, "resource capture token has no imported project"@),
        ),
    }
}

/// Finds the project of a token.
pub fn project_for_token(access: &ProjectAccess, path: &str, token: &str) -> (r: Result<
    String,
    LegacyResourceImportError,
>)
    ensures
        outcome(r) == project_of_token(access@.projects, path@, token@),
{
    match find(&access.projects, &ProjectByToken { token }) {
        Some(i) => Ok(access.projects[i].id.clone()),
        None => Err(invalid(path, "resource capture token has no imported project")),
    }
}

/// The fault of an operation on resources, as one of the import.
pub open spec fn as_import_fault<T>(r: Result<T, ResourceFault>) -> Option<ResourceImportFault> {
    match r {
        Ok(_) => None,
        Err(fault) => Some(ResourceImportFault::Resource(fault)),
    }
}

/// Takes a flag over.
pub open spec fn flag_run(
    projects: Seq<ProjectRowModel>,
    path: Seq<char>,
) -> spec_fn(ResourceModel, LegacyFlagModel) -> (ResourceModel, Option<ResourceImportFault>) {
    |m: ResourceModel, row: LegacyFlagModel|
        match project_of_token(projects, path, row.token) {
            Err(fault) => (m, Some(fault)),
            Ok(project) => {
                let (next, r) = flag_imported(
                    m,
                    project_known(projects, project),
                    project,
                    ImportedFlagModel { flag: row.flag, created_at: 0, updated_at: 0 },
                );
                (next, as_import_fault(r))
            },
        }
}

/// Takes an insight over.
pub open spec fn insight_run(
    projects: Seq<ProjectRowModel>,
    path: Seq<char>,
) -> spec_fn(ResourceModel, LegacyInsightModel) -> (ResourceModel, Option<ResourceImportFault>) {
    |m: ResourceModel, row: LegacyInsightModel|
        match project_of_token(projects, path, row.token) {
            Err(fault) => (m, Some(fault)),
            Ok(project) => {
                let (next, r) = insight_imported(
                    m,
                    project_known(projects, project),
                    project,
                    row.insight,
                    row.verdict,
                );
                (next, as_import_fault(r))
            },
        }
}

/// Takes a dashboard over.
pub open spec fn dashboard_run(
    projects: Seq<ProjectRowModel>,
    path: Seq<char>,
) -> spec_fn(ResourceModel, LegacyDashboardModel) -> (ResourceModel, Option<ResourceImportFault>) {
    |m: ResourceModel, row: LegacyDashboardModel|
        match project_of_token(projects, path, row.token) {
            Err(fault) => (m, Some(fault)),
            Ok(project) => {
                let (next, r) = dashboard_imported(
                    m,
                    project_known(projects, project),
                    project,
                    row.dashboard,
                );
                (next, as_import_fault(r))
            },
        }
}

/// Takes a share link over.
pub open spec fn share_run(
    projects: Seq<ProjectRowModel>,
    path: Seq<char>,
) -> spec_fn(ResourceModel, LegacyShareModel) -> (ResourceModel, Option<ResourceImportFault>) {
    |m: ResourceModel, row: LegacyShareModel|
        match project_of_token(projects, path, row.project_token) {
            Err(fault) => (m, Some(fault)),
            Ok(project) => {
                let (next, r) = share_imported(m, project, row.share);
                (next, as_import_fault(r))
            },
        }
}

/// The resources after an import, and what stopped it, if anything did. What was taken over until then
/// stays.
pub open spec fn resources_imported(
    m: ResourceModel,
    projects: Seq<ProjectRowModel>,
    flags_path: Seq<char>,
    dashboards_path: Seq<char>,
    flags: Seq<LegacyFlagModel>,
    data: DashboardDataModel,
) -> (ResourceModel, Option<ResourceImportFault>) {
    let (m1, f1) = runs(m, flags, flag_run(projects, flags_path));
    if f1 is Some {
        (m1, f1)
    } else {
        let (m2, f2) = runs(m1, data.insights, insight_run(projects, dashboards_path));
        if f2 is Some {
            (m2, f2)
        } else {
            let (m3, f3) = runs(m2, data.dashboards, dashboard_run(projects, dashboards_path));
            if f3 is Some {
                (m3, f3)
            } else {
                runs(m3, data.shares, share_run(projects, dashboards_path))
            }
        }
    }
}

/// One kind of resource that is taken over.
pub trait ResourceStep<T: View> {
    /// The resources after a row, and what is wrong with it, if anything.
    spec fn step(&self) -> spec_fn(ResourceModel, T::V) -> (
        ResourceModel,
        Option<ResourceImportFault>,
    );

    /// Takes a row over.
    fn apply(&self, resources: &mut ControlResources, row: &T) -> (r: Result<
        (),
        LegacyResourceImportError,
    >)
        ensures
            (self.step())(old(resources)@, row@) == (
                final(resources)@,
                match r {
                    Ok(()) => None::<ResourceImportFault>,
                    Err(e) => Some(e@),
                },
            ),
    ;
}

fn run_all<T: View, P: ResourceStep<T>>(
    resources: &mut ControlResources,
    rows: &Vec<T>,
    each: &P,
) -> (r: Result<(), LegacyResourceImportError>)
    ensures
        runs(old(resources)@, views(rows@), each.step()) == (
            final(resources)@,
            match r {
                Ok(()) => None::<ResourceImportFault>,
                Err(e) => Some(e@),
            },
        ),
{
    let ghost all = views(rows@);
    let ghost start = resources@;
    let mut i: usize = 0;
    assert(all.take(0) =~= Seq::<T::V>::empty());
    while i < rows.len()
        invariant
            i <= rows.len(),
            all == views(rows@),
            start == old(resources)@,
            runs(start, all.take(i as int), each.step()) == (
                resources@,
                None::<ResourceImportFault>,
            ),
        decreases rows.len() - i,
    {
        assert(all.take(i + 1).drop_last() =~= all.take(i as int));
        assert(all.take(i + 1).last() == rows@[i as int]@);
        proof {
            lemma_runs_stop(start, all, each.step(), i + 1);
        }
        match each.apply(resources, &rows[i]) {
            Ok(()) => {},
            Err(e) => {
                return Err(e);
            },
        }
        i += 1;
    }
    assert(all.take(all.len() as int) =~= all);
    Ok(())
}

/// Performs [`flag_run`].
pub struct TakeFlag<'a> {
    pub access: &'a ProjectAccess,
    pub path: &'a str,
}

impl<'a> ResourceStep<LegacyFlag> for TakeFlag<'a> {
    open spec fn step(&self) -> spec_fn(ResourceModel, LegacyFlagModel) -> (
        ResourceModel,
        Option<ResourceImportFault>,
    ) {
        flag_run(self.access@.projects, self.path@)
    }

    fn apply(&self, resources: &mut ControlResources, row: &LegacyFlag) -> (r: Result<
        (),
        LegacyResourceImportError,
    >) {
        let project_id = match project_for_token(self.access, self.path, row.token.as_str()) {
            Ok(id) => id,
            Err(e) => {
                return Err(e);
            },
        };
        let imported = ImportedFeatureFlag {
            flag: row.flag.duplicate(),
            created_at: 0,
            updated_at: 0,
        };
        match resources.import_flag(self.access, project_id.as_str(), &imported) {
            Ok(_) => Ok(()),
            Err(e) => Err(LegacyResourceImportError::Resource(e)),
        }
    }
}

/// Performs [`insight_run`].
pub struct TakeInsight<'a> {
    pub access: &'a ProjectAccess,
    pub path: &'a str,
}

impl<'a> ResourceStep<LegacyInsight> for TakeInsight<'a> {
    open spec fn step(&self) -> spec_fn(ResourceModel, LegacyInsightModel) -> (
        ResourceModel,
        Option<ResourceImportFault>,
    ) {
        insight_run(self.access@.projects, self.path@)
    }

    fn apply(&self, resources: &mut ControlResources, row: &LegacyInsight) -> (r: Result<
        (),
        LegacyResourceImportError,
    >) {
        let project_id = match project_for_token(self.access, self.path, row.token.as_str()) {
            Ok(id) => id,
            Err(e) => {
                return Err(e);
            },
        };
        match resources.import_insight(
            self.access,
            project_id.as_str(),
            &row.insight,
            row.verdict.duplicate(),
        ) {
            Ok(_) => Ok(()),
            Err(e) => Err(LegacyResourceImportError::Resource(e)),
        }
    }
}

/// Performs [`dashboard_run`].
pub struct TakeDashboard<'a> {
    pub access: &'a ProjectAccess,
    pub path: &'a str,
}

impl<'a> ResourceStep<LegacyDashboard> for TakeDashboard<'a> {
    open spec fn step(&self) -> spec_fn(ResourceModel, LegacyDashboardModel) -> (
        ResourceModel,
        Option<ResourceImportFault>,
    ) {
        dashboard_run(self.access@.projects, self.path@)
    }

    fn apply(&self, resources: &mut ControlResources, row: &LegacyDashboard) -> (r: Result<
        (),
        LegacyResourceImportError,
    >) {
        let project_id = match project_for_token(self.access, self.path, row.token.as_str()) {
            Ok(id) => id,
            Err(e) => {
                return Err(e);
            },
        };
        match resources.import_dashboard(self.access, project_id.as_str(), &row.dashboard) {
            Ok(_) => Ok(()),
            Err(e) => Err(LegacyResourceImportError::Resource(e)),
        }
    }
}

/// Performs [`share_run`].
pub struct TakeShare<'a> {
    pub access: &'a ProjectAccess,
    pub path: &'a str,
}

impl<'a> ResourceStep<LegacyShare> for TakeShare<'a> {
    open spec fn step(&self) -> spec_fn(ResourceModel, LegacyShareModel) -> (
        ResourceModel,
        Option<ResourceImportFault>,
    ) {
        share_run(self.access@.projects, self.path@)
    }

    fn apply(&self, resources: &mut ControlResources, row: &LegacyShare) -> (r: Result<
        (),
        LegacyResourceImportError,
    >) {
        let project_id = match project_for_token(self.access, self.path, row.project_token.as_str()) {
            Ok(id) => id,
            Err(e) => {
                return Err(e);
            },
        };
        match resources.import_share(project_id.as_str(), &row.share) {
            Ok(_) => Ok(()),
            Err(e) => Err(LegacyResourceImportError::Resource(e)),
        }
    }
}

/// Takes the resources of an earlier installation over, each into the project of its token.
pub fn import_legacy_resources(
    resources: &mut ControlResources,
    access: &ProjectAccess,
    flags_path: &str,
    dashboards_path: &str,
    flags: &Vec<LegacyFlag>,
    data: &LegacyDashboardData,
) -> (r: Result<LegacyResourceImportReport, LegacyResourceImportError>)
    ensures
        resources_imported(
            old(resources)@,
            access@.projects,
            flags_path@,
            dashboards_path@,
            views(flags@),
            data@,
        ) == (
            final(resources)@,
            match r {
                Ok(_) => None::<ResourceImportFault>,
                Err(e) => Some(e@),
            },
        ),
        r matches Ok(report) ==> report.flags == flags@.len() && report.insights
            == data@.insights.len() && report.dashboards == data@.dashboards.len() && report.tiles
            == data@.tile_count && report.shares == data@.shares.len(),
{
    match run_all(resources, flags, &TakeFlag { access, path: flags_path }) {
        Ok(()) => {},
        Err(e) => {
            return Err(e);
        },
    }
    match run_all(resources, &data.insights, &TakeInsight { access, path: dashboards_path }) {
        Ok(()) => {},
        Err(e) => {
            return Err(e);
        },
    }
    match run_all(resources, &data.dashboards, &TakeDashboard { access, path: dashboards_path }) {
        Ok(()) => {},
        Err(e) => {
            return Err(e);
        },
    }
    match run_all(resources, &data.shares, &TakeShare { access, path: dashboards_path }) {
        Ok(()) => {},
        Err(e) => {
            return Err(e);
        },
    }
    Ok(
        LegacyResourceImportReport {
            flags: flags.len(),
            insights: data.insights.len(),
            dashboards: data.dashboards.len(),
            tiles: data.tile_count,
            shares: data.shares.len(),
        },
    )
}

} // verus!
