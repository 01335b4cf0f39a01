//! Explicit, offline migration from the earlier layout of storage.
//!
//! A migration builds and validates a pair of databases in shadow files. Publication is ordered:
//! projections first, control second, and the completion marker last. The sources are only read.
use vstd::prelude::*;
use vstd::string::*;
use vstd::utf8::encode_utf8;

use crate::capture::event::option_view;
use crate::control::access::{token_is, ProjectAccess, ProjectByToken, ProjectRowModel};
use crate::digest::{be8, push_be8, push_bytes, sha256_hex, sha256_text};
use crate::event_lake::{
    below, debug_quoted, debug_text, lake_message, relative_to, EventLakeError, FileKind, LakeFault,
};
use crate::legacy_import::{import_message, ImportFault, LegacyImportError, LegacyImportReport};
use crate::legacy_resources::{
    resource_import_message, LegacyResourceImportError, ResourceImportFault,
};
use crate::order::{outcome, views};
use crate::pipeline::materialize::path_before;
use crate::rows::{
    append, find, holds_somewhere, lemma_steps_error, sort, sorted, steps, Row, Sort,
};
use crate::text::{chars_of, joined, same, signed_decimal, signed_text, text_at_most, text_le};

verus! {

/// The version of the completion marker.
pub const MARKER_VERSION: u32 = 1;

// ── Storage ───────────────────────────────────────────────────────────────────

/// What identifies a pair of databases, and how far its projections have come.
#[derive(Debug)]
pub struct StorageMetadata {
    pub pair_id: String,
    pub current_generation_id: i64,
    pub data_epoch: i64,
}

/// The mathematical value of [`StorageMetadata`].
pub struct MetadataModel {
    pub pair_id: Seq<char>,
    pub current_generation_id: i64,
    pub data_epoch: i64,
}

impl View for StorageMetadata {
    type V = MetadataModel;

    open spec fn view(&self) -> MetadataModel {
        MetadataModel {
            pair_id: self.pair_id@,
            current_generation_id: self.current_generation_id,
            data_epoch: self.data_epoch,
        }
    }
}

impl Row for StorageMetadata {
    fn duplicate(&self) -> (r: Self) {
        StorageMetadata {
            pair_id: self.pair_id.clone(),
            current_generation_id: self.current_generation_id,
            data_epoch: self.data_epoch,
        }
    }
}

fn same_metadata(a: &StorageMetadata, b: &StorageMetadata) -> (r: bool)
    ensures
        r == (a@ == b@),
{
    same(a.pair_id.as_str(), b.pair_id.as_str()) && a.current_generation_id
        == b.current_generation_id && a.data_epoch == b.data_epoch
}

/// What a data directory holds.
#[derive(Debug)]
pub enum StorageDisposition {
    Fresh,
    LegacyOnly,
    MigrationIncomplete,
    ReadyV2(StorageMetadata),
}

/// The mathematical value of a [`StorageDisposition`].
pub enum DispositionModel {
    Fresh,
    LegacyOnly,
    MigrationIncomplete,
    ReadyV2(MetadataModel),
}

impl View for StorageDisposition {
    type V = DispositionModel;

    open spec fn view(&self) -> DispositionModel {
        match self {
            StorageDisposition::Fresh => DispositionModel::Fresh,
            StorageDisposition::LegacyOnly => DispositionModel::LegacyOnly,
            StorageDisposition::MigrationIncomplete => DispositionModel::MigrationIncomplete,
            StorageDisposition::ReadyV2(m) => DispositionModel::ReadyV2(m@),
        }
    }
}

impl Row for StorageDisposition {
    fn duplicate(&self) -> (r: Self) {
        match self {
            StorageDisposition::Fresh => StorageDisposition::Fresh,
            StorageDisposition::LegacyOnly => StorageDisposition::LegacyOnly,
            StorageDisposition::MigrationIncomplete => StorageDisposition::MigrationIncomplete,
            StorageDisposition::ReadyV2(m) => StorageDisposition::ReadyV2(m.duplicate()),
        }
    }
}

/// A disposition as messages show it.
pub open spec fn disposition_text(d: DispositionModel) -> Seq<char> {
    match d {
        DispositionModel::Fresh => "Fresh"@,
        DispositionModel::LegacyOnly => "LegacyOnly"@,
        DispositionModel::MigrationIncomplete => "MigrationIncomplete"@,
        DispositionModel::ReadyV2(m) => "ReadyV2(StorageMetadata { pair_id: "@ + debug_text(
            m.pair_id,
        ) + ", current_generation_id: "@ + signed_decimal(m.current_generation_id as int)
            + ", data_epoch: "@ + signed_decimal(m.data_epoch as int) + " })"@,
    }
}

fn show_disposition(d: &StorageDisposition) -> (r: String)
    ensures
        r@ == disposition_text(d@),
{
    match d {
        StorageDisposition::Fresh => "Fresh".to_owned(),
        StorageDisposition::LegacyOnly => "LegacyOnly".to_owned(),
        StorageDisposition::MigrationIncomplete => "MigrationIncomplete".to_owned(),
        StorageDisposition::ReadyV2(m) => {
            let mut out = joined(
                "ReadyV2(StorageMetadata { pair_id: ",
                debug_quoted(m.pair_id.as_str()).as_str(),
            );
            out.append(", current_generation_id: ");
            out.append(signed_text(m.current_generation_id).as_str());
            out.append(", data_epoch: ");
            out.append(signed_text(m.data_epoch).as_str());
            out.append(" })");
            out
        },
    }
}

// ── Markers, reports and errors ───────────────────────────────────────────────

/// The record that a migration is complete.
pub struct MigrationMarker {
    pub version: u32,
    pub migration: String,
    pub pair_id: String,
    pub discovered_tokens: usize,
    pub source_fingerprint: String,
    pub completed_at: i64,
}

/// The mathematical value of a [`MigrationMarker`].
pub struct MarkerModel {
    pub version: u32,
    pub migration: Seq<char>,
    pub pair_id: Seq<char>,
    pub discovered_tokens: usize,
    pub source_fingerprint: Seq<char>,
    pub completed_at: i64,
}

impl View for MigrationMarker {
    type V = MarkerModel;

    open spec fn view(&self) -> MarkerModel {
        MarkerModel {
            version: self.version,
            migration: self.migration@,
            pair_id: self.pair_id@,
            discovered_tokens: self.discovered_tokens,
            source_fingerprint: self.source_fingerprint@,
            completed_at: self.completed_at,
        }
    }
}

/// What a migration did.
pub struct MigrationReport {
    pub pair_id: String,
    pub discovered_tokens: usize,
    pub source_fingerprint: String,
    pub resumed: bool,
    pub already_complete: bool,
    pub imported: Option<LegacyImportReport>,
}

/// The mathematical value of a [`MigrationReport`].
pub struct ReportModel {
    pub pair_id: Seq<char>,
    pub discovered_tokens: usize,
    pub source_fingerprint: Seq<char>,
    pub resumed: bool,
    pub already_complete: bool,
    pub imported: Option<LegacyImportReport>,
}

impl View for MigrationReport {
    type V = ReportModel;

    open spec fn view(&self) -> ReportModel {
        ReportModel {
            pair_id: self.pair_id@,
            discovered_tokens: self.discovered_tokens,
            source_fingerprint: self.source_fingerprint@,
            resumed: self.resumed,
            already_complete: self.already_complete,
            imported: self.imported,
        }
    }
}

/// Why a migration fails.
#[derive(Debug)]
pub enum MigrationError {
    NotLegacy(StorageDisposition),
    Locked(String),
    UnsupportedIncomplete(String),
    Storage(String),
    Import(LegacyImportError),
    Resources(LegacyResourceImportError),
    EventLake(EventLakeError),
    Io { path: String, message: String },
    Sqlite { path: String, message: String },
    InvalidLegacyData { path: String, detail: String },
    Validation(String),
    InvalidMarker(String),
}

/// The mathematical value of a [`MigrationError`].
pub enum MigrationFault {
    NotLegacy(DispositionModel),
    Locked(Seq<char>),
    UnsupportedIncomplete(Seq<char>),
    Storage(Seq<char>),
    Import(ImportFault),
    Resources(ResourceImportFault),
    EventLake(LakeFault),
    Io(Seq<char>, Seq<char>),
    Sqlite(Seq<char>, Seq<char>),
    InvalidLegacyData(Seq<char>, Seq<char>),
    Validation(Seq<char>),
    InvalidMarker(Seq<char>),
}

impl View for MigrationError {
    type V = MigrationFault;

    open spec fn view(&self) -> MigrationFault {
        match self {
            MigrationError::NotLegacy(d) => MigrationFault::NotLegacy(d@),
            MigrationError::Locked(s) => MigrationFault::Locked(s@),
            MigrationError::UnsupportedIncomplete(s) => MigrationFault::UnsupportedIncomplete(s@),
            MigrationError::Storage(s) => MigrationFault::Storage(s@),
            MigrationError::Import(e) => MigrationFault::Import(e@),
            MigrationError::Resources(e) => MigrationFault::Resources(e@),
            MigrationError::EventLake(e) => MigrationFault::EventLake(e@),
            MigrationError::Io { path, message } => MigrationFault::Io(path@, message@),
            MigrationError::Sqlite { path, message } => MigrationFault::Sqlite(path@, message@),
            MigrationError::InvalidLegacyData { path, detail } =>
                MigrationFault::InvalidLegacyData(path@, detail@),
            MigrationError::Validation(s) => MigrationFault::Validation(s@),
            MigrationError::InvalidMarker(s) => MigrationFault::InvalidMarker(s@),
        }
    }
}

/// The message of an error.
pub open spec fn migration_message(fault: MigrationFault) -> Seq<char> {
    match fault {
        MigrationFault::NotLegacy(d) => "offline migration requires LegacyOnly storage, found "@
            + disposition_text(d),
        MigrationFault::Locked(path) => "offline migration is locked by "@ + path
            + "; verify no migration is running before removing a stale lock"@,
        MigrationFault::UnsupportedIncomplete(s) =>
            "cannot safely resume incomplete migration: "@ + s,
        MigrationFault::Storage(s) => "storage migration failed: "@ + s,
        MigrationFault::Import(e) => "legacy control import failed: "@ + import_message(e),
        MigrationFault::Resources(e) => "legacy resource import failed: "@
            + resource_import_message(e),
        MigrationFault::EventLake(e) => "legacy event manifest failed: "@ + lake_message(e),
        MigrationFault::Io(path, message) => path + ": "@ + message,
        MigrationFault::Sqlite(path, message) => path + ": "@ + message,
        MigrationFault::InvalidLegacyData(path, detail) => "invalid legacy data in "@ + path
            + ": "@ + detail,
        MigrationFault::Validation(s) => "migration validation failed: "@ + s,
        MigrationFault::InvalidMarker(s) => "invalid migration marker: "@ + s,
    }
}

fn pair_text(a: &str, b: &str) -> (r: String)
    ensures
        r@ == a@ + ": "@ + b@,
{
    let mut out = joined(a, ": ");
    out.append(b);
    out
}

impl MigrationError {
    /// What the error says.
    pub fn message(&self) -> (r: String)
        ensures
            r@ == migration_message(self@),
    {
        match self {
            MigrationError::NotLegacy(d) => joined(
                "offline migration requires LegacyOnly storage, found ",
                show_disposition(d).as_str(),
            ),
            MigrationError::Locked(path) => {
                let mut out = joined("offline migration is locked by ", path.as_str());
                out.append("; verify no migration is running before removing a stale lock");
                out
            },
            MigrationError::UnsupportedIncomplete(s) => joined(
                "cannot safely resume incomplete migration: ",
                s.as_str(),
            ),
            MigrationError::Storage(s) => joined("storage migration failed: ", s.as_str()),
            MigrationError::Import(e) => joined(
                "legacy control import failed: ",
                e.message().as_str(),
            ),
            MigrationError::Resources(e) => joined(
                "legacy resource import failed: ",
                e.message().as_str(),
            ),
            MigrationError::EventLake(e) => joined(
                "legacy event manifest failed: ",
                e.message().as_str(),
            ),
            MigrationError::Io { path, message } => pair_text(path.as_str(), message.as_str()),
            MigrationError::Sqlite { path, message } => pair_text(
                path.as_str(),
                message.as_str(),
            ),
            MigrationError::InvalidLegacyData { path, detail } => {
                let mut out = joined("invalid legacy data in ", path.as_str());
                out.append(": ");
                out.append(detail.as_str());
                out
            },
            MigrationError::Validation(s) => joined("migration validation failed: ", s.as_str()),
            MigrationError::InvalidMarker(s) => joined("invalid migration marker: ", s.as_str()),
        }
    }
}

fn validation(detail: &str) -> (r: MigrationError)
    ensures
        r@ == MigrationFault::Validation(detail@),
{
    MigrationError::Validation(detail.to_owned())
}

fn bad_data(path: &str, detail: &str) -> (r: MigrationError)
    ensures
        r@ == MigrationFault::InvalidLegacyData(path@, detail@),
{
    MigrationError::InvalidLegacyData { path: path.to_owned(), detail: detail.to_owned() }
}

/// Whether a check passed, or else why not.
pub open spec fn check(r: Result<(), MigrationError>, fault: Option<MigrationFault>) -> bool {
    match fault {
        Some(f) => r matches Err(e) && e@ == f,
        None => r is Ok,
    }
}

// ── Paths ─────────────────────────────────────────────────────────────────────

/// A name below a directory.
pub open spec fn inside(directory: Seq<char>, name: Seq<char>) -> Seq<char> {
    if directory.len() > 0 && directory.last() == '/' {
        directory + name
    } else {
        directory + "/"@ + name
    }
}

fn join(directory: &str, name: &str) -> (r: String)
    ensures
        r@ == inside(directory@, name@),
{
    let chars = chars_of(directory);
    if chars.len() > 0 && chars[chars.len() - 1] == '/' {
        joined(directory, name)
    } else {
        joined(joined(directory, "/").as_str(), name)
    }
}

/// Where the completion marker of a data directory stands.
pub fn completion_marker_path(data_dir: &str) -> (r: String)
    ensures
        r@ == inside(data_dir@, "migration-v2-complete.json"@),
{
    join(data_dir, "migration-v2-complete.json")
}

/// Where the lock of a data directory stands.
pub fn lock_path(data_dir: &str) -> (r: String)
    ensures
        r@ == inside(data_dir@, "migration-v2.lock"@),
{
    join(data_dir, "migration-v2.lock")
}

/// Where a file is prepared before it takes its place.
pub fn staging_path(path: &str) -> (r: String)
    ensures
        r@ == path@ + ".migrating"@,
{
    joined(path, ".migrating")
}

/// The error of a lock that could not be taken.
pub fn lock_error(already_exists: bool, path: &str, message: &str) -> (r: MigrationError)
    ensures
        r@ == (if already_exists {
            MigrationFault::Locked(path@)
        } else {
            MigrationFault::Io(path@, message@)
        }),
{
    if already_exists {
        MigrationError::Locked(path.to_owned())
    } else {
        MigrationError::Io { path: path.to_owned(), message: message.to_owned() }
    }
}

/// Checks that a file is not in the way of one that is to take its place.
pub fn rename_new(target_exists: bool, target: &str) -> (r: Result<(), MigrationError>)
    ensures
        check(
            r,
            if target_exists {
                Some(MigrationFault::UnsupportedIncomplete("refusing to overwrite "@ + target@))
            } else {
                None
            },
        ),
{
    if target_exists {
        return Err(
            MigrationError::UnsupportedIncomplete(joined("refusing to overwrite ", target)),
        );
    }
    Ok(())
}

/// Whether the name of a file has an extension.
pub open spec fn extension_is(name: Seq<char>, extension: Seq<char>) -> bool {
    let n = name.len() - extension.len() - 1;
    n > 0 && name[n] == '.' && name.subrange(n + 1, name.len() as int) == extension
        && !extension.contains('.')
}

/// Decides [`extension_is`].
pub fn has_extension(name: &str, extension: &str) -> (r: bool)
    ensures
        r == extension_is(name@, extension@),
{
    let x = chars_of(name);
    let y = chars_of(extension);
    if x.len() <= y.len() || x.len() - y.len() <= 1 {
        return false;
    }
    let n: usize = x.len() - y.len() - 1;
    if x[n] != '.' {
        return false;
    }
    let mut i: usize = 0;
    while i < y.len()
        invariant
            i <= y.len(),
            x@ == name@,
            y@ == extension@,
            n + 1 + y.len() == x.len(),
            forall|j: int| 0 <= j < i ==> x@[n + 1 + j] == #[trigger] y@[j],
            forall|j: int| 0 <= j < i ==> #[trigger] y@[j] != '.',
        decreases y.len() - i,
    {
        if y[i] == '.' {
            assert(extension@[i as int] == '.');
            assert(extension@.contains('.'));
            return false;
        }
        if x[n + 1 + i] != y[i] {
            assert(name@.subrange(n + 1, name@.len() as int)[i as int] != extension@[i as int]);
            return false;
        }
        i += 1;
    }
    assert(name@.subrange(n + 1, name@.len() as int) =~= extension@);
    true
}

// ── Opening ───────────────────────────────────────────────────────────────────

/// The name of this migration.
pub open spec fn migration_id() -> Seq<char> {
    "legacy-v1-to-v2"@
}

/// What is wrong with a marker, if anything: it has to be of this migration, of the pair, and of the same
/// sources.
pub open spec fn marker_fault(
    marker: MarkerModel,
    pair_id: Seq<char>,
    fingerprint: Seq<char>,
) -> Option<MigrationFault> {
    if marker.version != MARKER_VERSION || marker.migration != migration_id() || marker.pair_id
        != pair_id || marker.source_fingerprint != fingerprint {
        Some(
            MigrationFault::InvalidMarker(
                "version, migration id, database pair id, or legacy source fingerprint does not match"@,
            ),
        )
    } else {
        None
    }
}

/// Checks a marker.
pub fn validate_marker(marker: &MigrationMarker, pair_id: &str, source_fingerprint: &str) -> (r: Result<
    (),
    MigrationError,
>)
    ensures
        check(r, marker_fault(marker@, pair_id@, source_fingerprint@)),
{
    if marker.version != MARKER_VERSION || !same(marker.migration.as_str(), "legacy-v1-to-v2")
        || !same(marker.pair_id.as_str(), pair_id) || !same(
        marker.source_fingerprint.as_str(),
        source_fingerprint,
    ) {
        return Err(
            MigrationError::InvalidMarker(
                "version, migration id, database pair id, or legacy source fingerprint does not match".to_owned(),
            ),
        );
    }
    Ok(())
}

/// A marker that was found, and the fingerprint of the sources as they are now.
pub struct FoundMarker {
    pub marker: MigrationMarker,
    pub source_fingerprint: String,
}

/// How a migration opens: it is complete already, or it goes on, or there is nothing to migrate.
pub open spec fn opened(
    initial: DispositionModel,
    found: Option<FoundMarker>,
    has_legacy: bool,
) -> Result<Option<ReportModel>, MigrationFault> {
    if initial is ReadyV2 && found is Some {
        let f = found->Some_0;
        match marker_fault(f.marker@, initial->ReadyV2_0.pair_id, f.source_fingerprint@) {
            Some(fault) => Err(fault),
            None => Ok(
                Some(
                    ReportModel {
                        pair_id: f.marker@.pair_id,
                        discovered_tokens: f.marker@.discovered_tokens,
                        source_fingerprint: f.marker@.source_fingerprint,
                        resumed: false,
                        already_complete: true,
                        imported: None,
                    },
                ),
            ),
        }
    } else if initial is Fresh || !has_legacy {
        Err(MigrationFault::NotLegacy(initial))
    } else {
        Ok(None)
    }
}

/// Opens a migration. A completion marker counts only beside databases that are ready.
pub fn migrate_legacy_storage(
    initial: &StorageDisposition,
    found: &Option<FoundMarker>,
    has_legacy: bool,
) -> (r: Result<Option<MigrationReport>, MigrationError>)
    ensures
        match opened(initial@, *found, has_legacy) {
            Ok(None) => r matches Ok(None),
            Ok(Some(report)) => r matches Ok(Some(x)) && x@ == report,
            Err(fault) => r matches Err(e) && e@ == fault,
        },
{
    if let StorageDisposition::ReadyV2(metadata) = initial {
        if let Some(f) = found {
            return match validate_marker(
                &f.marker,
                metadata.pair_id.as_str(),
                f.source_fingerprint.as_str(),
            ) {
                Ok(()) => Ok(
                    Some(
                        MigrationReport {
                            pair_id: f.marker.pair_id.clone(),
                            discovered_tokens: f.marker.discovered_tokens,
                            source_fingerprint: f.marker.source_fingerprint.clone(),
                            resumed: false,
                            already_complete: true,
                            imported: None,
                        },
                    ),
                ),
                Err(e) => Err(e),
            };
        }
    }
    let fresh = match initial {
        StorageDisposition::Fresh => true,
        _ => false,
    };
    if fresh || !has_legacy {
        return Err(MigrationError::NotLegacy(initial.duplicate()));
    }
    Ok(None)
}

// ── Planning ──────────────────────────────────────────────────────────────────

/// Whether a database is still a shadow or in its place.
#[derive(Debug, Clone, Copy, PartialEq, Eq, Structural)]
pub enum Place {
    Shadow,
    Published,
}

/// Which files there are.
#[derive(Debug, Clone, Copy, PartialEq, Eq, Structural)]
pub struct FilesPresent {
    pub control: bool,
    pub projections: bool,
    pub shadow_control: bool,
    pub shadow_projections: bool,
    pub marker: bool,
}

/// The way that a migration takes.
#[derive(Debug, Clone, Copy, PartialEq, Eq, Structural)]
pub enum Route {
    /// Make both shadow databases.
    Begin,
    /// Both shadow databases are there.
    ResumeShadow,
    /// The projections are in their place, the control database is not.
    ResumePublished,
    /// Both are in their place; only the marker is missing.
    Finish,
}

/// One thing to do.
#[derive(Debug, Clone, Copy, PartialEq, Eq, Structural)]
pub enum MigrationStep {
    Bootstrap,
    ValidatePair { control: Place, projections: Place },
    ImportControl(Place),
    ImportResources(Place),
    RecordPrepared(Place),
    EnsureManifest(Place),
    FreezeControl(Place),
    FreezeProjections(Place),
    ValidateCandidate { control: Place, projections: Place },
    VerifySource,
    Sync { control: Place, projections: Place },
    PublishProjections,
    PublishControl,
    ValidatePublished,
    ValidateManifest,
    WriteMarker,
}

/// The way that a migration takes from what there is, or why it is refused.
pub open spec fn route_of(disposition: DispositionModel, files: FilesPresent) -> Result<
    Route,
    MigrationFault,
> {
    match disposition {
        DispositionModel::LegacyOnly => Ok(Route::Begin),
        DispositionModel::MigrationIncomplete => if !files.control && !files.projections
            && files.shadow_control && files.shadow_projections {
            Ok(Route::ResumeShadow)
        } else if !files.control && files.projections && files.shadow_control
            && !files.shadow_projections {
            Ok(Route::ResumePublished)
        } else {
            Err(MigrationFault::UnsupportedIncomplete(incomplete_text(files)))
        },
        DispositionModel::ReadyV2(_) => if !files.marker {
            Ok(Route::Finish)
        } else {
            Err(MigrationFault::NotLegacy(disposition))
        },
        DispositionModel::Fresh => Err(MigrationFault::NotLegacy(disposition)),
    }
}

/// A flag in words.
pub open spec fn flag_text(b: bool) -> Seq<char> {
    if b {
        "true"@
    } else {
        "false"@
    }
}

/// What a refusal says of the files.
pub open spec fn incomplete_text(files: FilesPresent) -> Seq<char> {
    "expected both shadow databases, or published projections plus staged control; found control="@
        + flag_text(files.control) + ", projections="@ + flag_text(files.projections)
        + ", staged control="@ + flag_text(files.shadow_control) + ", staged projections="@
        + flag_text(files.shadow_projections)
}

fn show_flag(b: bool) -> (r: &'static str)
    ensures
        r@ == flag_text(b),
{
    if b {
        "true"
    } else {
        "false"
    }
}

/// Decides the way that a migration takes.
pub fn plan_route(disposition: &StorageDisposition, files: FilesPresent) -> (r: Result<
    Route,
    MigrationError,
>)
    ensures
        match route_of(disposition@, files) {
            Ok(route) => r matches Ok(x) && x == route,
            Err(fault) => r matches Err(e) && e@ == fault,
        },
{
    match disposition {
        StorageDisposition::LegacyOnly => Ok(Route::Begin),
        StorageDisposition::MigrationIncomplete => {
            if !files.control && !files.projections && files.shadow_control
                && files.shadow_projections {
                Ok(Route::ResumeShadow)
            } else if !files.control && files.projections && files.shadow_control
                && !files.shadow_projections {
                Ok(Route::ResumePublished)
            } else {
                let mut out = joined(
                    "expected both shadow databases, or published projections plus staged control; found control=",
                    show_flag(files.control),
                );
                out.append(", projections=");
                out.append(show_flag(files.projections));
                out.append(", staged control=");
                out.append(show_flag(files.shadow_control));
                out.append(", staged projections=");
                out.append(show_flag(files.shadow_projections));
                Err(MigrationError::UnsupportedIncomplete(out))
            }
        },
        StorageDisposition::ReadyV2(_) => if !files.marker {
            Ok(Route::Finish)
        } else {
            Err(MigrationError::NotLegacy(disposition.duplicate()))
        },
        StorageDisposition::Fresh => Err(MigrationError::NotLegacy(disposition.duplicate())),
    }
}

/// Where the two databases of a route are while it prepares them.
pub open spec fn places(route: Route) -> (Place, Place) {
    match route {
        Route::Begin | Route::ResumeShadow => (Place::Shadow, Place::Shadow),
        Route::ResumePublished => (Place::Shadow, Place::Published),
        Route::Finish => (Place::Published, Place::Published),
    }
}

/// How a route prepares the databases.
pub open spec fn preparation(route: Route) -> Seq<MigrationStep> {
    let (control, projections) = places(route);
    match route {
        Route::Begin => seq![
            MigrationStep::Bootstrap,
            MigrationStep::ImportControl(control),
            MigrationStep::RecordPrepared(control),
            MigrationStep::EnsureManifest(projections),
            MigrationStep::FreezeControl(control),
            MigrationStep::FreezeProjections(projections),
        ],
        Route::ResumeShadow | Route::ResumePublished => seq![
            MigrationStep::ValidatePair { control, projections },
            MigrationStep::ImportControl(control),
            MigrationStep::RecordPrepared(control),
            MigrationStep::EnsureManifest(projections),
            MigrationStep::FreezeControl(control),
            MigrationStep::FreezeProjections(projections),
        ],
        Route::Finish => seq![
            MigrationStep::ImportResources(control),
            MigrationStep::FreezeControl(control),
            MigrationStep::ValidateCandidate { control, projections },
            MigrationStep::EnsureManifest(projections),
            MigrationStep::FreezeProjections(projections),
        ],
    }
}

/// How databases that are prepared are published.
pub open spec fn publication(control: Place, projections: Place) -> Seq<MigrationStep> {
    seq![
        MigrationStep::ValidateCandidate { control, projections },
        MigrationStep::VerifySource,
        MigrationStep::Sync { control, projections },
    ] + (if projections == Place::Shadow {
        seq![MigrationStep::PublishProjections]
    } else {
        Seq::empty()
    }) + (if control == Place::Shadow {
        seq![MigrationStep::PublishControl]
    } else {
        Seq::empty()
    }) + seq![
        MigrationStep::ValidatePublished,
        MigrationStep::ValidateCandidate {
            control: Place::Published,
            projections: Place::Published,
        },
        MigrationStep::ValidateManifest,
        MigrationStep::VerifySource,
        MigrationStep::WriteMarker,
    ]
}

/// Everything that a route does, in order.
pub open spec fn steps_of(route: Route) -> Seq<MigrationStep> {
    preparation(route) + publication(places(route).0, places(route).1)
}

/// Lists everything that a route does.
pub fn route_steps(route: Route) -> (r: Vec<MigrationStep>)
    ensures
        r@ == steps_of(route),
{
    let (control, projections) = match route {
        Route::Begin | Route::ResumeShadow => (Place::Shadow, Place::Shadow),
        Route::ResumePublished => (Place::Shadow, Place::Published),
        Route::Finish => (Place::Published, Place::Published),
    };
    let mut out: Vec<MigrationStep> = Vec::new();
    match route {
        Route::Finish => {
            out.push(MigrationStep::ImportResources(control));
            out.push(MigrationStep::FreezeControl(control));
            out.push(MigrationStep::ValidateCandidate { control, projections });
            out.push(MigrationStep::EnsureManifest(projections));
            out.push(MigrationStep::FreezeProjections(projections));
        },
        _ => {
            match route {
                Route::ResumeShadow | Route::ResumePublished => {
                    out.push(MigrationStep::ValidatePair { control, projections });
                },
                _ => {
                    out.push(MigrationStep::Bootstrap);
                },
            }
            out.push(MigrationStep::ImportControl(control));
            out.push(MigrationStep::RecordPrepared(control));
            out.push(MigrationStep::EnsureManifest(projections));
            out.push(MigrationStep::FreezeControl(control));
            out.push(MigrationStep::FreezeProjections(projections));
        },
    }
    assert(out@ =~= preparation(route));
    out.push(MigrationStep::ValidateCandidate { control, projections });
    out.push(MigrationStep::VerifySource);
    out.push(MigrationStep::Sync { control, projections });
    if projections == Place::Shadow {
        out.push(MigrationStep::PublishProjections);
    }
    if control == Place::Shadow {
        out.push(MigrationStep::PublishControl);
    }
    out.push(MigrationStep::ValidatePublished);
    out.push(
        MigrationStep::ValidateCandidate {
            control: Place::Published,
            projections: Place::Published,
        },
    );
    out.push(MigrationStep::ValidateManifest);
    out.push(MigrationStep::VerifySource);
    out.push(MigrationStep::WriteMarker);
    assert(out@ =~= steps_of(route));
    out
}

/// The only migrations that are taken up again are those of a complete shadow pair, of published projections
/// with a staged control database, and of a published pair without its marker. Every other partial state is
/// refused, and nothing is planned for it.
pub proof fn law_only_whole_states_resume(disposition: DispositionModel, files: FilesPresent)
    ensures
        !(disposition is LegacyOnly) && route_of(disposition, files) is Ok <==> {
            ||| disposition is MigrationIncomplete && !files.control && !files.projections
                && files.shadow_control && files.shadow_projections
            ||| disposition is MigrationIncomplete && !files.control && files.projections
                && files.shadow_control && !files.shadow_projections
            ||| disposition is ReadyV2 && !files.marker
        },
        disposition is MigrationIncomplete && route_of(disposition, files) is Err ==> route_of(
            disposition,
            files,
        ) == Err::<Route, MigrationFault>(
            MigrationFault::UnsupportedIncomplete(incomplete_text(files)),
        ),
{
}

/// Both databases are made anew only where there is none of either kind.
pub proof fn law_only_a_first_migration_bootstraps(disposition: DispositionModel, files: FilesPresent)
    ensures
        route_of(disposition, files) matches Ok(route) && steps_of(route).contains(
            MigrationStep::Bootstrap,
        ) ==> disposition is LegacyOnly,
{
}

/// Whatever the route, projections are published before control, control before the marker, and the marker
/// comes last; nothing is published before the candidate is validated and the sources are verified.
pub proof fn law_publication_is_ordered(route: Route, i: int, j: int)
    requires
        0 <= i < steps_of(route).len(),
        0 <= j < steps_of(route).len(),
    ensures
        steps_of(route)[i] == MigrationStep::PublishProjections && steps_of(route)[j]
            == MigrationStep::PublishControl ==> i < j,
        steps_of(route)[i] == MigrationStep::PublishControl && steps_of(route)[j]
            == MigrationStep::WriteMarker ==> i < j,
        steps_of(route)[i] == MigrationStep::WriteMarker ==> i == steps_of(route).len() - 1,
        steps_of(route).last() == MigrationStep::WriteMarker,
        steps_of(route)[i] == MigrationStep::PublishProjections || steps_of(route)[i]
            == MigrationStep::PublishControl ==> exists|a: int, b: int|
            0 <= a < b < i && steps_of(route)[a] == (MigrationStep::ValidateCandidate {
                control: places(route).0,
                projections: places(route).1,
            }) && #[trigger] steps_of(route)[b] == MigrationStep::VerifySource && (
            #[trigger] steps_of(route)[a]) != MigrationStep::WriteMarker,
{
    let all = steps_of(route);
    let n = preparation(route).len() as int;
    if all[i] == MigrationStep::PublishProjections || all[i] == MigrationStep::PublishControl {
        assert(all[n] == (MigrationStep::ValidateCandidate {
            control: places(route).0,
            projections: places(route).1,
        }));
        assert(all[n + 1] == MigrationStep::VerifySource);
        assert(n + 1 < i);
    }
}

/// A route publishes a database exactly if it is still a shadow.
pub proof fn law_routes_publish_what_is_missing(route: Route)
    ensures
        steps_of(route).contains(MigrationStep::PublishProjections) <==> places(route).1
            == Place::Shadow,
        steps_of(route).contains(MigrationStep::PublishControl) <==> places(route).0
            == Place::Shadow,
{
    let all = steps_of(route);
    let n = preparation(route).len() as int;
    if places(route).1 == Place::Shadow {
        assert(all[n + 3] == MigrationStep::PublishProjections);
        assert(all[n + 4] == MigrationStep::PublishControl);
    } else if places(route).0 == Place::Shadow {
        assert(all[n + 3] == MigrationStep::PublishControl);
    }
}

// ── Running ───────────────────────────────────────────────────────────────────

/// What the sources hold.
pub struct LegacyDiscovery {
    pub discovered_tokens: usize,
    pub source_fingerprint: String,
}

/// What a step gave.
pub enum StepResult {
    Done,
    Metadata(StorageMetadata),
    Imported(LegacyImportReport),
    Failed(MigrationError),
}

/// A migration under way.
pub struct MigrationRun {
    pub steps: Vec<MigrationStep>,
    pub at: usize,
    pub metadata: Option<StorageMetadata>,
    pub imported: Option<LegacyImportReport>,
    pub discovery: LegacyDiscovery,
    pub resumed: bool,
}

/// The mathematical value of a [`MigrationRun`].
pub struct RunModel {
    pub steps: Seq<MigrationStep>,
    pub at: int,
    pub metadata: Option<MetadataModel>,
    pub imported: Option<LegacyImportReport>,
    pub discovered_tokens: usize,
    pub source_fingerprint: Seq<char>,
    pub resumed: bool,
}

/// The value of metadata that may be absent.
pub open spec fn metadata_view(m: Option<StorageMetadata>) -> Option<MetadataModel> {
    match m {
        Some(x) => Some(x@),
        None => None,
    }
}

impl View for MigrationRun {
    type V = RunModel;

    open spec fn view(&self) -> RunModel {
        RunModel {
            steps: self.steps@,
            at: self.at as int,
            metadata: metadata_view(self.metadata),
            imported: self.imported,
            discovered_tokens: self.discovery.discovered_tokens,
            source_fingerprint: self.discovery.source_fingerprint@,
            resumed: self.resumed,
        }
    }
}

/// The run after a step gave its result, or why it stops.
pub open spec fn advanced(run: RunModel, result: StepResult) -> Result<RunModel, MigrationFault> {
    let next = RunModel { at: run.at + 1, ..run };
    match result {
        StepResult::Failed(e) => Err(e@),
        StepResult::Done => Ok(next),
        StepResult::Imported(report) => Ok(RunModel { imported: Some(report), ..next }),
        StepResult::Metadata(m) => if run.steps[run.at] == MigrationStep::ValidatePublished
            && run.metadata != Some(m@) {
            Err(
                MigrationFault::Validation("published storage metadata changed after validation"@),
            )
        } else {
            Ok(RunModel { metadata: Some(m@), ..next })
        },
    }
}

/// What a run that has done everything reports.
pub open spec fn report_of(run: RunModel) -> Option<ReportModel> {
    if run.at < run.steps.len() {
        None
    } else {
        match run.metadata {
            Some(m) => Some(
                ReportModel {
                    pair_id: m.pair_id,
                    discovered_tokens: run.discovered_tokens,
                    source_fingerprint: run.source_fingerprint,
                    resumed: run.resumed,
                    already_complete: false,
                    imported: run.imported,
                },
            ),
            None => None,
        }
    }
}

impl MigrationRun {
    /// Plans a migration, once it is locked and the sources are discovered.
    pub fn plan(disposition: StorageDisposition, files: FilesPresent, discovery: LegacyDiscovery) -> (r:
        Result<MigrationRun, MigrationError>)
        ensures
            match route_of(disposition@, files) {
                Ok(route) => r matches Ok(run) && run@ == (RunModel {
                    steps: steps_of(route),
                    at: 0,
                    metadata: match disposition@ {
                        DispositionModel::ReadyV2(m) => Some(m),
                        _ => None,
                    },
                    imported: None,
                    discovered_tokens: discovery.discovered_tokens,
                    source_fingerprint: discovery.source_fingerprint@,
                    resumed: !(disposition@ is LegacyOnly),
                }),
                Err(fault) => r matches Err(e) && e@ == fault,
            },
    {
        let route = match plan_route(&disposition, files) {
            Ok(route) => route,
            Err(e) => {
                return Err(e);
            },
        };
        let resumed = match disposition {
            StorageDisposition::LegacyOnly => false,
            _ => true,
        };
        let metadata = match disposition {
            StorageDisposition::ReadyV2(m) => Some(m),
            _ => None,
        };
        Ok(
            MigrationRun {
                steps: route_steps(route),
                at: 0,
                metadata,
                imported: None,
                discovery,
                resumed,
            },
        )
    }

    /// What to do next.
    pub fn next(&self) -> (r: Option<MigrationStep>)
        ensures
            r == (if self@.at < self@.steps.len() {
                Some(self@.steps[self@.at])
            } else {
                None
            }),
    {
        if self.at < self.steps.len() {
            Some(self.steps[self.at])
        } else {
            None
        }
    }

    /// Takes the result of the step that was to be done next.
    pub fn advance(&mut self, result: StepResult) -> (r: Result<(), MigrationError>)
        requires
            old(self)@.at < old(self)@.steps.len(),
        ensures
            match advanced(old(self)@, result) {
                Ok(next) => r is Ok && final(self)@ == next,
                Err(fault) => r matches Err(e) && e@ == fault && final(self)@ == old(self)@,
            },
    {
        let n: usize = self.steps.len();
        match result {
            StepResult::Failed(e) => {
                return Err(e);
            },
            StepResult::Done => {},
            StepResult::Imported(report) => {
                self.imported = Some(report);
            },
            StepResult::Metadata(m) => {
                if self.steps[self.at] == MigrationStep::ValidatePublished {
                    let unchanged = match &self.metadata {
                        Some(known) => same_metadata(known, &m),
                        None => false,
                    };
                    if !unchanged {
                        return Err(
                            validation("published storage metadata changed after validation"),
                        );
                    }
                }
                self.metadata = Some(m);
            },
        }
        self.at = self.at + 1;
        Ok(())
    }

    /// The report, once everything is done.
    pub fn report(&self) -> (r: Option<MigrationReport>)
        ensures
            match report_of(self@) {
                Some(m) => r matches Some(x) && x@ == m,
                None => r is None,
            },
    {
        if self.at < self.steps.len() {
            return None;
        }
        match &self.metadata {
            Some(m) => Some(
                MigrationReport {
                    pair_id: m.pair_id.clone(),
                    discovered_tokens: self.discovery.discovered_tokens,
                    source_fingerprint: self.discovery.source_fingerprint.clone(),
                    resumed: self.resumed,
                    already_complete: false,
                    imported: self.imported,
                },
            ),
            None => None,
        }
    }
}

// ── Validation ────────────────────────────────────────────────────────────────

/// What is wrong with a database file, if anything, of its two checks.
pub open spec fn sqlite_fault(
    path: Seq<char>,
    integrity: Seq<char>,
    violation: Option<Seq<char>>,
) -> Option<MigrationFault> {
    if integrity != "ok"@ {
        Some(MigrationFault::Validation(path + " failed integrity_check: "@ + integrity))
    } else {
        match violation {
            Some(table) => Some(
                MigrationFault::Validation(path + " has a foreign-key violation in "@ + table),
            ),
            None => None,
        }
    }
}

/// The two checks of a database file.
pub struct DatabaseCheck {
    pub path: String,
    pub integrity: String,
    /// A table with a row that names something that is not there.
    pub violation: Option<String>,
}

/// Checks a database file.
pub fn validate_sqlite(database: &DatabaseCheck) -> (r: Result<(), MigrationError>)
    ensures
        check(
            r,
            sqlite_fault(
                database.path@,
                database.integrity@,
                option_view(database.violation),
            ),
        ),
{
    if !same(database.integrity.as_str(), "ok") {
        let mut out = joined(database.path.as_str(), " failed integrity_check: ");
        out.append(database.integrity.as_str());
        return Err(MigrationError::Validation(out));
    }
    match &database.violation {
        Some(table) => {
            let mut out = joined(database.path.as_str(), " has a foreign-key violation in ");
            out.append(table.as_str());
            Err(MigrationError::Validation(out))
        },
        None => Ok(()),
    }
}

/// Whether some token has no project.
pub open spec fn token_without_project(
    projects: Seq<ProjectRowModel>,
    tokens: Seq<Seq<char>>,
) -> bool {
    exists|i: int|
        0 <= i < tokens.len() && !holds_somewhere(projects, token_is(#[trigger] tokens[i]))
}

/// What is wrong with a candidate pair, if anything: its metadata, its files, its record of preparation, or
/// a token without a project.
pub open spec fn candidate_fault(
    actual: MetadataModel,
    expected: MetadataModel,
    control: Option<MigrationFault>,
    projections: Option<MigrationFault>,
    prepared: Option<(Seq<char>, i64)>,
    projects: Seq<ProjectRowModel>,
    tokens: Seq<Seq<char>>,
) -> Option<MigrationFault> {
    if actual != expected {
        Some(
            MigrationFault::Validation(
                "candidate pair metadata does not match its prepared metadata"@,
            ),
        )
    } else if control is Some {
        control
    } else if projections is Some {
        projections
    } else {
        match prepared {
            None => Some(MigrationFault::Validation("prepared migration record is absent"@)),
            Some((pair, count)) => if pair != expected.pair_id || count != tokens.len() {
                Some(
                    MigrationFault::Validation(
                        "prepared migration record does not match the legacy source"@,
                    ),
                )
            } else if token_without_project(projects, tokens) {
                Some(
                    MigrationFault::Validation(
                        "a discovered capture token has no control project"@,
                    ),
                )
            } else {
                None
            },
        }
    }
}

/// Checks a candidate pair.
pub fn validate_candidate(
    actual: &StorageMetadata,
    expected: &StorageMetadata,
    control: &DatabaseCheck,
    projections: &DatabaseCheck,
    prepared: &Option<(String, i64)>,
    access: &ProjectAccess,
    tokens: &Vec<String>,
) -> (r: Result<(), MigrationError>)
    ensures
        check(
            r,
            candidate_fault(
                actual@,
                expected@,
                sqlite_fault(control.path@, control.integrity@, option_view(control.violation)),
                sqlite_fault(
                    projections.path@,
                    projections.integrity@,
                    option_view(projections.violation),
                ),
                match prepared {
                    Some(p) => Some((p.0@, p.1)),
                    None => None,
                },
                access@.projects,
                views(tokens@),
            ),
        ),
{
    if !same_metadata(actual, expected) {
        return Err(
            validation("candidate pair metadata does not match its prepared metadata"),
        );
    }
    match validate_sqlite(control) {
        Ok(()) => {},
        Err(e) => {
            return Err(e);
        },
    }
    match validate_sqlite(projections) {
        Ok(()) => {},
        Err(e) => {
            return Err(e);
        },
    }
    let (pair, count) = match prepared {
        Some(p) => (p.0.as_str(), p.1),
        None => {
            return Err(validation("prepared migration record is absent"));
        },
    };
    if !same(pair, expected.pair_id.as_str()) || count as i128 != tokens.len() as i128 {
        return Err(validation("prepared migration record does not match the legacy source"));
    }
    if some_token_without_project(access, tokens) {
        return Err(validation("a discovered capture token has no control project"));
    }
    Ok(())
}

fn some_token_without_project(access: &ProjectAccess, tokens: &Vec<String>) -> (r: bool)
    ensures
        r == token_without_project(access@.projects, views(tokens@)),
{
    let ghost all = views(tokens@);
    let mut i: usize = 0;
    while i < tokens.len()
        invariant
            i <= tokens.len(),
            all == views(tokens@),
            forall|j: int|
                0 <= j < i ==> holds_somewhere(
                    access@.projects,
                    token_is(#[trigger] all[j]),
                ),
        decreases tokens.len() - i,
    {
        assert(all[i as int] == tokens@[i as int]@);
        if find(&access.projects, &ProjectByToken { token: tokens[i].as_str() }).is_none() {
            return true;
        }
        i += 1;
    }
    false
}

/// What there is to do about the manifest of event files of the earlier layout.
#[derive(Debug, Clone, Copy, PartialEq, Eq, Structural)]
pub enum ManifestAction {
    /// There are no files and no generation: nothing.
    Nothing,
    /// Publish the files as a first generation, unattributed, and validate it.
    Publish,
    /// A generation is there: validate it.
    Validate,
}

/// Decides what there is to do about the manifest.
pub fn ensure_legacy_manifest(current_generation_id: i64, files: usize) -> (r: ManifestAction)
    ensures
        r == (if current_generation_id != 0 {
            ManifestAction::Validate
        } else if files == 0 {
            ManifestAction::Nothing
        } else {
            ManifestAction::Publish
        }),
{
    if current_generation_id != 0 {
        ManifestAction::Validate
    } else if files == 0 {
        ManifestAction::Nothing
    } else {
        ManifestAction::Publish
    }
}

/// A file of the current generation.
pub struct ManifestRow {
    pub relative_path: String,
    pub project_id: Option<String>,
    pub partition_day: Option<String>,
}

/// The mathematical value of a [`ManifestRow`].
pub struct ManifestRowModel {
    pub relative_path: Seq<char>,
    pub project_id: Option<Seq<char>>,
    pub partition_day: Option<Seq<char>>,
}

impl View for ManifestRow {
    type V = ManifestRowModel;

    open spec fn view(&self) -> ManifestRowModel {
        ManifestRowModel {
            relative_path: self.relative_path@,
            project_id: option_view(self.project_id),
            partition_day: option_view(self.partition_day),
        }
    }
}

/// Texts in order.
pub open spec fn text_order() -> spec_fn(Seq<char>, Seq<char>) -> bool {
    |a: Seq<char>, b: Seq<char>| a != b && text_le(a, b)
}

/// Decides [`text_order`].
pub struct TextOrder;

impl Sort<String> for TextOrder {
    open spec fn before(&self) -> spec_fn(Seq<char>, Seq<char>) -> bool {
        text_order()
    }

    fn is_before(&self, a: &String, b: &String) -> (r: bool) {
        !same(a.as_str(), b.as_str()) && text_at_most(a.as_str(), b.as_str())
    }
}

/// The paths of files below a root, or the fault of one that is not.
pub open spec fn path_pushed(root: Seq<char>) -> spec_fn(Seq<Seq<char>>, Seq<char>) -> Result<
    Seq<Seq<char>>,
    MigrationFault,
> {
    |paths: Seq<Seq<char>>, path: Seq<char>|
        match below(root, path) {
            Some(relative) => Ok(paths.push(relative)),
            None => Err(MigrationFault::Validation("legacy event escaped event root"@)),
        }
}

/// The paths of rows.
pub open spec fn row_paths(rows: Seq<ManifestRowModel>) -> Seq<Seq<char>> {
    rows.map_values(|row: ManifestRowModel| row.relative_path)
}

/// Whether a row is attributed to a project.
pub open spec fn attributed(row: ManifestRowModel) -> bool {
    row.project_id is Some || row.partition_day is Some
}

/// What is wrong with the manifest of a generation, if anything: it has to hold exactly the files that were
/// found, all unattributed.
pub open spec fn manifest_fault(
    generation: i64,
    root: Seq<char>,
    files: Seq<Seq<char>>,
    rows: Seq<ManifestRowModel>,
) -> Option<MigrationFault> {
    if files.len() == 0 && generation == 0 {
        None
    } else {
        match steps(Seq::<Seq<char>>::empty(), files, path_pushed(root)) {
            Err(fault) => Some(fault),
            Ok(expected) => if exists|i: int|
                0 <= i < rows.len() && attributed(#[trigger] rows[i]) {
                Some(
                    MigrationFault::Validation("legacy generation contains a project-scoped file"@),
                )
            } else if sorted(row_paths(rows), text_order()) != sorted(expected, text_order()) {
                Some(
                    MigrationFault::Validation(
                        "legacy generation does not cover exactly the verified Parquet files"@,
                    ),
                )
            } else {
                None
            },
        }
    }
}

fn relative_paths(root: &str, files: &Vec<String>) -> (r: Result<Vec<String>, MigrationError>)
    ensures
        match steps(Seq::<Seq<char>>::empty(), views(files@), path_pushed(root@)) {
            Ok(paths) => r matches Ok(v) && views(v@) == paths,
            Err(fault) => r matches Err(e) && e@ == fault,
        },
{
    let ghost all = views(files@);
    let ghost none = Seq::<Seq<char>>::empty();
    let mut out: Vec<String> = Vec::new();
    let mut i: usize = 0;
    assert(all.take(0) =~= none);
    assert(views(out@) =~= none);
    while i < files.len()
        invariant
            i <= files.len(),
            all == views(files@),
            none == Seq::<Seq<char>>::empty(),
            steps(none, all.take(i as int), path_pushed(root@)) == Ok::<_, MigrationFault>(
                views(out@),
            ),
        decreases files.len() - i,
    {
        assert(all.take(i + 1).drop_last() =~= all.take(i as int));
        assert(all.take(i + 1).last() == files@[i as int]@);
        proof {
            lemma_steps_error(none, all, path_pushed(root@), i + 1);
        }
        match relative_to(root, files[i].as_str()) {
            Some(relative) => {
                append(&mut out, relative);
            },
            None => {
                return Err(validation("legacy event escaped event root"));
            },
        }
        i += 1;
    }
    assert(all.take(all.len() as int) =~= all);
    Ok(out)
}

fn some_attributed(rows: &Vec<ManifestRow>) -> (r: bool)
    ensures
        r == (exists|i: int| 0 <= i < views(rows@).len() && attributed(#[trigger] views(rows@)[i])),
{
    let ghost all = views(rows@);
    let mut i: usize = 0;
    while i < rows.len()
        invariant
            i <= rows.len(),
            all == views(rows@),
            forall|j: int| 0 <= j < i ==> !attributed(#[trigger] all[j]),
        decreases rows.len() - i,
    {
        assert(all[i as int] == rows@[i as int]@);
        if rows[i].project_id.is_some() || rows[i].partition_day.is_some() {
            assert(attributed(all[i as int]));
            return true;
        }
        i += 1;
    }
    false
}

fn paths_of(rows: &Vec<ManifestRow>) -> (r: Vec<String>)
    ensures
        views(r@) == row_paths(views(rows@)),
{
    let mut out: Vec<String> = Vec::new();
    let mut i: usize = 0;
    while i < rows.len()
        invariant
            i <= rows.len(),
            out@.len() == i,
            forall|j: int| 0 <= j < i ==> (#[trigger] out@[j])@ == rows@[j]@.relative_path,
        decreases rows.len() - i,
    {
        out.push(rows[i].relative_path.clone());
        i += 1;
    }
    assert(views(out@) =~= row_paths(views(rows@)));
    out
}

/// Checks the manifest of a generation against the files that were found.
pub fn validate_legacy_manifest(
    generation: i64,
    event_root: &str,
    files: &Vec<String>,
    rows: &Vec<ManifestRow>,
) -> (r: Result<(), MigrationError>)
    ensures
        check(r, manifest_fault(generation, event_root@, views(files@), views(rows@))),
{
    if files.len() == 0 && generation == 0 {
        return Ok(());
    }
    let expected = match relative_paths(event_root, files) {
        Ok(expected) => sort(expected, &TextOrder),
        Err(e) => {
            return Err(e);
        },
    };
    if some_attributed(rows) {
        return Err(validation("legacy generation contains a project-scoped file"));
    }
    let actual = sort(paths_of(rows), &TextOrder);
    if !crate::event_lake::versions::same_texts(&actual, &expected) {
        return Err(
            validation("legacy generation does not cover exactly the verified Parquet files"),
        );
    }
    Ok(())
}

/// The error of an import of accounts, as one of the migration. It does not show a token.
pub fn control_import_error(data_dir: &str, error: LegacyImportError) -> (r: MigrationError)
    ensures
        r@ == (match error@ {
            ImportFault::InvalidToken(_) => MigrationFault::InvalidLegacyData(
                data_dir@,
                "a discovered capture token is invalid"@,
            ),
            fault => MigrationFault::Import(fault),
        }),
{
    match error {
        LegacyImportError::InvalidToken(_) => bad_data(
            data_dir,
            "a discovered capture token is invalid",
        ),
        other => MigrationError::Import(other),
    }
}

// ── Fingerprints ──────────────────────────────────────────────────────────────

/// A source file as it was before, while and after it was read.
pub struct SourceFile {
    pub path: String,
    pub before: FileKind,
    pub content: Vec<u8>,
    pub after: FileKind,
}

/// The mathematical value of a [`SourceFile`].
pub struct SourceModel {
    pub path: Seq<char>,
    pub before: FileKind,
    pub content: Seq<u8>,
    pub after: FileKind,
}

impl View for SourceFile {
    type V = SourceModel;

    open spec fn view(&self) -> SourceModel {
        SourceModel {
            path: self.path@,
            before: self.before,
            content: self.content@,
            after: self.after,
        }
    }
}

/// Source files by path.
pub open spec fn source_order() -> spec_fn(SourceModel, SourceModel) -> bool {
    |a: SourceModel, b: SourceModel| path_before(a.path, b.path)
}

/// Decides [`source_order`].
pub struct SourceOrder;

impl Sort<SourceFile> for SourceOrder {
    open spec fn before(&self) -> spec_fn(SourceModel, SourceModel) -> bool {
        source_order()
    }

    fn is_before(&self, a: &SourceFile, b: &SourceFile) -> (r: bool) {
        crate::pipeline::materialize::path_comes_before(a.path.as_str(), b.path.as_str())
    }
}

/// The bytes of a source file in a fingerprint, or what is wrong with it.
pub open spec fn source_bytes(data_dir: Seq<char>, file: SourceModel) -> Result<
    Seq<u8>,
    MigrationFault,
> {
    match below(data_dir, file.path) {
        None => Err(MigrationFault::Validation("legacy source escaped the data directory"@)),
        Some(relative) => if file.before.is_symlink || !file.before.is_file {
            Err(MigrationFault::InvalidLegacyData(file.path, "source is not a regular file"@))
        } else if file.after.is_symlink || !file.after.is_file || file.before.length
            != file.content.len() || file.after.length != file.content.len() {
            Err(
                MigrationFault::InvalidLegacyData(
                    file.path,
                    "source changed while it was fingerprinted"@,
                ),
            )
        } else {
            Ok(
                be8(encode_utf8(relative).len() as int) + encode_utf8(relative) + be8(
                    file.before.length as int,
                ) + file.content + seq![255u8],
            )
        },
    }
}

/// The input of a fingerprint with one more file. A file that was there just before is left out.
pub open spec fn source_pushed(data_dir: Seq<char>) -> spec_fn(
    (Seq<u8>, Option<Seq<char>>),
    SourceModel,
) -> Result<(Seq<u8>, Option<Seq<char>>), MigrationFault> {
    |state: (Seq<u8>, Option<Seq<char>>), file: SourceModel|
        if state.1 == Some(file.path) {
            Ok(state)
        } else {
            match source_bytes(data_dir, file) {
                Ok(bytes) => Ok((state.0 + bytes, Some(file.path))),
                Err(fault) => Err(fault),
            }
        }
}

/// What a fingerprint begins with.
pub open spec fn fingerprint_prefix() -> Seq<u8> {
    encode_utf8("hoglet-legacy-source-v1"@) + seq![0u8]
}

/// The fingerprint of source files: of every path and every content, by path and each once.
pub open spec fn fingerprint_of(data_dir: Seq<char>, files: Seq<SourceModel>) -> Result<
    Seq<char>,
    MigrationFault,
> {
    match steps(
        (fingerprint_prefix(), None::<Seq<char>>),
        sorted(files, source_order()),
        source_pushed(data_dir),
    ) {
        Ok((bytes, _)) => Ok(sha256_text(bytes)),
        Err(fault) => Err(fault),
    }
}

fn source_image(data_dir: &str, file: &SourceFile) -> (r: Result<Vec<u8>, MigrationError>)
    ensures
        match source_bytes(data_dir@, file@) {
            Ok(bytes) => r matches Ok(v) && v@ == bytes,
            Err(fault) => r matches Err(e) && e@ == fault,
        },
{
    let relative = match relative_to(data_dir, file.path.as_str()) {
        Some(relative) => relative,
        None => {
            return Err(validation("legacy source escaped the data directory"));
        },
    };
    if file.before.is_symlink || !file.before.is_file {
        return Err(bad_data(file.path.as_str(), "source is not a regular file"));
    }
    let size: u64 = file.content.len() as u64;
    if file.after.is_symlink || !file.after.is_file || file.before.length != size
        || file.after.length != size {
        return Err(bad_data(file.path.as_str(), "source changed while it was fingerprinted"));
    }
    let mut out: Vec<u8> = Vec::new();
    push_be8(&mut out, crate::text::byte_len(relative.as_str()) as u64);
    assert(out@ =~= be8(encode_utf8(relative@).len() as int));
    push_bytes(&mut out, relative.as_str().as_bytes());
    push_be8(&mut out, file.before.length);
    push_bytes(&mut out, &file.content);
    let ghost upto = out@;
    out.push(255);
    assert(out@ =~= upto + seq![255u8]);
    Ok(out)
}

/// The value of a path that may be absent.
pub open spec fn seen_path(files: Seq<SourceFile>, seen: Option<usize>) -> Option<Seq<char>> {
    match seen {
        Some(i) => Some(files[i as int].path@),
        None => None,
    }
}

fn fingerprint_input(data_dir: &str, files: &Vec<SourceFile>) -> (r: Result<
    Vec<u8>,
    MigrationError,
>)
    ensures
        match steps(
            (fingerprint_prefix(), None::<Seq<char>>),
            views(files@),
            source_pushed(data_dir@),
        ) {
            Ok((bytes, _)) => r matches Ok(v) && v@ == bytes,
            Err(fault) => r matches Err(e) && e@ == fault,
        },
{
    let ghost all = views(files@);
    let ghost start = (fingerprint_prefix(), None::<Seq<char>>);
    let mut out: Vec<u8> = Vec::new();
    push_bytes(&mut out, "hoglet-legacy-source-v1".as_bytes());
    assert(out@ =~= encode_utf8("hoglet-legacy-source-v1"@));
    out.push(0);
    assert(out@ =~= fingerprint_prefix());
    let mut seen: Option<usize> = None;
    let mut i: usize = 0;
    assert(all.take(0) =~= Seq::<SourceModel>::empty());
    while i < files.len()
        invariant
            i <= files.len(),
            all == views(files@),
            start == (fingerprint_prefix(), None::<Seq<char>>),
            seen matches Some(k) ==> k < files.len(),
            steps(start, all.take(i as int), source_pushed(data_dir@)) == Ok::<_, MigrationFault>(
                (out@, seen_path(files@, seen)),
            ),
        decreases files.len() - i,
    {
        assert(all.take(i + 1).drop_last() =~= all.take(i as int));
        assert(all.take(i + 1).last() == files@[i as int]@);
        proof {
            lemma_steps_error(start, all, source_pushed(data_dir@), i + 1);
        }
        let known = match seen {
            Some(k) => same(files[k].path.as_str(), files[i].path.as_str()),
            None => false,
        };
        if !known {
            match source_image(data_dir, &files[i]) {
                Ok(bytes) => {
                    push_bytes(&mut out, &bytes);
                    seen = Some(i);
                },
                Err(e) => {
                    return Err(e);
                },
            }
        }
        i += 1;
    }
    assert(all.take(all.len() as int) =~= all);
    Ok(out)
}

/// The fingerprint of the source files.
pub fn source_fingerprint(data_dir: &str, files: Vec<SourceFile>) -> (r: Result<
    String,
    MigrationError,
>)
    ensures
        outcome(r) == fingerprint_of(data_dir@, views(files@)),
{
    let files = sort(files, &SourceOrder);
    match fingerprint_input(data_dir, &files) {
        Ok(bytes) => Ok(sha256_hex(&bytes)),
        Err(e) => Err(e),
    }
}

/// Checks that the sources are as they were.
pub fn verify_source_fingerprint(actual: &str, expected: &str) -> (r: Result<(), MigrationError>)
    ensures
        check(
            r,
            if actual@ == expected@ {
                None
            } else {
                Some(
                    MigrationFault::Validation(
                        "legacy source files changed during or after migration"@,
                    ),
                )
            },
        ),
{
    if !same(actual, expected) {
        return Err(validation("legacy source files changed during or after migration"));
    }
    Ok(())
}

/// Decides whether the completion marker has to be written: one that is there already has to be of the
/// same migration.
pub fn write_marker_last(existing: &Option<MigrationMarker>, marker: &MigrationMarker) -> (r: Result<
    bool,
    MigrationError,
>)
    ensures
        match existing {
            None => r == Ok::<bool, MigrationError>(true),
            Some(found) => match marker_fault(
                found@,
                marker@.pair_id,
                marker@.source_fingerprint,
            ) {
                Some(fault) => r matches Err(e) && e@ == fault,
                None => r == Ok::<bool, MigrationError>(false),
            },
        },
{
    match existing {
        None => Ok(true),
        Some(found) => match validate_marker(
            found,
            marker.pair_id.as_str(),
            marker.source_fingerprint.as_str(),
        ) {
            Ok(()) => Ok(false),
            Err(e) => Err(e),
        },
    }
}

/// The marker of a migration that is done.
pub fn completion_marker(
    pair_id: &str,
    discovered_tokens: usize,
    source_fingerprint: &str,
    completed_at: i64,
) -> (r: MigrationMarker)
    ensures
        r@ == (MarkerModel {
            version: MARKER_VERSION,
            migration: migration_id(),
            pair_id: pair_id@,
            discovered_tokens,
            source_fingerprint: source_fingerprint@,
            completed_at,
        }),
{
    MigrationMarker {
        version: MARKER_VERSION,
        migration: "legacy-v1-to-v2".to_owned(),
        pair_id: pair_id.to_owned(),
        discovered_tokens,
        source_fingerprint: source_fingerprint.to_owned(),
        completed_at,
    }
}

/// The marker that a migration writes is accepted for its own pair and sources.
pub proof fn law_own_markers_are_accepted(
    pair_id: Seq<char>,
    discovered_tokens: usize,
    fingerprint: Seq<char>,
    completed_at: i64,
)
    ensures
        marker_fault(
            (MarkerModel {
                version: MARKER_VERSION,
                migration: migration_id(),
                pair_id,
                discovered_tokens,
                source_fingerprint: fingerprint,
                completed_at,
            }),
            pair_id,
            fingerprint,
        ) is None,
{
}

} // verus!
