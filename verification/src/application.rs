//! How the application starts: inspection comes before anything is changed, and everything that it depends
//! on is required.
use vstd::prelude::*;
use vstd::string::*;

use crate::control::{access_message, AccessError, AccessFault};
use crate::control_resources::{resource_message, ControlResourceError, ResourceFault};
use crate::event_lake::{debug_quoted, debug_text, lake_message, EventLakeError, LakeFault};
use crate::migration::{DispositionModel, StorageDisposition};
use crate::pipeline::wal::{wal_message, WalError, WalFault};
use crate::projection_catalog::{catalog_error_message, ProjectionCatalogError};
use crate::text::{chars_of, joined, parse_i64, same, signed_of};

verus! {

// ── Configuration ─────────────────────────────────────────────────────────────

/// How many events a project may send each second unless another limit is set.
pub const DEFAULT_MAX_EVENTS_PER_SECOND: u32 = 10_000;

/// Where the data is, and how many events a project may send each second.
#[derive(Debug)]
pub struct ApplicationConfig {
    pub data_dir: String,
    pub max_events_per_second: u32,
}

/// The number that a setting stands for: an optional plus sign and digits, up to the largest `u32`.
pub open spec fn limit_of(setting: Seq<char>) -> Option<u32> {
    match signed_of(setting) {
        Some(n) if setting[0] != '-' && 0 <= n <= u32::MAX => Some(n as u32),
        _ => None,
    }
}

fn read_limit(setting: &str) -> (r: Option<u32>)
    ensures
        r == limit_of(setting@),
{
    let chars = chars_of(setting);
    if chars.len() == 0 || chars[0] == '-' {
        return None;
    }
    match parse_i64(setting) {
        Some(n) => if 0 <= n && n <= 0xffff_ffff {
            Some(n as u32)
        } else {
            None
        },
        None => None,
    }
}

impl ApplicationConfig {
    /// The configuration of a data directory.
    pub fn new(data_dir: &str) -> (r: ApplicationConfig)
        ensures
            r.data_dir@ == data_dir@,
            r.max_events_per_second == DEFAULT_MAX_EVENTS_PER_SECOND,
    {
        ApplicationConfig {
            data_dir: data_dir.to_owned(),
            max_events_per_second: DEFAULT_MAX_EVENTS_PER_SECOND,
        }
    }

    /// Takes the limit from a setting. One that is absent or no number changes nothing.
    pub fn set_limit(&mut self, setting: &Option<String>)
        ensures
            final(self).data_dir == old(self).data_dir,
            final(self).max_events_per_second == (match setting {
                Some(text) => match limit_of(text@) {
                    Some(limit) => limit,
                    None => old(self).max_events_per_second,
                },
                None => old(self).max_events_per_second,
            }),
    {
        if let Some(text) = setting {
            if let Some(limit) = read_limit(text.as_str()) {
                self.max_events_per_second = limit;
            }
        }
    }
}

/// Where to listen: the setting, or else every address of the machine.
pub fn listen_address(setting: &Option<String>) -> (r: String)
    ensures
        r@ == (match setting {
            Some(address) => address@,
            None => "0.0.0.0:8000"@,
        }),
{
    match setting {
        Some(address) => address.clone(),
        None => "0.0.0.0:8000".to_owned(),
    }
}

/// Where the data is: the setting, or else a directory beside the program.
pub fn data_directory(setting: &Option<String>) -> (r: String)
    ensures
        r@ == (match setting {
            Some(path) => path@,
            None => "hoglet-data"@,
        }),
{
    match setting {
        Some(path) => path.clone(),
        None => "hoglet-data".to_owned(),
    }
}

/// What the program is asked to do.
#[derive(Debug, Clone, Copy, PartialEq, Eq, Structural)]
pub enum Command {
    Serve,
    Migrate,
}

/// Reads what the program is asked to do. Without a word it serves.
pub fn read_command(word: &Option<String>) -> (r: Result<Command, String>)
    ensures
        match word {
            None => r == Ok::<Command, String>(Command::Serve),
            Some(text) => if text@ == "migrate"@ {
                r == Ok::<Command, String>(Command::Migrate)
            } else {
                r matches Err(message) && message@ == "unknown command "@ + debug_text(text@)
                    + "; expected `migrate`"@
            },
        },
{
    match word {
        None => Ok(Command::Serve),
        Some(text) => {
            if same(text.as_str(), "migrate") {
                return Ok(Command::Migrate);
            }
            let mut message = joined("unknown command ", debug_quoted(text.as_str()).as_str());
            message.append("; expected `migrate`");
            Err(message)
        },
    }
}

// ── Errors ────────────────────────────────────────────────────────────────────

/// Why the application does not start.
#[derive(Debug)]
pub enum ApplicationError {
    LegacyOnly { data_dir: String },
    MigrationIncomplete { data_dir: String },
    Storage(String),
    Access(AccessError),
    Resources(ControlResourceError),
    ProjectionCatalog(ProjectionCatalogError),
    EventLake(EventLakeError),
    Query(String),
    Wal(WalError),
    Pipeline(String),
    LocalStore(String),
    Io { path: String, message: String },
}

/// The mathematical value of an [`ApplicationError`].
pub enum ApplicationFault {
    LegacyOnly(Seq<char>),
    MigrationIncomplete(Seq<char>),
    Storage(Seq<char>),
    Access(AccessFault),
    Resources(ResourceFault),
    ProjectionCatalog(ProjectionCatalogError),
    EventLake(LakeFault),
    Query(Seq<char>),
    Wal(WalFault),
    Pipeline(Seq<char>),
    LocalStore(Seq<char>),
    Io(Seq<char>, Seq<char>),
}

impl View for ApplicationError {
    type V = ApplicationFault;

    open spec fn view(&self) -> ApplicationFault {
        match self {
            ApplicationError::LegacyOnly { data_dir } => ApplicationFault::LegacyOnly(data_dir@),
            ApplicationError::MigrationIncomplete { data_dir } =>
                ApplicationFault::MigrationIncomplete(data_dir@),
            ApplicationError::Storage(s) => ApplicationFault::Storage(s@),
            ApplicationError::Access(e) => ApplicationFault::Access(e@),
            ApplicationError::Resources(e) => ApplicationFault::Resources(e@),
            ApplicationError::ProjectionCatalog(e) => ApplicationFault::ProjectionCatalog(*e),
            ApplicationError::EventLake(e) => ApplicationFault::EventLake(e@),
            ApplicationError::Query(s) => ApplicationFault::Query(s@),
            ApplicationError::Wal(e) => ApplicationFault::Wal(e@),
            ApplicationError::Pipeline(s) => ApplicationFault::Pipeline(s@),
            ApplicationError::LocalStore(s) => ApplicationFault::LocalStore(s@),
            ApplicationError::Io { path, message } => ApplicationFault::Io(path@, message@),
        }
    }
}

/// The message of an error.
pub open spec fn application_message(fault: ApplicationFault) -> Seq<char> {
    match fault {
        ApplicationFault::LegacyOnly(data_dir) => "legacy Hoglet storage found in "@ + data_dir
            + "; stop the server and run `hoglet migrate`"@,
        ApplicationFault::MigrationIncomplete(data_dir) =>
            "incomplete storage migration found in "@ + data_dir
            + "; inspect it and rerun `hoglet migrate`"@,
        ApplicationFault::Storage(s) => "storage bootstrap failed: "@ + s,
        ApplicationFault::Access(e) => "project access failed: "@ + access_message(e),
        ApplicationFault::Resources(e) => "control resources failed: "@ + resource_message(e),
        ApplicationFault::ProjectionCatalog(e) => "projection catalog failed: "@
            + catalog_error_message(e),
        ApplicationFault::EventLake(e) => "event lake failed: "@ + lake_message(e),
        ApplicationFault::Query(s) => "query engine failed: "@ + s,
        ApplicationFault::Wal(e) => "durable capture WAL failed: "@ + wal_message(e),
        ApplicationFault::Pipeline(s) => "durable pipeline failed: "@ + s,
        ApplicationFault::LocalStore(s) => "ephemeral wire state failed: "@ + s,
        ApplicationFault::Io(path, message) => path + ": "@ + message,
    }
}

impl ApplicationError {
    /// What the error says.
    pub fn message(&self) -> (r: String)
        ensures
            r@ == application_message(self@),
    {
        match self {
            ApplicationError::LegacyOnly { data_dir } => {
                let mut out = joined("legacy Hoglet storage found in ", data_dir.as_str());
                out.append("; stop the server and run `hoglet migrate`");
                out
            },
            ApplicationError::MigrationIncomplete { data_dir } => {
                let mut out = joined("incomplete storage migration found in ", data_dir.as_str());
                out.append("; inspect it and rerun `hoglet migrate`");
                out
            },
            ApplicationError::Storage(s) => joined("storage bootstrap failed: ", s.as_str()),
            ApplicationError::Access(e) => joined(
                "project access failed: ",
                e.message().as_str(),
            ),
            ApplicationError::Resources(e) => joined(
                "control resources failed: ",
                e.message().as_str(),
            ),
            ApplicationError::ProjectionCatalog(e) => joined(
                "projection catalog failed: ",
                e.message().as_str(),
            ),
            ApplicationError::EventLake(e) => joined("event lake failed: ", e.message().as_str()),
            ApplicationError::Query(s) => joined("query engine failed: ", s.as_str()),
            ApplicationError::Wal(e) => joined(
                "durable capture WAL failed: ",
                e.message().as_str(),
            ),
            ApplicationError::Pipeline(s) => joined("durable pipeline failed: ", s.as_str()),
            ApplicationError::LocalStore(s) => joined("ephemeral wire state failed: ", s.as_str()),
            ApplicationError::Io { path, message } => {
                let mut out = joined(path.as_str(), ": ");
                out.append(message.as_str());
                out
            },
        }
    }
}

// ── Starting ──────────────────────────────────────────────────────────────────

/// Which files of a pair of databases there are.
#[derive(Debug, Clone, Copy, PartialEq, Eq, Structural)]
pub struct PairFiles {
    pub control_exists: bool,
    pub projections_is_file: bool,
    pub control_migrating_is_file: bool,
    pub projections_migrating_exists: bool,
}

/// Whether a fresh pair was being published when the process died: the projections are in their place, and
/// the control database is still staged.
pub open spec fn fresh_bootstrap_cut_short(files: PairFiles) -> bool {
    !files.control_exists && files.projections_is_file && files.control_migrating_is_file
        && !files.projections_migrating_exists
}

/// Decides [`fresh_bootstrap_cut_short`].
pub fn recoverable_fresh_bootstrap(files: PairFiles) -> (r: bool)
    ensures
        r == fresh_bootstrap_cut_short(files),
{
    !files.control_exists && files.projections_is_file && files.control_migrating_is_file
        && !files.projections_migrating_exists
}

/// Why the application must not start on what a data directory holds, if it must not. An interrupted
/// migration looks like an interrupted fresh start, but for the artifacts that it migrates.
pub open spec fn startup_fault(
    disposition: DispositionModel,
    files: PairFiles,
    has_legacy: bool,
    data_dir: Seq<char>,
) -> Option<ApplicationFault> {
    match disposition {
        DispositionModel::Fresh | DispositionModel::ReadyV2(_) => None,
        DispositionModel::LegacyOnly => Some(ApplicationFault::LegacyOnly(data_dir)),
        DispositionModel::MigrationIncomplete => if fresh_bootstrap_cut_short(files)
            && !has_legacy {
            None
        } else {
            Some(ApplicationFault::MigrationIncomplete(data_dir))
        },
    }
}

/// Decides whether the application may make or open its pair of databases.
pub fn check_startup(
    disposition: &StorageDisposition,
    files: PairFiles,
    has_legacy: bool,
    data_dir: &str,
) -> (r: Result<(), ApplicationError>)
    ensures
        match startup_fault(disposition@, files, has_legacy, data_dir@) {
            None => r is Ok,
            Some(fault) => r matches Err(e) && e@ == fault,
        },
{
    match disposition {
        StorageDisposition::Fresh | StorageDisposition::ReadyV2(_) => Ok(()),
        StorageDisposition::LegacyOnly => Err(
            ApplicationError::LegacyOnly { data_dir: data_dir.to_owned() },
        ),
        StorageDisposition::MigrationIncomplete => {
            if recoverable_fresh_bootstrap(files) && !has_legacy {
                return Ok(());
            }
            Err(ApplicationError::MigrationIncomplete { data_dir: data_dir.to_owned() })
        },
    }
}

/// Where there is anything to migrate, nothing is made or changed, unless the databases are ready.
pub proof fn law_legacy_storage_is_never_overwritten(
    disposition: DispositionModel,
    files: PairFiles,
    data_dir: Seq<char>,
)
    requires
        !(disposition is Fresh),
        !(disposition is ReadyV2),
    ensures
        startup_fault(disposition, files, true, data_dir) is Some,
{
}

} // verus!
