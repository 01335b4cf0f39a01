//! Versioned metadata for immutable event files. A publication replaces the complete visible manifest;
//! a lease that was taken before keeps the files that it was given.
pub mod lake_effects;
pub mod versions;

use vstd::prelude::*;
use vstd::string::*;
use vstd::utf8::encode_utf8;

use crate::digest::{be8, push_be8_signed, push_bytes, sha256_hex, sha256_text, twos};
use crate::order::views;
use crate::text::{
    blank, chars_of, decimal, decimal_text, has_prefix, is_blank, joined, same, string_of,
};

verus! {

// ── Errors ────────────────────────────────────────────────────────────────────

/// Why the event lake refuses an operation.
#[derive(Debug)]
pub enum EventLakeError {
    Database(String),
    Io { path: String, message: String },
    InvalidScope(&'static str),
    InvalidPublication(String),
    CorruptMetadata(String),
    GenerationExhausted,
    Unavailable,
}

/// The mathematical value of an [`EventLakeError`].
pub enum LakeFault {
    Database(Seq<char>),
    Io(Seq<char>, Seq<char>),
    InvalidScope(Seq<char>),
    InvalidPublication(Seq<char>),
    CorruptMetadata(Seq<char>),
    GenerationExhausted,
    Unavailable,
}

impl View for EventLakeError {
    type V = LakeFault;

    open spec fn view(&self) -> LakeFault {
        match self {
            EventLakeError::Database(s) => LakeFault::Database(s@),
            EventLakeError::Io { path, message } => LakeFault::Io(path@, message@),
            EventLakeError::InvalidScope(s) => LakeFault::InvalidScope(s@),
            EventLakeError::InvalidPublication(s) => LakeFault::InvalidPublication(s@),
            EventLakeError::CorruptMetadata(s) => LakeFault::CorruptMetadata(s@),
            EventLakeError::GenerationExhausted => LakeFault::GenerationExhausted,
            EventLakeError::Unavailable => LakeFault::Unavailable,
        }
    }
}

/// The message of an error.
pub open spec fn lake_message(fault: LakeFault) -> Seq<char> {
    match fault {
        LakeFault::Database(s) => "projection database error: "@ + s,
        LakeFault::Io(path, message) => path + ": "@ + message,
        LakeFault::InvalidScope(s) => "invalid event scope: "@ + s,
        LakeFault::InvalidPublication(s) => "invalid event publication: "@ + s,
        LakeFault::CorruptMetadata(s) => "corrupt event lake metadata: "@ + s,
        LakeFault::GenerationExhausted => "event generation id exhausted"@,
        LakeFault::Unavailable => "event lake unavailable"@,
    }
}

impl EventLakeError {
    /// What the error says.
    pub fn message(&self) -> (r: String)
        ensures
            r@ == lake_message(self@),
    {
        match self {
            EventLakeError::Database(s) => joined("projection database error: ", s.as_str()),
            EventLakeError::Io { path, message } => {
                let mut out = path.clone();
                out.append(": ");
                out.append(message.as_str());
                out
            },
            EventLakeError::InvalidScope(s) => joined("invalid event scope: ", *s),
            EventLakeError::InvalidPublication(s) => joined(
                "invalid event publication: ",
                s.as_str(),
            ),
            EventLakeError::CorruptMetadata(s) => joined(
                "corrupt event lake metadata: ",
                s.as_str(),
            ),
            EventLakeError::GenerationExhausted => "event generation id exhausted".to_owned(),
            EventLakeError::Unavailable => "event lake unavailable".to_owned(),
        }
    }
}

fn invalid(prefix: &str, detail: &str) -> (r: EventLakeError)
    ensures
        r@ == LakeFault::InvalidPublication(prefix@ + detail@),
{
    EventLakeError::InvalidPublication(joined(prefix, detail))
}

fn corrupt(prefix: &str, detail: &str) -> (r: EventLakeError)
    ensures
        r@ == LakeFault::CorruptMetadata(prefix@ + detail@),
{
    EventLakeError::CorruptMetadata(joined(prefix, detail))
}

/// The error for a step on a file that failed.
pub fn invalid_file_io(operation: &str, path: &str, error: &str) -> (r: EventLakeError)
    ensures
        r@ == LakeFault::InvalidPublication(
            "cannot "@ + operation@ + " "@ + path@ + ": "@ + error@,
        ),
{
    let mut out = joined("cannot ", operation);
    out.append(" ");
    out.append(path);
    out.append(": ");
    out.append(error);
    EventLakeError::InvalidPublication(out)
}

// ── Days ──────────────────────────────────────────────────────────────────────

/// A day, counted from the first of January of the year one, as `chrono` writes it.
pub uninterp spec fn day_text(day: i32) -> Seq<char>;

/// The day that `chrono` reads out of a text of the form year-month-day.
pub uninterp spec fn day_parsed(text: Seq<char>) -> Option<i32>;

/// `chrono::NaiveDate::format` with `%Y-%m-%d`: the text is a function of the day, and for the years 1 to
/// 9999 reading it gives the day back.
#[verifier::external_body]
pub(crate) fn format_day(day: i32) -> (r: String)
    ensures
        r@ == day_text(day),
        1 <= day <= 3652059 ==> day_parsed(r@) == Some(day),
{
    match chrono::NaiveDate::from_num_days_from_ce_opt(day) {
        Some(date) => date.format("%Y-%m-%d").to_string(),
        None => String::new(),
    }
}

/// `chrono::NaiveDate::parse_from_str` with `%Y-%m-%d`: the day is a function of the text.
#[verifier::external_body]
pub(crate) fn read_day(text: &str) -> (r: Option<i32>)
    ensures
        r == day_parsed(text@),
{
    let date = chrono::NaiveDate::parse_from_str(text, "%Y-%m-%d").ok()?;
    Some(chrono::Datelike::num_days_from_ce(&date))
}

/// A text in quotation marks, as Rust's debug output writes it.
pub uninterp spec fn debug_text(text: Seq<char>) -> Seq<char>;

/// The debug output of a string: a function of the string.
#[verifier::external_body]
pub(crate) fn debug_quoted(text: &str) -> (r: String)
    ensures
        r@ == debug_text(text@),
{
    format!("{text:?}")
}

// ── Generations, scopes and files ─────────────────────────────────────────────

/// The number of a complete manifest; it only grows.
#[derive(Debug, Clone, Copy, PartialEq, Eq, Structural)]
pub struct GenerationId(pub u64);

impl GenerationId {
    /// The generation before any publication.
    pub fn empty() -> (r: GenerationId)
        ensures
            r.0 == 0,
    {
        GenerationId(0)
    }

    /// The number.
    pub fn get(self) -> (r: u64)
        ensures
            r == self.0,
    {
        self.0
    }
}

/// Reads a generation number out of storage.
pub fn decode_generation(raw: i64) -> (r: Result<GenerationId, EventLakeError>)
    ensures
        raw >= 0 ==> (r matches Ok(g) && g == GenerationId(raw as u64)),
        raw < 0 ==> (r matches Err(e) && e@ == LakeFault::CorruptMetadata(
            "invalid generation id -"@ + decimal((-raw) as nat),
        )),
{
    if raw >= 0 {
        Ok(GenerationId(raw as u64))
    } else {
        let magnitude: u64 = (-(raw as i128)) as u64;
        Err(corrupt("invalid generation id -", decimal_text(magnitude).as_str()))
    }
}

/// Writes a generation number for storage.
pub fn encode_generation(generation: GenerationId) -> (r: Result<i64, EventLakeError>)
    ensures
        generation.0 <= i64::MAX ==> (r matches Ok(raw) && raw == generation.0),
        generation.0 > i64::MAX ==> (r matches Err(e) && e@ == LakeFault::GenerationExhausted),
{
    if generation.0 <= 0x7fff_ffff_ffff_ffff {
        Ok(generation.0 as i64)
    } else {
        Err(EventLakeError::GenerationExhausted)
    }
}

/// What a file is attributed to.
pub enum FileScope {
    ProjectDate { project_id: String, event_date: i32 },
    /// A file whose project and day cannot be proven. It stays visible to every query.
    LegacyUnknown,
}

/// The mathematical value of a [`FileScope`].
pub enum ScopeModel {
    ProjectDate(Seq<char>, i32),
    LegacyUnknown,
}

impl View for FileScope {
    type V = ScopeModel;

    open spec fn view(&self) -> ScopeModel {
        match self {
            FileScope::ProjectDate { project_id, event_date } => ScopeModel::ProjectDate(
                project_id@,
                *event_date,
            ),
            FileScope::LegacyUnknown => ScopeModel::LegacyUnknown,
        }
    }
}

impl FileScope {
    /// The same scope.
    pub fn copy(&self) -> (r: FileScope)
        ensures
            r@ == self@,
    {
        match self {
            FileScope::ProjectDate { project_id, event_date } => FileScope::ProjectDate {
                project_id: project_id.clone(),
                event_date: *event_date,
            },
            FileScope::LegacyUnknown => FileScope::LegacyUnknown,
        }
    }
}

/// One immutable event file of a manifest.
pub struct PublishedFile {
    pub path: String,
    pub scope: FileScope,
}

/// The mathematical value of a [`PublishedFile`].
pub struct FileModel {
    pub path: Seq<char>,
    pub scope: ScopeModel,
}

impl View for PublishedFile {
    type V = FileModel;

    open spec fn view(&self) -> FileModel {
        FileModel { path: self.path@, scope: self.scope@ }
    }
}

impl PublishedFile {
    /// A file with its scope.
    pub fn new(path: String, scope: FileScope) -> (r: PublishedFile)
        ensures
            r == (PublishedFile { path, scope }),
    {
        PublishedFile { path, scope }
    }

    /// The same file.
    pub fn copy(&self) -> (r: PublishedFile)
        ensures
            r@ == self@,
    {
        PublishedFile { path: self.path.clone(), scope: self.scope.copy() }
    }
}

/// The project and the half-open range of days that a query asks for.
pub struct EventScope {
    pub project_id: String,
    pub start_date: i32,
    pub end_date_exclusive: i32,
}

/// What is wrong with a scope, if anything.
pub open spec fn scope_fault(project: Seq<char>, start: i32, end: i32) -> Option<LakeFault> {
    if blank(project) {
        Some(LakeFault::InvalidScope("project id is empty"@))
    } else if start >= end {
        Some(LakeFault::InvalidScope("start date must be before end date"@))
    } else {
        None
    }
}

/// Whether a query for a project and days reads a file.
pub open spec fn scope_includes(
    project: Seq<char>,
    start: i32,
    end: i32,
    file: ScopeModel,
) -> bool {
    match file {
        ScopeModel::ProjectDate(owner, day) => owner == project && start <= day < end,
        ScopeModel::LegacyUnknown => true,
    }
}

impl EventScope {
    /// A scope, if it names a project and at least one day.
    pub fn new(project_id: String, start_date: i32, end_date_exclusive: i32) -> (r: Result<
        EventScope,
        EventLakeError,
    >)
        ensures
            match scope_fault(project_id@, start_date, end_date_exclusive) {
                Some(fault) => r matches Err(e) && e@ == fault,
                None => r matches Ok(s) && s == (EventScope {
                    project_id,
                    start_date,
                    end_date_exclusive,
                }),
            },
    {
        if is_blank(project_id.as_str()) {
            return Err(EventLakeError::InvalidScope("project id is empty"));
        }
        if start_date >= end_date_exclusive {
            return Err(EventLakeError::InvalidScope("start date must be before end date"));
        }
        Ok(EventScope { project_id, start_date, end_date_exclusive })
    }

    /// Whether a query of this scope reads a file.
    pub fn includes(&self, file: &PublishedFile) -> (r: bool)
        ensures
            r == scope_includes(
                self.project_id@,
                self.start_date,
                self.end_date_exclusive,
                file@.scope,
            ),
    {
        match &file.scope {
            FileScope::ProjectDate { project_id, event_date } => same(
                project_id.as_str(),
                self.project_id.as_str(),
            ) && *event_date >= self.start_date && *event_date < self.end_date_exclusive,
            FileScope::LegacyUnknown => true,
        }
    }
}

/// A query reads a file of its own project exactly if its days hold the day of the file.
pub proof fn law_queries_read_every_day_of_theirs(
    project: Seq<char>,
    start: i32,
    end: i32,
    day: i32,
)
    ensures
        scope_includes(project, start, end, ScopeModel::ProjectDate(project, day)) <==> start <= day
            && day < end,
{
}

/// More days never lose a file, and days that are split in two read what they read as a whole.
pub proof fn law_days_add_up(project: Seq<char>, start: i32, middle: i32, end: i32, file: ScopeModel)
    requires
        start <= middle <= end,
    ensures
        scope_includes(project, start, end, file) <==> scope_includes(project, start, middle, file)
            || scope_includes(project, middle, end, file),
        file is ProjectDate ==> !(scope_includes(project, start, middle, file) && scope_includes(
            project,
            middle,
            end,
            file,
        )),
{
}

/// A file whose project is unknown is read by every query.
pub proof fn law_unattributed_files_are_always_read(project: Seq<char>, start: i32, end: i32)
    ensures
        scope_includes(project, start, end, ScopeModel::LegacyUnknown),
{
}

/// A query never reads a file of another project.
pub proof fn law_queries_stay_in_their_project(
    project: Seq<char>,
    start: i32,
    end: i32,
    owner: Seq<char>,
    day: i32,
)
    requires
        owner != project,
    ensures
        !scope_includes(project, start, end, ScopeModel::ProjectDate(owner, day)),
{
}

// ── Preparing files ───────────────────────────────────────────────────────────

/// A file that has been validated and fingerprinted.
pub struct PreparedFile {
    pub file_id: String,
    pub relative_path: String,
    pub sha256: String,
    pub size_bytes: i64,
    pub row_count: Option<i64>,
    pub scope: FileScope,
    pub absolute_path: String,
}

/// The mathematical value of a [`PreparedFile`].
pub struct PreparedModel {
    pub file_id: Seq<char>,
    pub relative_path: Seq<char>,
    pub sha256: Seq<char>,
    pub size_bytes: i64,
    pub row_count: Option<i64>,
    pub scope: ScopeModel,
    pub absolute_path: Seq<char>,
}

impl View for PreparedFile {
    type V = PreparedModel;

    open spec fn view(&self) -> PreparedModel {
        PreparedModel {
            file_id: self.file_id@,
            relative_path: self.relative_path@,
            sha256: self.sha256@,
            size_bytes: self.size_bytes,
            row_count: self.row_count,
            scope: self.scope@,
            absolute_path: self.absolute_path@,
        }
    }
}

/// Where a file that is to be published stands: its path, if that is absolute, or else its path below the
/// event root.
pub open spec fn candidate_of(root: Seq<char>, path: Seq<char>) -> Seq<char> {
    if path.len() > 0 && path[0] == '/' {
        path
    } else if root.len() > 0 && root.last() == '/' {
        root + path
    } else {
        root + "/"@ + path
    }
}

/// Where a file that is to be published stands. A path that is empty is refused.
pub fn candidate_path(event_root: &str, path: &str) -> (r: Result<String, EventLakeError>)
    ensures
        path@.len() == 0 ==> (r matches Err(e) && e@ == LakeFault::InvalidPublication(
            "file path is empty"@,
        )),
        path@.len() > 0 ==> (r matches Ok(s) && s@ == candidate_of(event_root@, path@)),
{
    let chars = chars_of(path);
    if chars.len() == 0 {
        return Err(EventLakeError::InvalidPublication("file path is empty".to_owned()));
    }
    if chars[0] == '/' {
        return Ok(path.to_owned());
    }
    let root = chars_of(event_root);
    if root.len() > 0 && root[root.len() - 1] == '/' {
        Ok(joined(event_root, path))
    } else {
        Ok(joined(joined(event_root, "/").as_str(), path))
    }
}

/// What kind of thing stands at a path, without following a link, and how long it is.
#[derive(Debug, Clone, Copy, PartialEq, Eq, Structural)]
pub struct FileKind {
    pub is_symlink: bool,
    pub is_file: bool,
    pub length: u64,
}

/// What was seen of a file while it was being published: the path that was asked for and where it leads,
/// before, while and after its content was read.
pub struct FileObservation {
    /// The path that was asked for, made absolute.
    pub candidate: String,
    pub requested: FileKind,
    /// The canonical path.
    pub absolute_path: String,
    pub opened: FileKind,
    pub content: Vec<u8>,
    pub current: FileKind,
    pub current_path: String,
}

/// The part of a canonical path below a root, if it is below.
pub open spec fn below(root: Seq<char>, path: Seq<char>) -> Option<Seq<char>> {
    if path == root {
        Some(Seq::empty())
    } else {
        let stem = if root.len() > 0 && root.last() == '/' {
            root
        } else {
            root + "/"@
        };
        if has_prefix(path, stem) {
            Some(path.skip(stem.len() as int))
        } else {
            None
        }
    }
}

/// The components of a relative path.
pub open spec fn components(path: Seq<char>) -> Seq<Seq<char>> {
    crate::capture::decompress::split(path, '/')
}

/// Whether a component is an ordinary name.
pub open spec fn normal(component: Seq<char>) -> bool {
    component.len() > 0 && component != "."@ && component != ".."@
}

/// Whether a relative path is made of ordinary names only.
pub open spec fn all_normal(path: Seq<char>) -> bool {
    forall|i: int| 0 <= i < components(path).len() ==> normal(#[trigger] components(path)[i])
}

/// The part of a canonical path below a root, if it is below.
pub fn relative_to(root: &str, path: &str) -> (r: Option<String>)
    ensures
        match below(root@, path@) {
            Some(rest) => r matches Some(s) && s@ == rest,
            None => r is None,
        },
{
    if same(root, path) {
        return Some(String::new());
    }
    let chars = chars_of(root);
    let stem = if chars.len() > 0 && chars[chars.len() - 1] == '/' {
        root.to_owned()
    } else {
        joined(root, "/")
    };
    crate::text::strip_prefix(path, stem.as_str())
}

fn is_all_normal(path: &str) -> (r: bool)
    ensures
        r == all_normal(path@),
{
    let chars = chars_of(path);
    let mut current: Vec<char> = Vec::new();
    let mut i: usize = 0;
    let mut good = true;
    assert(chars@.take(0) =~= Seq::<char>::empty());
    while i < chars.len()
        invariant
            i <= chars.len(),
            chars@ == path@,
            components(chars@.take(i as int)).len() > 0,
            components(chars@.take(i as int)).last() == current@,
            good == (forall|j: int|
                0 <= j < components(chars@.take(i as int)).len() - 1 ==> normal(
                    #[trigger] components(chars@.take(i as int))[j],
                )),
        decreases chars.len() - i,
    {
        let ghost before = components(chars@.take(i as int));
        assert(chars@.take(i + 1).drop_last() =~= chars@.take(i as int));
        let ghost after = components(chars@.take(i + 1));
        if chars[i] == '/' {
            assert(after =~= before.push(Seq::empty()));
            let ok = is_normal(&current);
            proof {
                if good && ok {
                    assert forall|j: int| 0 <= j < after.len() - 1 implies normal(
                        #[trigger] after[j],
                    ) by {
                        if j < before.len() - 1 {
                            assert(normal(before[j]));
                        }
                    }
                } else if !good {
                    let j = choose|j: int|
                        0 <= j < before.len() - 1 && !normal(#[trigger] before[j]);
                    assert(!normal(after[j]));
                } else {
                    assert(!normal(after[before.len() - 1]));
                }
            }
            good = good && ok;
            current = Vec::new();
        } else {
            assert(after =~= before.drop_last().push(before.last().push(chars@[i as int])));
            proof {
                assert forall|j: int| 0 <= j < after.len() - 1 implies after[j] == before[j] by {}
                if good {
                    assert forall|j: int| 0 <= j < after.len() - 1 implies normal(
                        #[trigger] after[j],
                    ) by {
                        assert(normal(before[j]));
                    }
                } else {
                    let j = choose|j: int|
                        0 <= j < before.len() - 1 && !normal(#[trigger] before[j]);
                    assert(!normal(after[j]));
                }
            }
            current.push(chars[i]);
        }
        i += 1;
    }
    assert(chars@.take(chars.len() as int) =~= path@);
    let ok = is_normal(&current);
    proof {
        let all = components(path@);
        if good && ok {
            assert forall|j: int| 0 <= j < all.len() implies normal(#[trigger] all[j]) by {
                if j < all.len() - 1 {
                    assert(normal(all[j]));
                }
            }
        } else if !good {
            let j = choose|j: int| 0 <= j < all.len() - 1 && !normal(#[trigger] all[j]);
            assert(!normal(all[j]));
        } else {
            assert(!normal(all[all.len() - 1]));
        }
    }
    good && ok
}

fn is_normal(component: &Vec<char>) -> (r: bool)
    ensures
        r == normal(component@),
{
    let text = string_of(component, 0, component.len());
    assert(text@ =~= component@);
    component.len() > 0 && !same(text.as_str(), ".") && !same(text.as_str(), "..")
}

/// Whether a file changed while it was being read.
pub open spec fn changed(
    opened: FileKind,
    content: int,
    current: FileKind,
    current_path: Seq<char>,
    absolute_path: Seq<char>,
) -> bool {
    current.is_symlink || !current.is_file || current_path != absolute_path || opened.length
        != content || current.length != content
}

/// What publishing a file leads to, given what was seen of it.
pub open spec fn file_checked(
    root: Seq<char>,
    o: FileObservation,
    scope: ScopeModel,
) -> Result<PreparedModel, LakeFault> {
    if o.requested.is_symlink {
        Err(
            LakeFault::InvalidPublication(
                "symbolic links cannot be published: "@ + o.candidate@,
            ),
        )
    } else if !o.requested.is_file {
        Err(
            LakeFault::InvalidPublication("event path is not a regular file: "@ + o.candidate@),
        )
    } else {
        match below(root, o.absolute_path@) {
            None => Err(
                LakeFault::InvalidPublication(
                    "event file is outside the configured event root: "@ + o.absolute_path@,
                ),
            ),
            Some(relative) => if relative.len() == 0 || !all_normal(relative) {
                Err(
                    LakeFault::InvalidPublication(
                        "event file has an invalid relative path: "@ + relative,
                    ),
                )
            } else if !o.opened.is_file {
                Err(
                    LakeFault::InvalidPublication(
                        "event path is not a regular file: "@ + o.absolute_path@,
                    ),
                )
            } else if changed(
                o.opened,
                o.content@.len() as int,
                o.current,
                o.current_path@,
                o.absolute_path@,
            ) {
                Err(
                    LakeFault::InvalidPublication(
                        "event file changed while it was being published: "@ + o.candidate@,
                    ),
                )
            } else if o.content@.len() > i64::MAX {
                Err(
                    LakeFault::InvalidPublication("event file is too large: "@ + o.absolute_path@),
                )
            } else {
                Ok(
                    PreparedModel {
                        file_id: sha256_text(o.content@),
                        relative_path: relative,
                        sha256: sha256_text(o.content@),
                        size_bytes: o.content@.len() as i64,
                        row_count: None,
                        scope,
                        absolute_path: o.absolute_path@,
                    },
                )
            },
        }
    }
}

/// Validates and fingerprints a file, given what was seen of it: neither a link nor anything but a regular
/// file, below the event root, and unchanged while it was read.
pub fn prepare_file(event_root: &str, observed: &FileObservation, scope: FileScope) -> (r: Result<
    PreparedFile,
    EventLakeError,
>)
    ensures
        match file_checked(event_root@, *observed, scope@) {
            Ok(m) => r matches Ok(p) && p@ == m,
            Err(fault) => r matches Err(e) && e@ == fault,
        },
{
    if observed.requested.is_symlink {
        return Err(
            invalid("symbolic links cannot be published: ", observed.candidate.as_str()),
        );
    }
    if !observed.requested.is_file {
        return Err(invalid("event path is not a regular file: ", observed.candidate.as_str()));
    }
    let relative_path = match relative_to(event_root, observed.absolute_path.as_str()) {
        Some(relative) => relative,
        None => {
            return Err(
                invalid(
                    "event file is outside the configured event root: ",
                    observed.absolute_path.as_str(),
                ),
            );
        },
    };
    if relative_path.as_str().is_empty() || !is_all_normal(relative_path.as_str()) {
        return Err(
            invalid("event file has an invalid relative path: ", relative_path.as_str()),
        );
    }
    if !observed.opened.is_file {
        return Err(
            invalid("event path is not a regular file: ", observed.absolute_path.as_str()),
        );
    }
    let size: u64 = observed.content.len() as u64;
    if observed.current.is_symlink || !observed.current.is_file || !same(
        observed.current_path.as_str(),
        observed.absolute_path.as_str(),
    ) || observed.opened.length != size || observed.current.length != size {
        return Err(
            invalid(
                "event file changed while it was being published: ",
                observed.candidate.as_str(),
            ),
        );
    }
    if size > 0x7fff_ffff_ffff_ffff {
        return Err(invalid("event file is too large: ", observed.absolute_path.as_str()));
    }
    let sha256 = sha256_hex(&observed.content);
    Ok(
        PreparedFile {
            file_id: sha256.clone(),
            relative_path,
            sha256,
            size_bytes: size as i64,
            row_count: None,
            scope,
            absolute_path: observed.absolute_path.clone(),
        },
    )
}

/// A file that is to be published, and what preparing it gave.
pub struct Candidate {
    pub scope: FileScope,
    pub outcome: Result<PreparedFile, EventLakeError>,
}

/// The mathematical value of a [`Candidate`].
pub struct CandidateModel {
    pub scope: ScopeModel,
    pub outcome: Result<PreparedModel, LakeFault>,
}

impl View for Candidate {
    type V = CandidateModel;

    open spec fn view(&self) -> CandidateModel {
        CandidateModel {
            scope: self.scope@,
            outcome: match self.outcome {
                Ok(p) => Ok(p@),
                Err(e) => Err(e@),
            },
        }
    }
}

/// Whether a scope names a blank project.
pub open spec fn blank_scope(scope: ScopeModel) -> bool {
    scope matches ScopeModel::ProjectDate(project, _) && blank(project)
}

/// The manifest with one more candidate.
pub open spec fn manifest_step(files: Seq<PreparedModel>, candidate: CandidateModel) -> Result<
    Seq<PreparedModel>,
    LakeFault,
> {
    if blank_scope(candidate.scope) {
        Err(LakeFault::InvalidPublication("project id is empty"@))
    } else {
        match candidate.outcome {
            Err(fault) => Err(fault),
            Ok(file) => if exists|i: int|
                0 <= i < files.len() && (#[trigger] files[i]).relative_path
                    == file.relative_path {
                Err(LakeFault::InvalidPublication("duplicate file path: "@ + file.relative_path))
            } else if exists|i: int|
                0 <= i < files.len() && (#[trigger] files[i]).file_id == file.file_id {
                Err(
                    LakeFault::InvalidPublication(
                        "different paths contain the same immutable content: "@ + file.file_id,
                    ),
                )
            } else {
                Ok(files.push(file))
            },
        }
    }
}

/// The manifest of candidates, in order, up to the first that fails.
pub open spec fn manifest_of(candidates: Seq<CandidateModel>) -> Result<
    Seq<PreparedModel>,
    LakeFault,
>
    decreases candidates.len(),
{
    if candidates.len() == 0 {
        Ok(Seq::empty())
    } else {
        match manifest_of(candidates.drop_last()) {
            Err(fault) => Err(fault),
            Ok(files) => manifest_step(files, candidates.last()),
        }
    }
}

proof fn lemma_manifest_error_stays(candidates: Seq<CandidateModel>, k: int)
    requires
        0 <= k <= candidates.len(),
    ensures
        manifest_of(candidates.take(k)) matches Err(fault) ==> manifest_of(candidates) == Err::<
            Seq<PreparedModel>,
            _,
        >(fault),
    decreases candidates.len() - k,
{
    if k < candidates.len() {
        lemma_manifest_error_stays(candidates, k + 1);
        assert(candidates.take(k + 1).drop_last() =~= candidates.take(k));
    } else {
        assert(candidates.take(k) =~= candidates);
    }
}

fn add_file(files: &mut Vec<PreparedFile>, candidate: Candidate) -> (r: Result<(), EventLakeError>)
    ensures
        match manifest_step(views(old(files)@), candidate@) {
            Ok(m) => r is Ok && views(final(files)@) == m,
            Err(fault) => r matches Err(e) && e@ == fault,
        },
{
    if let FileScope::ProjectDate { project_id, .. } = &candidate.scope {
        if is_blank(project_id.as_str()) {
            return Err(EventLakeError::InvalidPublication("project id is empty".to_owned()));
        }
    }
    let file = match candidate.outcome {
        Ok(file) => file,
        Err(e) => {
            return Err(e);
        },
    };
    let ghost before = views(files@);
    let mut i: usize = 0;
    while i < files.len()
        invariant
            i <= files.len(),
            files@ == old(files)@,
            before == views(files@),
            !blank_scope(candidate@.scope),
            candidate@.outcome == Ok::<_, LakeFault>(file@),
            forall|j: int| 0 <= j < i ==> (#[trigger] before[j]).relative_path
                != file@.relative_path,
        decreases files.len() - i,
    {
        assert(before[i as int] == files@[i as int]@);
        if same(files[i].relative_path.as_str(), file.relative_path.as_str()) {
            return Err(invalid("duplicate file path: ", file.relative_path.as_str()));
        }
        i += 1;
    }
    let mut k: usize = 0;
    while k < files.len()
        invariant
            k <= files.len(),
            files@ == old(files)@,
            before == views(files@),
            !blank_scope(candidate@.scope),
            candidate@.outcome == Ok::<_, LakeFault>(file@),
            forall|j: int|
                0 <= j < before.len() ==> (#[trigger] before[j]).relative_path
                    != file@.relative_path,
            forall|j: int| 0 <= j < k ==> (#[trigger] before[j]).file_id != file@.file_id,
        decreases files.len() - k,
    {
        assert(before[k as int] == files@[k as int]@);
        if same(files[k].file_id.as_str(), file.file_id.as_str()) {
            return Err(
                invalid(
                    "different paths contain the same immutable content: ",
                    file.file_id.as_str(),
                ),
            );
        }
        k += 1;
    }
    let ghost view = file@;
    files.push(file);
    assert(views(files@) =~= before.push(view));
    Ok(())
}

/// Puts a complete manifest together: every project named, no path twice and no content twice.
pub fn prepare_publication(candidates: Vec<Candidate>) -> (r: Result<
    Vec<PreparedFile>,
    EventLakeError,
>)
    ensures
        match manifest_of(views(candidates@)) {
            Ok(m) => r matches Ok(files) && views(files@) == m,
            Err(fault) => r matches Err(e) && e@ == fault,
        },
{
    let ghost all = views(candidates@);
    let mut rest = candidates;
    let mut files: Vec<PreparedFile> = Vec::new();
    let ghost mut k: int = 0;
    assert(all.take(0) =~= Seq::<CandidateModel>::empty());
    assert(all.skip(0) =~= all);
    assert(views(files@) =~= Seq::<PreparedModel>::empty());
    while rest.len() > 0
        invariant
            0 <= k <= all.len(),
            all == views(candidates@),
            views(rest@) == all.skip(k),
            manifest_of(all.take(k)) == Ok::<_, LakeFault>(views(files@)),
        decreases rest.len(),
    {
        assert(views(rest@).len() == all.skip(k).len());
        assert(views(rest@)[0] == rest@[0]@);
        assert(all.skip(k)[0] == all[k]);
        assert(all.take(k + 1).drop_last() =~= all.take(k));
        let ghost before = rest@;
        let candidate = rest.remove(0);
        assert(views(rest@) =~= views(before).skip(1));
        assert(all.skip(k).skip(1) =~= all.skip(k + 1));
        proof {
            lemma_manifest_error_stays(all, k + 1);
        }
        match add_file(&mut files, candidate) {
            Ok(()) => {},
            Err(e) => {
                return Err(e);
            },
        }
        proof {
            k = k + 1;
        }
    }
    assert(all.skip(k).len() == 0);
    assert(all.take(k) =~= all);
    Ok(files)
}

/// A manifest names no path twice and no content twice.
pub proof fn law_manifests_have_no_duplicates(candidates: Seq<CandidateModel>)
    ensures
        manifest_of(candidates) matches Ok(files) ==> forall|i: int, j: int|
            0 <= i < j < files.len() ==> (#[trigger] files[i]).relative_path != (
            #[trigger] files[j]).relative_path && files[i].file_id != files[j].file_id,
    decreases candidates.len(),
{
    if candidates.len() > 0 {
        law_manifests_have_no_duplicates(candidates.drop_last());
        if let Ok(before) = manifest_of(candidates.drop_last()) {
            if let Ok(files) = manifest_of(candidates) {
                assert forall|i: int, j: int| 0 <= i < j < files.len() implies (
                #[trigger] files[i]).relative_path != (#[trigger] files[j]).relative_path
                    && files[i].file_id != files[j].file_id by {
                    assert(files[i] == before[i]);
                    if j < before.len() {
                        assert(files[j] == before[j]);
                    }
                }
            }
        }
    }
}

// ── Checksums and stored metadata ─────────────────────────────────────────────

/// The bytes of a scope in a manifest checksum.
pub open spec fn scope_bytes(scope: ScopeModel) -> Seq<u8> {
    match scope {
        ScopeModel::ProjectDate(project, day) => encode_utf8("project_date"@) + seq![0u8]
            + encode_utf8(project) + seq![0u8] + encode_utf8(day_text(day)),
        ScopeModel::LegacyUnknown => encode_utf8("legacy_unknown"@),
    }
}

/// The bytes of a file in a manifest checksum.
pub open spec fn file_bytes(file: PreparedModel) -> Seq<u8> {
    encode_utf8(file.file_id) + seq![0u8] + encode_utf8(file.relative_path) + seq![0u8]
        + scope_bytes(file.scope) + seq![0u8] + be8(twos(file.size_bytes as int)) + count_bytes(
        file.row_count,
    ) + seq![255u8]
}

/// The bytes of a row count in a manifest checksum.
pub open spec fn count_bytes(row_count: Option<i64>) -> Seq<u8> {
    match row_count {
        Some(count) => seq![1u8] + be8(twos(count as int)),
        None => seq![0u8],
    }
}

/// The bytes that a manifest checksum is taken of.
pub open spec fn manifest_bytes(files: Seq<PreparedModel>) -> Seq<u8>
    decreases files.len(),
{
    if files.len() == 0 {
        Seq::empty()
    } else {
        manifest_bytes(files.drop_last()) + file_bytes(files.last())
    }
}

fn push_text(out: &mut Vec<u8>, text: &str)
    ensures
        final(out)@ == old(out)@ + encode_utf8(text@),
{
    push_bytes(out, text.as_bytes());
}

fn push_one(out: &mut Vec<u8>, byte: u8)
    ensures
        final(out)@ == old(out)@ + seq![byte],
{
    out.push(byte);
    assert(out@ =~= old(out)@ + seq![byte]);
}

fn scope_image(scope: &FileScope) -> (r: Vec<u8>)
    ensures
        r@ == scope_bytes(scope@),
{
    let mut out: Vec<u8> = Vec::new();
    match scope {
        FileScope::ProjectDate { project_id, event_date } => {
            push_text(&mut out, "project_date");
            assert(out@ =~= encode_utf8("project_date"@));
            push_one(&mut out, 0);
            push_text(&mut out, project_id.as_str());
            push_one(&mut out, 0);
            push_text(&mut out, format_day(*event_date).as_str());
        },
        FileScope::LegacyUnknown => {
            push_text(&mut out, "legacy_unknown");
            assert(out@ =~= encode_utf8("legacy_unknown"@));
        },
    }
    out
}

fn count_image(row_count: Option<i64>) -> (r: Vec<u8>)
    ensures
        r@ == count_bytes(row_count),
{
    let mut out: Vec<u8> = Vec::new();
    match row_count {
        Some(count) => {
            out.push(1);
            assert(out@ =~= seq![1u8]);
            push_be8_signed(&mut out, count);
        },
        None => {
            out.push(0);
            assert(out@ =~= seq![0u8]);
        },
    }
    out
}

fn file_image(file: &PreparedFile) -> (r: Vec<u8>)
    ensures
        r@ == file_bytes(file@),
{
    let mut out: Vec<u8> = Vec::new();
    push_text(&mut out, file.file_id.as_str());
    assert(out@ =~= encode_utf8(file.file_id@));
    push_one(&mut out, 0);
    push_text(&mut out, file.relative_path.as_str());
    push_one(&mut out, 0);
    let scope = scope_image(&file.scope);
    push_bytes(&mut out, &scope);
    push_one(&mut out, 0);
    push_be8_signed(&mut out, file.size_bytes);
    let count = count_image(file.row_count);
    push_bytes(&mut out, &count);
    push_one(&mut out, 255);
    out
}

/// The checksum of a manifest.
pub fn manifest_checksum(files: &Vec<PreparedFile>) -> (r: String)
    ensures
        r@ == sha256_text(manifest_bytes(views(files@))),
{
    let ghost all = views(files@);
    let mut out: Vec<u8> = Vec::new();
    let mut i: usize = 0;
    assert(all.take(0) =~= Seq::<PreparedModel>::empty());
    while i < files.len()
        invariant
            i <= files.len(),
            all == views(files@),
            out@ == manifest_bytes(all.take(i as int)),
        decreases files.len() - i,
    {
        assert(all.take(i + 1).drop_last() =~= all.take(i as int));
        let image = file_image(&files[i]);
        push_bytes(&mut out, &image);
        i += 1;
    }
    assert(all.take(all.len() as int) =~= all);
    sha256_hex(&out)
}

/// The metadata of a file as it is stored.
pub struct StoredFileMetadata {
    pub id: String,
    pub relative_path: String,
    pub sha256: String,
    pub project_id: Option<String>,
    pub partition_day: Option<String>,
    pub size_bytes: i64,
    pub row_count: Option<i64>,
}

/// The mathematical value of stored metadata.
pub struct StoredModel {
    pub id: Seq<char>,
    pub relative_path: Seq<char>,
    pub sha256: Seq<char>,
    pub project_id: Option<Seq<char>>,
    pub partition_day: Option<Seq<char>>,
    pub size_bytes: i64,
    pub row_count: Option<i64>,
}

impl View for StoredFileMetadata {
    type V = StoredModel;

    open spec fn view(&self) -> StoredModel {
        StoredModel {
            id: self.id@,
            relative_path: self.relative_path@,
            sha256: self.sha256@,
            project_id: crate::capture::event::option_view(self.project_id),
            partition_day: crate::capture::event::option_view(self.partition_day),
            size_bytes: self.size_bytes,
            row_count: self.row_count,
        }
    }
}

/// What is stored of a prepared file.
pub open spec fn stored_of(file: PreparedModel) -> StoredModel {
    StoredModel {
        id: file.file_id,
        relative_path: file.relative_path,
        sha256: file.sha256,
        project_id: match file.scope {
            ScopeModel::ProjectDate(project, _) => Some(project),
            ScopeModel::LegacyUnknown => None,
        },
        partition_day: match file.scope {
            ScopeModel::ProjectDate(_, day) => Some(day_text(day)),
            ScopeModel::LegacyUnknown => None,
        },
        size_bytes: file.size_bytes,
        row_count: file.row_count,
    }
}

impl PreparedFile {
    /// What is stored of this file.
    pub fn stored_metadata(&self) -> (r: StoredFileMetadata)
        ensures
            r@ == stored_of(self@),
            self@.scope matches ScopeModel::ProjectDate(_, day) ==> (1 <= day <= 3652059
                ==> day_parsed(day_text(day)) == Some(day)),
    {
        let (project_id, partition_day) = match &self.scope {
            FileScope::ProjectDate { project_id, event_date } => (
                Some(project_id.clone()),
                Some(format_day(*event_date)),
            ),
            FileScope::LegacyUnknown => (None, None),
        };
        StoredFileMetadata {
            id: self.file_id.clone(),
            relative_path: self.relative_path.clone(),
            sha256: self.sha256.clone(),
            project_id,
            partition_day,
            size_bytes: self.size_bytes,
            row_count: self.row_count,
        }
    }
}

fn same_option(a: &Option<String>, b: &Option<String>) -> (r: bool)
    ensures
        r == (crate::capture::event::option_view(*a) == crate::capture::event::option_view(*b)),
{
    match (a, b) {
        (Some(x), Some(y)) => same(x.as_str(), y.as_str()),
        (None, None) => true,
        _ => false,
    }
}

fn same_count(a: Option<i64>, b: Option<i64>) -> (r: bool)
    ensures
        r == (a == b),
{
    match (a, b) {
        (Some(x), Some(y)) => x == y,
        (None, None) => true,
        _ => false,
    }
}

fn same_stored(a: &StoredFileMetadata, b: &StoredFileMetadata) -> (r: bool)
    ensures
        r == (a@ == b@),
{
    same(a.id.as_str(), b.id.as_str()) && same(a.relative_path.as_str(), b.relative_path.as_str())
        && same(a.sha256.as_str(), b.sha256.as_str()) && same_option(&a.project_id, &b.project_id)
        && same_option(&a.partition_day, &b.partition_day) && a.size_bytes == b.size_bytes
        && same_count(a.row_count, b.row_count)
}

/// The first stored file with an id.
pub open spec fn stored_by_id(stored: Seq<StoredModel>, id: Seq<char>) -> Option<StoredModel>
    decreases stored.len(),
{
    if stored.len() == 0 {
        None
    } else if stored_by_id(stored.drop_last(), id) is Some {
        stored_by_id(stored.drop_last(), id)
    } else if stored.last().id == id {
        Some(stored.last())
    } else {
        None
    }
}

/// The first stored file with a path.
pub open spec fn stored_by_path(stored: Seq<StoredModel>, path: Seq<char>) -> Option<StoredModel>
    decreases stored.len(),
{
    if stored.len() == 0 {
        None
    } else if stored_by_path(stored.drop_last(), path) is Some {
        stored_by_path(stored.drop_last(), path)
    } else if stored.last().relative_path == path {
        Some(stored.last())
    } else {
        None
    }
}

/// The stored files once a file's metadata is among them. Metadata never changes under a content or a
/// path.
pub open spec fn metadata_persisted(stored: Seq<StoredModel>, file: PreparedModel) -> Result<
    Seq<StoredModel>,
    LakeFault,
> {
    match stored_by_id(stored, file.file_id) {
        Some(known) => if known == stored_of(file) {
            Ok(stored)
        } else {
            Err(
                LakeFault::InvalidPublication(
                    "immutable metadata changed for content "@ + file.file_id,
                ),
            )
        },
        None => match stored_by_path(stored, file.relative_path) {
            Some(known) => Err(
                LakeFault::InvalidPublication(
                    "immutable path "@ + file.relative_path + " was already assigned to content "@
                        + known.id,
                ),
            ),
            None => Ok(stored.push(stored_of(file))),
        },
    }
}

/// The stored files once the metadata of several files is among them.
pub open spec fn all_persisted(stored: Seq<StoredModel>, files: Seq<PreparedModel>) -> Result<
    Seq<StoredModel>,
    LakeFault,
>
    decreases files.len(),
{
    if files.len() == 0 {
        Ok(stored)
    } else {
        match all_persisted(stored, files.drop_last()) {
            Err(fault) => Err(fault),
            Ok(before) => metadata_persisted(before, files.last()),
        }
    }
}

pub proof fn lemma_persist_error_stays(stored: Seq<StoredModel>, files: Seq<PreparedModel>, k: int)
    requires
        0 <= k <= files.len(),
    ensures
        all_persisted(stored, files.take(k)) matches Err(fault) ==> all_persisted(stored, files)
            == Err::<Seq<StoredModel>, _>(fault),
    decreases files.len() - k,
{
    if k < files.len() {
        lemma_persist_error_stays(stored, files, k + 1);
        assert(files.take(k + 1).drop_last() =~= files.take(k));
    } else {
        assert(files.take(k) =~= files);
    }
}

fn find_by_id(stored: &Vec<StoredFileMetadata>, id: &str) -> (r: Option<usize>)
    ensures
        match r {
            Some(i) => i < stored.len() && stored_by_id(views(stored@), id@) == Some(
                stored@[i as int]@,
            ),
            None => stored_by_id(views(stored@), id@) is None,
        },
{
    let ghost all = views(stored@);
    let mut i: usize = 0;
    assert(all.take(0) =~= Seq::<StoredModel>::empty());
    while i < stored.len()
        invariant
            i <= stored.len(),
            all == views(stored@),
            stored_by_id(all.take(i as int), id@) is None,
        decreases stored.len() - i,
    {
        assert(all.take(i + 1).drop_last() =~= all.take(i as int));
        assert(all.take(i + 1).last() == stored@[i as int]@);
        if same(stored[i].id.as_str(), id) {
            proof {
                lemma_by_id_stays(all, i + 1, id@);
            }
            return Some(i);
        }
        i += 1;
    }
    assert(all.take(all.len() as int) =~= all);
    None
}

proof fn lemma_by_id_stays(stored: Seq<StoredModel>, k: int, id: Seq<char>)
    requires
        0 <= k <= stored.len(),
        stored_by_id(stored.take(k), id) is Some,
    ensures
        stored_by_id(stored, id) == stored_by_id(stored.take(k), id),
    decreases stored.len() - k,
{
    if k < stored.len() {
        assert(stored.take(k + 1).drop_last() =~= stored.take(k));
        lemma_by_id_stays(stored, k + 1, id);
    } else {
        assert(stored.take(k) =~= stored);
    }
}

fn find_by_path(stored: &Vec<StoredFileMetadata>, path: &str) -> (r: Option<usize>)
    ensures
        match r {
            Some(i) => i < stored.len() && stored_by_path(views(stored@), path@) == Some(
                stored@[i as int]@,
            ),
            None => stored_by_path(views(stored@), path@) is None,
        },
{
    let ghost all = views(stored@);
    let mut i: usize = 0;
    assert(all.take(0) =~= Seq::<StoredModel>::empty());
    while i < stored.len()
        invariant
            i <= stored.len(),
            all == views(stored@),
            stored_by_path(all.take(i as int), path@) is None,
        decreases stored.len() - i,
    {
        assert(all.take(i + 1).drop_last() =~= all.take(i as int));
        assert(all.take(i + 1).last() == stored@[i as int]@);
        if same(stored[i].relative_path.as_str(), path) {
            proof {
                lemma_by_path_stays(all, i + 1, path@);
            }
            return Some(i);
        }
        i += 1;
    }
    assert(all.take(all.len() as int) =~= all);
    None
}

proof fn lemma_by_path_stays(stored: Seq<StoredModel>, k: int, path: Seq<char>)
    requires
        0 <= k <= stored.len(),
        stored_by_path(stored.take(k), path) is Some,
    ensures
        stored_by_path(stored, path) == stored_by_path(stored.take(k), path),
    decreases stored.len() - k,
{
    if k < stored.len() {
        assert(stored.take(k + 1).drop_last() =~= stored.take(k));
        lemma_by_path_stays(stored, k + 1, path);
    } else {
        assert(stored.take(k) =~= stored);
    }
}

/// Stores the metadata of a file, unless it is stored already.
pub fn persist_file_metadata(stored: &mut Vec<StoredFileMetadata>, file: &PreparedFile) -> (r: Result<
    (),
    EventLakeError,
>)
    ensures
        match metadata_persisted(views(old(stored)@), file@) {
            Ok(m) => r is Ok && views(final(stored)@) == m,
            Err(fault) => r matches Err(e) && e@ == fault && final(stored)@ == old(stored)@,
        },
        final(stored)@.len() >= old(stored)@.len(),
        final(stored)@.take(old(stored)@.len() as int) == old(stored)@,
{
    assert(stored@.take(stored@.len() as int) =~= stored@);
    let metadata = file.stored_metadata();
    let ghost before = views(stored@);
    if let Some(i) = find_by_id(stored, file.file_id.as_str()) {
        if same_stored(&stored[i], &metadata) {
            return Ok(());
        }
        return Err(
            invalid("immutable metadata changed for content ", file.file_id.as_str()),
        );
    }
    if let Some(i) = find_by_path(stored, file.relative_path.as_str()) {
        let mut out = joined("immutable path ", file.relative_path.as_str());
        out.append(" was already assigned to content ");
        out.append(stored[i].id.as_str());
        return Err(EventLakeError::InvalidPublication(out));
    }
    let ghost view = metadata@;
    stored.push(metadata);
    assert(stored@.take(old(stored)@.len() as int) =~= old(stored)@);
    assert(views(stored@) =~= before.push(view));
    Ok(())
}

} // verus!
