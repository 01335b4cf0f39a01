//! What an earlier installation left behind: the capture tokens of its data, and its files of events.
use vstd::prelude::*;
use vstd::string::*;

use crate::migration::{
    extension_is, fingerprint_of, has_extension, source_fingerprint, MigrationError,
    MigrationFault, SourceFile, SourceModel,
};
use crate::order::views;
use crate::pipeline::materialize::{path_before, path_comes_before};
use crate::rows::{
    add_texts, append, lemma_steps_error, lemma_texts_added, sort, sorted, steps, texts_added, Sort,
};
use crate::text::{joined, same, text_at_most, text_le};
use crate::text_map::TextMap;

verus! {

/// A file below the directory of events. The tokens are those of its events, or why it could not be read.
pub struct LegacyEventFile {
    pub name: String,
    pub path: String,
    pub tokens: Result<Vec<String>, String>,
}

/// The mathematical value of a [`LegacyEventFile`].
pub struct EventFileModel {
    pub name: Seq<char>,
    pub path: Seq<char>,
    pub tokens: Result<Seq<Seq<char>>, Seq<char>>,
}

/// The value of what was read of a file.
pub open spec fn tokens_read(tokens: Result<Vec<String>, String>) -> Result<
    Seq<Seq<char>>,
    Seq<char>,
> {
    match tokens {
        Ok(v) => Ok(views(v@)),
        Err(s) => Err(s@),
    }
}

impl View for LegacyEventFile {
    type V = EventFileModel;

    open spec fn view(&self) -> EventFileModel {
        EventFileModel {
            name: self.name@,
            path: self.path@,
            tokens: tokens_read(self.tokens),
        }
    }
}

/// An entry of the directory of the log. Given is also whether its name is that of a segment.
pub struct LegacySegmentFile {
    pub name: String,
    pub path: String,
    pub is_file: bool,
    pub is_segment_name: bool,
    pub tokens: Result<Vec<String>, String>,
}

/// The mathematical value of a [`LegacySegmentFile`].
pub struct SegmentFileModel {
    pub name: Seq<char>,
    pub path: Seq<char>,
    pub is_file: bool,
    pub is_segment_name: bool,
    pub tokens: Result<Seq<Seq<char>>, Seq<char>>,
}

impl View for LegacySegmentFile {
    type V = SegmentFileModel;

    open spec fn view(&self) -> SegmentFileModel {
        SegmentFileModel {
            name: self.name@,
            path: self.path@,
            is_file: self.is_file,
            is_segment_name: self.is_segment_name,
            tokens: tokens_read(self.tokens),
        }
    }
}

/// What stands in the place of the log.
pub enum LegacyLog {
    Missing,
    NotADirectory,
    Entries(Vec<LegacySegmentFile>),
}

/// What was left behind: the tokens in order, each once, the files of events in order, and the fingerprint of
/// all that was read.
pub struct LegacySources {
    pub tokens: Vec<String>,
    pub parquet_files: Vec<String>,
    pub source_fingerprint: String,
}

/// The mathematical value of [`LegacySources`].
pub struct SourcesModel {
    pub tokens: Seq<Seq<char>>,
    pub parquet_files: Seq<Seq<char>>,
    pub source_fingerprint: Seq<char>,
}

impl View for LegacySources {
    type V = SourcesModel;

    open spec fn view(&self) -> SourcesModel {
        SourcesModel {
            tokens: views(self.tokens@),
            parquet_files: views(self.parquet_files@),
            source_fingerprint: self.source_fingerprint@,
        }
    }
}

// ── Files of events ───────────────────────────────────────────────────────────

/// Tokens and files of events that were found.
pub struct FoundEvents {
    pub tokens: Seq<Seq<char>>,
    pub files: Seq<Seq<char>>,
}

/// What a file adds. Other files than Parquet files are passed over.
pub open spec fn parquet_step() -> spec_fn(FoundEvents, EventFileModel) -> Result<
    FoundEvents,
    MigrationFault,
> {
    |found: FoundEvents, file: EventFileModel|
        if !extension_is(file.name, "parquet"@) {
            Ok(found)
        } else {
            match file.tokens {
                Err(detail) => Err(MigrationFault::InvalidLegacyData(file.path, detail)),
                Ok(tokens) => Ok(
                    FoundEvents {
                        tokens: texts_added(found.tokens, tokens),
                        files: found.files.push(file.path),
                    },
                ),
            }
        }
}

/// Adds the tokens of the Parquet files to those known, and collects the paths of the files. The files come
/// as a walk finds them.
fn collect_parquet_tokens(
    tokens: &mut Vec<String>,
    parquet_files: &mut Vec<String>,
    files: &Vec<LegacyEventFile>,
) -> (r: Result<(), MigrationError>)
    ensures
        match steps(
            FoundEvents { tokens: views(old(tokens)@), files: views(old(parquet_files)@) },
            views(files@),
            parquet_step(),
        ) {
            Ok(found) => r is Ok && views(final(tokens)@) == found.tokens && views(
                final(parquet_files)@,
            ) == found.files,
            Err(fault) => r matches Err(e) && e@ == fault,
        },
{
    let ghost all = views(files@);
    let ghost start = FoundEvents { tokens: views(tokens@), files: views(parquet_files@) };
    let mut i: usize = 0;
    assert(all.take(0) =~= Seq::<EventFileModel>::empty());
    while i < files.len()
        invariant
            i <= files.len(),
            all == views(files@),
            steps(start, all.take(i as int), parquet_step()) == Ok::<_, MigrationFault>(
                FoundEvents { tokens: views(tokens@), files: views(parquet_files@) },
            ),
            start == (FoundEvents {
                tokens: views(old(tokens)@),
                files: views(old(parquet_files)@),
            }),
        decreases files.len() - i,
    {
        assert(all.take(i + 1).drop_last() =~= all.take(i as int));
        assert(all.take(i + 1).last() == files@[i as int]@);
        proof {
            lemma_steps_error(start, all, parquet_step(), i + 1);
        }
        if has_extension(files[i].name.as_str(), "parquet") {
            match &files[i].tokens {
                Ok(found) => {
                    add_texts(tokens, found);
                    append(parquet_files, files[i].path.clone());
                },
                Err(detail) => {
                    return Err(
                        MigrationError::InvalidLegacyData {
                            path: files[i].path.clone(),
                            detail: detail.clone(),
                        },
                    );
                },
            }
        }
        i += 1;
    }
    assert(all.take(all.len() as int) =~= all);
    Ok(())
}

// ── The log ───────────────────────────────────────────────────────────────────

/// Segments by name.
pub open spec fn segment_file_order() -> spec_fn(SegmentFileModel, SegmentFileModel) -> bool {
    |a: SegmentFileModel, b: SegmentFileModel| a.name != b.name && text_le(a.name, b.name)
}

/// Decides [`segment_file_order`].
pub struct SegmentFileOrder;

impl Sort<LegacySegmentFile> for SegmentFileOrder {
    open spec fn before(&self) -> spec_fn(SegmentFileModel, SegmentFileModel) -> bool {
        segment_file_order()
    }

    fn is_before(&self, a: &LegacySegmentFile, b: &LegacySegmentFile) -> (r: bool) {
        !same(a.name.as_str(), b.name.as_str()) && text_at_most(a.name.as_str(), b.name.as_str())
    }
}

/// What an entry of the directory adds. A file with the extension of a segment must be one.
pub open spec fn log_step() -> spec_fn(Seq<Seq<char>>, SegmentFileModel) -> Result<
    Seq<Seq<char>>,
    MigrationFault,
> {
    |tokens: Seq<Seq<char>>, entry: SegmentFileModel|
        if !entry.is_file || !extension_is(entry.name, "wal"@) {
            Ok(tokens)
        } else if !entry.is_segment_name {
            Err(
                MigrationFault::InvalidLegacyData(
                    entry.path,
                    "unsupported WAL segment name or format"@,
                ),
            )
        } else {
            match entry.tokens {
                Err(detail) => Err(MigrationFault::InvalidLegacyData(entry.path, detail)),
                Ok(found) => Ok(texts_added(tokens, found)),
            }
        }
}

/// The tokens once those of the log are added.
pub open spec fn log_tokens(path: Seq<char>, log: LegacyLog, tokens: Seq<Seq<char>>) -> Result<
    Seq<Seq<char>>,
    MigrationFault,
> {
    match log {
        LegacyLog::Missing => Ok(tokens),
        LegacyLog::NotADirectory => Err(
            MigrationFault::InvalidLegacyData(path, "legacy WAL path is not a directory"@),
        ),
        LegacyLog::Entries(entries) => steps(
            tokens,
            sorted(views(entries@), segment_file_order()),
            log_step(),
        ),
    }
}

/// Adds the tokens of the segments of the log to those known.
fn collect_wal_tokens(tokens: &mut Vec<String>, path: &str, log: LegacyLog) -> (r: Result<
    (),
    MigrationError,
>)
    ensures
        match log_tokens(path@, log, views(old(tokens)@)) {
            Ok(found) => r is Ok && views(final(tokens)@) == found,
            Err(fault) => r matches Err(e) && e@ == fault,
        },
{
    let entries = match log {
        LegacyLog::Missing => {
            return Ok(());
        },
        LegacyLog::NotADirectory => {
            return Err(
                MigrationError::InvalidLegacyData {
                    path: path.to_owned(),
                    detail: "legacy WAL path is not a directory".to_owned(),
                },
            );
        },
        LegacyLog::Entries(entries) => sort(entries, &SegmentFileOrder),
    };
    let ghost all = views(entries@);
    let ghost start = views(tokens@);
    let mut i: usize = 0;
    assert(all.take(0) =~= Seq::<SegmentFileModel>::empty());
    while i < entries.len()
        invariant
            i <= entries.len(),
            all == views(entries@),
            start == views(old(tokens)@),
            log_tokens(path@, log, start) == steps(start, all, log_step()),
            steps(start, all.take(i as int), log_step()) == Ok::<_, MigrationFault>(
                views(tokens@),
            ),
        decreases entries.len() - i,
    {
        assert(all.take(i + 1).drop_last() =~= all.take(i as int));
        assert(all.take(i + 1).last() == entries@[i as int]@);
        proof {
            lemma_steps_error(start, all, log_step(), i + 1);
        }
        if entries[i].is_file && has_extension(entries[i].name.as_str(), "wal") {
            if !entries[i].is_segment_name {
                return Err(
                    MigrationError::InvalidLegacyData {
                        path: entries[i].path.clone(),
                        detail: "unsupported WAL segment name or format".to_owned(),
                    },
                );
            }
            match &entries[i].tokens {
                Ok(found) => {
                    add_texts(tokens, found);
                },
                Err(detail) => {
                    return Err(
                        MigrationError::InvalidLegacyData {
                            path: entries[i].path.clone(),
                            detail: detail.clone(),
                        },
                    );
                },
            }
        }
        i += 1;
    }
    assert(all.take(all.len() as int) =~= all);
    Ok(())
}

// ── Everything ────────────────────────────────────────────────────────────────

/// Paths in their order.
pub open spec fn path_order() -> spec_fn(Seq<char>, Seq<char>) -> bool {
    |a: Seq<char>, b: Seq<char>| path_before(a, b)
}

/// Decides [`path_order`].
pub struct PathOrder;

impl Sort<String> for PathOrder {
    open spec fn before(&self) -> spec_fn(Seq<char>, Seq<char>) -> bool {
        path_order()
    }

    fn is_before(&self, a: &String, b: &String) -> (r: bool) {
        path_comes_before(a.as_str(), b.as_str())
    }
}

/// The fault of the first token that is invalid. Given is what is wrong with each invalid token.
pub open spec fn token_fault(
    data_dir: Seq<char>,
    tokens: Seq<Seq<char>>,
    faults: Map<Seq<char>, Seq<char>>,
) -> Option<MigrationFault>
    decreases tokens.len(),
{
    if tokens.len() == 0 {
        None
    } else {
        match token_fault(data_dir, tokens.drop_last(), faults) {
            Some(fault) => Some(fault),
            None => if faults.contains_key(tokens.last()) {
                Some(
                    MigrationFault::InvalidLegacyData(
                        data_dir,
                        "a discovered capture token is invalid: "@ + faults[tokens.last()],
                    ),
                )
            } else {
                None
            },
        }
    }
}

/// What is wrong with some of the tokens is wrong with all.
proof fn lemma_token_fault(
    data_dir: Seq<char>,
    tokens: Seq<Seq<char>>,
    faults: Map<Seq<char>, Seq<char>>,
    k: int,
)
    requires
        0 <= k <= tokens.len(),
        token_fault(data_dir, tokens.take(k), faults) is Some,
    ensures
        token_fault(data_dir, tokens, faults) == token_fault(data_dir, tokens.take(k), faults),
    decreases tokens.len() - k,
{
    if k < tokens.len() {
        assert(tokens.take(k + 1).drop_last() =~= tokens.take(k));
        lemma_token_fault(data_dir, tokens, faults, k + 1);
    } else {
        assert(tokens.take(k) =~= tokens);
    }
}

/// Checks the tokens.
fn check_tokens(data_dir: &str, tokens: &Vec<String>, faults: &TextMap) -> (r: Result<
    (),
    MigrationError,
>)
    ensures
        match token_fault(data_dir@, views(tokens@), faults@) {
            None => r is Ok,
            Some(fault) => r matches Err(e) && e@ == fault,
        },
{
    let ghost all = views(tokens@);
    let mut i: usize = 0;
    assert(all.take(0) =~= Seq::<Seq<char>>::empty());
    while i < tokens.len()
        invariant
            i <= tokens.len(),
            all == views(tokens@),
            token_fault(data_dir@, all.take(i as int), faults@) is None,
        decreases tokens.len() - i,
    {
        assert(all.take(i + 1).drop_last() =~= all.take(i as int));
        assert(all.take(i + 1).last() == tokens@[i as int]@);
        if let Some(wrong) = faults.get(tokens[i].as_str()) {
            proof {
                lemma_token_fault(data_dir@, all, faults@, i + 1);
            }
            return Err(
                MigrationError::InvalidLegacyData {
                    path: data_dir.to_owned(),
                    detail: joined("a discovered capture token is invalid: ", wrong.as_str()),
                },
            );
        }
        i += 1;
    }
    assert(all.take(all.len() as int) =~= all);
    Ok(())
}

/// All that was left behind, or the first fault.
pub open spec fn discovered(
    data_dir: Seq<char>,
    database_tokens: Seq<Seq<char>>,
    files: Seq<EventFileModel>,
    log_path: Seq<char>,
    log: LegacyLog,
    faults: Map<Seq<char>, Seq<char>>,
    sources: Seq<SourceModel>,
) -> Result<SourcesModel, MigrationFault> {
    let start = FoundEvents {
        tokens: texts_added(Seq::empty(), database_tokens),
        files: Seq::empty(),
    };
    match steps(start, files, parquet_step()) {
        Err(fault) => Err(fault),
        Ok(found) => match log_tokens(log_path, log, found.tokens) {
            Err(fault) => Err(fault),
            Ok(tokens) => match token_fault(data_dir, tokens, faults) {
                Some(fault) => Err(fault),
                None => match fingerprint_of(data_dir, sources) {
                    Err(fault) => Err(fault),
                    Ok(source_fingerprint) => Ok(
                        SourcesModel {
                            tokens,
                            parquet_files: sorted(found.files, path_order()),
                            source_fingerprint,
                        },
                    ),
                },
            },
        },
    }
}

/// Puts together what was left behind: the tokens that the databases name, those of the files of events and of
/// the log, and the files that the fingerprint is of.
pub fn discover_all_legacy_tokens(
    data_dir: &str,
    database_tokens: &Vec<String>,
    files: &Vec<LegacyEventFile>,
    log_path: &str,
    log: LegacyLog,
    faults: &TextMap,
    sources: Vec<SourceFile>,
) -> (r: Result<LegacySources, MigrationError>)
    ensures
        match discovered(
            data_dir@,
            views(database_tokens@),
            views(files@),
            log_path@,
            log,
            faults@,
            views(sources@),
        ) {
            Ok(found) => r matches Ok(s) && s@ == found,
            Err(fault) => r matches Err(e) && e@ == fault,
        },
{
    let mut tokens: Vec<String> = Vec::new();
    let mut parquet_files: Vec<String> = Vec::new();
    assert(views(tokens@) =~= Seq::<Seq<char>>::empty());
    assert(views(parquet_files@) =~= Seq::<Seq<char>>::empty());
    add_texts(&mut tokens, database_tokens);
    match collect_parquet_tokens(&mut tokens, &mut parquet_files, files) {
        Ok(()) => {},
        Err(e) => {
            return Err(e);
        },
    }
    match collect_wal_tokens(&mut tokens, log_path, log) {
        Ok(()) => {},
        Err(e) => {
            return Err(e);
        },
    }
    match check_tokens(data_dir, &tokens, faults) {
        Ok(()) => {},
        Err(e) => {
            return Err(e);
        },
    }
    let parquet_files = sort(parquet_files, &PathOrder);
    match source_fingerprint(data_dir, sources) {
        Ok(source_fingerprint) => Ok(LegacySources { tokens, parquet_files, source_fingerprint }),
        Err(e) => Err(e),
    }
}

// ── Laws ──────────────────────────────────────────────────────────────────────

/// What was known stays known while files are read, and what they name becomes known.
proof fn lemma_parquet_tokens(start: FoundEvents, files: Seq<EventFileModel>, x: Seq<char>)
    requires
        steps(start, files, parquet_step()) is Ok,
    ensures
        start.tokens.contains(x) ==> steps(start, files, parquet_step())->Ok_0.tokens.contains(x),
        forall|i: int|
            0 <= i < files.len() && extension_is(#[trigger] files[i].name, "parquet"@)
                && files[i].tokens->Ok_0.contains(x) ==> steps(
                start,
                files,
                parquet_step(),
            )->Ok_0.tokens.contains(x),
    decreases files.len(),
{
    if files.len() > 0 {
        lemma_parquet_tokens(start, files.drop_last(), x);
        let found = steps(start, files.drop_last(), parquet_step())->Ok_0;
        let last = files.last();
        if extension_is(last.name, "parquet"@) {
            lemma_texts_added(found.tokens, last.tokens->Ok_0, x);
        }
        assert forall|i: int|
            0 <= i < files.len() && extension_is(#[trigger] files[i].name, "parquet"@)
                && files[i].tokens->Ok_0.contains(x) implies steps(
            start,
            files,
            parquet_step(),
        )->Ok_0.tokens.contains(x) by {
            if i < files.len() - 1 {
                assert(files.drop_last()[i] == files[i]);
            }
        }
    }
}

/// What was known stays known while the log is read, and what it names becomes known.
proof fn lemma_log_tokens(start: Seq<Seq<char>>, entries: Seq<SegmentFileModel>, x: Seq<char>)
    requires
        steps(start, entries, log_step()) is Ok,
    ensures
        start.contains(x) ==> steps(start, entries, log_step())->Ok_0.contains(x),
        forall|i: int|
            0 <= i < entries.len() && (#[trigger] entries[i]).is_file && extension_is(
                entries[i].name,
                "wal"@,
            ) && entries[i].tokens->Ok_0.contains(x) ==> steps(
                start,
                entries,
                log_step(),
            )->Ok_0.contains(x),
    decreases entries.len(),
{
    if entries.len() > 0 {
        lemma_log_tokens(start, entries.drop_last(), x);
        let found = steps(start, entries.drop_last(), log_step())->Ok_0;
        let last = entries.last();
        if last.is_file && extension_is(last.name, "wal"@) {
            lemma_texts_added(found, last.tokens->Ok_0, x);
        }
        assert forall|i: int|
            0 <= i < entries.len() && (#[trigger] entries[i]).is_file && extension_is(
                entries[i].name,
                "wal"@,
            ) && entries[i].tokens->Ok_0.contains(x) implies steps(
            start,
            entries,
            log_step(),
        )->Ok_0.contains(x) by {
            if i < entries.len() - 1 {
                assert(entries.drop_last()[i] == entries[i]);
            }
        }
    }
}

/// Every token that a database, a Parquet file or a segment of the log names is discovered.
pub proof fn law_every_token_is_discovered(
    data_dir: Seq<char>,
    database_tokens: Seq<Seq<char>>,
    files: Seq<EventFileModel>,
    log_path: Seq<char>,
    log: LegacyLog,
    faults: Map<Seq<char>, Seq<char>>,
    sources: Seq<SourceModel>,
    token: Seq<char>,
)
    requires
        discovered(data_dir, database_tokens, files, log_path, log, faults, sources) is Ok,
        database_tokens.contains(token) || (exists|i: int|
            0 <= i < files.len() && extension_is(#[trigger] files[i].name, "parquet"@)
                && files[i].tokens->Ok_0.contains(token)) || (log matches LegacyLog::Entries(
            entries,
        ) && exists|i: int|
            0 <= i < entries.len() && (#[trigger] entries@[i]).is_file && extension_is(
                entries@[i].name@,
                "wal"@,
            ) && tokens_read(entries@[i].tokens)->Ok_0.contains(token)),
    ensures
        discovered(
            data_dir,
            database_tokens,
            files,
            log_path,
            log,
            faults,
            sources,
        )->Ok_0.tokens.contains(token),
{
    let none = Seq::<Seq<char>>::empty();
    lemma_texts_added(none, database_tokens, token);
    let start = FoundEvents { tokens: texts_added(none, database_tokens), files: none };
    lemma_parquet_tokens(start, files, token);
    let found = steps(start, files, parquet_step())->Ok_0;
    if let LegacyLog::Entries(entries) = log {
        let all = views(entries@);
        let order = sorted(all, segment_file_order());
        lemma_log_tokens(found.tokens, order, token);
        if exists|i: int|
            0 <= i < entries.len() && (#[trigger] entries@[i]).is_file && extension_is(
                entries@[i].name@,
                "wal"@,
            ) && tokens_read(entries@[i].tokens)->Ok_0.contains(token) {
            let i = choose|i: int|
                0 <= i < entries.len() && (#[trigger] entries@[i]).is_file && extension_is(
                    entries@[i].name@,
                    "wal"@,
                ) && tokens_read(entries@[i].tokens)->Ok_0.contains(token);
            assert(all[i] == entries@[i]@);
            crate::rows::lemma_sorted(all, segment_file_order(), all[i]);
            let j = choose|j: int| 0 <= j < order.len() && order[j] == all[i];
            assert(order[j].is_file);
        }
    }
}

} // verus!
