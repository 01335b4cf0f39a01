//! The versions of the event lake: the manifest that readers see, what a publication stores, and how the
//! lake is read back from storage.
use vstd::prelude::*;
use vstd::string::*;

use crate::digest::{hex_number, hex_number_text, sha256_text, twos};
use crate::event_lake::{
    all_persisted, day_parsed, day_text, debug_quoted, debug_text, decode_generation,
    encode_generation, lake_message, lemma_persist_error_stays, manifest_bytes, manifest_checksum,
    manifest_of, persist_file_metadata, prepare_publication, read_day, scope_includes, stored_of,
    Candidate, CandidateModel, EventLakeError, EventScope, FileModel, FileScope, GenerationId,
    LakeFault, PreparedFile, PreparedModel, PublishedFile, ScopeModel, StoredFileMetadata,
    StoredModel,
};
use crate::order::views;
use crate::text::{is_blank, blank, joined, same};

verus! {

// ── Leases ────────────────────────────────────────────────────────────────────

/// A stable view of the files that a query reads. A later publication does not change it.
pub struct GenerationLease {
    pub generation: GenerationId,
    pub selected: Vec<PublishedFile>,
}

/// The files that a query for a project and days reads, in the order of the manifest.
pub open spec fn selected(
    files: Seq<FileModel>,
    project: Seq<char>,
    start: i32,
    end: i32,
) -> Seq<FileModel>
    decreases files.len(),
{
    if files.len() == 0 {
        Seq::empty()
    } else {
        let before = selected(files.drop_last(), project, start, end);
        if scope_includes(project, start, end, files.last().scope) {
            before.push(files.last())
        } else {
            before
        }
    }
}

/// A lease holds a file exactly if the manifest holds it and it is a file of the project and of one of the days,
/// or one whose project is unknown.
pub proof fn law_leases_hold_what_queries_read(
    files: Seq<FileModel>,
    project: Seq<char>,
    start: i32,
    end: i32,
    file: FileModel,
)
    ensures
        selected(files, project, start, end).contains(file) <==> files.contains(file) && (match file.scope {
            ScopeModel::ProjectDate(owner, day) => owner == project && start <= day && day < end,
            ScopeModel::LegacyUnknown => true,
        }),
    decreases files.len(),
{
    if files.len() > 0 {
        let rest = files.drop_last();
        let last = files.last();
        let before = selected(rest, project, start, end);
        let all = selected(files, project, start, end);
        law_leases_hold_what_queries_read(rest, project, start, end, file);
        assert(files =~= rest.push(last));
        if files.contains(file) {
            let i = choose|i: int| 0 <= i < files.len() && files[i] == file;
            if i < rest.len() {
                assert(rest[i] == file);
                assert(rest.contains(file));
            }
        }
        if rest.contains(file) {
            let i = choose|i: int| 0 <= i < rest.len() && rest[i] == file;
            assert(files[i] == file);
        }
        assert(files[files.len() - 1] == last);
        if before.contains(file) {
            let i = choose|i: int| 0 <= i < before.len() && before[i] == file;
            assert(all[i] == file);
        }
        if all.contains(file) {
            let i = choose|i: int| 0 <= i < all.len() && all[i] == file;
            if i < before.len() {
                assert(before[i] == file);
            }
        }
        if scope_includes(project, start, end, last.scope) {
            assert(all[all.len() - 1] == last);
        }
    }
}

/// More days never lose a file of a lease, and two leases over days that follow each other hold together what one
/// over all of them holds.
pub proof fn law_leases_add_up(
    files: Seq<FileModel>,
    project: Seq<char>,
    start: i32,
    middle: i32,
    end: i32,
    file: FileModel,
)
    requires
        start <= middle <= end,
    ensures
        selected(files, project, start, end).contains(file) <==> selected(
            files,
            project,
            start,
            middle,
        ).contains(file) || selected(files, project, middle, end).contains(file),
{
    law_leases_hold_what_queries_read(files, project, start, end, file);
    law_leases_hold_what_queries_read(files, project, start, middle, file);
    law_leases_hold_what_queries_read(files, project, middle, end, file);
}

/// A lease holds its files in the order of the manifest, each as often as the manifest does: what it holds of two
/// lists in a row is what it holds of each, and of one file that file or nothing.
pub proof fn law_leases_keep_the_order(
    before: Seq<FileModel>,
    after: Seq<FileModel>,
    project: Seq<char>,
    start: i32,
    end: i32,
)
    ensures
        selected(before + after, project, start, end) == selected(before, project, start, end) + selected(
            after,
            project,
            start,
            end,
        ),
        before.len() == 1 ==> selected(before, project, start, end).len() <= 1,
    decreases after.len(),
{
    if before.len() == 1 {
        assert(before.drop_last().len() == 0);
        assert(selected(before.drop_last(), project, start, end).len() == 0);
    }
    if after.len() == 0 {
        assert(before + after =~= before);
    } else {
        let rest = after.drop_last();
        law_leases_keep_the_order(before, rest, project, start, end);
        assert((before + after).drop_last() =~= before + rest);
        assert((before + after).last() == after.last());
        assert(selected(before + after, project, start, end) =~= selected(before, project, start, end)
            + selected(after, project, start, end));
    }
}

impl GenerationLease {
    /// The generation that the lease was taken of.
    pub fn generation_id(&self) -> (r: GenerationId)
        ensures
            r == self.generation,
    {
        self.generation
    }

    /// The files.
    pub fn files(&self) -> (r: &Vec<PublishedFile>)
        ensures
            r@ == self.selected@,
    {
        &self.selected
    }

    /// The paths of the files.
    pub fn paths(&self) -> (r: Vec<String>)
        ensures
            r@.len() == self.selected@.len(),
            forall|i: int|
                0 <= i < r@.len() ==> (#[trigger] r@[i])@ == self.selected@[i]@.path,
    {
        let mut out: Vec<String> = Vec::new();
        let mut i: usize = 0;
        while i < self.selected.len()
            invariant
                i <= self.selected.len(),
                out@.len() == i,
                forall|j: int| 0 <= j < i ==> (#[trigger] out@[j])@ == self.selected@[j]@.path,
            decreases self.selected.len() - i,
        {
            out.push(self.selected[i].path.clone());
            i += 1;
        }
        out
    }

    /// Whether there is no file.
    pub fn is_empty(&self) -> (r: bool)
        ensures
            r == (self.selected@.len() == 0),
    {
        self.selected.len() == 0
    }
}

// ── The lake ──────────────────────────────────────────────────────────────────

/// A published manifest as it is stored: its number and its parent's, its checksum, and the contents in
/// order.
pub struct ManifestRecord {
    pub id: i64,
    pub parent: i64,
    pub checksum: String,
    pub file_ids: Vec<String>,
}

/// The mathematical value of a [`ManifestRecord`].
pub struct ManifestModel {
    pub id: int,
    pub parent: int,
    pub checksum: Seq<char>,
    pub file_ids: Seq<Seq<char>>,
}

impl View for ManifestRecord {
    type V = ManifestModel;

    open spec fn view(&self) -> ManifestModel {
        ManifestModel {
            id: self.id as int,
            parent: self.parent as int,
            checksum: self.checksum@,
            file_ids: views(self.file_ids@),
        }
    }
}

/// Generation metadata and the manifest that new readers see.
pub struct VersionedEventLake {
    /// The number of the current generation.
    pub current: i64,
    pub data_epoch: i64,
    pub stored: Vec<StoredFileMetadata>,
    pub manifests: Vec<ManifestRecord>,
    pub visible_id: GenerationId,
    pub visible: Vec<PublishedFile>,
}

/// The mathematical value of a [`VersionedEventLake`].
pub struct LakeModel {
    pub current: int,
    pub data_epoch: int,
    pub stored: Seq<StoredModel>,
    pub manifests: Seq<ManifestModel>,
    pub visible_id: GenerationId,
    pub visible: Seq<FileModel>,
}

impl View for VersionedEventLake {
    type V = LakeModel;

    open spec fn view(&self) -> LakeModel {
        LakeModel {
            current: self.current as int,
            data_epoch: self.data_epoch as int,
            stored: views(self.stored@),
            manifests: views(self.manifests@),
            visible_id: self.visible_id,
            visible: views(self.visible@),
        }
    }
}

/// Whether the current generation is the one that readers see.
pub open spec fn current_is_visible(lake: LakeModel) -> bool {
    0 <= lake.current && lake.visible_id.0 == lake.current
}

/// The contents of a manifest, in order.
pub open spec fn file_ids(files: Seq<PreparedModel>) -> Seq<Seq<char>> {
    files.map_values(|f: PreparedModel| f.file_id)
}

/// The lake with one more stored manifest, that of the generation after the current one.
pub open spec fn generation_persisted(
    lake: LakeModel,
    current: int,
    files: Seq<PreparedModel>,
) -> Result<LakeModel, LakeFault> {
    if current < 0 {
        Err(
            LakeFault::CorruptMetadata(
                "invalid generation id -"@ + crate::text::decimal((-current) as nat),
            ),
        )
    } else if current >= i64::MAX {
        Err(LakeFault::GenerationExhausted)
    } else {
        match all_persisted(lake.stored, files) {
            Err(fault) => Err(fault),
            Ok(stored) => Ok(
                LakeModel {
                    stored,
                    manifests: lake.manifests.push(
                        ManifestModel {
                            id: current + 1,
                            parent: current,
                            checksum: sha256_text(manifest_bytes(files)),
                            file_ids: file_ids(files),
                        },
                    ),
                    ..lake
                },
            ),
        }
    }
}

/// The files of a manifest, as readers see them.
pub open spec fn shown(files: Seq<PreparedModel>) -> Seq<FileModel> {
    files.map_values(|f: PreparedModel| FileModel { path: f.absolute_path, scope: f.scope })
}

/// The lake once a complete manifest has replaced the one before.
pub open spec fn published(lake: LakeModel, candidates: Seq<CandidateModel>) -> Result<
    LakeModel,
    LakeFault,
> {
    match manifest_of(candidates) {
        Err(fault) => Err(fault),
        Ok(files) => match generation_persisted(lake, lake.current, files) {
            Err(fault) => Err(fault),
            Ok(next) => if lake.data_epoch >= i64::MAX {
                Err(LakeFault::CorruptMetadata("data epoch exhausted"@))
            } else {
                Ok(
                    LakeModel {
                        current: lake.current + 1,
                        data_epoch: lake.data_epoch + 1,
                        visible_id: GenerationId((lake.current + 1) as u64),
                        visible: shown(files),
                        ..next
                    },
                )
            },
        },
    }
}

/// A publication moves on by exactly one generation and one epoch, keeps every metadata row and every
/// manifest that was stored, and shows readers the new manifest alone.
pub proof fn law_publications_only_add(lake: LakeModel, candidates: Seq<CandidateModel>)
    ensures
        published(lake, candidates) matches Ok(next) ==> {
            &&& next.current == lake.current + 1
            &&& next.data_epoch == lake.data_epoch + 1
            &&& current_is_visible(next)
            &&& current_is_visible(lake) ==> next.visible_id.0 == lake.visible_id.0 + 1
            &&& next.manifests.drop_last() == lake.manifests
            &&& next.manifests.last().parent == lake.current
            &&& next.stored.len() >= lake.stored.len()
            &&& next.stored.take(lake.stored.len() as int) == lake.stored
            &&& manifest_of(candidates) matches Ok(files) && next.visible == shown(files)
        },
{
    if let Ok(files) = manifest_of(candidates) {
        lemma_persisting_adds(lake.stored, files);
        if let Ok(next) = published(lake, candidates) {
            assert(next.manifests.drop_last() =~= lake.manifests);
        }
    }
}

proof fn lemma_persisting_adds(stored: Seq<StoredModel>, files: Seq<PreparedModel>)
    ensures
        all_persisted(stored, files) matches Ok(after) ==> after.len() >= stored.len()
            && after.take(stored.len() as int) == stored,
    decreases files.len(),
{
    if files.len() > 0 {
        lemma_persisting_adds(stored, files.drop_last());
        if let Ok(before) = all_persisted(stored, files.drop_last()) {
            if let Ok(after) = all_persisted(stored, files) {
                assert(after.take(stored.len() as int) =~= before.take(stored.len() as int));
            }
        }
    } else {
        assert(stored.take(stored.len() as int) =~= stored);
    }
}

impl VersionedEventLake {
    /// The current generation is the one that readers see.
    pub open spec fn well_formed(&self) -> bool {
        current_is_visible(self@)
    }

    /// Opens the lake on what is stored. `rows` are the stored files of the current generation, each with what
    /// preparing it again gave.
    pub fn open(
        current: i64,
        data_epoch: i64,
        stored: Vec<StoredFileMetadata>,
        manifests: Vec<ManifestRecord>,
        rows: &Vec<LoadedRow>,
    ) -> (r: Result<VersionedEventLake, EventLakeError>)
        ensures
            r matches Ok(lake) ==> lake.well_formed(),
            current < 0 ==> (r matches Err(e) && e@ == LakeFault::CorruptMetadata(
                "invalid generation id -"@ + crate::text::decimal((-current) as nat),
            )),
            current >= 0 ==> match files_loaded(views(rows@)) {
                Ok(files) => r matches Ok(lake) && lake@ == (LakeModel {
                    current: current as int,
                    data_epoch: data_epoch as int,
                    stored: views(stored@),
                    manifests: views(manifests@),
                    visible_id: GenerationId(current as u64),
                    visible: files,
                }),
                Err(fault) => r matches Err(e) && e@ == fault,
            },
    {
        match load_visible_snapshot(current, rows) {
            Ok((visible_id, visible)) => Ok(
                VersionedEventLake {
                    current,
                    data_epoch,
                    stored,
                    manifests,
                    visible_id,
                    visible,
                },
            ),
            Err(e) => Err(e),
        }
    }

    /// A view of the files that a query of a scope reads now.
    pub fn acquire(&self, scope: &EventScope) -> (r: GenerationLease)
        ensures
            r.generation == self@.visible_id,
            views(r.selected@) == selected(
                self@.visible,
                scope.project_id@,
                scope.start_date,
                scope.end_date_exclusive,
            ),
    {
        let ghost all = views(self.visible@);
        let mut files: Vec<PublishedFile> = Vec::new();
        let mut i: usize = 0;
        assert(all.take(0) =~= Seq::<FileModel>::empty());
        assert(views(files@) =~= Seq::<FileModel>::empty());
        while i < self.visible.len()
            invariant
                i <= self.visible.len(),
                all == views(self.visible@),
                views(files@) == selected(
                    all.take(i as int),
                    scope.project_id@,
                    scope.start_date,
                    scope.end_date_exclusive,
                ),
            decreases self.visible.len() - i,
        {
            assert(all.take(i + 1).drop_last() =~= all.take(i as int));
            let ghost before = views(files@);
            if scope.includes(&self.visible[i]) {
                files.push(self.visible[i].copy());
                assert(views(files@) =~= before.push(all[i as int]));
            }
            i += 1;
        }
        assert(all.take(all.len() as int) =~= all);
        GenerationLease { generation: self.visible_id, selected: files }
    }

    /// The generation that new readers see.
    pub fn current_generation_id(&self) -> (r: GenerationId)
        ensures
            r == self@.visible_id,
    {
        self.visible_id
    }

    /// The complete manifest that new readers see.
    pub fn visible_files(&self) -> (r: Vec<PublishedFile>)
        ensures
            views(r@) == self@.visible,
    {
        let mut out: Vec<PublishedFile> = Vec::new();
        let mut i: usize = 0;
        while i < self.visible.len()
            invariant
                i <= self.visible.len(),
                out@.len() == i,
                forall|j: int| 0 <= j < i ==> (#[trigger] out@[j])@ == self.visible@[j]@,
            decreases self.visible.len() - i,
        {
            out.push(self.visible[i].copy());
            i += 1;
        }
        assert(views(out@) =~= views(self.visible@));
        out
    }

    /// Stores a complete manifest as the generation after a current one. Readers do not see it yet. On an
    /// error nothing is stored.
    pub fn persist_prepared_generation(
        &mut self,
        current_raw: i64,
        prepared: &Vec<PreparedFile>,
    ) -> (r: Result<GenerationId, EventLakeError>)
        ensures
            match generation_persisted(old(self)@, current_raw as int, views(prepared@)) {
                Ok(next) => r matches Ok(id) && id.0 == current_raw + 1 && final(self)@ == next
                    && final(self).stored@.len() >= old(self).stored@.len()
                    && final(self).stored@.take(old(self).stored@.len() as int)
                    == old(self).stored@ && final(self).manifests@.drop_last()
                    == old(self).manifests@ && final(self).manifests@.len() > 0,
                Err(fault) => r matches Err(e) && e@ == fault && final(self)@ == old(self)@,
            },
    {
        let current = match decode_generation(current_raw) {
            Ok(current) => current,
            Err(e) => {
                return Err(e);
            },
        };
        let next = GenerationId(current.get() + 1);
        let next_raw: i64 = match encode_generation(next) {
            Ok(raw) => raw,
            Err(e) => {
                return Err(e);
            },
        };
        let ghost all = views(prepared@);
        let ghost start = self.stored@;
        let known: usize = self.stored.len();
        let checksum = manifest_checksum(prepared);
        let mut ids: Vec<String> = Vec::new();
        let mut i: usize = 0;
        assert(all.take(0) =~= Seq::<PreparedModel>::empty());
        assert(self.stored@.take(known as int) =~= start);
        while i < prepared.len()
            invariant
                i <= prepared.len(),
                all == views(prepared@),
                start == old(self).stored@,
                known == start.len(),
                known <= self.stored@.len(),
                self.stored@.take(known as int) == start,
                current_raw >= 0,
                current_raw < i64::MAX,
                all_persisted(views(start), all.take(i as int)) == Ok::<_, LakeFault>(
                    views(self.stored@),
                ),
                ids@.len() == i,
                forall|j: int| 0 <= j < i ==> (#[trigger] ids@[j])@ == all[j].file_id,
                self.current == old(self).current,
                self.data_epoch == old(self).data_epoch,
                self.manifests@ == old(self).manifests@,
                self.visible_id == old(self).visible_id,
                self.visible@ == old(self).visible@,
            decreases prepared.len() - i,
        {
            assert(all.take(i + 1).drop_last() =~= all.take(i as int));
            proof {
                lemma_persist_error_stays(views(start), all, i + 1);
            }
            let ghost before = self.stored@;
            match persist_file_metadata(&mut self.stored, &prepared[i]) {
                Ok(()) => {},
                Err(e) => {
                    self.stored.truncate(known);
                    assert(self.stored@ =~= start);
                    return Err(e);
                },
            }
            assert(self.stored@.take(known as int) =~= before.take(known as int));
            ids.push(prepared[i].file_id.clone());
            i += 1;
        }
        assert(all.take(all.len() as int) =~= all);
        assert(views(ids@) =~= file_ids(all));
        let record = ManifestRecord { id: next_raw, parent: current_raw, checksum, file_ids: ids };
        let ghost view = record@;
        self.manifests.push(record);
        assert(views(self.manifests@) =~= views(old(self).manifests@).push(view));
        assert(self.manifests@.drop_last() =~= old(self).manifests@);
        Ok(next)
    }

    /// Shows the current generation to new readers. Leases that were taken before keep their files.
    pub fn activate_committed_generation(
        &mut self,
        id: GenerationId,
        prepared: &Vec<PreparedFile>,
    )
        requires
            id.0 == old(self)@.current,
        ensures
            final(self).well_formed(),
            final(self)@ == (LakeModel {
                visible_id: id,
                visible: shown(views(prepared@)),
                ..old(self)@
            }),
    {
        let mut files: Vec<PublishedFile> = Vec::new();
        let mut i: usize = 0;
        while i < prepared.len()
            invariant
                i <= prepared.len(),
                files@.len() == i,
                forall|j: int|
                    0 <= j < i ==> (#[trigger] files@[j])@ == (FileModel {
                        path: prepared@[j]@.absolute_path,
                        scope: prepared@[j]@.scope,
                    }),
            decreases prepared.len() - i,
        {
            files.push(
                PublishedFile::new(prepared[i].absolute_path.clone(), prepared[i].scope.copy()),
            );
            i += 1;
        }
        assert(views(files@) =~= shown(views(prepared@)));
        self.visible_id = id;
        self.visible = files;
    }

    /// Publishes a complete manifest in place of the current one. On an error nothing changes.
    pub fn publish_generation(&mut self, candidates: Vec<Candidate>) -> (r: Result<
        GenerationId,
        EventLakeError,
    >)
        requires
            old(self).well_formed(),
        ensures
            final(self).well_formed(),
            r matches Ok(id) ==> id.0 == old(self)@.visible_id.0 + 1,
            match published(old(self)@, views(candidates@)) {
                Ok(next) => r matches Ok(id) && id == next.visible_id && final(self)@ == next,
                Err(fault) => r matches Err(e) && e@ == fault && final(self)@ == old(self)@,
            },
    {
        let prepared = match prepare_publication(candidates) {
            Ok(files) => files,
            Err(e) => {
                return Err(e);
            },
        };
        let current_raw: i64 = self.current;
        let known: usize = self.stored.len();
        let next = match self.persist_prepared_generation(current_raw, &prepared) {
            Ok(next) => next,
            Err(e) => {
                return Err(e);
            },
        };
        if self.data_epoch == i64::MAX {
            self.stored.truncate(known);
            self.manifests.pop();
            assert(self.stored@ =~= old(self).stored@);
            assert(self.manifests@ =~= old(self).manifests@);
            return Err(EventLakeError::CorruptMetadata("data epoch exhausted".to_owned()));
        }
        self.current = self.current + 1;
        self.data_epoch = self.data_epoch + 1;
        self.activate_committed_generation(next, &prepared);
        Ok(next)
    }
}

// ── Reading the lake back ─────────────────────────────────────────────────────

/// A stored file of the current generation, and what preparing it again gave.
pub struct LoadedRow {
    pub metadata: StoredFileMetadata,
    pub outcome: Result<PreparedFile, EventLakeError>,
}

/// The mathematical value of a [`LoadedRow`].
pub struct LoadedModel {
    pub metadata: StoredModel,
    pub outcome: Result<PreparedModel, LakeFault>,
}

impl View for LoadedRow {
    type V = LoadedModel;

    open spec fn view(&self) -> LoadedModel {
        LoadedModel {
            metadata: self.metadata@,
            outcome: match self.outcome {
                Ok(p) => Ok(p@),
                Err(e) => Err(e@),
            },
        }
    }
}

/// The scope of stored metadata.
pub open spec fn stored_scope(row: StoredModel) -> Result<ScopeModel, LakeFault> {
    match (row.project_id, row.partition_day) {
        (Some(project), Some(text)) => match day_parsed(text) {
            Some(day) => Ok(ScopeModel::ProjectDate(project, day)),
            None => Err(
                LakeFault::CorruptMetadata(
                    "invalid event date "@ + debug_text(text) + " for "@ + row.relative_path,
                ),
            ),
        },
        (None, None) => Ok(ScopeModel::LegacyUnknown),
        _ => Err(LakeFault::CorruptMetadata("invalid scope for "@ + row.relative_path)),
    }
}

/// A stored file as readers see it, provided that what is at its path is still what was published.
pub open spec fn file_loaded(row: LoadedModel) -> Result<FileModel, LakeFault> {
    let stored = row.metadata;
    match stored_scope(stored) {
        Err(fault) => Err(fault),
        Ok(scope) => if stored.row_count matches Some(count) && count < 0 {
            Err(LakeFault::CorruptMetadata("negative row count for "@ + stored.relative_path))
        } else {
            match row.outcome {
                Err(fault) => Err(
                    LakeFault::CorruptMetadata(
                        "published file "@ + debug_text(stored.relative_path)
                            + " is unavailable or unsafe: "@ + lake_message(fault),
                    ),
                ),
                Ok(file) => if file.file_id != stored.id || file.sha256 != stored.sha256
                    || file.relative_path != stored.relative_path || file.size_bytes
                    != stored.size_bytes {
                    Err(
                        LakeFault::CorruptMetadata(
                            "published file metadata does not match content for "@
                                + stored.relative_path,
                        ),
                    )
                } else {
                    Ok(FileModel { path: file.absolute_path, scope })
                },
            }
        },
    }
}

/// The files of a generation, in order, up to the first that cannot be shown.
pub open spec fn files_loaded(rows: Seq<LoadedModel>) -> Result<Seq<FileModel>, LakeFault>
    decreases rows.len(),
{
    if rows.len() == 0 {
        Ok(Seq::empty())
    } else {
        match files_loaded(rows.drop_last()) {
            Err(fault) => Err(fault),
            Ok(files) => match file_loaded(rows.last()) {
                Err(fault) => Err(fault),
                Ok(file) => Ok(files.push(file)),
            },
        }
    }
}

proof fn lemma_load_error_stays(rows: Seq<LoadedModel>, k: int)
    requires
        0 <= k <= rows.len(),
    ensures
        files_loaded(rows.take(k)) matches Err(fault) ==> files_loaded(rows) == Err::<
            Seq<FileModel>,
            _,
        >(fault),
    decreases rows.len() - k,
{
    if k < rows.len() {
        lemma_load_error_stays(rows, k + 1);
        assert(rows.take(k + 1).drop_last() =~= rows.take(k));
    } else {
        assert(rows.take(k) =~= rows);
    }
}

fn corrupt_row(before: &str, path: &str) -> (r: EventLakeError)
    ensures
        r@ == LakeFault::CorruptMetadata(before@ + path@),
{
    EventLakeError::CorruptMetadata(joined(before, path))
}

/// Checks one stored file against what is at its path now.
pub fn load_file(row: &LoadedRow) -> (r: Result<PublishedFile, EventLakeError>)
    ensures
        match file_loaded(row@) {
            Ok(m) => r matches Ok(f) && f@ == m,
            Err(fault) => r matches Err(e) && e@ == fault,
        },
{
    let stored = &row.metadata;
    let scope = match (&stored.project_id, &stored.partition_day) {
        (Some(project_id), Some(text)) => match read_day(text.as_str()) {
            Some(event_date) => FileScope::ProjectDate {
                project_id: project_id.clone(),
                event_date,
            },
            None => {
                let mut out = joined(
                    "invalid event date ",
                    debug_quoted(text.as_str()).as_str(),
                );
                out.append(" for ");
                out.append(stored.relative_path.as_str());
                return Err(EventLakeError::CorruptMetadata(out));
            },
        },
        (None, None) => FileScope::LegacyUnknown,
        _ => {
            return Err(corrupt_row("invalid scope for ", stored.relative_path.as_str()));
        },
    };
    if let Some(count) = stored.row_count {
        if count < 0 {
            return Err(
                corrupt_row("negative row count for ", stored.relative_path.as_str()),
            );
        }
    }
    match &row.outcome {
        Err(e) => {
            let mut out = joined(
                "published file ",
                debug_quoted(stored.relative_path.as_str()).as_str(),
            );
            out.append(" is unavailable or unsafe: ");
            out.append(e.message().as_str());
            Err(EventLakeError::CorruptMetadata(out))
        },
        Ok(file) => if !same(file.file_id.as_str(), stored.id.as_str()) || !same(
            file.sha256.as_str(),
            stored.sha256.as_str(),
        ) || !same(file.relative_path.as_str(), stored.relative_path.as_str())
            || file.size_bytes != stored.size_bytes {
            Err(
                corrupt_row(
                    "published file metadata does not match content for ",
                    stored.relative_path.as_str(),
                ),
            )
        } else {
            Ok(PublishedFile::new(file.absolute_path.clone(), scope))
        },
    }
}

/// What readers see of a stored generation.
pub fn load_visible_snapshot(generation_raw: i64, rows: &Vec<LoadedRow>) -> (r: Result<
    (GenerationId, Vec<PublishedFile>),
    EventLakeError,
>)
    ensures
        generation_raw < 0 ==> (r matches Err(e) && e@ == LakeFault::CorruptMetadata(
            "invalid generation id -"@ + crate::text::decimal((-generation_raw) as nat),
        )),
        generation_raw >= 0 ==> match files_loaded(views(rows@)) {
            Ok(files) => r matches Ok(s) && s.0.0 == generation_raw && views(s.1@) == files,
            Err(fault) => r matches Err(e) && e@ == fault,
        },
{
    let id = match decode_generation(generation_raw) {
        Ok(id) => id,
        Err(e) => {
            return Err(e);
        },
    };
    let ghost all = views(rows@);
    let mut files: Vec<PublishedFile> = Vec::new();
    let mut i: usize = 0;
    assert(all.take(0) =~= Seq::<LoadedModel>::empty());
    assert(views(files@) =~= Seq::<FileModel>::empty());
    while i < rows.len()
        invariant
            i <= rows.len(),
            all == views(rows@),
            generation_raw >= 0,
            files_loaded(all.take(i as int)) == Ok::<_, LakeFault>(views(files@)),
        decreases rows.len() - i,
    {
        assert(all.take(i + 1).drop_last() =~= all.take(i as int));
        assert(all.take(i + 1).last() == rows@[i as int]@);
        proof {
            lemma_load_error_stays(all, i + 1);
        }
        let ghost before = views(files@);
        match load_file(&rows[i]) {
            Ok(file) => {
                let ghost view = file@;
                files.push(file);
                assert(views(files@) =~= before.push(view));
            },
            Err(e) => {
                return Err(e);
            },
        }
        i += 1;
    }
    assert(all.take(all.len() as int) =~= all);
    Ok((id, files))
}

/// A file that was published and has not changed is read back from storage as it was shown, if its day is
/// written so that it can be read.
pub proof fn law_published_files_are_read_back(file: PreparedModel)
    requires
        file.row_count is None,
        file.scope matches ScopeModel::ProjectDate(_, day) ==> day_parsed(day_text(day))
            == Some(day),
    ensures
        file_loaded(LoadedModel { metadata: stored_of(file), outcome: Ok(file) }) == Ok::<
            _,
            LakeFault,
        >(FileModel { path: file.absolute_path, scope: file.scope }),
{
}

// ── The database ──────────────────────────────────────────────────────────────

/// What is wrong with a projections database, if anything.
pub open spec fn database_fault(
    application_id: i64,
    expected: i64,
    metadata: Option<(Seq<char>, Seq<char>)>,
    generation_known: bool,
) -> Option<LakeFault> {
    if application_id != expected {
        Some(
            LakeFault::CorruptMetadata(
                "database application id 0x"@ + hex_number(twos(application_id as int) as nat)
                    + " is not the projections id 0x"@ + hex_number(
                    twos(expected as int) as nat,
                ),
            ),
        )
    } else {
        match metadata {
            None => Some(LakeFault::CorruptMetadata("database_meta singleton is absent"@)),
            Some((pair, role)) => if blank(pair) {
                Some(LakeFault::CorruptMetadata("database pair id is empty"@))
            } else if role != "projections"@ {
                Some(
                    LakeFault::CorruptMetadata(
                        "database role is "@ + debug_text(role) + ", expected \"projections\""@,
                    ),
                )
            } else if !generation_known {
                Some(
                    LakeFault::CorruptMetadata(
                        "projection state is absent or references an unknown generation"@,
                    ),
                )
            } else {
                None
            },
        }
    }
}

fn bits(n: i64) -> (r: u64)
    ensures
        r == twos(n as int),
{
    if n < 0 {
        (n as i128 + 0x1_0000_0000_0000_0000) as u64
    } else {
        n as u64
    }
}

/// Checks that a database is the projections database of a pair, and that its current generation exists.
pub fn validate_prebootstrapped_database(
    application_id: i64,
    expected: i64,
    metadata: &Option<(String, String)>,
    generation_known: bool,
) -> (r: Result<(), EventLakeError>)
    ensures
        match database_fault(
            application_id,
            expected,
            match metadata {
                Some(m) => Some((m.0@, m.1@)),
                None => None,
            },
            generation_known,
        ) {
            Some(fault) => r matches Err(e) && e@ == fault,
            None => r is Ok,
        },
{
    if application_id != expected {
        let mut out = joined(
            "database application id 0x",
            hex_number_text(bits(application_id)).as_str(),
        );
        out.append(" is not the projections id 0x");
        out.append(hex_number_text(bits(expected)).as_str());
        return Err(EventLakeError::CorruptMetadata(out));
    }
    match metadata {
        None => Err(
            EventLakeError::CorruptMetadata("database_meta singleton is absent".to_owned()),
        ),
        Some((pair, role)) => if is_blank(pair.as_str()) {
            Err(EventLakeError::CorruptMetadata("database pair id is empty".to_owned()))
        } else if !same(role.as_str(), "projections") {
            let mut out = joined("database role is ", debug_quoted(role.as_str()).as_str());
            out.append(", expected \"projections\"");
            Err(EventLakeError::CorruptMetadata(out))
        } else if !generation_known {
            Err(
                EventLakeError::CorruptMetadata(
                    "projection state is absent or references an unknown generation".to_owned(),
                ),
            )
        } else {
            Ok(())
        },
    }
}

/// What has to be done to the tables of event files before use.
#[derive(Debug, Clone, Copy, PartialEq, Eq, Structural)]
pub enum SchemaAction {
    /// Create what is absent.
    Create,
    /// Drop the empty tables of the earlier layout and create the current ones.
    Recreate,
}

/// The columns of the table of event files, by name.
pub open spec fn canonical_columns() -> Seq<Seq<char>> {
    seq![
        "id"@,
        "partition_day"@,
        "project_id"@,
        "relative_path"@,
        "row_count"@,
        "sha256"@,
        "size_bytes"@,
    ]
}

/// The columns of the earlier layout, by name.
pub open spec fn legacy_columns() -> Seq<Seq<char>> {
    seq![
        "checksum"@,
        "id"@,
        "partition_day"@,
        "path"@,
        "project_token"@,
        "row_count"@,
        "size_bytes"@,
    ]
}

fn column_set(names: [&str; 7]) -> (r: Vec<String>)
    ensures
        r@.len() == 7,
        forall|i: int| 0 <= i < 7 ==> (#[trigger] r@[i])@ == names@[i]@,
{
    let mut out: Vec<String> = Vec::new();
    let mut i: usize = 0;
    while i < 7
        invariant
            i <= 7,
            out@.len() == i,
            forall|j: int| 0 <= j < i ==> (#[trigger] out@[j])@ == names@[j]@,
        decreases 7 - i,
    {
        out.push(names[i].to_owned());
        i += 1;
    }
    out
}

/// Whether two lists of texts are the same.
pub fn same_texts(a: &Vec<String>, b: &Vec<String>) -> (r: bool)
    ensures
        r == (views(a@) == views(b@)),
{
    if a.len() != b.len() {
        assert(views(a@).len() != views(b@).len());
        return false;
    }
    let mut i: usize = 0;
    while i < a.len()
        invariant
            i <= a.len(),
            a@.len() == b@.len(),
            forall|j: int| 0 <= j < i ==> (#[trigger] a@[j])@ == b@[j]@,
        decreases a.len() - i,
    {
        if !same(a[i].as_str(), b[i].as_str()) {
            assert(views(a@)[i as int] != views(b@)[i as int]);
            return false;
        }
        i += 1;
    }
    assert(views(a@) =~= views(b@));
    true
}

/// A list of texts as Rust's debug output writes a set of them, without the braces.
pub open spec fn debug_list(texts: Seq<Seq<char>>) -> Seq<char>
    decreases texts.len(),
{
    if texts.len() == 0 {
        Seq::empty()
    } else if texts.len() == 1 {
        debug_text(texts[0])
    } else {
        debug_list(texts.drop_last()) + ", "@ + debug_text(texts.last())
    }
}

fn debug_list_text(texts: &Vec<String>) -> (r: String)
    ensures
        r@ == debug_list(views(texts@)),
{
    let ghost all = views(texts@);
    let mut out = String::new();
    let mut i: usize = 0;
    assert(all.take(0) =~= Seq::<Seq<char>>::empty());
    while i < texts.len()
        invariant
            i <= texts.len(),
            all == views(texts@),
            out@ == debug_list(all.take(i as int)),
        decreases texts.len() - i,
    {
        assert(all.take(i + 1).drop_last() =~= all.take(i as int));
        assert(all.take(i + 1).last() == texts@[i as int]@);
        if i > 0 {
            out.append(", ");
        }
        out.append(debug_quoted(texts[i].as_str()).as_str());
        if i == 0 {
            assert(all.take(1)[0] == texts@[0]@);
            assert(out@ =~= debug_text(texts@[0]@));
        }
        i += 1;
    }
    assert(all.take(all.len() as int) =~= all);
    out
}

/// What has to be done to the tables of event files, given what is in the database: which of the two tables
/// exist, the columns of the first by name, and how many rows each holds.
pub open spec fn schema_step(
    event_files: bool,
    generation_files: bool,
    columns: Seq<Seq<char>>,
    file_count: i64,
    link_count: i64,
) -> Result<SchemaAction, LakeFault> {
    if !event_files && generation_files {
        Err(LakeFault::CorruptMetadata("generation_files exists without event_files"@))
    } else if event_files && columns == legacy_columns() {
        if file_count != 0 || link_count != 0 {
            Err(
                LakeFault::CorruptMetadata(
                    "populated legacy event-file metadata requires offline migration"@,
                ),
            )
        } else {
            Ok(SchemaAction::Recreate)
        }
    } else if event_files && columns != canonical_columns() {
        Err(
            LakeFault::CorruptMetadata(
                "unsupported event_files schema columns: {"@ + debug_list(columns) + "}"@,
            ),
        )
    } else {
        Ok(SchemaAction::Create)
    }
}

/// Decides what has to be done to the tables of event files.
pub fn install_event_file_schema(
    event_files: bool,
    generation_files: bool,
    columns: &Vec<String>,
    file_count: i64,
    link_count: i64,
) -> (r: Result<SchemaAction, EventLakeError>)
    ensures
        match schema_step(
            event_files,
            generation_files,
            views(columns@),
            file_count,
            link_count,
        ) {
            Ok(action) => r == Ok::<_, EventLakeError>(action),
            Err(fault) => r matches Err(e) && e@ == fault,
        },
{
    if !event_files && generation_files {
        return Err(
            EventLakeError::CorruptMetadata(
                "generation_files exists without event_files".to_owned(),
            ),
        );
    }
    if event_files {
        let legacy = column_set(
            [
                "checksum",
                "id",
                "partition_day",
                "path",
                "project_token",
                "row_count",
                "size_bytes",
            ],
        );
        assert(views(legacy@) =~= legacy_columns());
        if same_texts(columns, &legacy) {
            if file_count != 0 || link_count != 0 {
                return Err(
                    EventLakeError::CorruptMetadata(
                        "populated legacy event-file metadata requires offline migration".to_owned(),
                    ),
                );
            }
            return Ok(SchemaAction::Recreate);
        }
        let canonical = column_set(
            [
                "id",
                "partition_day",
                "project_id",
                "relative_path",
                "row_count",
                "sha256",
                "size_bytes",
            ],
        );
        assert(views(canonical@) =~= canonical_columns());
        if !same_texts(columns, &canonical) {
            let mut out = joined(
                "unsupported event_files schema columns: {",
                debug_list_text(columns).as_str(),
            );
            out.append("}");
            return Err(EventLakeError::CorruptMetadata(out));
        }
    }
    Ok(SchemaAction::Create)
}

} // verus!
