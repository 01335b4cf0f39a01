//! Atomic publication of one ordered prefix of the log.
//!
//! A publication makes one prefix of the log, one projection state and one manifest of event files visible
//! together; on an error it leaves all three as they were.
use vstd::prelude::*;
use vstd::string::*;

use crate::capture::event::EventModel;
use crate::digest::{uuid_text, uuid_text_of};
use crate::event_lake::versions::{current_is_visible, generation_persisted, shown, LakeModel, VersionedEventLake};
use crate::event_lake::{
    lake_message, manifest_of, prepare_publication, Candidate, CandidateModel, EventLakeError,
    GenerationId, LakeFault, PublishedFile,
};
use crate::order::views;
use crate::pipeline::log::{
    ascending, first_from, in_log_order, law_windows_and_checkpoints_split_the_log,
    law_windows_are_in_log_order, lemma_window_lengths, records_read, window_taken, ReadPlace,
};
use crate::pipeline::wal::{wal_message, CapturedBatch, WalCursor, WalError, WalFault, WalSpan};
use crate::projections::{
    apply_fault, event_applied, projection_message, ApplyOutcome, ProjectionError,
    ProjectionModel, Projections,
};
use crate::text::{decimal, decimal_text, is_blank, joined, signed_decimal, signed_text};

verus! {

// ── Results and errors ────────────────────────────────────────────────────────

/// What one committed publication did.
pub struct PublicationResult {
    pub generation_id: GenerationId,
    pub checkpoint: WalCursor,
    pub data_epoch: u64,
    pub applied_events: usize,
    pub duplicate_events: usize,
    pub published_records: usize,
    pub reclaimed_segments: Vec<u64>,
}

/// Why a publication fails.
#[derive(Debug)]
pub enum PublicationError {
    EventLake(EventLakeError),
    Projection(ProjectionError),
    Wal(WalError),
    Database(String),
    InvalidCheckpoint { segment: i64, byte_offset: i64 },
    InvalidDataEpoch(i64),
    DataEpochExhausted,
    NoSealedRecords,
    MissingProjectBinding(u128),
    ConcurrentStateChange,
    /// The publication is committed; the log is intact because it could not be reclaimed.
    ReclamationAfterCommit { generation_id: GenerationId, checkpoint: WalCursor, source: WalError },
}

/// The mathematical value of a [`PublicationError`].
pub enum PublicationFault {
    EventLake(LakeFault),
    Projection(ProjectionError),
    Wal(WalFault),
    Database(Seq<char>),
    InvalidCheckpoint(int, int),
    InvalidDataEpoch(int),
    DataEpochExhausted,
    NoSealedRecords,
    MissingProjectBinding(u128),
    ConcurrentStateChange,
    ReclamationAfterCommit(GenerationId, WalCursor, WalFault),
}

impl View for PublicationError {
    type V = PublicationFault;

    open spec fn view(&self) -> PublicationFault {
        match self {
            PublicationError::EventLake(e) => PublicationFault::EventLake(e@),
            PublicationError::Projection(e) => PublicationFault::Projection(*e),
            PublicationError::Wal(e) => PublicationFault::Wal(e@),
            PublicationError::Database(s) => PublicationFault::Database(s@),
            PublicationError::InvalidCheckpoint { segment, byte_offset } =>
                PublicationFault::InvalidCheckpoint(*segment as int, *byte_offset as int),
            PublicationError::InvalidDataEpoch(n) => PublicationFault::InvalidDataEpoch(*n as int),
            PublicationError::DataEpochExhausted => PublicationFault::DataEpochExhausted,
            PublicationError::NoSealedRecords => PublicationFault::NoSealedRecords,
            PublicationError::MissingProjectBinding(u) => PublicationFault::MissingProjectBinding(
                *u,
            ),
            PublicationError::ConcurrentStateChange => PublicationFault::ConcurrentStateChange,
            PublicationError::ReclamationAfterCommit { generation_id, checkpoint, source } =>
                PublicationFault::ReclamationAfterCommit(*generation_id, *checkpoint, source@),
        }
    }
}

/// The message of an error.
pub open spec fn publication_message(fault: PublicationFault) -> Seq<char> {
    match fault {
        PublicationFault::EventLake(e) => lake_message(e),
        PublicationFault::Projection(e) => projection_message(e),
        PublicationFault::Wal(e) => wal_message(e),
        PublicationFault::Database(s) => "projection database error: "@ + s,
        PublicationFault::InvalidCheckpoint(segment, offset) =>
            "invalid committed WAL checkpoint "@ + signed_decimal(segment) + ":"@ + signed_decimal(
            offset,
        ),
        PublicationFault::InvalidDataEpoch(n) => "invalid committed data epoch "@ + signed_decimal(
            n,
        ),
        PublicationFault::DataEpochExhausted => "data epoch exhausted"@,
        PublicationFault::NoSealedRecords => "no sealed WAL records to publish"@,
        PublicationFault::MissingProjectBinding(u) => "captured event "@ + uuid_text_of(u)
            + " has no durable authorized-project binding"@,
        PublicationFault::ConcurrentStateChange => "projection state changed during publication"@,
        PublicationFault::ReclamationAfterCommit(id, checkpoint, source) => "generation "@
            + decimal(id.0 as nat) + " committed through "@ + decimal(checkpoint.segment as nat)
            + ":"@ + decimal(checkpoint.byte_offset as nat) + " but WAL reclamation failed: "@
            + wal_message(source),
    }
}

impl PublicationError {
    /// What the error says.
    pub fn message(&self) -> (r: String)
        ensures
            r@ == publication_message(self@),
    {
        match self {
            PublicationError::EventLake(e) => e.message(),
            PublicationError::Projection(e) => e.message(),
            PublicationError::Wal(e) => e.message(),
            PublicationError::Database(s) => joined("projection database error: ", s.as_str()),
            PublicationError::InvalidCheckpoint { segment, byte_offset } => {
                let mut out = joined(
                    "invalid committed WAL checkpoint ",
                    signed_text(*segment).as_str(),
                );
                out.append(":");
                out.append(signed_text(*byte_offset).as_str());
                out
            },
            PublicationError::InvalidDataEpoch(n) => joined(
                "invalid committed data epoch ",
                signed_text(*n).as_str(),
            ),
            PublicationError::DataEpochExhausted => "data epoch exhausted".to_owned(),
            PublicationError::NoSealedRecords => "no sealed WAL records to publish".to_owned(),
            PublicationError::MissingProjectBinding(u) => {
                let mut out = joined("captured event ", uuid_text(*u).as_str());
                out.append(" has no durable authorized-project binding");
                out
            },
            PublicationError::ConcurrentStateChange =>
                "projection state changed during publication".to_owned(),
            PublicationError::ReclamationAfterCommit { generation_id, checkpoint, source } => {
                let mut out = joined("generation ", decimal_text(generation_id.get()).as_str());
                out.append(" committed through ");
                out.append(decimal_text(checkpoint.segment).as_str());
                out.append(":");
                out.append(decimal_text(checkpoint.byte_offset).as_str());
                out.append(" but WAL reclamation failed: ");
                out.append(source.message().as_str());
                out
            },
        }
    }
}

// ── The committed state ───────────────────────────────────────────────────────

/// The state that the last publication committed.
#[derive(Debug, Clone, Copy, PartialEq, Eq, Structural)]
pub struct ProjectionState {
    pub generation: i64,
    pub checkpoint: WalCursor,
    pub data_epoch: i64,
}

/// What is wrong with a stored state, if anything.
pub open spec fn state_fault(segment: int, byte_offset: int, data_epoch: int) -> Option<
    PublicationFault,
> {
    if segment <= 0 || byte_offset < 0 {
        Some(PublicationFault::InvalidCheckpoint(segment, byte_offset))
    } else if data_epoch < 0 {
        Some(PublicationFault::InvalidDataEpoch(data_epoch))
    } else {
        None
    }
}

/// Reads the committed state out of its stored numbers.
pub fn read_projection_state(generation: i64, segment: i64, byte_offset: i64, data_epoch: i64) -> (r:
    Result<ProjectionState, PublicationError>)
    ensures
        match state_fault(segment as int, byte_offset as int, data_epoch as int) {
            Some(fault) => r matches Err(e) && e@ == fault,
            None => r matches Ok(state) && state == (ProjectionState {
                generation,
                checkpoint: WalCursor {
                    segment: segment as u64,
                    byte_offset: byte_offset as u64,
                },
                data_epoch,
            }),
        },
{
    if segment <= 0 || byte_offset < 0 {
        return Err(PublicationError::InvalidCheckpoint { segment, byte_offset });
    }
    if data_epoch < 0 {
        return Err(PublicationError::InvalidDataEpoch(data_epoch));
    }
    Ok(
        ProjectionState {
            generation,
            checkpoint: WalCursor::new(segment as u64, byte_offset as u64),
            data_epoch,
        },
    )
}

/// Checks that exactly one row of state was replaced.
pub fn confirm_update(updated: usize) -> (r: Result<(), PublicationError>)
    ensures
        updated == 1 ==> r is Ok,
        updated != 1 ==> (r matches Err(e) && e@ == PublicationFault::ConcurrentStateChange),
{
    if updated != 1 {
        return Err(PublicationError::ConcurrentStateChange);
    }
    Ok(())
}

// ── Records ───────────────────────────────────────────────────────────────────

/// One record of the log: a batch, and where the log holds it.
pub struct WalRecord {
    pub batch: CapturedBatch,
    pub span: WalSpan,
}

/// One event of the log, the project that its batch binds it to, and the end of its record.
pub struct PendingEvent {
    pub event: EventModel,
    pub project: Option<Seq<char>>,
    pub end: WalCursor,
}

/// The events of a record, in order.
pub open spec fn record_events(record: WalRecord) -> Seq<PendingEvent> {
    Seq::new(
        record.batch.events@.len(),
        |i: int|
            PendingEvent {
                event: record.batch.events@[i]@,
                project: bound(record.batch, record.batch.events@[i].token@),
                end: record.span.end,
            },
    )
}

/// The project that a batch binds a token to.
pub open spec fn bound(batch: CapturedBatch, token: Seq<char>) -> Option<Seq<char>> {
    if batch.project_ids_by_token@.contains_key(token) {
        Some(batch.project_ids_by_token@[token])
    } else {
        None
    }
}

/// The events of a list of records, in the order of the log.
pub open spec fn pending_events(records: Seq<WalRecord>) -> Seq<PendingEvent>
    decreases records.len(),
{
    if records.len() == 0 {
        Seq::empty()
    } else {
        pending_events(records.drop_last()) + record_events(records.last())
    }
}

/// What is wrong with an event of the log, if anything.
pub open spec fn event_fault(pending: PendingEvent) -> Option<PublicationFault> {
    match pending.project {
        None => Some(PublicationFault::MissingProjectBinding(pending.event.uuid)),
        Some(project) => match apply_fault(project, pending.end) {
            Some(e) => Some(PublicationFault::Projection(e)),
            None => None,
        },
    }
}

/// What is wrong with the first event that cannot be applied, if there is one.
pub open spec fn first_fault(pending: Seq<PendingEvent>) -> Option<PublicationFault>
    decreases pending.len(),
{
    if pending.len() == 0 {
        None
    } else if first_fault(pending.drop_last()) is Some {
        first_fault(pending.drop_last())
    } else {
        event_fault(pending.last())
    }
}

/// The projections after events, in order.
pub open spec fn events_applied(m: ProjectionModel, pending: Seq<PendingEvent>) -> ProjectionModel
    decreases pending.len(),
{
    if pending.len() == 0 {
        m
    } else {
        event_applied(
            events_applied(m, pending.drop_last()),
            pending.last().project->Some_0,
            pending.last().event,
            pending.last().end,
        )
    }
}

/// Whether the projections hold an event already.
pub open spec fn held(m: ProjectionModel, pending: PendingEvent) -> bool {
    m.applied.contains_key((pending.project->Some_0, pending.event.uuid))
}

/// How many of the events change the projections.
pub open spec fn fresh_count(m: ProjectionModel, pending: Seq<PendingEvent>) -> nat
    decreases pending.len(),
{
    if pending.len() == 0 {
        0
    } else {
        fresh_count(m, pending.drop_last()) + if held(
            events_applied(m, pending.drop_last()),
            pending.last(),
        ) {
            0nat
        } else {
            1nat
        }
    }
}

proof fn lemma_first_fault_stays(pending: Seq<PendingEvent>, k: int)
    requires
        0 <= k <= pending.len(),
    ensures
        first_fault(pending.take(k)) is Some ==> first_fault(pending) == first_fault(
            pending.take(k),
        ),
    decreases pending.len() - k,
{
    if k < pending.len() {
        lemma_first_fault_stays(pending, k + 1);
        assert(pending.take(k + 1).drop_last() =~= pending.take(k));
    } else {
        assert(pending.take(k) =~= pending);
    }
}

pub proof fn lemma_pending_prefix(records: Seq<WalRecord>, k: int)
    requires
        0 <= k <= records.len(),
    ensures
        pending_events(records.take(k)).len() <= pending_events(records).len(),
        pending_events(records).take(pending_events(records.take(k)).len() as int)
            == pending_events(records.take(k)),
    decreases records.len() - k,
{
    let all = pending_events(records);
    let part = pending_events(records.take(k));
    if k < records.len() {
        lemma_pending_prefix(records, k + 1);
        assert(records.take(k + 1).drop_last() =~= records.take(k));
        let next = pending_events(records.take(k + 1));
        assert(next.take(part.len() as int) =~= part);
        assert(all.take(part.len() as int) =~= all.take(next.len() as int).take(
            part.len() as int,
        ));
    } else {
        assert(records.take(k) =~= records);
        assert(all.take(all.len() as int) =~= all);
    }
}

/// Checks that every event of the records can be applied.
fn check_records(records: &Vec<WalRecord>) -> (r: Result<(), PublicationError>)
    ensures
        match first_fault(pending_events(records@)) {
            Some(fault) => r matches Err(e) && e@ == fault,
            None => r is Ok,
        },
{
    let ghost all = pending_events(records@);
    let mut i: usize = 0;
    assert(records@.take(0) =~= Seq::<WalRecord>::empty());
    while i < records.len()
        invariant
            i <= records.len(),
            all == pending_events(records@),
            first_fault(pending_events(records@.take(i as int))) is None,
        decreases records.len() - i,
    {
        let ghost done = pending_events(records@.take(i as int));
        let ghost own = record_events(records@[i as int]);
        assert(records@.take(i + 1).drop_last() =~= records@.take(i as int));
        proof {
            lemma_pending_prefix(records@, i + 1);
        }
        let record = &records[i];
        let mut j: usize = 0;
        assert(done + own.take(0) =~= done);
        while j < record.batch.events.len()
            invariant
                i < records.len(),
                j <= record.batch.events.len(),
                *record == records@[i as int],
                own == record_events(*record),
                own.len() == record.batch.events@.len(),
                all == pending_events(records@),
                done + own == pending_events(records@.take(i + 1)),
                pending_events(records@.take(i + 1)).len() <= all.len(),
                all.take(pending_events(records@.take(i + 1)).len() as int) == pending_events(
                    records@.take(i + 1),
                ),
                first_fault(done + own.take(j as int)) is None,
            decreases record.batch.events.len() - j,
        {
            let ghost upto = done + own.take(j + 1);
            assert(upto.drop_last() =~= done + own.take(j as int));
            assert(upto.last() == own[j as int]);
            assert(all.take(upto.len() as int) =~= upto) by {
                assert(upto =~= (done + own).take(upto.len() as int));
                assert(all.take(upto.len() as int) =~= all.take((done + own).len() as int).take(
                    upto.len() as int,
                ));
            }
            proof {
                lemma_first_fault_stays(all, upto.len() as int);
            }
            match record.batch.project_id_for(&record.batch.events[j]) {
                Some(project) => {
                    if is_blank(project.as_str()) {
                        return Err(PublicationError::Projection(ProjectionError::InvalidProjectId));
                    }
                    if record.span.end.segment > 0x7fff_ffff_ffff_ffff
                        || record.span.end.byte_offset > 0x7fff_ffff_ffff_ffff {
                        return Err(
                            PublicationError::Projection(
                                ProjectionError::CursorOutOfRange(record.span.end),
                            ),
                        );
                    }
                },
                None => {
                    return Err(
                        PublicationError::MissingProjectBinding(record.batch.events[j].uuid),
                    );
                },
            }
            j += 1;
        }
        assert(own.take(own.len() as int) =~= own);
        i += 1;
    }
    assert(records@.take(records.len() as int) =~= records@);
    Ok(())
}

pub proof fn lemma_no_fault_before(pending: Seq<PendingEvent>, k: int)
    requires
        0 <= k < pending.len(),
        first_fault(pending) is None,
    ensures
        event_fault(pending[k]) is None,
{
    lemma_first_fault_stays(pending, k + 1);
    assert(pending.take(k + 1).drop_last() =~= pending.take(k));
    assert(pending.take(k + 1).last() == pending[k]);
}

/// Applies every event of the records, in order. Returns how many changed the projections and how many
/// were there before.
fn apply_records(projections: &mut Projections, records: &Vec<WalRecord>) -> (r: (usize, usize))
    requires
        old(projections).well_formed(),
        first_fault(pending_events(records@)) is None,
        pending_events(records@).len() <= usize::MAX,
    ensures
        final(projections).well_formed(),
        final(projections)@ == events_applied(old(projections)@, pending_events(records@)),
        r.0 == fresh_count(old(projections)@, pending_events(records@)),
        r.0 + r.1 == pending_events(records@).len(),
{
    let ghost all = pending_events(records@);
    let ghost start = projections@;
    let mut applied: usize = 0;
    let mut duplicate: usize = 0;
    let mut i: usize = 0;
    assert(records@.take(0) =~= Seq::<WalRecord>::empty());
    while i < records.len()
        invariant
            i <= records.len(),
            all == pending_events(records@),
            all.len() <= usize::MAX,
            first_fault(all) is None,
            projections.well_formed(),
            projections@ == events_applied(start, pending_events(records@.take(i as int))),
            applied == fresh_count(start, pending_events(records@.take(i as int))),
            applied + duplicate == pending_events(records@.take(i as int)).len(),
        decreases records.len() - i,
    {
        let ghost done = pending_events(records@.take(i as int));
        let ghost own = record_events(records@[i as int]);
        assert(records@.take(i + 1).drop_last() =~= records@.take(i as int));
        proof {
            lemma_pending_prefix(records@, i + 1);
        }
        let record = &records[i];
        let mut j: usize = 0;
        assert(done + own.take(0) =~= done);
        while j < record.batch.events.len()
            invariant
                i < records.len(),
                j <= record.batch.events.len(),
                *record == records@[i as int],
                own == record_events(*record),
                own.len() == record.batch.events@.len(),
                all == pending_events(records@),
                all.len() <= usize::MAX,
                first_fault(all) is None,
                done + own == pending_events(records@.take(i + 1)),
                pending_events(records@.take(i + 1)).len() <= all.len(),
                all.take(pending_events(records@.take(i + 1)).len() as int) == pending_events(
                    records@.take(i + 1),
                ),
                projections.well_formed(),
                projections@ == events_applied(start, done + own.take(j as int)),
                applied == fresh_count(start, done + own.take(j as int)),
                applied + duplicate == done.len() + j,
            decreases record.batch.events.len() - j,
        {
            let ghost upto = done + own.take(j + 1);
            assert(upto.drop_last() =~= done + own.take(j as int));
            assert(upto.last() == own[j as int]);
            assert(all[done.len() + j] == own[j as int]) by {
                assert((done + own)[done.len() + j] == own[j as int]);
            }
            proof {
                lemma_no_fault_before(all, done.len() + j);
            }
            let outcome = match record.batch.project_id_for(&record.batch.events[j]) {
                Some(project) => projections.apply_captured_event(
                    project.as_str(),
                    &record.batch.events[j],
                    record.span.end,
                ),
                None => Ok(ApplyOutcome::Applied),
            };
            match outcome {
                Ok(ApplyOutcome::Applied) => {
                    applied = applied + 1;
                },
                Ok(ApplyOutcome::Duplicate) => {
                    duplicate = duplicate + 1;
                },
                Err(_) => {},
            }
            j += 1;
        }
        assert(own.take(own.len() as int) =~= own);
        i += 1;
    }
    assert(records@.take(records.len() as int) =~= records@);
    (applied, duplicate)
}

// ── Commit ────────────────────────────────────────────────────────────────────

/// The single state that joins ordered projections, the manifest of event files, the checkpoint in the log
/// and the data epoch.
pub struct PublicationCoordinator {
    pub lake: VersionedEventLake,
    pub projections: Projections,
    pub segment: i64,
    pub byte_offset: i64,
}

/// The mathematical value of a [`PublicationCoordinator`].
pub struct PublicationModel {
    pub lake: LakeModel,
    pub projections: ProjectionModel,
    pub segment: int,
    pub byte_offset: int,
}

impl View for PublicationCoordinator {
    type V = PublicationModel;

    open spec fn view(&self) -> PublicationModel {
        PublicationModel {
            lake: self.lake@,
            projections: self.projections@,
            segment: self.segment as int,
            byte_offset: self.byte_offset as int,
        }
    }
}

/// What is wrong with the place that a publication ends at, if anything.
pub open spec fn checkpoint_fault(checkpoint: WalCursor, committed_offset: int) -> Option<
    PublicationFault,
> {
    if checkpoint.segment > i64::MAX {
        Some(PublicationFault::InvalidCheckpoint(-1, committed_offset))
    } else if checkpoint.byte_offset > i64::MAX {
        Some(PublicationFault::InvalidCheckpoint(checkpoint.segment as int, -1))
    } else if checkpoint.segment == 0 {
        Some(PublicationFault::InvalidCheckpoint(0, checkpoint.byte_offset as int))
    } else {
        None
    }
}

/// The state after a publication of records that end at a checkpoint, with a complete manifest.
pub open spec fn committed(
    m: PublicationModel,
    records: Seq<WalRecord>,
    checkpoint: WalCursor,
    candidates: Seq<CandidateModel>,
) -> Result<PublicationModel, PublicationFault> {
    match manifest_of(candidates) {
        Err(fault) => Err(PublicationFault::EventLake(fault)),
        Ok(files) => match state_fault(m.segment, m.byte_offset, m.lake.data_epoch) {
            Some(fault) => Err(fault),
            None => if records.len() == 0 {
                Err(PublicationFault::NoSealedRecords)
            } else {
                match first_fault(pending_events(records)) {
                    Some(fault) => Err(fault),
                    None => match generation_persisted(m.lake, m.lake.current, files) {
                        Err(fault) => Err(PublicationFault::EventLake(fault)),
                        Ok(lake) => if m.lake.data_epoch >= i64::MAX {
                            Err(PublicationFault::DataEpochExhausted)
                        } else {
                            match checkpoint_fault(checkpoint, m.byte_offset) {
                                Some(fault) => Err(fault),
                                None => Ok(
                                    PublicationModel {
                                        lake: LakeModel {
                                            current: m.lake.current + 1,
                                            data_epoch: m.lake.data_epoch + 1,
                                            visible_id: GenerationId((m.lake.current + 1) as u64),
                                            visible: shown(files),
                                            ..lake
                                        },
                                        projections: events_applied(
                                            m.projections,
                                            pending_events(records),
                                        ),
                                        segment: checkpoint.segment as int,
                                        byte_offset: checkpoint.byte_offset as int,
                                    },
                                ),
                            }
                        },
                    },
                }
            },
        },
    }
}

/// What a commit did, before the log is reclaimed.
#[derive(Debug, Clone, Copy, PartialEq, Eq, Structural)]
pub struct Committed {
    pub generation_id: GenerationId,
    pub checkpoint: WalCursor,
    pub data_epoch: u64,
    pub applied_events: usize,
    pub duplicate_events: usize,
    pub published_records: usize,
}

impl PublicationCoordinator {
    /// The committed checkpoint, up to which the log may be cleaned.
    pub fn checkpoint(&self) -> (r: Result<WalCursor, PublicationError>)
        ensures
            match state_fault(self@.segment, self@.byte_offset, self@.lake.data_epoch) {
                Some(fault) => r matches Err(e) && e@ == fault,
                None => r matches Ok(c) && c.segment == self@.segment && c.byte_offset
                    == self@.byte_offset,
            },
    {
        match read_projection_state(
            self.lake.current,
            self.segment,
            self.byte_offset,
            self.lake.data_epoch,
        ) {
            Ok(state) => Ok(state.checkpoint),
            Err(e) => Err(e),
        }
    }

    /// The complete manifest that new queries see.
    pub fn visible_files(&self) -> (r: Vec<PublishedFile>)
        ensures
            views(r@) == self@.lake.visible,
    {
        self.lake.visible_files()
    }

    /// Publishes whole records and replaces the complete visible manifest. On an error nothing changes.
    pub fn commit(
        &mut self,
        records: &Vec<WalRecord>,
        checkpoint: WalCursor,
        candidates: Vec<Candidate>,
    ) -> (r: Result<Committed, PublicationError>)
        requires
            old(self).projections.well_formed(),
            old(self).lake.well_formed(),
            pending_events(records@).len() <= usize::MAX,
        ensures
            final(self).projections.well_formed(),
            final(self).lake.well_formed(),
            r matches Ok(c) ==> c.generation_id.0 == old(self)@.lake.visible_id.0 + 1,
            match committed(old(self)@, records@, checkpoint, views(candidates@)) {
                Err(fault) => r matches Err(e) && e@ == fault && final(self)@ == old(self)@,
                Ok(next) => r matches Ok(c) && final(self)@ == next && c.generation_id
                    == next.lake.visible_id && c.checkpoint == checkpoint && c.data_epoch
                    == next.lake.data_epoch && c.applied_events == fresh_count(
                    old(self)@.projections,
                    pending_events(records@),
                ) && c.applied_events + c.duplicate_events == pending_events(records@).len()
                    && c.published_records == records@.len(),
            },
    {
        let prepared = match prepare_publication(candidates) {
            Ok(files) => files,
            Err(e) => {
                return Err(PublicationError::EventLake(e));
            },
        };
        let state = match read_projection_state(
            self.lake.current,
            self.segment,
            self.byte_offset,
            self.lake.data_epoch,
        ) {
            Ok(state) => state,
            Err(e) => {
                return Err(e);
            },
        };
        if records.len() == 0 {
            return Err(PublicationError::NoSealedRecords);
        }
        match check_records(records) {
            Ok(()) => {},
            Err(e) => {
                return Err(e);
            },
        }
        let known: usize = self.lake.stored.len();
        let generation_id = match self.lake.persist_prepared_generation(
            state.generation,
            &prepared,
        ) {
            Ok(id) => id,
            Err(e) => {
                return Err(PublicationError::EventLake(e));
            },
        };
        let failure = if state.data_epoch == i64::MAX {
            Some(PublicationError::DataEpochExhausted)
        } else if checkpoint.segment > 0x7fff_ffff_ffff_ffff {
            Some(
                PublicationError::InvalidCheckpoint { segment: -1, byte_offset: self.byte_offset },
            )
        } else if checkpoint.byte_offset > 0x7fff_ffff_ffff_ffff {
            Some(
                PublicationError::InvalidCheckpoint {
                    segment: checkpoint.segment as i64,
                    byte_offset: -1,
                },
            )
        } else if checkpoint.segment == 0 {
            Some(
                PublicationError::InvalidCheckpoint {
                    segment: 0,
                    byte_offset: checkpoint.byte_offset as i64,
                },
            )
        } else {
            None
        };
        if let Some(e) = failure {
            self.lake.stored.truncate(known);
            self.lake.manifests.pop();
            assert(self.lake.stored@ =~= old(self).lake.stored@);
            assert(self.lake.manifests@ =~= old(self).lake.manifests@);
            return Err(e);
        }
        let (applied_events, duplicate_events) = apply_records(&mut self.projections, records);
        self.segment = checkpoint.segment as i64;
        self.byte_offset = checkpoint.byte_offset as i64;
        self.lake.current = self.lake.current + 1;
        self.lake.data_epoch = self.lake.data_epoch + 1;
        self.lake.activate_committed_generation(generation_id, &prepared);
        Ok(
            Committed {
                generation_id,
                checkpoint,
                data_epoch: self.lake.data_epoch as u64,
                applied_events,
                duplicate_events,
                published_records: records.len(),
            },
        )
    }
}

/// Completes a publication with what reclaiming the log gave.
pub fn finish_publication(committed: Committed, reclaimed: Result<Vec<u64>, WalError>) -> (r: Result<
    PublicationResult,
    PublicationError,
>)
    ensures
        match reclaimed {
            Ok(segments) => r matches Ok(p) && p == (PublicationResult {
                generation_id: committed.generation_id,
                checkpoint: committed.checkpoint,
                data_epoch: committed.data_epoch,
                applied_events: committed.applied_events,
                duplicate_events: committed.duplicate_events,
                published_records: committed.published_records,
                reclaimed_segments: segments,
            }),
            Err(source) => r matches Err(e) && e@ == PublicationFault::ReclamationAfterCommit(
                committed.generation_id,
                committed.checkpoint,
                source@,
            ),
        },
{
    match reclaimed {
        Ok(reclaimed_segments) => Ok(
            PublicationResult {
                generation_id: committed.generation_id,
                checkpoint: committed.checkpoint,
                data_epoch: committed.data_epoch,
                applied_events: committed.applied_events,
                duplicate_events: committed.duplicate_events,
                published_records: committed.published_records,
                reclaimed_segments,
            },
        ),
        Err(source) => Err(
            PublicationError::ReclamationAfterCommit {
                generation_id: committed.generation_id,
                checkpoint: committed.checkpoint,
                source,
            },
        ),
    }
}

pub proof fn lemma_applied_grows(m: ProjectionModel, pending: Seq<PendingEvent>)
    ensures
        forall|key: (Seq<char>, u128)|
            m.applied.contains_key(key) ==> #[trigger] events_applied(
                m,
                pending,
            ).applied.contains_key(key),
        forall|i: int|
            0 <= i < pending.len() ==> held(events_applied(m, pending), #[trigger] pending[i]),
    decreases pending.len(),
{
    if pending.len() > 0 {
        let rest = pending.drop_last();
        lemma_applied_grows(m, rest);
        assert forall|i: int| 0 <= i < pending.len() implies held(
            events_applied(m, pending),
            #[trigger] pending[i],
        ) by {
            if i < rest.len() {
                assert(held(events_applied(m, rest), rest[i]));
            }
        }
    }
}

proof fn lemma_held_events_change_nothing(m: ProjectionModel, pending: Seq<PendingEvent>)
    requires
        forall|i: int| 0 <= i < pending.len() ==> held(m, #[trigger] pending[i]),
    ensures
        events_applied(m, pending) == m,
        fresh_count(m, pending) == 0,
    decreases pending.len(),
{
    if pending.len() > 0 {
        let rest = pending.drop_last();
        assert forall|i: int| 0 <= i < rest.len() implies held(m, #[trigger] rest[i]) by {
            assert(held(m, pending[i]));
        }
        lemma_held_events_change_nothing(m, rest);
        assert(held(m, pending[pending.len() - 1]));
    }
}

/// Replaying records that were published before changes no projection and counts every event as a
/// duplicate.
pub proof fn law_replay_changes_nothing(m: ProjectionModel, records: Seq<WalRecord>)
    ensures
        events_applied(events_applied(m, pending_events(records)), pending_events(records))
            == events_applied(m, pending_events(records)),
        fresh_count(events_applied(m, pending_events(records)), pending_events(records)) == 0,
{
    let pending = pending_events(records);
    lemma_applied_grows(m, pending);
    lemma_held_events_change_nothing(events_applied(m, pending), pending);
}

/// A publication moves the checkpoint to the end of its records, the generation by one and the epoch by
/// one, all together.
pub proof fn law_publication_is_atomic(
    m: PublicationModel,
    records: Seq<WalRecord>,
    checkpoint: WalCursor,
    candidates: Seq<CandidateModel>,
)
    ensures
        committed(m, records, checkpoint, candidates) matches Ok(next) ==> {
            &&& next.segment == checkpoint.segment
            &&& next.byte_offset == checkpoint.byte_offset
            &&& next.lake.current == m.lake.current + 1
            &&& next.lake.data_epoch == m.lake.data_epoch + 1
            &&& current_is_visible(next.lake)
            &&& current_is_visible(m.lake) ==> next.lake.visible_id.0 == m.lake.visible_id.0 + 1
            &&& manifest_of(candidates) matches Ok(files) && next.lake.visible == shown(files)
            &&& next.projections == events_applied(m.projections, pending_events(records))
        },
{
}

/// What was committed can be read again: a publication leaves a checkpoint and an epoch that are sound.
pub proof fn law_a_committed_state_is_sound(
    m: PublicationModel,
    records: Seq<WalRecord>,
    checkpoint: WalCursor,
    candidates: Seq<CandidateModel>,
)
    ensures
        committed(m, records, checkpoint, candidates) matches Ok(next) ==> state_fault(
            next.segment,
            next.byte_offset,
            next.lake.data_epoch,
        ) is None,
{
}

/// The spans of records.
pub open spec fn record_spans(records: Seq<WalRecord>) -> Seq<WalSpan> {
    records.map_values(|record: WalRecord| record.span)
}

/// A publication takes the next window of the log: where the records are those of a window that was opened at
/// the committed checkpoint, they lie in order from there to the new checkpoint, and a reader that is opened at
/// the new checkpoint gives out exactly what is behind them, so that no record is published twice and none is
/// left out. The segments are the sealed ones from the committed checkpoint on.
pub proof fn law_a_publication_takes_the_next_window(
    m: PublicationModel,
    records: Seq<WalRecord>,
    candidates: Seq<CandidateModel>,
    segments: Seq<(u64, Seq<u8>)>,
    terminal: Option<WalCursor>,
    max: int,
    max_bytes: int,
    steps: nat,
)
    requires
        0 <= max_bytes,
        ascending(segments),
        segments.len() > 0 ==> m.segment <= segments[0].0,
        forall|i: int| 0 <= i < segments.len() ==> (#[trigger] segments[i]).1.len() <= u64::MAX,
        terminal matches Some(t) ==> forall|i: int|
            0 <= i < segments.len() ==> (#[trigger] segments[i]).0 < t.segment,
    ensures
        ({
            let from = WalCursor {
                segment: m.segment as u64,
                byte_offset: m.byte_offset as u64,
            };
            let start = ReadPlace { index: 0, next: from };
            let taken = window_taken(segments, start, terminal, max, from, 0, max_bytes);
            let to = taken.checkpoint;
            record_spans(records) == taken.spans ==> (committed(
                m,
                records,
                to,
                candidates,
            ) matches Ok(next) ==> {
                &&& next.segment == to.segment
                &&& next.byte_offset == to.byte_offset
                &&& in_log_order(from, record_spans(records), to)
                &&& taken.payloads.len() == records.len()
                &&& taken.payloads + records_read(
                    segments.skip(first_from(segments, to.segment)),
                    ReadPlace { index: 0, next: to },
                    terminal,
                    max,
                    steps,
                ) == records_read(segments, start, terminal, max, steps + records.len())
            })
        }),
{
    let from = WalCursor { segment: m.segment as u64, byte_offset: m.byte_offset as u64 };
    let start = ReadPlace { index: 0, next: from };
    let taken = window_taken(segments, start, terminal, max, from, 0, max_bytes);
    if record_spans(records) == taken.spans && committed(
        m,
        records,
        taken.checkpoint,
        candidates,
    ) is Ok {
        assert(record_spans(records).len() == records.len());
        lemma_window_lengths(segments, start, terminal, max, from, 0, max_bytes);
        law_windows_are_in_log_order(segments, start, terminal, max, 0, max_bytes);
        law_windows_and_checkpoints_split_the_log(
            segments,
            start,
            terminal,
            max,
            from,
            0,
            max_bytes,
            steps,
        );
    }
}

} // verus!
