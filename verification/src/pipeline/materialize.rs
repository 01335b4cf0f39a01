//! The event files of a publication: which events stand in which file, what the files are called, and the
//! manifest that they end up in.
use vstd::prelude::*;
use vstd::string::*;

use crate::capture::event::{alike_events, CapturedEvent, EventModel};
use crate::digest::{sha256, sha256_of};
use crate::event_lake::{
    day_text, format_day, EventLakeError, FileModel, FileScope, LakeFault, PublishedFile,
};
use crate::order::{insert_ranked, ranked, views, Ranked};
use crate::pipeline::layout::{padded, padded_text};
use crate::pipeline::publication::{
    pending_events, record_events, PendingEvent, PublicationError, PublicationFault, WalRecord,
};
use crate::pipeline::wal::WalCursor;
use crate::text::{bytes_equal, chars_of, code_point, joined, same, text_at_most, text_le};

verus! {

// ── Days ──────────────────────────────────────────────────────────────────────

/// Instants up to this distance from the epoch have a day of the calendar.
pub const MAX_DATED: i128 = 0x200_0000_0000_0000_0000;

/// Nanoseconds in a day.
pub const DAY_NANOS: i128 = 86_400_000_000_000;

/// The number of the day of the epoch.
pub const EPOCH_DAY: i32 = 719_163;

/// Whether an instant has a day of the calendar.
pub open spec fn dated(t: int) -> bool {
    -MAX_DATED <= t <= MAX_DATED
}

/// The day of an instant.
pub open spec fn day_of(t: int) -> int {
    t / DAY_NANOS as int + EPOCH_DAY
}

/// The day of an instant.
pub fn event_day(t: i128) -> (r: i32)
    requires
        dated(t as int),
    ensures
        r == day_of(t as int),
{
    // A shift by a whole number of days makes the dividend positive.
    let shifted: i128 = t + 200_000_000 * 86_400_000_000_000;
    let days: i128 = shifted / 86_400_000_000_000;
    assert(shifted as int / 86_400_000_000_000 == t as int / 86_400_000_000_000 + 200_000_000);
    (days - 200_000_000) as i32 + EPOCH_DAY
}

// ── Groups ────────────────────────────────────────────────────────────────────

/// The events of one project and one day, in the order of the log.
pub struct EventGroup {
    pub project_id: String,
    pub event_date: i32,
    pub events: Vec<CapturedEvent>,
}

/// The mathematical value of an [`EventGroup`].
#[verifier::ext_equal]
pub struct GroupModel {
    pub project: Seq<char>,
    pub day: int,
    pub events: Seq<EventModel>,
}

impl View for EventGroup {
    type V = GroupModel;

    open spec fn view(&self) -> GroupModel {
        GroupModel {
            project: self.project_id@,
            day: self.event_date as int,
            events: views(self.events@),
        }
    }
}

/// Whether a project and a day come before those of a group.
pub open spec fn key_before(project: Seq<char>, day: int, group: GroupModel) -> bool {
    project != group.project && text_le(project, group.project) || project == group.project && day
        < group.day
}

/// The groups with one more event: in the group of its project and day, which is made where its key falls.
pub open spec fn grouped(
    groups: Seq<GroupModel>,
    project: Seq<char>,
    day: int,
    event: EventModel,
) -> Seq<GroupModel>
    decreases groups.len(),
{
    if groups.len() == 0 {
        seq![GroupModel { project, day, events: seq![event] }]
    } else {
        let last = groups.last();
        if last.project == project && last.day == day {
            groups.drop_last().push(GroupModel { events: last.events.push(event), ..last })
        } else if key_before(project, day, last) {
            grouped(groups.drop_last(), project, day, event).push(last)
        } else {
            groups.push(GroupModel { project, day, events: seq![event] })
        }
    }
}

/// The groups of events of the log, or the first event that has no project.
pub open spec fn groups_of(pending: Seq<PendingEvent>) -> Result<Seq<GroupModel>, u128>
    decreases pending.len(),
{
    if pending.len() == 0 {
        Ok(Seq::empty())
    } else {
        match groups_of(pending.drop_last()) {
            Err(uuid) => Err(uuid),
            Ok(groups) => match pending.last().project {
                None => Err(pending.last().event.uuid),
                Some(project) => Ok(
                    grouped(
                        groups,
                        project,
                        day_of(pending.last().event.timestamp),
                        pending.last().event,
                    ),
                ),
            },
        }
    }
}

/// How many events groups hold.
pub open spec fn total(groups: Seq<GroupModel>) -> nat
    decreases groups.len(),
{
    if groups.len() == 0 {
        0
    } else {
        total(groups.drop_last()) + groups.last().events.len()
    }
}

/// Whether every event of every group is of the group's day.
pub open spec fn own_days(groups: Seq<GroupModel>) -> bool {
    forall|i: int, j: int|
        0 <= i < groups.len() && 0 <= j < groups[i].events.len() ==> day_of(
            (#[trigger] groups[i].events[j]).timestamp,
        ) == groups[i].day
}

proof fn lemma_grouped(groups: Seq<GroupModel>, project: Seq<char>, day: int, event: EventModel)
    requires
        own_days(groups),
        day_of(event.timestamp) == day,
    ensures
        own_days(grouped(groups, project, day, event)),
        total(grouped(groups, project, day, event)) == total(groups) + 1,
    decreases groups.len(),
{
    let after = grouped(groups, project, day, event);
    let fresh = GroupModel { project, day, events: seq![event] };
    if groups.len() == 0 {
        assert(after.drop_last() =~= Seq::<GroupModel>::empty());
        assert(total(after.drop_last()) == 0);
    } else {
        let last = groups.last();
        let rest = groups.drop_last();
        assert(own_days(rest)) by {
            assert forall|i: int, j: int|
                0 <= i < rest.len() && 0 <= j < rest[i].events.len() implies day_of(
                (#[trigger] rest[i].events[j]).timestamp,
            ) == rest[i].day by {
                assert(groups[i].events[j] == rest[i].events[j]);
            }
        }
        if last.project == project && last.day == day {
            let changed = GroupModel { events: last.events.push(event), ..last };
            assert(after.drop_last() =~= rest);
            assert forall|i: int, j: int|
                0 <= i < after.len() && 0 <= j < after[i].events.len() implies day_of(
                (#[trigger] after[i].events[j]).timestamp,
            ) == after[i].day by {
                if i < rest.len() {
                    assert(groups[i].events[j] == after[i].events[j]);
                } else if j < last.events.len() {
                    assert(groups[i].events[j] == after[i].events[j]);
                }
            }
        } else if key_before(project, day, last) {
            lemma_grouped(rest, project, day, event);
            let inner = grouped(rest, project, day, event);
            assert(after.drop_last() =~= inner);
            assert forall|i: int, j: int|
                0 <= i < after.len() && 0 <= j < after[i].events.len() implies day_of(
                (#[trigger] after[i].events[j]).timestamp,
            ) == after[i].day by {
                if i < inner.len() {
                    assert(inner[i].events[j] == after[i].events[j]);
                } else {
                    assert(groups[groups.len() - 1].events[j] == after[i].events[j]);
                }
            }
        } else {
            assert(after.drop_last() =~= groups);
            assert forall|i: int, j: int|
                0 <= i < after.len() && 0 <= j < after[i].events.len() implies day_of(
                (#[trigger] after[i].events[j]).timestamp,
            ) == after[i].day by {
                if i < groups.len() {
                    assert(groups[i].events[j] == after[i].events[j]);
                }
            }
        }
    }
}

/// Grouping loses no event and adds none, and every event stands in a group of its own day.
pub proof fn law_groups_keep_every_event(pending: Seq<PendingEvent>)
    ensures
        groups_of(pending) matches Ok(groups) ==> total(groups) == pending.len() && own_days(
            groups,
        ),
    decreases pending.len(),
{
    if pending.len() > 0 {
        law_groups_keep_every_event(pending.drop_last());
        if let Ok(groups) = groups_of(pending.drop_last()) {
            if let Some(project) = pending.last().project {
                lemma_grouped(
                    groups,
                    project,
                    day_of(pending.last().event.timestamp),
                    pending.last().event,
                );
            }
        }
    }
}

fn add_to_group(
    groups: &mut Vec<EventGroup>,
    project: &str,
    day: i32,
    event: &CapturedEvent,
)
    ensures
        views(final(groups)@) == grouped(views(old(groups)@), project@, day as int, event@),
{
    let ghost before = views(groups@);
    let mut at: usize = groups.len();
    assert(before.take(before.len() as int) =~= before);
    assert(before.skip(before.len() as int) =~= Seq::<GroupModel>::empty());
    assert(grouped(before, project@, day as int, event@) =~= grouped(
        before.take(at as int),
        project@,
        day as int,
        event@,
    ) + before.skip(at as int));
    while at > 0 && !(same(groups[at - 1].project_id.as_str(), project) && groups[at
        - 1].event_date == day) && is_key_before(project, day, &groups[at - 1])
        invariant
            at <= groups.len(),
            groups@ == old(groups)@,
            before == views(groups@),
            grouped(before, project@, day as int, event@) == grouped(
                before.take(at as int),
                project@,
                day as int,
                event@,
            ) + before.skip(at as int),
        decreases at,
    {
        assert(before.take(at as int).drop_last() =~= before.take(at - 1));
        assert(before.take(at as int).last() == groups@[at - 1]@);
        assert(before.skip(at - 1) =~= seq![before[at - 1]] + before.skip(at as int));
        assert(grouped(before.take(at - 1), project@, day as int, event@).push(before[at - 1])
            + before.skip(at as int) =~= grouped(
            before.take(at - 1),
            project@,
            day as int,
            event@,
        ) + before.skip(at - 1));
        at -= 1;
    }
    if at > 0 && same(groups[at - 1].project_id.as_str(), project) && groups[at - 1].event_date
        == day {
        assert(before.take(at as int).last() == groups@[at - 1]@);
        let copy = event.copy();
        let mut group = groups.remove(at - 1);
        let ghost old_events = views(group.events@);
        group.events.push(copy);
        assert(views(group.events@) =~= old_events.push(event@));
        let ghost changed = group@;
        groups.insert(at - 1, group);
        assert(views(groups@) =~= before.take(at as int).drop_last().push(changed)
            + before.skip(at as int));
    } else {
        let mut events: Vec<CapturedEvent> = Vec::new();
        events.push(event.copy());
        assert(views(events@) =~= seq![event@]);
        let group = EventGroup { project_id: project.to_owned(), event_date: day, events };
        let ghost fresh = group@;
        if at > 0 {
            assert(before.take(at as int).last() == groups@[at - 1]@);
        }
        groups.insert(at, group);
        assert(views(groups@) =~= before.take(at as int).push(fresh) + before.skip(at as int));
        assert(before.take(0) =~= Seq::<GroupModel>::empty());
        assert(Seq::<GroupModel>::empty().push(fresh) =~= seq![fresh]);
    }
}

fn is_key_before(project: &str, day: i32, group: &EventGroup) -> (r: bool)
    ensures
        r == key_before(project@, day as int, group@),
{
    let equal = same(project, group.project_id.as_str());
    !equal && text_at_most(project, group.project_id.as_str()) || equal && day < group.event_date
}

proof fn lemma_groups_error_stays(pending: Seq<PendingEvent>, k: int)
    requires
        0 <= k <= pending.len(),
    ensures
        groups_of(pending.take(k)) matches Err(uuid) ==> groups_of(pending) == Err::<
            Seq<GroupModel>,
            _,
        >(uuid),
    decreases pending.len() - k,
{
    if k < pending.len() {
        lemma_groups_error_stays(pending, k + 1);
        assert(pending.take(k + 1).drop_last() =~= pending.take(k));
    } else {
        assert(pending.take(k) =~= pending);
    }
}

/// Whether every event of records has a day of the calendar.
pub open spec fn records_dated(records: Seq<WalRecord>) -> bool {
    forall|i: int, j: int|
        0 <= i < records.len() && 0 <= j < records[i].batch.events@.len() ==> dated(
            (#[trigger] records[i].batch.events@[j]).timestamp as int,
        )
}

/// Decides [`records_dated`].
pub fn all_dated(records: &Vec<WalRecord>) -> (r: bool)
    ensures
        r == records_dated(records@),
{
    let mut i: usize = 0;
    while i < records.len()
        invariant
            i <= records.len(),
            records_dated(records@.take(i as int)),
        decreases records.len() - i,
    {
        let events = &records[i].batch.events;
        let mut j: usize = 0;
        while j < events.len()
            invariant
                i < records.len(),
                j <= events.len(),
                events@ == records@[i as int].batch.events@,
                forall|k: int| 0 <= k < j ==> dated((#[trigger] events@[k]).timestamp as int),
            decreases events.len() - j,
        {
            let t: i128 = events[j].timestamp;
            if t < -MAX_DATED || t > MAX_DATED {
                assert(!dated(records@[i as int].batch.events@[j as int].timestamp as int));
                return false;
            }
            j += 1;
        }
        assert forall|a: int, b: int|
            0 <= a < i + 1 && 0 <= b < records@.take(i + 1)[a].batch.events@.len() implies dated(
            (#[trigger] records@.take(i + 1)[a].batch.events@[b]).timestamp as int,
        ) by {
            if a < i {
                assert(dated(records@.take(i as int)[a].batch.events@[b].timestamp as int));
            } else {
                assert(dated(events@[b].timestamp as int));
            }
        }
        i += 1;
    }
    assert(records@.take(records@.len() as int) =~= records@);
    true
}

/// Groups the events of records by project and day.
pub fn group_events(records: &Vec<WalRecord>) -> (r: Result<Vec<EventGroup>, PublicationError>)
    requires
        records_dated(records@),
    ensures
        match groups_of(pending_events(records@)) {
            Ok(groups) => r matches Ok(g) && views(g@) == groups,
            Err(uuid) => r matches Err(e) && e@ == PublicationFault::MissingProjectBinding(uuid),
        },
{
    let ghost all = pending_events(records@);
    let mut groups: Vec<EventGroup> = Vec::new();
    let mut i: usize = 0;
    assert(records@.take(0) =~= Seq::<WalRecord>::empty());
    assert(views(groups@) =~= Seq::<GroupModel>::empty());
    while i < records.len()
        invariant
            i <= records.len(),
            all == pending_events(records@),
            groups_of(pending_events(records@.take(i as int))) == Ok::<_, u128>(views(groups@)),
            forall|i: int, j: int|
                0 <= i < records@.len() && 0 <= j < records@[i].batch.events@.len() ==> dated(
                    (#[trigger] records@[i].batch.events@[j]).timestamp as int,
                ),
        decreases records.len() - i,
    {
        let ghost done = pending_events(records@.take(i as int));
        let ghost own = record_events(records@[i as int]);
        assert(records@.take(i + 1).drop_last() =~= records@.take(i as int));
        proof {
            crate::pipeline::publication::lemma_pending_prefix(records@, i + 1);
        }
        let record = &records[i];
        let mut j: usize = 0;
        assert(done + own.take(0) =~= done);
        while j < record.batch.events.len()
            invariant
                i < records.len(),
                j <= record.batch.events.len(),
                *record == records@[i as int],
                own == record_events(*record),
                own.len() == record.batch.events@.len(),
                all == pending_events(records@),
                done + own == pending_events(records@.take(i + 1)),
                pending_events(records@.take(i + 1)).len() <= all.len(),
                all.take(pending_events(records@.take(i + 1)).len() as int) == pending_events(
                    records@.take(i + 1),
                ),
                groups_of(done + own.take(j as int)) == Ok::<_, u128>(views(groups@)),
                forall|i: int, j: int|
                    0 <= i < records@.len() && 0 <= j < records@[i].batch.events@.len() ==> dated(
                        (#[trigger] records@[i].batch.events@[j]).timestamp as int,
                    ),
            decreases record.batch.events.len() - j,
        {
            let ghost upto = done + own.take(j + 1);
            assert(upto.drop_last() =~= done + own.take(j as int));
            assert(upto.last() == own[j as int]);
            assert(all.take(upto.len() as int) =~= upto) by {
                assert(upto =~= (done + own).take(upto.len() as int));
                assert(all.take(upto.len() as int) =~= all.take((done + own).len() as int).take(
                    upto.len() as int,
                ));
            }
            proof {
                lemma_groups_error_stays(all, upto.len() as int);
            }
            let event = &record.batch.events[j];
            assert(dated(records@[i as int].batch.events@[j as int].timestamp as int));
            match record.batch.project_id_for(event) {
                Some(project) => {
                    let day: i32 = event_day(event.timestamp);
                    add_to_group(&mut groups, project.as_str(), day, event);
                },
                None => {
                    return Err(PublicationError::MissingProjectBinding(event.uuid));
                },
            }
            j += 1;
        }
        assert(own.take(own.len() as int) =~= own);
        i += 1;
    }
    assert(records@.take(records.len() as int) =~= records@);
    Ok(groups)
}

// ── File names ────────────────────────────────────────────────────────────────

/// The name of the file of events between two places of the log.
pub open spec fn file_name_of(first: WalCursor, last: WalCursor) -> Seq<char> {
    "wal-"@ + padded(first.segment as nat, 20) + "-"@ + padded(first.byte_offset as nat, 20)
        + "-to-"@ + padded(last.segment as nat, 20) + "-"@ + padded(last.byte_offset as nat, 20)
        + ".parquet"@
}

/// Names the file of events between two places of the log.
pub fn file_name(first: WalCursor, last: WalCursor) -> (r: String)
    ensures
        r@ == file_name_of(first, last),
{
    let mut out = "wal-".to_owned();
    out.append(padded_text(first.segment, 20).as_str());
    out.append("-");
    out.append(padded_text(first.byte_offset, 20).as_str());
    out.append("-to-");
    out.append(padded_text(last.segment, 20).as_str());
    out.append("-");
    out.append(padded_text(last.byte_offset, 20).as_str());
    out.append(".parquet");
    out
}

/// The first and the last place of a list of records.
pub fn extent(records: &Vec<WalRecord>) -> (r: Result<(WalCursor, WalCursor), PublicationError>)
    ensures
        records@.len() == 0 ==> (r matches Err(e) && e@ == PublicationFault::NoSealedRecords),
        records@.len() > 0 ==> (r matches Ok(p) && p.0 == records@[0].span.start && p.1
            == records@.last().span.end),
{
    if records.len() == 0 {
        return Err(PublicationError::NoSealedRecords);
    }
    Ok((records[0].span.start, records[records.len() - 1].span.end))
}

/// The directories of a group below the event root, given the directory name of its project.
pub fn group_directory(project_directory: &str, event_date: i32) -> (r: String)
    ensures
        r@ == "project_id="@ + project_directory@ + "/date="@ + day_text(event_date),
{
    let mut out = joined("project_id=", project_directory);
    out.append("/date=");
    out.append(format_day(event_date).as_str());
    out
}

/// Whether events are equal, one by one.
pub open spec fn all_alike(stored: Seq<EventModel>, expected: Seq<EventModel>) -> bool {
    &&& stored.len() == expected.len()
    &&& forall|i: int| 0 <= i < stored.len() ==> alike_events(#[trigger] stored[i], expected[i])
}

/// Whether stored events are equal, one by one, to those that were to be written.
pub fn same_events(stored: &Vec<CapturedEvent>, expected: &Vec<CapturedEvent>) -> (r: bool)
    ensures
        r == all_alike(views(stored@), views(expected@)),
{
    if stored.len() != expected.len() {
        return false;
    }
    let mut i: usize = 0;
    while i < stored.len()
        invariant
            i <= stored.len(),
            stored@.len() == expected@.len(),
            forall|j: int| 0 <= j < i ==> alike_events((#[trigger] stored@[j])@, expected@[j]@),
        decreases stored.len() - i,
    {
        if !stored[i].same(&expected[i]) {
            assert(!alike_events(views(stored@)[i as int], views(expected@)[i as int]));
            return false;
        }
        i += 1;
    }
    assert forall|j: int| 0 <= j < views(stored@).len() implies alike_events(
        #[trigger] views(stored@)[j],
        views(expected@)[j],
    ) by {
        assert(views(stored@)[j] == stored@[j]@);
    }
    true
}

/// Checks a file that is there already against the events that were to be written.
pub fn check_materialized(
    path: &str,
    stored: &Vec<CapturedEvent>,
    expected: &Vec<CapturedEvent>,
) -> (r: Result<(), PublicationError>)
    ensures
        all_alike(views(stored@), views(expected@)) ==> r is Ok,
        !all_alike(views(stored@), views(expected@)) ==> (r matches Err(e) && e@
            == PublicationFault::EventLake(
            LakeFault::InvalidPublication(
                "materialized WAL path "@ + path@ + " contains different events"@,
            ),
        )),
{
    if same_events(stored, expected) {
        return Ok(());
    }
    let mut out = joined("materialized WAL path ", path);
    out.append(" contains different events");
    Err(PublicationError::EventLake(EventLakeError::InvalidPublication(out)))
}

// ── The manifest ──────────────────────────────────────────────────────────────

/// A file and the digest of its content.
pub struct HashedFile {
    pub file: PublishedFile,
    pub digest: Vec<u8>,
}

/// The mathematical value of a [`HashedFile`].
pub struct HashedModel {
    pub file: FileModel,
    pub digest: Seq<u8>,
}

impl View for HashedFile {
    type V = HashedModel;

    open spec fn view(&self) -> HashedModel {
        HashedModel { file: self.file@, digest: self.digest@ }
    }
}

/// A file with the digest of its content.
pub fn hash_file(file: PublishedFile, content: &[u8]) -> (r: HashedFile)
    ensures
        r.file == file,
        r.digest@ == sha256_of(content@),
{
    HashedFile { file, digest: sha256(content) }
}

/// What becomes of a file that was written for a group.
#[derive(Debug, Clone, Copy, PartialEq, Eq, Structural)]
pub enum Admission {
    /// The manifest holds its path already.
    Known,
    /// The manifest holds its content already, for the same group; the file is removed.
    Duplicate,
    /// It joins the manifest.
    Added,
}

/// The first file of a manifest with a digest.
pub open spec fn with_digest(manifest: Seq<HashedModel>, digest: Seq<u8>) -> Option<HashedModel>
    decreases manifest.len(),
{
    if manifest.len() == 0 {
        None
    } else if with_digest(manifest.drop_last(), digest) is Some {
        with_digest(manifest.drop_last(), digest)
    } else if manifest.last().digest == digest {
        Some(manifest.last())
    } else {
        None
    }
}

/// What becomes of a file that was written, and the manifest after it.
pub open spec fn admitted(manifest: Seq<HashedModel>, file: HashedModel) -> Result<
    (Admission, Seq<HashedModel>),
    LakeFault,
> {
    if exists|i: int|
        0 <= i < manifest.len() && (#[trigger] manifest[i]).file.path == file.file.path {
        Ok((Admission::Known, manifest))
    } else {
        match with_digest(manifest, file.digest) {
            Some(existing) => if existing.file.scope != file.file.scope {
                Err(
                    LakeFault::InvalidPublication(
                        "identical event content has conflicting project attribution"@,
                    ),
                )
            } else {
                Ok((Admission::Duplicate, manifest))
            },
            None => Ok((Admission::Added, manifest.push(file))),
        }
    }
}

fn same_scope(a: &FileScope, b: &FileScope) -> (r: bool)
    ensures
        r == (a@ == b@),
{
    match (a, b) {
        (
            FileScope::ProjectDate { project_id: p, event_date: d },
            FileScope::ProjectDate { project_id: q, event_date: e },
        ) => same(p.as_str(), q.as_str()) && *d == *e,
        (FileScope::LegacyUnknown, FileScope::LegacyUnknown) => true,
        _ => false,
    }
}

proof fn lemma_with_digest_stays(manifest: Seq<HashedModel>, k: int, digest: Seq<u8>)
    requires
        0 <= k <= manifest.len(),
        with_digest(manifest.take(k), digest) is Some,
    ensures
        with_digest(manifest, digest) == with_digest(manifest.take(k), digest),
    decreases manifest.len() - k,
{
    if k < manifest.len() {
        assert(manifest.take(k + 1).drop_last() =~= manifest.take(k));
        lemma_with_digest_stays(manifest, k + 1, digest);
    } else {
        assert(manifest.take(k) =~= manifest);
    }
}

/// Decides what becomes of a file that was written for a group. Identical content of two groups is an
/// error.
pub fn admit_file(manifest: &mut Vec<HashedFile>, file: HashedFile) -> (r: Result<
    Admission,
    PublicationError,
>)
    ensures
        match admitted(views(old(manifest)@), file@) {
            Ok((admission, after)) => r matches Ok(a) && a == admission && views(
                final(manifest)@,
            ) == after,
            Err(fault) => r matches Err(e) && e@ == PublicationFault::EventLake(fault)
                && final(manifest)@ == old(manifest)@,
        },
{
    let ghost all = views(manifest@);
    let mut i: usize = 0;
    while i < manifest.len()
        invariant
            i <= manifest.len(),
            manifest@ == old(manifest)@,
            all == views(manifest@),
            forall|j: int| 0 <= j < i ==> (#[trigger] all[j]).file.path != file@.file.path,
        decreases manifest.len() - i,
    {
        assert(all[i as int] == manifest@[i as int]@);
        if same(manifest[i].file.path.as_str(), file.file.path.as_str()) {
            return Ok(Admission::Known);
        }
        i += 1;
    }
    let mut k: usize = 0;
    assert(all.take(0) =~= Seq::<HashedModel>::empty());
    while k < manifest.len()
        invariant
            k <= manifest.len(),
            manifest@ == old(manifest)@,
            all == views(manifest@),
            forall|j: int|
                0 <= j < all.len() ==> (#[trigger] all[j]).file.path != file@.file.path,
            with_digest(all.take(k as int), file@.digest) is None,
        decreases manifest.len() - k,
    {
        assert(all.take(k + 1).drop_last() =~= all.take(k as int));
        assert(all.take(k + 1).last() == manifest@[k as int]@);
        if bytes_equal(&manifest[k].digest, &file.digest) {
            proof {
                lemma_with_digest_stays(all, k + 1, file@.digest);
            }
            if !same_scope(&manifest[k].file.scope, &file.file.scope) {
                return Err(
                    PublicationError::EventLake(
                        EventLakeError::InvalidPublication(
                            "identical event content has conflicting project attribution".to_owned(),
                        ),
                    ),
                );
            }
            return Ok(Admission::Duplicate);
        }
        k += 1;
    }
    assert(all.take(all.len() as int) =~= all);
    let ghost view = file@;
    manifest.push(file);
    assert(views(manifest@) =~= all.push(view));
    Ok(Admission::Added)
}

/// The rank of a character in the order of paths: a separator comes before every other character.
pub open spec fn path_rank(c: char) -> int {
    if c == '/' {
        0
    } else {
        c as int + 1
    }
}

/// Whether a path comes strictly before another, component by component.
pub open spec fn path_before(a: Seq<char>, b: Seq<char>) -> bool
    decreases a.len(),
{
    if b.len() == 0 {
        false
    } else if a.len() == 0 {
        true
    } else if a[0] == b[0] {
        path_before(a.drop_first(), b.drop_first())
    } else {
        path_rank(a[0]) < path_rank(b[0])
    }
}

fn rank_of(c: char) -> (r: u32)
    ensures
        r == path_rank(c),
{
    if c == '/' {
        0
    } else {
        code_point(c) + 1
    }
}

impl Ranked for PublishedFile {
    open spec fn ahead(a: FileModel, b: FileModel) -> bool {
        path_before(a.path, b.path)
    }

    fn is_ahead(&self, other: &Self) -> (r: bool) {
        path_comes_before(self.path.as_str(), other.path.as_str())
    }
}

/// Decides [`path_before`].
pub fn path_comes_before(a: &str, b: &str) -> (r: bool)
    ensures
        r == path_before(a@, b@),
{
    let x = chars_of(a);
    let y = chars_of(b);
    let mut i: usize = 0;
    assert(x@.skip(0) =~= a@ && y@.skip(0) =~= b@);
    while i < x.len() && i < y.len()
        invariant
            i <= x.len(),
            i <= y.len(),
            x@ == a@,
            y@ == b@,
            path_before(x@.skip(i as int), y@.skip(i as int)) == path_before(a@, b@),
        decreases x.len() - i,
    {
        if x[i] != y[i] {
            return rank_of(x[i]) < rank_of(y[i]);
        }
        assert(x@.skip(i as int).drop_first() =~= x@.skip(i + 1));
        assert(y@.skip(i as int).drop_first() =~= y@.skip(i + 1));
        i += 1;
    }
    i < y.len()
}

/// The files of a manifest without their digests.
pub open spec fn plain(manifest: Seq<HashedModel>) -> Seq<FileModel> {
    manifest.map_values(|f: HashedModel| f.file)
}

/// The manifest in the order of its paths.
pub fn sorted_manifest(manifest: &Vec<HashedFile>) -> (r: Vec<PublishedFile>)
    ensures
        views(r@) == ranked::<PublishedFile>(plain(views(manifest@))),
{
    let ghost all = plain(views(manifest@));
    let mut out: Vec<PublishedFile> = Vec::new();
    let mut i: usize = 0;
    assert(all.take(0) =~= Seq::<FileModel>::empty());
    assert(views(out@) =~= Seq::<FileModel>::empty());
    while i < manifest.len()
        invariant
            i <= manifest.len(),
            all == plain(views(manifest@)),
            views(out@) == ranked::<PublishedFile>(all.take(i as int)),
        decreases manifest.len() - i,
    {
        assert(all.take(i + 1).drop_last() =~= all.take(i as int));
        assert(all.take(i + 1).last() == manifest@[i as int]@.file);
        insert_ranked(&mut out, manifest[i].file.copy());
        i += 1;
    }
    assert(all.take(all.len() as int) =~= all);
    out
}

} // verus!
