//! What a publication does with the events of the log: which it applies, in what order, and into which files they
//! go.
use vstd::prelude::*;

use crate::capture::event::EventModel;
use crate::event_lake::LakeFault;
use crate::pipeline::materialize::{
    admitted, day_of, grouped, groups_of, key_before, path_before, with_digest, Admission, GroupModel,
    HashedModel,
};
use crate::pipeline::publication::{
    committed, events_applied, first_fault, lemma_applied_grows, lemma_no_fault_before, pending_events,
    record_events, PendingEvent, PublicationModel, WalRecord,
};
use crate::event_lake::CandidateModel;
use crate::pipeline::wal::WalCursor;
use crate::projections::{event_applied, ProjectionModel};
use crate::text::{lemma_text_le_total, lemma_text_le_transitive, text_le};

verus! {

// ── What is pending ───────────────────────────────────────────────────────────

/// Every event of a record is pending, in its order, for the project that the record binds its token to, up to
/// the end of the record.
pub proof fn law_records_pend_every_event(record: WalRecord, i: int)
    requires
        0 <= i < record.batch.events@.len(),
    ensures
        ({
            let pending = pending_events(seq![record]);
            let token = record.batch.events@[i].token@;
            let bindings = record.batch.project_ids_by_token@;
            &&& pending.len() == record.batch.events@.len()
            &&& pending[i].event == record.batch.events@[i]@
            &&& pending[i].end == record.span.end
            &&& bindings.contains_key(token) ==> pending[i].project == Some(bindings[token])
            &&& !bindings.contains_key(token) ==> pending[i].project is None
        }),
{
    let one = seq![record];
    assert(one.drop_last() =~= Seq::<WalRecord>::empty());
    assert(one.last() == record);
    assert(pending_events(one.drop_last()) =~= Seq::<PendingEvent>::empty());
    assert(pending_events(one) =~= record_events(record));
}

/// Records pend one after another: what two lists in a row pend is what each pends.
pub proof fn law_records_pend_in_order(before: Seq<WalRecord>, after: Seq<WalRecord>)
    ensures
        pending_events(before + after) == pending_events(before) + pending_events(after),
    decreases after.len(),
{
    if after.len() == 0 {
        assert(before + after =~= before);
    } else {
        law_records_pend_in_order(before, after.drop_last());
        assert((before + after).drop_last() =~= before + after.drop_last());
        assert((before + after).last() == after.last());
        assert(pending_events(before + after) =~= pending_events(before) + pending_events(after));
    }
}

/// Events are applied one after another, each on what the ones before it left.
pub proof fn law_events_are_applied_in_order(
    m: ProjectionModel,
    before: Seq<PendingEvent>,
    next: PendingEvent,
    after: Seq<PendingEvent>,
    project: Seq<char>,
)
    requires
        next.project == Some(project),
    ensures
        events_applied(m, before.push(next) + after) == events_applied(
            event_applied(events_applied(m, before), project, next.event, next.end),
            after,
        ),
        events_applied(m, Seq::empty()) == m,
    decreases after.len(),
{
    if after.len() == 0 {
        assert(before.push(next) + after =~= before.push(next));
        assert(before.push(next).drop_last() =~= before);
    } else {
        law_events_are_applied_in_order(m, before, next, after.drop_last(), project);
        assert((before.push(next) + after).drop_last() =~= before.push(next) + after.drop_last());
        assert((before.push(next) + after).last() == after.last());
    }
}

proof fn lemma_pending_holds(records: Seq<WalRecord>, i: int, j: int) -> (k: int)
    requires
        0 <= i < records.len(),
        0 <= j < records[i].batch.events@.len(),
    ensures
        0 <= k < pending_events(records).len(),
        pending_events(records)[k] == record_events(records[i])[j],
    decreases records.len(),
{
    let rest = records.drop_last();
    let before = pending_events(rest);
    if i == records.len() - 1 {
        before.len() + j
    } else {
        assert(rest[i] == records[i]);
        let k = lemma_pending_holds(rest, i, j);
        k
    }
}

/// A publication leaves no event out: each event of each record is then applied for the project that its record
/// binds its token to.
pub proof fn law_every_event_is_published(
    m: PublicationModel,
    records: Seq<WalRecord>,
    checkpoint: WalCursor,
    candidates: Seq<CandidateModel>,
    i: int,
    j: int,
)
    requires
        0 <= i < records.len(),
        0 <= j < records[i].batch.events@.len(),
        committed(m, records, checkpoint, candidates) is Ok,
    ensures
        ({
            let next = committed(m, records, checkpoint, candidates)->Ok_0;
            let event = records[i].batch.events@[j];
            let bindings = records[i].batch.project_ids_by_token@;
            &&& bindings.contains_key(event.token@)
            &&& next.projections.applied.contains_key((bindings[event.token@], event.uuid))
        }),
{
    let k = lemma_pending_holds(records, i, j);
    lemma_applied_grows(m.projections, pending_events(records));
    lemma_no_fault_before(pending_events(records), k);
}

/// A publication takes nothing back: what was applied before stays applied, and what it adds was pending.
pub proof fn law_publications_apply_what_is_pending(
    m: PublicationModel,
    records: Seq<WalRecord>,
    checkpoint: WalCursor,
    candidates: Seq<CandidateModel>,
    key: (Seq<char>, u128),
)
    requires
        committed(m, records, checkpoint, candidates) is Ok,
    ensures
        ({
            let next = committed(m, records, checkpoint, candidates)->Ok_0;
            &&& m.projections.applied.contains_key(key) ==> next.projections.applied.contains_key(key)
                && next.projections.applied[key] == m.projections.applied[key]
            &&& next.projections.applied.contains_key(key) && !m.projections.applied.contains_key(key)
                ==> exists|k: int|
                0 <= k < pending_events(records).len() && (#[trigger] pending_events(records)[k]).project
                    == Some(key.0) && pending_events(records)[k].event.uuid == key.1
        }),
{
    let pending = pending_events(records);
    assert forall|k: int| 0 <= k < pending.len() implies (#[trigger] pending[k]).project is Some by {
        lemma_no_fault_before(pending, k);
    }
    lemma_applied_sources(m.projections, pending, key);
}

proof fn lemma_applied_sources(m: ProjectionModel, pending: Seq<PendingEvent>, key: (Seq<char>, u128))
    requires
        forall|k: int| 0 <= k < pending.len() ==> (#[trigger] pending[k]).project is Some,
    ensures
        ({
            let after = events_applied(m, pending).applied;
            &&& m.applied.contains_key(key) ==> after.contains_key(key) && after[key] == m.applied[key]
            &&& after.contains_key(key) && !m.applied.contains_key(key) ==> exists|k: int|
                0 <= k < pending.len() && (#[trigger] pending[k]).project == Some(key.0)
                    && pending[k].event.uuid == key.1
        }),
    decreases pending.len(),
{
    if pending.len() > 0 {
        let rest = pending.drop_last();
        assert forall|k: int| 0 <= k < rest.len() implies (#[trigger] rest[k]).project is Some by {
            assert(rest[k] == pending[k]);
        }
        lemma_applied_sources(m, rest, key);
        let last = pending.len() - 1;
        assert(pending[last].project is Some);
        let before = events_applied(m, rest).applied;
        let after = events_applied(m, pending).applied;
        if after.contains_key(key) && !m.applied.contains_key(key) {
            if before.contains_key(key) {
                let k = choose|k: int|
                    0 <= k < rest.len() && (#[trigger] rest[k]).project == Some(key.0)
                        && rest[k].event.uuid == key.1;
                assert(pending[k] == rest[k]);
            } else {
                assert(pending[last].project == Some(key.0));
            }
        }
    }
}

/// An event whose token its record does not bind stops the publication.
pub proof fn law_unbound_events_stop_a_publication(
    m: PublicationModel,
    records: Seq<WalRecord>,
    checkpoint: WalCursor,
    candidates: Seq<CandidateModel>,
    i: int,
    j: int,
)
    requires
        0 <= i < records.len(),
        0 <= j < records[i].batch.events@.len(),
        !records[i].batch.project_ids_by_token@.contains_key(records[i].batch.events@[j].token@),
    ensures
        committed(m, records, checkpoint, candidates) is Err,
        groups_of(pending_events(records)) is Err,
{
    let k = lemma_pending_holds(records, i, j);
    let pending = pending_events(records);
    if first_fault(pending) is None {
        lemma_no_fault_before(pending, k);
    }
    lemma_unbound_groups(pending, k);
}

proof fn lemma_unbound_groups(pending: Seq<PendingEvent>, k: int)
    requires
        0 <= k < pending.len(),
        pending[k].project is None,
    ensures
        groups_of(pending) is Err,
    decreases pending.len(),
{
    if k < pending.len() - 1 {
        assert(pending.drop_last()[k] == pending[k]);
        lemma_unbound_groups(pending.drop_last(), k);
    }
}

// ── Files ─────────────────────────────────────────────────────────────────────

/// The day of an instant begins at or before it, and ends after it.
pub proof fn law_days_hold_their_instants(t: int)
    ensures
        (day_of(t) - 719_163) * 86_400_000_000_000 <= t,
        t < (day_of(t) - 719_162) * 86_400_000_000_000,
{
}

/// The pending events of a project and a day, in order.
pub open spec fn events_for(pending: Seq<PendingEvent>, project: Seq<char>, day: int) -> Seq<EventModel>
    decreases pending.len(),
{
    if pending.len() == 0 {
        Seq::empty()
    } else {
        let before = events_for(pending.drop_last(), project, day);
        let last = pending.last();
        if last.project == Some(project) && (day - 719_163) * 86_400_000_000_000 <= last.event.timestamp
            && last.event.timestamp < (day - 719_162) * 86_400_000_000_000 {
            before.push(last.event)
        } else {
            before
        }
    }
}

/// The events that groups hold under a project and a day.
pub open spec fn events_under(groups: Seq<GroupModel>, project: Seq<char>, day: int) -> Seq<EventModel>
    decreases groups.len(),
{
    if groups.len() == 0 {
        Seq::empty()
    } else {
        let before = events_under(groups.drop_last(), project, day);
        if groups.last().project == project && groups.last().day == day {
            before + groups.last().events
        } else {
            before
        }
    }
}

proof fn lemma_group_added(
    groups: Seq<GroupModel>,
    project: Seq<char>,
    day: int,
    event: EventModel,
    p: Seq<char>,
    d: int,
)
    ensures
        events_under(grouped(groups, project, day, event), p, d) == if p == project && d == day {
            events_under(groups, p, d).push(event)
        } else {
            events_under(groups, p, d)
        },
    decreases groups.len(),
{
    let after = grouped(groups, project, day, event);
    if groups.len() == 0 {
        assert(after.drop_last() =~= groups);
        assert(events_under(after.drop_last(), p, d) =~= Seq::<EventModel>::empty());
    } else {
        let last = groups.last();
        let rest = groups.drop_last();
        if last.project == project && last.day == day {
            assert(after.drop_last() =~= rest);
        } else if key_before(project, day, last) {
            lemma_group_added(rest, project, day, event, p, d);
            assert(after.drop_last() =~= grouped(rest, project, day, event));
        } else {
            assert(after.drop_last() =~= groups);
        }
    }
    if p == project && d == day {
        assert(events_under(after, p, d) =~= events_under(groups, p, d).push(event));
    } else {
        assert(events_under(after, p, d) =~= events_under(groups, p, d));
    }
}

/// The file of a project and a day gets the pending events of that project and day, all of them, in order.
pub proof fn law_files_get_their_events(pending: Seq<PendingEvent>, project: Seq<char>, day: int)
    requires
        groups_of(pending) is Ok,
    ensures
        events_under(groups_of(pending)->Ok_0, project, day) == events_for(pending, project, day),
    decreases pending.len(),
{
    if pending.len() > 0 {
        let last = pending.last();
        law_files_get_their_events(pending.drop_last(), project, day);
        law_days_hold_their_instants(last.event.timestamp);
        lemma_group_added(
            groups_of(pending.drop_last())->Ok_0,
            last.project->Some_0,
            day_of(last.event.timestamp),
            last.event,
            project,
            day,
        );
    }
}

/// Whether groups are in order, by project and then by day, with no project and day twice.
pub open spec fn groups_ordered(groups: Seq<GroupModel>) -> bool {
    forall|i: int, j: int|
        0 <= i < j < groups.len() ==> (#[trigger] groups[i]).project != (#[trigger] groups[j]).project
            && text_le(groups[i].project, groups[j].project) || (groups[i].project == groups[j].project
            && groups[i].day < groups[j].day)
}

proof fn lemma_group_keys(groups: Seq<GroupModel>, project: Seq<char>, day: int, event: EventModel, i: int)
    requires
        0 <= i < grouped(groups, project, day, event).len(),
    ensures
        ({
            let g = grouped(groups, project, day, event)[i];
            g.project == project && g.day == day || exists|j: int|
                0 <= j < groups.len() && (#[trigger] groups[j]).project == g.project && groups[j].day
                    == g.day
        }),
    decreases groups.len(),
{
    let after = grouped(groups, project, day, event);
    if groups.len() > 0 {
        let last = groups.last();
        let rest = groups.drop_last();
        if last.project == project && last.day == day {
            if i < rest.len() {
                assert(groups[i] == after[i]);
            }
        } else if key_before(project, day, last) {
            if i < after.len() - 1 {
                lemma_group_keys(rest, project, day, event, i);
                let g = grouped(rest, project, day, event)[i];
                if !(g.project == project && g.day == day) {
                    let j = choose|j: int|
                        0 <= j < rest.len() && (#[trigger] rest[j]).project == g.project && rest[j].day
                            == g.day;
                    assert(groups[j] == rest[j]);
                }
            } else {
                assert(groups[groups.len() - 1] == last);
            }
        } else if i < groups.len() {
            assert(groups[i] == after[i]);
        }
    }
}

proof fn lemma_group_order(groups: Seq<GroupModel>, project: Seq<char>, day: int, event: EventModel)
    requires
        groups_ordered(groups),
    ensures
        groups_ordered(grouped(groups, project, day, event)),
    decreases groups.len(),
{
    let after = grouped(groups, project, day, event);
    if groups.len() > 0 {
        let last = groups.last();
        let rest = groups.drop_last();
        assert(groups_ordered(rest)) by {
            assert forall|i: int, j: int| 0 <= i < j < rest.len() implies (#[trigger] rest[i]).project != (
            #[trigger] rest[j]).project && text_le(rest[i].project, rest[j].project) || (
            rest[i].project == rest[j].project && rest[i].day < rest[j].day) by {
                assert(rest[i] == groups[i] && rest[j] == groups[j]);
            }
        }
        if last.project == project && last.day == day {
            assert forall|i: int, j: int| 0 <= i < j < after.len() implies (
            #[trigger] after[i]).project != (#[trigger] after[j]).project && text_le(
                after[i].project,
                after[j].project,
            ) || (after[i].project == after[j].project && after[i].day < after[j].day) by {
                assert(groups[i].project == after[i].project && groups[i].day == after[i].day);
                assert(groups[j].project == after[j].project && groups[j].day == after[j].day);
            }
        } else if key_before(project, day, last) {
            lemma_group_order(rest, project, day, event);
            let inner = grouped(rest, project, day, event);
            assert forall|i: int, j: int| 0 <= i < j < after.len() implies (
            #[trigger] after[i]).project != (#[trigger] after[j]).project && text_le(
                after[i].project,
                after[j].project,
            ) || (after[i].project == after[j].project && after[i].day < after[j].day) by {
                assert(after[i] == inner[i]);
                if j < inner.len() {
                    assert(after[j] == inner[j]);
                } else {
                    lemma_group_keys(rest, project, day, event, i);
                    let g = inner[i];
                    if !(g.project == project && g.day == day) {
                        let k = choose|k: int|
                            0 <= k < rest.len() && (#[trigger] rest[k]).project == g.project
                                && rest[k].day == g.day;
                        assert(groups[k] == rest[k] && groups[groups.len() - 1] == last);
                    }
                }
            }
        } else {
            lemma_text_le_total(project, last.project);
            assert forall|i: int, j: int| 0 <= i < j < after.len() implies (
            #[trigger] after[i]).project != (#[trigger] after[j]).project && text_le(
                after[i].project,
                after[j].project,
            ) || (after[i].project == after[j].project && after[i].day < after[j].day) by {
                assert(after[i] == groups[i]);
                if j < groups.len() {
                    assert(after[j] == groups[j]);
                } else if i < groups.len() - 1 {
                    assert(groups[groups.len() - 1] == last);
                    if groups[i].project != last.project && last.project != project {
                        lemma_text_le_transitive(groups[i].project, last.project, project);
                        lemma_text_le_total(groups[i].project, last.project);
                    }
                }
            }
        }
    }
}

/// The files of a publication are in order, by project and then by day, one for each.
pub proof fn law_files_are_in_order(pending: Seq<PendingEvent>)
    requires
        groups_of(pending) is Ok,
    ensures
        groups_ordered(groups_of(pending)->Ok_0),
    decreases pending.len(),
{
    if pending.len() > 0 {
        let last = pending.last();
        law_files_are_in_order(pending.drop_last());
        lemma_group_order(
            groups_of(pending.drop_last())->Ok_0,
            last.project->Some_0,
            day_of(last.event.timestamp),
            last.event,
        );
    }
}

// ── The manifest ──────────────────────────────────────────────────────────────

/// A manifest takes a file once: not under a path that it knows, and not with content that it knows. Content that
/// it knows for other events is refused. All it has, it keeps.
pub proof fn law_files_are_admitted_once(manifest: Seq<HashedModel>, file: HashedModel)
    ensures
        ({
            let known = exists|i: int|
                0 <= i < manifest.len() && (#[trigger] manifest[i]).file.path == file.file.path;
            let r = admitted(manifest, file);
            &&& known ==> r == Ok::<(Admission, Seq<HashedModel>), LakeFault>(
                (Admission::Known, manifest),
            )
            &&& !known && (forall|i: int|
                0 <= i < manifest.len() ==> (#[trigger] manifest[i]).digest != file.digest) ==> r == Ok::<
                (Admission, Seq<HashedModel>),
                LakeFault,
            >((Admission::Added, manifest.push(file)))
            &&& !known && (exists|i: int|
                0 <= i < manifest.len() && (#[trigger] manifest[i]).digest == file.digest) && (forall|
                i: int,
            |
                0 <= i < manifest.len() && (#[trigger] manifest[i]).digest == file.digest
                    ==> manifest[i].file.scope == file.file.scope) ==> r == Ok::<
                (Admission, Seq<HashedModel>),
                LakeFault,
            >((Admission::Duplicate, manifest))
            &&& !known && (exists|i: int|
                0 <= i < manifest.len() && (#[trigger] manifest[i]).digest == file.digest) && (forall|
                i: int,
            |
                0 <= i < manifest.len() && (#[trigger] manifest[i]).digest == file.digest
                    ==> manifest[i].file.scope != file.file.scope) ==> r is Err
        }),
{
    lemma_digest_found(manifest, file.digest);
}

proof fn lemma_digest_found(manifest: Seq<HashedModel>, digest: Seq<u8>)
    ensures
        match with_digest(manifest, digest) {
            Some(f) => exists|i: int|
                0 <= i < manifest.len() && (#[trigger] manifest[i]).digest == digest && manifest[i] == f,
            None => forall|i: int|
                0 <= i < manifest.len() ==> (#[trigger] manifest[i]).digest != digest,
        },
    decreases manifest.len(),
{
    if manifest.len() > 0 {
        let rest = manifest.drop_last();
        lemma_digest_found(rest, digest);
        assert(manifest[manifest.len() - 1] == manifest.last());
        match with_digest(rest, digest) {
            Some(f) => {
                let i = choose|i: int|
                    0 <= i < rest.len() && (#[trigger] rest[i]).digest == digest && rest[i] == f;
                assert(manifest[i] == f);
            },
            None => {
                if manifest.last().digest != digest {
                    assert forall|i: int| 0 <= i < manifest.len() implies (
                    #[trigger] manifest[i]).digest != digest by {
                        if i < rest.len() {
                            assert(rest[i] == manifest[i]);
                        }
                    }
                }
            },
        }
    }
}

/// Paths compare part by part: of two that begin alike, the one whose part ends first comes first, and else the
/// character that differs decides. Of two different paths one comes first, and only one.
pub proof fn law_paths_compare_by_their_parts(a: Seq<char>, b: Seq<char>, i: int)
    requires
        0 <= i <= a.len(),
        i <= b.len(),
        forall|j: int| 0 <= j < i ==> (#[trigger] a[j]) == b[j],
    ensures
        i < a.len() && i < b.len() && a[i] == '/' && b[i] != '/' ==> path_before(a, b) && !path_before(
            b,
            a,
        ),
        i < a.len() && i < b.len() && a[i] != '/' && b[i] != '/' && a[i] < b[i] ==> path_before(a, b)
            && !path_before(b, a),
        i == a.len() && i < b.len() ==> path_before(a, b) && !path_before(b, a),
        i == a.len() && i == b.len() ==> !path_before(a, b),
    decreases i,
{
    if i > 0 {
        assert(a[0] == b[0]);
        let c = a.drop_first();
        let d = b.drop_first();
        assert forall|j: int| 0 <= j < i - 1 implies (#[trigger] c[j]) == d[j] by {
            assert(c[j] == a[j + 1] && d[j] == b[j + 1]);
        }
        law_paths_compare_by_their_parts(c, d, i - 1);
        assert(i < a.len() ==> c[i - 1] == a[i]);
        assert(i < b.len() ==> d[i - 1] == b[i]);
    } else if a.len() > 0 && b.len() > 0 {
        lemma_no_char_is_negative(b[0]);
    }
}

proof fn lemma_no_char_is_negative(c: char)
    ensures
        0 <= c as int,
{
}

} // verus!
