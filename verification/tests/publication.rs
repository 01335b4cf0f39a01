use hoglet::capture::event::CapturedEvent;
use hoglet::digest::sha256_hex;
use hoglet::event_lake::versions::VersionedEventLake;
use hoglet::event_lake::{
    prepare_file, Candidate, FileKind, FileObservation, FileScope, GenerationId, PublishedFile,
};
use hoglet::json::{Json, JsonMap};
use hoglet::pipeline::materialize::{
    admit_file, all_dated, check_materialized, event_day, extent, file_name, group_directory,
    group_events, hash_file, same_events, sorted_manifest, Admission, HashedFile,
};
use hoglet::pipeline::publication::{
    confirm_update, finish_publication, read_projection_state, PublicationCoordinator,
    PublicationError, WalRecord,
};
use hoglet::pipeline::log::{PublicationWindow, SealedRecords};
use hoglet::pipeline::wal::{encode_frame, CapturedBatch, WalCursor, WalError, WalSpan};
use hoglet::projection_catalog::{
    validate_projection_database, ProjectionCatalog, ProjectionCatalogError,
};
use hoglet::projections::{ApplyOutcome, ProjectionError, Projections};
use hoglet::text::signed_text;
use hoglet::text_map::TextMap;

const NOON: i128 = 1_784_635_200_000_000_000;
const DAY: i32 = 719_163 + 20_655;

fn event(uuid: u128, name: &str, props: &str) -> CapturedEvent {
    CapturedEvent {
        uuid,
        event: name.into(),
        distinct_id: "u1".into(),
        token: "phc_t".into(),
        timestamp: NOON,
        properties: match Json::parse(props) {
            Some(Json::Object(members)) => JsonMap { members },
            _ => JsonMap::new(),
        },
    }
}

fn record(events: Vec<CapturedEvent>, from: u64, to: u64) -> WalRecord {
    let mut bindings = TextMap::new();
    bindings.insert("phc_t", "p1");
    WalRecord {
        batch: CapturedBatch::authorized(events, bindings, false).unwrap(),
        span: WalSpan {
            start: WalCursor::new(1, from),
            end: WalCursor::new(1, to),
            framed_bytes: to - from,
        },
    }
}

fn coordinator() -> PublicationCoordinator {
    PublicationCoordinator {
        lake: VersionedEventLake {
            current: 0,
            data_epoch: 0,
            stored: vec![],
            manifests: vec![],
            visible_id: GenerationId::empty(),
            visible: vec![],
        },
        projections: Projections::new(),
        segment: 1,
        byte_offset: 0,
    }
}

fn candidates() -> Vec<Candidate> {
    let kind = FileKind { is_symlink: false, is_file: true, length: 1 };
    let scope = FileScope::ProjectDate { project_id: "p1".into(), event_date: DAY };
    let observed = FileObservation {
        candidate: "/lake/a".into(),
        requested: kind,
        absolute_path: "/lake/a".into(),
        opened: kind,
        content: vec![1],
        current: kind,
        current_path: "/lake/a".into(),
    };
    vec![Candidate { outcome: prepare_file("/lake", &observed, scope.copy()), scope }]
}

#[test]
fn a_publication_moves_everything_together() {
    let mut c = coordinator();
    let records = vec![record(vec![event(1, "click", "{}"), event(2, "click", "{}")], 0, 50)];
    let done = c.commit(&records, WalCursor::new(2, 0), candidates()).unwrap();
    assert_eq!(done.applied_events, 2);
    assert_eq!(done.duplicate_events, 0);
    assert_eq!(done.published_records, 1);
    assert_eq!(done.data_epoch, 1);
    assert_eq!(done.generation_id.get(), 1);
    assert_eq!(c.checkpoint().unwrap(), WalCursor::new(2, 0));
    assert_eq!(c.visible_files().len(), 1);

    let replayed = c.commit(&records, WalCursor::new(2, 0), candidates()).unwrap();
    assert_eq!((replayed.applied_events, replayed.duplicate_events), (0, 2));
    assert_eq!(c.visible_files().len(), 1);
}

#[test]
fn a_refused_publication_changes_nothing() {
    let mut c = coordinator();
    assert!(matches!(
        c.commit(&vec![], WalCursor::new(2, 0), candidates()),
        Err(PublicationError::NoSealedRecords)
    ));
    let unbound = WalRecord {
        batch: CapturedBatch::new(vec![event(1, "click", "{}")]).unwrap(),
        span: record(vec![event(1, "click", "{}")], 0, 50).span,
    };
    match c.commit(&vec![unbound], WalCursor::new(2, 0), candidates()) {
        Err(e) => assert_eq!(
            e.message(),
            "captured event 00000000-0000-0000-0000-000000000001 has no durable authorized-project binding"
        ),
        Ok(_) => panic!("an event without a project"),
    }
    let twice = candidates().into_iter().chain(candidates()).collect();
    let records = vec![record(vec![event(1, "click", "{}")], 0, 50)];
    assert!(matches!(
        c.commit(&records, WalCursor::new(2, 0), twice),
        Err(PublicationError::EventLake(_))
    ));
    c.lake.data_epoch = i64::MAX;
    assert!(matches!(
        c.commit(&records, WalCursor::new(2, 0), candidates()),
        Err(PublicationError::DataEpochExhausted)
    ));
    assert_eq!(c.checkpoint().unwrap(), WalCursor::new(1, 0));
    assert!(c.visible_files().is_empty());
}

#[test]
fn reclamation_can_fail_after_the_commit() {
    let commit = || {
        let mut c = coordinator();
        let records = vec![record(vec![event(1, "click", "{}")], 0, 50)];
        c.commit(&records, WalCursor::new(2, 0), candidates()).unwrap()
    };
    let done = finish_publication(commit(), Ok(vec![1])).unwrap();
    assert_eq!(done.reclaimed_segments, [1]);
    let failed = finish_publication(commit(), Err(WalError::Poisoned));
    assert!(matches!(failed, Err(PublicationError::ReclamationAfterCommit { .. })));
}

#[test]
fn the_stored_state_is_checked() {
    let state = read_projection_state(3, 1, 9, 2).unwrap();
    assert_eq!(state.checkpoint, WalCursor::new(1, 9));
    match read_projection_state(3, 0, -4, 2) {
        Err(e) => assert_eq!(e.message(), "invalid committed WAL checkpoint 0:-4"),
        Ok(_) => panic!("a checkpoint in no segment"),
    }
    assert!(matches!(
        read_projection_state(3, 1, 0, -1),
        Err(PublicationError::InvalidDataEpoch(-1))
    ));
    assert!(confirm_update(1).is_ok());
    assert!(matches!(confirm_update(0), Err(PublicationError::ConcurrentStateChange)));
    assert_eq!(signed_text(i64::MIN), "-9223372036854775808");
}

#[test]
fn events_are_grouped_by_project_and_day() {
    let mut late = event(2, "b", "{}");
    late.timestamp = NOON + 86_400_000_000_000;
    let records = vec![record(vec![event(1, "a", "{}"), late], 0, 50), record(vec![event(3, "c", "{}")], 50, 80)];
    let groups = group_events(&records).unwrap();
    assert_eq!(groups.len(), 2);
    assert_eq!(groups[0].event_date, DAY);
    assert_eq!(groups[0].events.iter().map(|e| e.uuid).collect::<Vec<_>>(), [1, 3]);
    assert_eq!(groups[1].event_date, DAY + 1);
    let (first, last) = extent(&records).unwrap();
    assert_eq!((first, last), (WalCursor::new(1, 0), WalCursor::new(1, 80)));
    assert!(matches!(extent(&vec![]), Err(PublicationError::NoSealedRecords)));
}

#[test]
fn files_are_named_after_what_they_hold() {
    assert_eq!(
        file_name(WalCursor::new(1, 0), WalCursor::new(2, 34)),
        "wal-00000000000000000001-00000000000000000000-to-00000000000000000002-00000000000000000034.parquet"
    );
    assert_eq!(group_directory("p1", DAY), "project_id=p1/date=2026-07-21");
    assert_eq!(event_day(NOON), DAY);
    assert_eq!(event_day(-1), 719_162);
}

#[test]
fn a_file_holds_what_was_written() {
    let written = vec![event(1, "a", "{\"k\":1}")];
    assert!(same_events(&written, &vec![event(1, "a", "{\"k\":1}")]));
    assert!(!same_events(&written, &vec![event(2, "a", "{\"k\":1}")]));
    assert!(!same_events(&written, &vec![]));
    assert!(check_materialized("f", &written, &written).is_ok());
    assert!(check_materialized("f", &written, &vec![]).is_err());
}

#[test]
fn manifests_take_a_file_once() {
    let hashed = |path: &str, digest: u8| HashedFile {
        file: PublishedFile::new(path.into(), FileScope::LegacyUnknown),
        digest: vec![digest; 32],
    };
    let mut manifest = Vec::new();
    assert!(matches!(admit_file(&mut manifest, hashed("b", 1)), Ok(Admission::Added)));
    assert!(matches!(admit_file(&mut manifest, hashed("b", 1)), Ok(Admission::Known)));
    assert!(matches!(admit_file(&mut manifest, hashed("a", 2)), Ok(Admission::Added)));
    let sorted = sorted_manifest(&manifest);
    assert_eq!(sorted.iter().map(|f| f.path.as_str()).collect::<Vec<_>>(), ["a", "b"]);
}

#[test]
fn an_event_is_projected_once() {
    let mut p = Projections::new();
    let e = event(9, "click", r#"{"plan":"pro"}"#);
    let at = WalCursor::new(1, 0);
    assert!(matches!(p.apply_captured_event("p1", &e, at), Ok(ApplyOutcome::Applied)));
    assert!(matches!(p.apply_captured_event("p1", &e, at), Ok(ApplyOutcome::Duplicate)));
    assert!(matches!(p.apply_captured_event("p2", &e, at), Ok(ApplyOutcome::Applied)));
    assert!(matches!(
        p.apply_captured_event(" ", &e, at),
        Err(ProjectionError::InvalidProjectId)
    ));
    assert!(matches!(
        p.apply_captured_event("p1", &event(10, "x", "{}"), WalCursor::new(u64::MAX, 0)),
        Err(ProjectionError::CursorOutOfRange(_))
    ));
    let catalog = ProjectionCatalog { projections: p };
    assert_eq!(catalog.event_names("p1", "cl", 10), ["click"]);
    assert!(catalog.event_names("p1", "c_", 10).is_empty());
    assert_eq!(catalog.property_keys("p1", "event").unwrap().len(), 1);
    assert_eq!(catalog.property_values("p1", "plan", "", 10), ["pro"]);
    assert!(matches!(
        catalog.property_keys("p1", "other"),
        Err(ProjectionCatalogError::InvalidSource)
    ));
}

#[test]
fn identities_are_projected() {
    let mut p = Projections::new();
    let at = WalCursor::new(1, 0);
    let mut anon = event(1, "click", "{}");
    anon.distinct_id = "anon".into();
    p.apply_captured_event("p1", &anon, at).unwrap();
    p.apply_captured_event("p1", &event(2, "$identify", r#"{"$anon_distinct_id":"anon"}"#), at).unwrap();
    assert_eq!(p.persons.len(), 1);
    assert_eq!(p.ids.len(), 2);
    assert!(p.persons[0].is_identified);
}

#[test]
fn projection_databases_are_checked() {
    assert!(matches!(
        validate_projection_database(None, 1, &None),
        Err(ProjectionCatalogError::InvalidStorage)
    ));
    assert!(!ProjectionCatalogError::InvalidSource.message().is_empty());
    assert!(!ProjectionError::InvalidProjectId.message().is_empty());
}

#[test]
fn files_are_admitted_by_their_content() {
    let file = |path: &str, scope: FileScope| PublishedFile::new(path.into(), scope);
    let day = |project: &str| FileScope::ProjectDate { project_id: project.into(), event_date: 7 };
    let first = hash_file(file("a", day("p1")), b"abc");
    assert_eq!(first.file.path, "a");
    assert_eq!(hex::encode(&first.digest), sha256_hex(b"abc"));
    let mut manifest = Vec::new();
    assert!(matches!(admit_file(&mut manifest, first), Ok(Admission::Added)));
    let copy = hash_file(file("b", day("p1")), b"abc");
    assert!(matches!(admit_file(&mut manifest, copy), Ok(Admission::Duplicate)));
    let other = hash_file(file("c", day("p1")), b"abd");
    assert!(matches!(admit_file(&mut manifest, other), Ok(Admission::Added)));
    let foreign = hash_file(file("d", day("p2")), b"abc");
    assert!(admit_file(&mut manifest, foreign).is_err());
    assert_eq!(manifest.len(), 2);
}

#[test]
fn events_far_away_have_no_day() {
    let near = vec![record(vec![event(1, "a", "{}")], 0, 50)];
    assert!(all_dated(&near));
    let mut far = event(2, "b", "{}");
    far.timestamp = i128::MAX;
    assert!(!all_dated(&vec![record(vec![event(1, "a", "{}"), far], 0, 50)]));
    assert!(all_dated(&vec![]));
}

#[test]
fn publications_take_one_window_after_the_other() {
    let sealed = || {
        let of = |payloads: &[&[u8]]| payloads.iter().flat_map(|p| encode_frame(p)).collect();
        vec![(1u64, of(&[b"a", b"b"])), (2, of(&[b"c"]))]
    };
    let mut c = coordinator();
    let mut published = Vec::new();
    loop {
        let from = c.checkpoint().unwrap();
        let reader = SealedRecords::open(sealed(), Some(3), from, 100);
        let mut window = PublicationWindow::open(reader, 34).unwrap();
        let (raw, fault) = window.drain();
        assert!(fault.is_none());
        if raw.is_empty() {
            assert_eq!(from, WalCursor::new(3, 0));
            break;
        }
        let mut at = from;
        let mut records = Vec::new();
        for r in raw {
            assert!(at <= r.span.start && r.span.start <= r.span.end);
            at = r.span.end;
            let uuid = u128::from(r.payload[0]);
            records.push(WalRecord { span: r.span, ..record(vec![event(uuid, "e", "{}")], 0, 0) });
            published.extend(r.payload);
        }
        assert!(at <= window.next_cursor());
        let done = c.commit(&records, window.next_cursor(), candidates()).unwrap();
        assert_eq!(done.applied_events, records.len());
        assert_eq!(c.checkpoint().unwrap(), window.next_cursor());
    }
    assert_eq!(published, b"abc");
    assert_eq!(c.lake.data_epoch, 2);
}

#[test]
fn a_checkpoint_has_a_segment() {
    let mut c = coordinator();
    let records = vec![record(vec![event(1, "click", "{}")], 0, 50)];
    assert!(matches!(
        c.commit(&records, WalCursor::new(0, 7), candidates()),
        Err(PublicationError::InvalidCheckpoint { segment: 0, byte_offset: 7 })
    ));
    assert!(matches!(
        c.commit(&records, WalCursor::new(u64::MAX, 0), candidates()),
        Err(PublicationError::InvalidCheckpoint { segment: -1, .. })
    ));
    assert_eq!(c.checkpoint().unwrap(), WalCursor::new(1, 0));
    assert!(c.projections.applied.is_empty() && c.visible_files().is_empty());
}
