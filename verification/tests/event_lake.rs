use hoglet::event_lake::versions::{
    install_event_file_schema, load_visible_snapshot, same_texts,
    validate_prebootstrapped_database, LoadedRow, SchemaAction, VersionedEventLake,
};
use hoglet::event_lake::{
    candidate_path, decode_generation, encode_generation, invalid_file_io, manifest_checksum,
    prepare_file, prepare_publication, relative_to, Candidate, EventLakeError, EventScope,
    FileKind, FileObservation, FileScope, GenerationId, PreparedFile, PublishedFile,
};

/// Days since the year one, as calendars count them.
const DAY: i32 = 719_163 + 20_655;

fn scope(project: &str, day: i32) -> FileScope {
    FileScope::ProjectDate { project_id: project.into(), event_date: day }
}

fn observed(path: &str, content: &[u8]) -> FileObservation {
    let kind = FileKind { is_symlink: false, is_file: true, length: content.len() as u64 };
    FileObservation {
        candidate: format!("/lake/{path}"),
        requested: kind,
        absolute_path: format!("/lake/{path}"),
        opened: kind,
        content: content.to_vec(),
        current: kind,
        current_path: format!("/lake/{path}"),
    }
}

fn prepared(path: &str, content: &[u8], scope: FileScope) -> PreparedFile {
    prepare_file("/lake", &observed(path, content), scope).unwrap()
}

fn candidate(path: &str, content: &[u8], scope: FileScope) -> Candidate {
    Candidate {
        outcome: prepare_file("/lake", &observed(path, content), scope.copy()),
        scope,
    }
}

fn empty_lake() -> VersionedEventLake {
    VersionedEventLake {
        current: 0,
        data_epoch: 0,
        stored: vec![],
        manifests: vec![],
        visible_id: GenerationId::empty(),
        visible: vec![],
    }
}

fn paths(lake: &VersionedEventLake, project: &str) -> Vec<String> {
    let scope = EventScope::new(project.into(), DAY, DAY + 1).unwrap();
    lake.acquire(&scope).paths()
}

#[test]
fn a_prepared_file_knows_its_content() {
    let file = prepared("p1/a.parquet", b"abc", scope("p1", DAY));
    assert_eq!(file.relative_path, "p1/a.parquet");
    assert_eq!(file.size_bytes, 3);
    assert_eq!(
        file.sha256,
        "ba7816bf8f01cfea414140de5dae2223b00361a396177a9cb410ff61f20015ad"
    );
    assert_eq!(file.stored_metadata().partition_day, Some("2026-07-21".to_string()));
}

#[test]
fn unstable_files_are_refused() {
    let mut link = observed("a.parquet", b"abc");
    link.requested.is_symlink = true;
    let mut directory = observed("a.parquet", b"abc");
    directory.requested.is_file = false;
    let mut outside = observed("a.parquet", b"abc");
    outside.absolute_path = "/elsewhere/a.parquet".into();
    let mut grown = observed("a.parquet", b"abc");
    grown.current.length = 4;
    for bad in [link, directory, outside, grown] {
        assert!(matches!(
            prepare_file("/lake", &bad, FileScope::LegacyUnknown),
            Err(EventLakeError::InvalidPublication(_))
        ));
    }
}

#[test]
fn publications_are_read_back() {
    let mut lake = empty_lake();
    let id = lake
        .publish_generation(vec![
            candidate("p1/a.parquet", b"a", scope("p1", DAY)),
            candidate("p2/b.parquet", b"b", scope("p2", DAY)),
            candidate("old.parquet", b"c", FileScope::LegacyUnknown),
        ])
        .unwrap();
    assert_eq!(id.get(), 1);
    assert_eq!(lake.current_generation_id(), id);
    assert_eq!(lake.visible_files().len(), 3);
    assert_eq!(paths(&lake, "p1").len(), 2);
    assert!(paths(&lake, "p1").iter().all(|p| !p.contains("p2")));
    assert_eq!(paths(&lake, "p3"), ["/lake/old.parquet"]);
    let lease = lake.acquire(&EventScope::new("p3".into(), DAY, DAY + 1).unwrap());
    assert!(!lease.is_empty());
    assert_eq!(lease.generation_id(), id);
    assert_eq!(lease.files().len(), 1);
}

#[test]
fn a_lease_outlives_the_next_generation() {
    let mut lake = empty_lake();
    lake.publish_generation(vec![candidate("p1/a.parquet", b"a", scope("p1", DAY))]).unwrap();
    let lease = lake.acquire(&EventScope::new("p1".into(), DAY, DAY + 1).unwrap());
    lake.publish_generation(vec![
        candidate("p1/a.parquet", b"a", scope("p1", DAY)),
        candidate("p1/b.parquet", b"b", scope("p1", DAY)),
    ])
    .unwrap();
    assert_eq!(lease.paths().len(), 1);
    assert_eq!(paths(&lake, "p1").len(), 2);
}

#[test]
fn duplicates_are_refused() {
    let twice = vec![
        candidate("p1/a.parquet", b"a", scope("p1", DAY)),
        candidate("p1/a.parquet", b"a", scope("p1", DAY)),
    ];
    assert!(matches!(prepare_publication(twice), Err(EventLakeError::InvalidPublication(_))));
    let mut lake = empty_lake();
    lake.publish_generation(vec![candidate("p1/a.parquet", b"a", scope("p1", DAY))]).unwrap();
    assert!(lake
        .publish_generation(vec![candidate("p1/a.parquet", b"changed", scope("p1", DAY))])
        .is_err());
    assert_eq!(lake.current_generation_id().get(), 1);
}

#[test]
fn a_checksum_follows_the_files() {
    let a = prepared("p1/a.parquet", b"a", scope("p1", DAY));
    let b = prepared("p1/b.parquet", b"b", scope("p1", DAY));
    let one = manifest_checksum(&vec![a]);
    assert_eq!(one.len(), 64);
    assert_ne!(one, manifest_checksum(&vec![b]));
    assert_ne!(one, manifest_checksum(&vec![]));
}

#[test]
fn scopes_are_days_of_a_project() {
    assert!(matches!(
        EventScope::new(" ".into(), DAY, DAY + 1),
        Err(EventLakeError::InvalidScope(_))
    ));
    assert!(EventScope::new("p".into(), DAY, DAY).is_err());
    let s = EventScope::new("p".into(), DAY, DAY + 2).unwrap();
    let file = |scope| PublishedFile::new("f".into(), scope);
    assert!(s.includes(&file(scope("p", DAY))));
    assert!(s.includes(&file(scope("p", DAY + 1))));
    assert!(!s.includes(&file(scope("p", DAY + 2))));
    assert!(!s.includes(&file(scope("q", DAY))));
    assert!(s.includes(&file(FileScope::LegacyUnknown)));
}

#[test]
fn generations_are_numbers_from_zero() {
    assert_eq!(decode_generation(3).unwrap().get(), 3);
    assert!(matches!(decode_generation(-1), Err(EventLakeError::CorruptMetadata(_))));
    assert_eq!(encode_generation(GenerationId::empty()).unwrap(), 0);
}

#[test]
fn paths_are_taken_from_the_root() {
    assert_eq!(candidate_path("/lake", "a.parquet").unwrap(), "/lake/a.parquet");
    assert_eq!(candidate_path("/lake", "/x/a.parquet").unwrap(), "/x/a.parquet");
    assert!(candidate_path("/lake", "").is_err());
    assert_eq!(relative_to("/lake", "/lake/p/a"), Some("p/a".to_string()));
    assert_eq!(relative_to("/lake", "/lakes/a"), None);
    assert_eq!(
        invalid_file_io("open", "/lake/a", "denied").message(),
        "invalid event publication: cannot open /lake/a: denied"
    );
}

#[test]
fn a_snapshot_is_loaded_as_it_was_stored() {
    let a = prepared("p1/a.parquet", b"a", scope("p1", DAY));
    let metadata = a.stored_metadata();
    let rows = vec![LoadedRow { metadata, outcome: Ok(a) }];
    let (id, files) = load_visible_snapshot(4, &rows).unwrap();
    assert_eq!(id.get(), 4);
    assert_eq!(files.len(), 1);
    assert_eq!(files[0].path, "/lake/p1/a.parquet");
    let changed = prepared("p1/a.parquet", b"other", scope("p1", DAY));
    let mut metadata = prepared("p1/a.parquet", b"a", scope("p1", DAY)).stored_metadata();
    assert!(load_visible_snapshot(4, &vec![LoadedRow { metadata, outcome: Ok(changed) }]).is_err());
    let b = prepared("p1/a.parquet", b"a", scope("p1", DAY));
    metadata = b.stored_metadata();
    metadata.partition_day = Some("21 July".into());
    assert!(matches!(
        load_visible_snapshot(4, &vec![LoadedRow { metadata, outcome: Ok(b) }]),
        Err(EventLakeError::CorruptMetadata(_))
    ));
}

#[test]
fn databases_are_checked_before_use() {
    assert!(validate_prebootstrapped_database(1, 2, &None, true).is_err());
    assert!(same_texts(&vec!["a".into()], &vec!["a".into()]));
    assert!(!same_texts(&vec!["a".into()], &vec!["b".into()]));
    assert!(matches!(
        install_event_file_schema(false, false, &vec![], 0, 0),
        Ok(SchemaAction::Create)
    ));
    assert!(install_event_file_schema(true, true, &vec!["odd".into()], 1, 1).is_err());
}

#[test]
fn an_opened_lake_goes_on_from_its_visible_generation() {
    let a = prepared("p1/a.parquet", b"a", scope("p1", DAY));
    let metadata = a.stored_metadata();
    let rows = vec![LoadedRow { metadata, outcome: Ok(a) }];
    let mut lake = VersionedEventLake::open(4, 7, vec![], vec![], &rows).unwrap();
    assert_eq!(lake.current_generation_id().get(), 4);
    assert_eq!(paths(&lake, "p1"), vec!["/lake/p1/a.parquet"]);
    let next = lake
        .publish_generation(vec![candidate("p1/b.parquet", b"b", scope("p1", DAY))])
        .unwrap();
    assert_eq!(next.get(), 5);
    assert_eq!((lake.current, lake.data_epoch), (5, 8));
    assert_eq!(lake.current_generation_id(), next);
    assert!(VersionedEventLake::open(-1, 0, vec![], vec![], &vec![]).is_err());
}
