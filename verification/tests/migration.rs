use hoglet::control::access::ProjectAccess;
use hoglet::event_lake::FileKind;
use hoglet::legacy_import::{LegacyImportError, LegacyImportReport};
use hoglet::migration::{
    completion_marker, completion_marker_path, control_import_error, ensure_legacy_manifest,
    has_extension, lock_error, lock_path, migrate_legacy_storage, plan_route, rename_new,
    route_steps, source_fingerprint, staging_path, validate_candidate, validate_legacy_manifest,
    validate_marker, validate_sqlite, verify_source_fingerprint, write_marker_last, DatabaseCheck,
    FilesPresent, FoundMarker, LegacyDiscovery, ManifestAction, ManifestRow, MigrationError,
    MigrationRun, MigrationStep, Route, SourceFile, StepResult, StorageDisposition,
    StorageMetadata,
};

const NOTHING: FilesPresent = FilesPresent {
    control: false,
    projections: false,
    shadow_control: false,
    shadow_projections: false,
    marker: false,
};

fn metadata(pair: &str) -> StorageMetadata {
    StorageMetadata { pair_id: pair.into(), current_generation_id: 0, data_epoch: 0 }
}

fn check_of(path: &str) -> DatabaseCheck {
    DatabaseCheck { path: path.into(), integrity: "ok".into(), violation: None }
}

fn source(path: &str, content: &[u8]) -> SourceFile {
    let kind = FileKind { is_symlink: false, is_file: true, length: content.len() as u64 };
    SourceFile { path: path.into(), before: kind, content: content.to_vec(), after: kind }
}

#[test]
fn the_files_of_a_migration() {
    assert_eq!(completion_marker_path("/d"), "/d/migration-v2-complete.json");
    assert_eq!(lock_path("/d"), "/d/migration-v2.lock");
    assert_eq!(staging_path("/d/control.db"), "/d/control.db.migrating");
    assert!(has_extension("a.parquet", "parquet"));
    assert!(!has_extension("parquet", "parquet"));
    assert!(!has_extension("a.parquet.tmp", "parquet"));
}

#[test]
fn routes_follow_what_is_there() {
    let incomplete = StorageDisposition::MigrationIncomplete;
    let route = |d: &StorageDisposition, f: FilesPresent| plan_route(d, f).unwrap();
    assert_eq!(route(&StorageDisposition::LegacyOnly, NOTHING), Route::Begin);
    assert_eq!(
        route(&incomplete, FilesPresent { shadow_control: true, shadow_projections: true, ..NOTHING }),
        Route::ResumeShadow
    );
    assert!(matches!(
        plan_route(&incomplete, FilesPresent { shadow_projections: true, ..NOTHING }),
        Err(MigrationError::UnsupportedIncomplete(_))
    ));
    assert_eq!(
        route(&incomplete, FilesPresent { projections: true, shadow_control: true, ..NOTHING }),
        Route::ResumePublished
    );
    assert_eq!(route(&StorageDisposition::ReadyV2(metadata("p")), NOTHING), Route::Finish);
    assert!(matches!(
        plan_route(&StorageDisposition::Fresh, NOTHING),
        Err(MigrationError::NotLegacy(_))
    ));
    match plan_route(&incomplete, FilesPresent { control: true, ..NOTHING }) {
        Err(e) => assert!(e.message().contains("found control=true, projections=false"), "{}", e.message()),
        Ok(_) => panic!("a pair that cannot be"),
    }
}

#[test]
fn projections_are_published_before_control_and_the_marker_comes_last() {
    for route in [Route::Begin, Route::ResumeShadow, Route::ResumePublished, Route::Finish] {
        let steps = route_steps(route);
        assert_eq!(steps.last(), Some(&MigrationStep::WriteMarker));
        let place = |wanted: MigrationStep| steps.iter().position(|s| *s == wanted);
        if let (Some(a), Some(b)) =
            (place(MigrationStep::PublishProjections), place(MigrationStep::PublishControl))
        {
            assert!(a < b);
        }
    }
}

#[test]
fn a_run_reports_at_its_end() {
    let discovery = LegacyDiscovery { discovered_tokens: 2, source_fingerprint: "f".into() };
    let mut run =
        MigrationRun::plan(StorageDisposition::LegacyOnly, NOTHING, discovery).unwrap();
    assert_eq!(run.next(), Some(MigrationStep::Bootstrap));
    while let Some(step) = run.next() {
        assert!(run.report().is_none());
        let result = match step {
            MigrationStep::Bootstrap => StepResult::Metadata(metadata("pair")),
            MigrationStep::ImportControl(_) => StepResult::Imported(LegacyImportReport {
                users: 1,
                organizations: 1,
                projects: 2,
                personal_keys: 0,
                sessions: 0,
            }),
            _ => StepResult::Done,
        };
        run.advance(result).unwrap();
    }
    let report = run.report().unwrap();
    assert_eq!(report.pair_id, "pair");
    assert_eq!(report.discovered_tokens, 2);
    assert!(!report.resumed && !report.already_complete);
    assert_eq!(report.imported.unwrap().projects, 2);
}

#[test]
fn a_failed_step_stops_a_run() {
    let discovery = LegacyDiscovery { discovered_tokens: 0, source_fingerprint: "f".into() };
    let mut run =
        MigrationRun::plan(StorageDisposition::LegacyOnly, NOTHING, discovery).unwrap();
    assert!(matches!(
        run.advance(StepResult::Failed(MigrationError::Storage("x".into()))),
        Err(MigrationError::Storage(_))
    ));
    assert_eq!(run.next(), Some(MigrationStep::Bootstrap));
}

#[test]
fn a_finished_migration_is_recognised() {
    let ready = StorageDisposition::ReadyV2(metadata("pair"));
    let found = |pair: &str| {
        Some(FoundMarker {
            marker: completion_marker(pair, 3, "print", 9),
            source_fingerprint: "print".into(),
        })
    };
    let report = migrate_legacy_storage(&ready, &found("pair"), true).unwrap().unwrap();
    assert!(report.already_complete);
    assert_eq!(report.discovered_tokens, 3);
    assert!(matches!(
        migrate_legacy_storage(&ready, &found("other"), true),
        Err(MigrationError::InvalidMarker(_))
    ));
    assert!(migrate_legacy_storage(&StorageDisposition::LegacyOnly, &None, true).unwrap().is_none());
    assert!(matches!(
        migrate_legacy_storage(&StorageDisposition::Fresh, &None, true),
        Err(MigrationError::NotLegacy(_))
    ));
    assert!(matches!(
        migrate_legacy_storage(&StorageDisposition::LegacyOnly, &None, false),
        Err(MigrationError::NotLegacy(_))
    ));
}

#[test]
fn markers_are_written_once() {
    let marker = completion_marker("pair", 1, "print", 5);
    assert_eq!(marker.migration, "legacy-v1-to-v2");
    assert!(validate_marker(&marker, "pair", "print").is_ok());
    assert!(validate_marker(&marker, "pair", "other").is_err());
    assert!(write_marker_last(&None, &marker).unwrap());
    assert!(!write_marker_last(&Some(completion_marker("pair", 1, "print", 4)), &marker).unwrap());
    assert!(write_marker_last(&Some(completion_marker("x", 1, "print", 4)), &marker).is_err());
}

#[test]
fn candidates_are_checked_before_they_are_published() {
    let access = ProjectAccess::new();
    let prepared = Some(("pair".to_string(), 1));
    let mut broken = check_of("control");
    broken.integrity = "row missing".into();
    assert!(validate_candidate(
        &metadata("pair"),
        &metadata("other"),
        &check_of("control"),
        &check_of("projections"),
        &prepared,
        &access,
        &vec![],
    )
    .is_err());
    assert!(validate_candidate(
        &metadata("pair"),
        &metadata("pair"),
        &broken,
        &check_of("projections"),
        &prepared,
        &access,
        &vec![],
    )
    .is_err());
    assert!(validate_candidate(
        &metadata("pair"),
        &metadata("pair"),
        &check_of("control"),
        &check_of("projections"),
        &None,
        &access,
        &vec![],
    )
    .is_err());
    match validate_sqlite(&broken) {
        Err(e) => assert!(e.message().contains("control failed integrity_check: row missing")),
        Ok(()) => panic!("a broken database"),
    }
    let mut violated = check_of("control");
    violated.violation = Some("projects".into());
    assert!(validate_sqlite(&violated).is_err());
    assert!(validate_sqlite(&check_of("control")).is_ok());
}

#[test]
fn the_manifest_covers_the_files() {
    assert_eq!(ensure_legacy_manifest(0, 0), ManifestAction::Nothing);
    assert_eq!(ensure_legacy_manifest(0, 2), ManifestAction::Publish);
    assert_eq!(ensure_legacy_manifest(1, 2), ManifestAction::Validate);
    let row = |path: &str, project: Option<&str>| ManifestRow {
        relative_path: path.into(),
        project_id: project.map(|p| p.to_string()),
        partition_day: None,
    };
    let files = vec!["/e/b.parquet".to_string(), "/e/a.parquet".to_string()];
    let covering = vec![row("a.parquet", None), row("b.parquet", None)];
    assert!(validate_legacy_manifest(1, "/e", &files, &covering).is_ok());
    assert!(validate_legacy_manifest(1, "/e", &files, &vec![row("a.parquet", None)]).is_err());
    let scoped = vec![row("a.parquet", Some("p")), row("b.parquet", None)];
    assert!(validate_legacy_manifest(1, "/e", &files, &scoped).is_err());
    assert!(validate_legacy_manifest(0, "/e", &vec![], &vec![]).is_ok());
}

#[test]
fn a_fingerprint_is_of_the_files() {
    let of = |files| source_fingerprint("/d", files).unwrap();
    let one = of(vec![source("/d/a", b"1"), source("/d/b", b"2")]);
    assert_eq!(one.len(), 64);
    assert_eq!(one, of(vec![source("/d/b", b"2"), source("/d/a", b"1")]));
    assert_ne!(one, of(vec![source("/d/a", b"1"), source("/d/b", b"3")]));
    assert_ne!(one, of(vec![source("/d/a", b"1")]));
    let mut moving = source("/d/a", b"1");
    moving.after.length = 2;
    assert!(source_fingerprint("/d", vec![moving]).is_err());
    assert!(verify_source_fingerprint("x", "x").is_ok());
    assert!(verify_source_fingerprint("x", "y").is_err());
}

#[test]
fn the_errors_of_a_migration() {
    assert!(matches!(lock_error(true, "/l", "m"), MigrationError::Locked(p) if p == "/l"));
    assert!(matches!(lock_error(false, "/l", "m"), MigrationError::Io { .. }));
    assert!(rename_new(false, "/t").is_ok());
    assert!(matches!(rename_new(true, "/t"), Err(MigrationError::UnsupportedIncomplete(_))));
    let error = control_import_error("/d", LegacyImportError::InvalidToken("t".into()));
    assert!(!error.message().is_empty());
}
