use hoglet::event_lake::FileKind;
use hoglet::legacy_discovery::{
    discover_all_legacy_tokens, LegacyEventFile, LegacyLog, LegacySegmentFile,
};
use hoglet::migration::{MigrationError, SourceFile};
use hoglet::text_map::TextMap;

fn texts(items: &[&str]) -> Vec<String> {
    items.iter().map(|s| s.to_string()).collect()
}

fn file(name: &str, tokens: &[&str]) -> LegacyEventFile {
    LegacyEventFile { name: name.into(), path: format!("/d/events/{name}"), tokens: Ok(texts(tokens)) }
}

fn segment(name: &str, tokens: &[&str]) -> LegacySegmentFile {
    LegacySegmentFile {
        name: name.into(),
        path: format!("/d/wal/{name}"),
        is_file: true,
        is_segment_name: true,
        tokens: Ok(texts(tokens)),
    }
}

fn source() -> Vec<SourceFile> {
    let kind = FileKind { is_symlink: false, is_file: true, length: 1 };
    vec![SourceFile { path: "/d/auth.db".into(), before: kind, content: vec![1], after: kind }]
}

#[test]
fn tokens_come_from_everywhere_once() {
    let found = discover_all_legacy_tokens(
        "/d",
        &texts(&["phc_b", "phc_a"]),
        &vec![file("z.parquet", &["phc_c", "phc_a"]), file("a.parquet", &[]), file("notes.txt", &["phc_x"])],
        "/d/wal",
        LegacyLog::Entries(vec![segment("2.wal", &["phc_d"]), segment("x.tmp", &["phc_y"])]),
        &TextMap::new(),
        source(),
    )
    .unwrap();
    assert_eq!(found.tokens, ["phc_a", "phc_b", "phc_c", "phc_d"]);
    assert_eq!(found.parquet_files, ["/d/events/a.parquet", "/d/events/z.parquet"]);
    assert_eq!(found.source_fingerprint.len(), 64);
}

#[test]
fn what_cannot_be_read_stops_the_discovery() {
    let discover = |files, log, faults: &TextMap| {
        match discover_all_legacy_tokens("/d", &texts(&["phc_a"]), &files, "/d/wal", log, faults, source()) {
            Err(MigrationError::InvalidLegacyData { path, detail }) => (path, detail),
            _ => panic!("nothing was noticed"),
        }
    };
    let mut broken = file("a.parquet", &[]);
    broken.tokens = Err("no footer".into());
    assert_eq!(
        discover(vec![broken], LegacyLog::Missing, &TextMap::new()),
        ("/d/events/a.parquet".to_string(), "no footer".to_string())
    );
    assert_eq!(
        discover(vec![], LegacyLog::NotADirectory, &TextMap::new()),
        ("/d/wal".to_string(), "legacy WAL path is not a directory".to_string())
    );
    let mut odd = segment("odd.wal", &[]);
    odd.is_segment_name = false;
    assert_eq!(
        discover(vec![], LegacyLog::Entries(vec![segment("1.wal", &[]), odd]), &TextMap::new()),
        ("/d/wal/odd.wal".to_string(), "unsupported WAL segment name or format".to_string())
    );
    let mut faults = TextMap::new();
    faults.insert("phc_a", "TooShort");
    assert_eq!(
        discover(vec![], LegacyLog::Missing, &faults),
        ("/d".to_string(), "a discovered capture token is invalid: TooShort".to_string())
    );
}
