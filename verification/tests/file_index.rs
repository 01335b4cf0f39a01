use hoglet::file_index::{DayDirectory, FileIndex, FoundFile, TopEntry};

fn day(dir: &str, name: &str, files: &[&str]) -> DayDirectory {
    DayDirectory {
        name: name.into(),
        files: Some(
            files
                .iter()
                .map(|f| FoundFile { name: f.to_string(), path: format!("{dir}/{name}/{f}") })
                .collect(),
        ),
    }
}

fn layout() -> Option<Vec<TopEntry>> {
    Some(vec![
        TopEntry::Directory(
            "phc_x".into(),
            Some(vec![day("phc_x", "2026-07-21", &["a.parquet", "b.parquet"])]),
        ),
        TopEntry::Directory(
            "phc_y".into(),
            Some(vec![day("phc_y", "2026-07-21", &["c.parquet"])]),
        ),
        TopEntry::File("legacy.parquet".into()),
    ])
}

#[test]
fn rebuild_reads_the_partition_layout() {
    let mut idx = FileIndex::new();
    let before = idx.read_version();
    idx.rebuild_from_dir(&layout());
    assert!(
        idx.read_version() > before,
        "version must move so caches invalidate"
    );

    assert_eq!(idx.list_files("phc_x").len(), 3);
    assert_eq!(idx.list_files("phc_y").len(), 2);
    assert_eq!(idx.list_files("phc_unknown").len(), 1);
    assert!(idx.list_files("phc_x").iter().all(|f| !f.contains("phc_y")));
}

#[test]
fn added_files_are_listed_and_move_the_version() {
    let mut idx = FileIndex::new();
    idx.rebuild_from_dir(&layout());
    let before = idx.read_version();
    idx.add_files("phc_x", "2026-07-22", &vec!["d.parquet".into()]);
    assert_eq!(idx.list_files("phc_x").len(), 4);
    assert!(idx.read_version() > before);
    let before = idx.read_version();
    idx.bump();
    assert!(idx.read_version() > before);
}

#[test]
fn other_entries_are_passed_over() {
    let mut idx = FileIndex::new();
    idx.rebuild_from_dir(&Some(vec![
        TopEntry::File("notes.txt".into()),
        TopEntry::Other,
        TopEntry::Directory("phc_x".into(), None),
        TopEntry::Directory(
            "phc_y".into(),
            Some(vec![day("phc_y", "2026-07-21", &["c.parquet", "c.tmp"])]),
        ),
    ]));
    assert!(idx.list_files("phc_x").is_empty());
    assert_eq!(idx.list_files("phc_y"), ["phc_y/2026-07-21/c.parquet"]);
}

#[test]
fn listings_go_by_day_and_keep_the_order_of_a_day() {
    let mut idx = FileIndex::new();
    let names = |list: &[&str]| -> Vec<String> { list.iter().map(|n| n.to_string()).collect() };
    idx.add_files("phc_x", "2026-07-22", &names(&["d", "c"]));
    idx.add_files("*", "*", &names(&["old"]));
    idx.add_files("phc_x", "2026-07-21", &names(&["b", "b"]));
    idx.add_files("phc_y", "2026-07-21", &names(&["y"]));
    idx.add_files("phc_x", "2026-07-22", &names(&["a"]));
    assert_eq!(idx.list_files("phc_x"), names(&["b", "b", "d", "c", "a", "old"]));
    let other = idx.list_files("phc_y");
    let before = idx.read_version();
    idx.add_files("phc_x", "2026-07-20", &names(&[]));
    assert_eq!(idx.read_version(), before + 1);
    idx.add_files("phc_x", "2026-07-20", &names(&["first"]));
    assert_eq!(idx.list_files("phc_x")[0], "first");
    assert_eq!(idx.list_files("phc_y"), other);
}
