use hoglet::capture::event::CapturedEvent;
use hoglet::catalog::CatalogStore;
use hoglet::flush::{FlushError, FlushRun, FlushStep};
use hoglet::json::JsonMap;

const NOW: i128 = 1_784_635_200_000_000_000;

fn event(name: &str) -> CapturedEvent {
    event_of(name, "phc_t")
}

fn event_of(name: &str, token: &str) -> CapturedEvent {
    CapturedEvent {
        uuid: uuid::Uuid::new_v4().as_u128(),
        event: name.into(),
        distinct_id: "u1".into(),
        token: token.into(),
        timestamp: NOW,
        properties: JsonMap::new(),
    }
}

/// The segments that wait and the files that were written.
struct Disk {
    segments: Vec<Vec<CapturedEvent>>,
    files: Vec<Vec<String>>,
}

impl Disk {
    fn flush_once(&mut self, mut catalog: Option<&mut CatalogStore>) -> usize {
        let mut run = FlushRun::begin(&self.segments, catalog.is_some(), false);
        let mut left = self.segments.len();
        while let Some(step) = run.next() {
            match step {
                FlushStep::Write => {
                    self.files.push(run.events.iter().map(|e| e.event.clone()).collect())
                }
                FlushStep::Catalog(i) => {
                    if let Some(catalog) = catalog.as_mut() {
                        catalog.ingest(&run.token_events(i), &run.tokens[i], NOW);
                    }
                }
                FlushStep::Remove(_) => left -= 1,
                FlushStep::Sessions(_) | FlushStep::Compact => {}
            }
            run.advance(None).unwrap();
        }
        self.segments.truncate(left);
        run.flushed()
    }
}

#[test]
fn wal_events_end_up_in_parquet_and_wal_empties() {
    let mut disk = Disk {
        segments: vec![vec![event("a"), event("b")], vec![event("c")]],
        files: vec![],
    };
    assert_eq!(disk.flush_once(None), 3);
    assert_eq!(disk.files.len(), 1);
    assert_eq!(disk.files[0].len(), 3);
    assert!(disk.segments.is_empty());
}

#[test]
fn flush_with_nothing_pending_is_noop() {
    let mut disk = Disk { segments: vec![], files: vec![] };
    assert_eq!(disk.flush_once(None), 0);
    assert!(disk.files.is_empty());
}

#[test]
fn unflushed_events_from_previous_run_get_flushed() {
    let mut disk = Disk { segments: vec![vec![event("survivor")]], files: vec![] };
    assert_eq!(disk.flush_once(None), 1);
    assert_eq!(disk.files[0][0], "survivor");
}

#[test]
fn catalog_updated_during_flush() {
    let mut disk = Disk { segments: vec![vec![event("pageview"), event("click")]], files: vec![] };
    let mut catalog = CatalogStore::open_in_memory();
    disk.flush_once(Some(&mut catalog));
    assert_eq!(disk.files.len(), 1);
    assert_eq!(catalog.all_event_names("phc_t").len(), 2);
}

#[test]
fn a_failed_write_removes_nothing() {
    let segments = vec![vec![event("a")]];
    let mut run = FlushRun::begin(&segments, false, false);
    assert_eq!(run.next(), Some(FlushStep::Write));
    match run.advance(Some("disk full".into())) {
        Err(FlushError::Io(message)) => assert_eq!(message, "disk full"),
        _ => panic!("a failed write goes on"),
    }
    assert_eq!(run.next(), Some(FlushStep::Write));
}

#[test]
fn every_token_gets_its_events() {
    let segments = vec![vec![event_of("a", "phc_x"), event_of("b", "phc_y")], vec![event_of("c", "phc_x")]];
    let run = FlushRun::begin(&segments, true, true);
    assert_eq!(run.tokens, ["phc_x", "phc_y"]);
    let names: Vec<String> = run.token_events(0).into_iter().map(|e| e.event).collect();
    assert_eq!(names, ["a", "c"]);
    let names: Vec<String> = run.token_events(1).into_iter().map(|e| e.event).collect();
    assert_eq!(names, ["b"]);
    assert!(matches!(run.steps.last(), Some(FlushStep::Compact) | Some(FlushStep::Remove(_))));
}
