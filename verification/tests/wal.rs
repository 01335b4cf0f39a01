use hoglet::capture::event::CapturedEvent;
use hoglet::json::JsonMap;
use hoglet::pipeline::layout::{
    active_path, discover_segment_layout, list_segments, padded_text, parse_sequence,
    reclaim_through, sealed_path, validate_cursor,
};
use hoglet::pipeline::log::{PublicationWindow, SealOutcome, SealedRecords, WriteAheadLog};
use hoglet::pipeline::wal::{
    encode_frame, is_false, payloads, read_frame, read_record, scan_segment, CapturedBatch, Frame,
    PayloadVerdict, SegmentScan, WalConfig, WalCursor, WalError, RECORD_HEADER_BYTES,
};
use hoglet::text_map::TextMap;

const MAX: usize = 1024;

fn event(token: &str) -> CapturedEvent {
    CapturedEvent {
        uuid: 7,
        event: "e".into(),
        distinct_id: "u".into(),
        token: token.into(),
        timestamp: 0,
        properties: JsonMap::new(),
    }
}

fn texts(items: &[&str]) -> Vec<String> {
    items.iter().map(|s| s.to_string()).collect()
}

#[test]
fn a_frame_has_its_header() {
    let frame = encode_frame(b"123456789");
    assert_eq!(frame.len(), RECORD_HEADER_BYTES + 9);
    assert_eq!(&frame[..8], b"HGLW\x01\0\0\0");
    assert_eq!(&frame[8..12], &9u32.to_le_bytes());
    assert_eq!(&frame[12..16], &0xcbf4_3926u32.to_le_bytes());
    assert_eq!(&frame[16..], b"123456789");
}

#[test]
fn records_read_back() {
    let mut bytes = encode_frame(b"one");
    let second = bytes.len();
    bytes.extend(encode_frame(b"two"));
    assert_eq!(read_record(&bytes, 0, 1, MAX).unwrap(), Some(b"one".to_vec()));
    assert_eq!(read_record(&bytes, second, 1, MAX).unwrap(), Some(b"two".to_vec()));
    assert_eq!(read_record(&bytes, bytes.len(), 1, MAX).unwrap(), None);
    assert_eq!(payloads(&bytes, MAX), vec![b"one".to_vec(), b"two".to_vec()]);
    assert!(matches!(read_frame(&bytes, bytes.len(), 1, MAX), Ok(Frame::End)));
    assert!(matches!(read_frame(&bytes[..4], 0, 1, MAX), Ok(Frame::TornHeader)));
    assert!(matches!(read_frame(&bytes[..18], 0, 1, MAX), Ok(Frame::TornPayload)));
}

#[test]
fn a_changed_byte_is_corruption() {
    let whole = encode_frame(b"payload");
    for i in 0..whole.len() {
        let mut bytes = whole.clone();
        bytes[i] ^= 1;
        match read_record(&bytes, 0, 3, MAX) {
            Err(WalError::Corruption { segment, byte_offset, .. }) => {
                assert_eq!((segment, byte_offset), (3, 0));
            }
            _ => panic!("byte {i} was not noticed"),
        }
    }
}

#[test]
fn an_oversize_record_is_refused() {
    let bytes = encode_frame(&[0; 20]);
    assert!(read_record(&bytes, 0, 1, 20).is_ok());
    assert!(matches!(read_record(&bytes, 0, 1, 19), Err(WalError::Corruption { .. })));
}

#[test]
fn a_torn_tail_is_cut_where_it_may_be() {
    let mut bytes = encode_frame(b"one");
    let whole = bytes.len() as u64;
    bytes.extend(&encode_frame(b"two")[..10]);
    let verdicts = vec![PayloadVerdict::Batch];
    let scan = scan_segment(&bytes, 1, MAX, true, &verdicts).unwrap();
    assert_eq!((scan.valid_bytes, scan.truncated_tail), (whole, true));
    assert!(matches!(
        scan_segment(&bytes, 1, MAX, false, &verdicts),
        Err(WalError::Corruption { byte_offset, .. }) if byte_offset == whole
    ));
    let scan = scan_segment(&bytes[..whole as usize], 1, MAX, false, &verdicts).unwrap();
    assert_eq!((scan.valid_bytes, scan.truncated_tail), (whole, false));
}

#[test]
fn a_crash_at_any_byte_loses_nothing_recorded() {
    let recorded = encode_frame(b"one");
    let last = encode_frame(b"two");
    let verdicts = vec![PayloadVerdict::Batch, PayloadVerdict::Batch];
    for written in 0..=last.len() {
        let mut bytes = recorded.clone();
        bytes.extend(&last[..written]);
        let scan = scan_segment(&bytes, 1, MAX, true, &verdicts).unwrap();
        let kept = payloads(&bytes[..scan.valid_bytes as usize], MAX);
        assert_eq!(kept[0], b"one");
        assert_eq!(kept.len(), if written == last.len() { 2 } else { 1 });
        assert_eq!(scan.truncated_tail, written > 0 && written < last.len());
    }
}

#[test]
fn bad_payloads_stop_a_scan() {
    let bytes = encode_frame(b"one");
    assert!(scan_segment(&bytes, 1, MAX, true, &vec![PayloadVerdict::Empty]).is_err());
    assert!(scan_segment(&bytes, 1, MAX, true, &vec![PayloadVerdict::Invalid]).is_err());
}

#[test]
fn segments_have_names() {
    assert_eq!(padded_text(42, 5), "00042");
    assert_eq!(active_path(7), "0000000000000007.open");
    assert_eq!(sealed_path(7), "0000000000000007.wal");
    assert_eq!(parse_sequence(&sealed_path(7), ".wal"), Some(7));
    assert_eq!(parse_sequence("7.wal", ".wal"), None);
    assert_eq!(parse_sequence(&sealed_path(7), ".open"), None);
}

#[test]
fn a_layout_has_no_gaps() {
    let layout = discover_segment_layout(&vec![
        sealed_path(1),
        active_path(3),
        sealed_path(2),
        "writer.lock".into(),
    ])
    .unwrap();
    assert_eq!(layout.sealed.iter().map(|s| s.0).collect::<Vec<_>>(), [1, 2]);
    assert_eq!(layout.active.as_ref().map(|s| s.0), Some(3));
    assert!(matches!(
        discover_segment_layout(&vec![sealed_path(1), sealed_path(3)]),
        Err(WalError::Corruption { .. })
    ));
    assert!(discover_segment_layout(&vec![active_path(1), active_path(2)]).is_err());
    assert_eq!(list_segments(&texts(&["x"]), ".wal").len(), 0);
}

#[test]
fn a_cursor_stands_on_a_record() {
    let layout = discover_segment_layout(&vec![sealed_path(1)]).unwrap();
    let bytes = encode_frame(b"one");
    let verdicts = vec![PayloadVerdict::Batch];
    let end = bytes.len() as u64;
    assert!(validate_cursor(&layout, WalCursor::new(1, 0), &bytes, MAX, &verdicts).is_ok());
    assert!(validate_cursor(&layout, WalCursor::new(1, end), &bytes, MAX, &verdicts).is_ok());
    assert!(validate_cursor(&layout, WalCursor::new(1, 5), &bytes, MAX, &verdicts).is_err());
    assert!(validate_cursor(&layout, WalCursor::new(9, 0), &bytes, MAX, &verdicts).is_err());
}

#[test]
fn covered_segments_are_reclaimed() {
    let layout = discover_segment_layout(&vec![sealed_path(1), sealed_path(2)]).unwrap();
    assert_eq!(reclaim_through(&layout, WalCursor::new(2, 0), 50), [1]);
    assert_eq!(reclaim_through(&layout, WalCursor::new(2, 50), 50), [1, 2]);
    assert!(reclaim_through(&layout, WalCursor::new(1, 10), 50).is_empty());
}

fn log_of(config: WalConfig) -> WriteAheadLog {
    let layout = discover_segment_layout(&vec![]).unwrap();
    WriteAheadLog::open(config, &layout, None).unwrap().0
}

#[test]
fn appending_moves_the_log() {
    let mut log = log_of(WalConfig::new(100, 1000).unwrap());
    let plan = log.plan_append(2, 40).unwrap();
    assert!(!plan.seal_first);
    assert_eq!(plan.framed_bytes, 56);
    let receipt = log.finish_append(plan, true, "").unwrap();
    assert_eq!(receipt.event_count, 2);
    assert_eq!(receipt.span.end.byte_offset, 56);
    let plan = log.plan_append(1, 40).unwrap();
    assert!(plan.seal_first);
    let before = log.sequence;
    log.finish_seal(SealOutcome { renamed: true, opened: true }, "").unwrap();
    assert_eq!((log.sequence, log.bytes), (before + 1, 0));
}

#[test]
fn appends_are_refused() {
    let mut log = log_of(WalConfig::new(100, 1000).unwrap());
    assert!(matches!(log.plan_append(0, 2), Err(WalError::EmptyBatch)));
    match log.plan_append(1, 1001) {
        Err(e) => assert_eq!(e.message(), "WAL record is 1001 bytes; maximum is 1000"),
        Ok(_) => panic!("an oversize record"),
    }
    let plan = log.plan_append(1, 10).unwrap();
    assert!(matches!(
        log.finish_append(plan, false, "disk full"),
        Err(WalError::Io(m)) if m == "disk full"
    ));
    assert!(matches!(log.plan_append(1, 10), Err(WalError::Poisoned)));
    assert!(matches!(log.plan_seal(), Err(WalError::Poisoned)));
    assert!(matches!(WalConfig::new(0, 1), Err(WalError::InvalidConfig)));
    assert!(matches!(WalConfig::new(1, 0), Err(WalError::InvalidConfig)));
}

#[test]
fn an_active_segment_is_taken_up_again() {
    let layout = discover_segment_layout(&vec![sealed_path(4), active_path(5)]).unwrap();
    let (log, recovery) = WriteAheadLog::open(
        WalConfig::new(100, 100).unwrap(),
        &layout,
        Some(SegmentScan { valid_bytes: 33, truncated_tail: true }),
    )
    .unwrap();
    assert_eq!((log.sequence, log.bytes), (5, 33));
    assert!(recovery.truncated_tail);
}

#[test]
fn sealed_records_are_read_in_order() {
    let mut first = encode_frame(b"a");
    first.extend(encode_frame(b"b"));
    let segments = vec![(1, first.clone()), (2, encode_frame(b"c"))];
    let mut records = SealedRecords::open(segments, Some(3), WalCursor::new(1, 0), MAX);
    let mut seen = Vec::new();
    while let Some(record) = records.next() {
        seen.push(record.unwrap().payload);
    }
    assert_eq!(seen, [b"a".to_vec(), b"b".to_vec(), b"c".to_vec()]);
    assert_eq!(records.next_cursor(), WalCursor::new(3, 0));

    let from = WalCursor::new(1, encode_frame(b"a").len() as u64);
    let mut records = SealedRecords::open(vec![(1, first)], None, from, MAX);
    assert_eq!(records.next_record().unwrap().unwrap().payload, b"b");
}

#[test]
fn reading_resumes_at_every_checkpoint() {
    let mut first = encode_frame(b"a");
    first.extend(encode_frame(b"b"));
    let mut third = encode_frame(b"c");
    third.extend(encode_frame(b"d"));
    let segments = || vec![(1, first.clone()), (2, vec![]), (3, third.clone())];
    for active in [Some(4), None] {
        let mut checkpoint = WalCursor::new(1, 0);
        let mut seen = Vec::new();
        loop {
            let records = SealedRecords::open(segments(), active, checkpoint, MAX);
            let mut window = PublicationWindow::open(records, 1).unwrap();
            match window.next() {
                Some(record) => seen.push(record.unwrap().payload),
                None => break,
            }
            checkpoint = window.next_cursor();
        }
        assert_eq!(seen, [b"a".to_vec(), b"b".to_vec(), b"c".to_vec(), b"d".to_vec()]);
        let end = if active.is_some() { WalCursor::new(4, 0) } else { WalCursor::new(3, 34) };
        assert_eq!(checkpoint, end);
    }
}

#[test]
fn a_window_stops_at_its_budget() {
    let mut bytes = encode_frame(b"a");
    bytes.extend(encode_frame(b"b"));
    let open = |budget| {
        let records =
            SealedRecords::open(vec![(1, bytes.clone())], Some(2), WalCursor::new(1, 0), MAX);
        PublicationWindow::open(records, budget)
    };
    assert!(matches!(open(0), Err(WalError::InvalidConfig)));
    let mut window = open(20).unwrap();
    assert_eq!(window.next().unwrap().unwrap().payload, b"a");
    assert!(window.next().is_none());
    assert_eq!(window.framed_bytes(), 17);
    assert_eq!(window.next_cursor(), WalCursor::new(1, 17));
    let mut window = open(1).unwrap();
    assert_eq!(window.next().unwrap().unwrap().payload, b"a");
    assert!(window.next().is_none());
}

#[test]
fn authorized_batches_bind_every_event() {
    assert!(matches!(CapturedBatch::new(vec![]), Err(WalError::EmptyBatch)));
    let mut bindings = TextMap::new();
    bindings.insert("phc_t", "p1");
    let batch = CapturedBatch::authorized(vec![event("phc_t")], bindings, true).unwrap();
    assert_eq!(batch.event_count(), 1);
    assert!(batch.historical_migration());
    assert_eq!(batch.project_id_for(&event("phc_t")).map(|s| s.as_str()), Some("p1"));
    assert!(batch.project_id_for(&event("phc_x")).is_none());
    assert!(matches!(
        CapturedBatch::authorized(vec![event("phc_x")], TextMap::new(), false),
        Err(WalError::InvalidProjectBinding)
    ));
    assert!(is_false(&false));
}

#[test]
fn cursors_are_in_log_order() {
    let cursor = WalCursor::new;
    assert!(cursor(1, 50) < cursor(2, 0));
    assert!(cursor(2, 0) < cursor(2, 1));
    assert!(cursor(2, 1) <= cursor(2, 1));
    assert!(cursor(3, 0) > cursor(2, 99));
    assert!(WalCursor::origin() == cursor(1, 0));
    let mut cursors = vec![cursor(2, 0), cursor(1, 7), cursor(1, 3)];
    cursors.sort();
    assert_eq!(cursors, vec![cursor(1, 3), cursor(1, 7), cursor(2, 0)]);
}

#[test]
fn a_window_gives_the_longest_run_that_fits() {
    let mut bytes = Vec::new();
    for payload in [b"a", b"b", b"c"] {
        bytes.extend(encode_frame(payload));
    }
    let open = |budget| {
        let records =
            SealedRecords::open(vec![(1, bytes.clone())], Some(2), WalCursor::new(1, 0), MAX);
        PublicationWindow::open(records, budget).unwrap()
    };
    for (budget, count, checkpoint) in [
        (1, 1, WalCursor::new(1, 17)),
        (33, 1, WalCursor::new(1, 17)),
        (34, 2, WalCursor::new(1, 34)),
        (50, 2, WalCursor::new(1, 34)),
        (51, 3, WalCursor::new(2, 0)),
        (u64::MAX, 3, WalCursor::new(2, 0)),
    ] {
        let mut window = open(budget);
        let (records, fault) = window.drain();
        assert!(fault.is_none());
        assert_eq!(records.len(), count);
        assert_eq!(window.framed_bytes(), 17 * count as u64);
        assert_eq!(window.next_cursor(), checkpoint);
        assert!(window.next().is_none());
        for pair in records.windows(2) {
            assert!(pair[0].span.end <= pair[1].span.start);
        }
    }
    bytes.push(7);
    let records = SealedRecords::open(vec![(1, bytes)], Some(2), WalCursor::new(1, 0), MAX);
    let (given, fault) = PublicationWindow::open(records, 1000).unwrap().drain();
    assert_eq!(given.len(), 3);
    assert!(matches!(fault, Some(WalError::Corruption { byte_offset: 51, .. })));
}

#[test]
fn appends_follow_each_other() {
    let mut log = log_of(WalConfig::new(40, 30).unwrap());
    let mut receipts = Vec::new();
    for _ in 0..3 {
        let plan = log.plan_append(1, 4).unwrap();
        if plan.seal_first {
            log.finish_seal(SealOutcome { renamed: true, opened: true }, "").unwrap();
        }
        receipts.push(log.finish_append(plan, true, "").unwrap());
    }
    assert_eq!(receipts[0].span.end, WalCursor::new(1, 20));
    assert_eq!(receipts[1].span.start, receipts[0].span.end);
    assert_eq!(receipts[1].span.end, WalCursor::new(1, 40));
    assert_eq!(receipts[2].span.start, WalCursor::new(2, 0));
    assert_eq!((receipts[2].span.framed_bytes, receipts[2].event_count), (20, 1));
}

#[test]
fn an_append_is_taken_as_a_whole() {
    let done = SealOutcome { renamed: true, opened: true };
    let mut log = log_of(WalConfig::new(40, 30).unwrap());
    let first = log.append(2, 14, done, true, "").unwrap();
    assert_eq!((first.span.start, first.span.end), (WalCursor::new(1, 0), WalCursor::new(1, 30)));
    assert_eq!(first.event_count, 2);
    let second = log.append(1, 14, done, true, "").unwrap();
    assert_eq!(second.span.start, WalCursor::new(2, 0));
    assert!(matches!(log.append(0, 14, done, true, ""), Err(WalError::EmptyBatch)));
    assert_eq!((log.sequence, log.bytes), (2, 30));

    let mut unsealed = log;
    let outcome = SealOutcome { renamed: false, opened: false };
    match unsealed.append(1, 14, outcome, false, "disk full") {
        Err(WalError::Io(text)) => assert_eq!(text, "disk full"),
        _ => panic!("the segment was not sealed"),
    }
    assert!(unsealed.poisoned && unsealed.sequence == 2);
    assert!(log.append(1, 4, done, false, "torn").is_err());
    assert!(matches!(log.append(1, 4, done, true, ""), Err(WalError::Poisoned)));
}
