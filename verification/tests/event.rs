use hoglet::capture::event::{
    instant, parse_body, parse_sent_at_ms, parse_timestamp, resolve_distinct_id, uuid_v7_at,
    CaptureError, ParsedBatch,
};
use hoglet::json::{Json, JsonMap};
use hoglet::pipeline::materialize::event_day;

const SECOND: i128 = 1_000_000_000;

/// 2026-07-21T12:00:00Z
fn now() -> i128 {
    1_784_635_200 * SECOND
}

fn accepted() -> Vec<String> {
    ["phc_t", "phc_batch", "phc_other", "phc_1", "phc_2"]
        .iter()
        .map(|t| t.to_string())
        .collect()
}

fn parse(body: &str) -> Result<ParsedBatch, CaptureError> {
    parse_body(body, None, now(), &accepted())
}

fn fault(body: &str) -> CaptureError {
    match parse(body) {
        Ok(_) => panic!("{body} was accepted"),
        Err(e) => e,
    }
}

#[test]
fn bare_array_shape() {
    let batch = parse(
        r#"[{"event":"click","distinct_id":"u1","properties":{"token":"phc_t"}}]"#,
    )
    .unwrap();
    assert_eq!(batch.events.len(), 1);
    assert_eq!(batch.events[0].event, "click");
    assert_eq!(batch.events[0].token, "phc_t");
}

#[test]
fn batch_shape_token_wins() {
    let batch = parse(
        r#"{"api_key":"phc_batch","batch":[{"event":"e1","distinct_id":"u1","properties":{"token":"phc_other"}}]}"#,
    )
    .unwrap();
    assert_eq!(batch.events[0].token, "phc_batch");
}

#[test]
fn engage_shape_synthesizes_identify() {
    let batch = parse(r#"{"distinct_id":"u1","token":"phc_t","$set":{"name":"Ada"}}"#).unwrap();
    assert_eq!(batch.events[0].event, "$identify");
    let name = batch.events[0].properties.get("$set").and_then(|s| s.get("name"));
    assert_eq!(name.and_then(|n| n.as_str()).map(|s| s.as_str()), Some("Ada"));
}

#[test]
fn mismatched_tokens_reject_401() {
    let err = fault(
        r#"[{"event":"a","distinct_id":"u","token":"phc_1"},{"event":"b","distinct_id":"u","token":"phc_2"}]"#,
    );
    assert!(matches!(err, CaptureError::Unauthorized(_)));
}

#[test]
fn missing_distinct_id_rejects_400() {
    let err = fault(r#"[{"event":"a","token":"phc_1"}]"#);
    assert_eq!(err, CaptureError::Malformed("missing distinct_id"));
}

#[test]
fn numeric_distinct_id_stringifies() {
    let batch = parse(r#"[{"event":"a","distinct_id":42,"token":"phc_1"}]"#).unwrap();
    assert_eq!(batch.events[0].distinct_id, "42");
}

#[test]
fn distinct_id_truncates_to_200_chars() {
    let long = "x".repeat(300);
    let batch = parse(&format!(
        r#"[{{"event":"a","distinct_id":"{long}","token":"phc_1"}}]"#
    ))
    .unwrap();
    assert_eq!(batch.events[0].distinct_id.chars().count(), 200);
}

#[test]
fn performance_events_dropped_but_batch_accepted() {
    let batch = parse(
        r#"[{"event":"$performance_event","distinct_id":"u","token":"phc_1"}]"#,
    )
    .unwrap();
    assert!(batch.events.is_empty());
}

#[test]
fn offset_wins_over_timestamp() {
    let batch = parse(
        r#"[{"event":"a","distinct_id":"u","token":"phc_1","offset":60000,"timestamp":"2020-01-01T00:00:00Z"}]"#,
    )
    .unwrap();
    assert_eq!(batch.events[0].timestamp, now() - 60 * SECOND);
}

#[test]
fn clock_skew_corrected_via_sent_at() {
    let sent_at = now() + 600 * SECOND;
    let batch = parse_body(
        r#"[{"event":"a","distinct_id":"u","token":"phc_1","timestamp":"2026-07-21T12:10:00Z"}]"#,
        Some(sent_at),
        now(),
        &accepted(),
    )
    .unwrap();
    assert_eq!(batch.events[0].timestamp, now());
}

#[test]
fn far_future_clamps_to_now() {
    let batch = parse(
        r#"[{"event":"a","distinct_id":"u","token":"phc_1","timestamp":"2027-01-01T00:00:00Z"}]"#,
    )
    .unwrap();
    assert_eq!(batch.events[0].timestamp, now());
}

#[test]
fn bare_offset_timezone_normalizes() {
    assert!(parse_timestamp("2026-07-21T12:00:00+03").is_some());
}

#[test]
fn generated_uuid_is_v7_from_event_time() {
    let batch = parse(
        r#"[{"event":"a","distinct_id":"u","token":"phc_1","timestamp":"2026-07-21T11:00:00Z"}]"#,
    )
    .unwrap();
    let uuid = uuid::Uuid::from_u128(batch.events[0].uuid);
    assert_eq!(uuid.get_version_num(), 7);
    let (secs, _) = uuid.get_timestamp().unwrap().to_unix();
    assert_eq!(secs as i128, batch.events[0].timestamp / SECOND);
}

#[test]
fn timestamps_are_read_in_each_of_their_forms() {
    assert_eq!(parse_timestamp("2026-07-21T12:00:00Z"), Some(now()));
    assert_eq!(parse_timestamp("2026-07-21T12:00:00+03"), Some(now() - 3 * 3600 * SECOND));
    assert_eq!(parse_timestamp("2026-07-21T12:00:00"), Some(now()));
    assert_eq!(parse_timestamp("2026-07-21 12:00:00"), Some(now()));
    assert_eq!(parse_timestamp("yesterday"), None);
}

#[test]
fn sent_at_is_in_milliseconds() {
    assert_eq!(parse_sent_at_ms("1784635200000"), Some(now()));
    assert_eq!(parse_sent_at_ms("-1"), Some(-1_000_000));
    assert_eq!(parse_sent_at_ms("soon"), None);
}

#[test]
fn an_own_uuid_is_kept() {
    let batch = parse(
        r#"[{"event":"a","distinct_id":"u","token":"phc_1","uuid":"00000000-0000-4000-8000-00000000002a"}]"#,
    )
    .unwrap();
    assert_eq!(batch.events[0].uuid, 0x0000_0000_0000_4000_8000_0000_0000_002a);
}

#[test]
fn the_errors_of_a_body() {
    assert_eq!(fault("not json"), CaptureError::Malformed("invalid JSON"));
    assert!(matches!(fault(r#"[{"event":"a","distinct_id":"u"}]"#), CaptureError::Unauthorized(_)));
    assert!(matches!(
        fault(r#"[{"event":"a","distinct_id":"u","token":"phc_unknown"}]"#),
        CaptureError::Unauthorized(_)
    ));
    assert!(matches!(fault("17"), CaptureError::Malformed(_)));
}

#[test]
fn nulls_leave_a_distinct_id() {
    let object = Json::parse(r#"{"distinct_id":"a\u0000b"}"#).unwrap();
    assert_eq!(resolve_distinct_id(&object, &JsonMap::new()), Ok("a\u{fffd}b".to_string()));
}

#[test]
fn uuids_before_the_epoch_are_of_the_epoch() {
    let uuid = uuid::Uuid::from_u128(uuid_v7_at(-5 * SECOND));
    assert_eq!(uuid.get_version_num(), 7);
    assert_eq!(uuid.get_timestamp().unwrap().to_unix().0, 0);
}

#[test]
fn a_leap_second_keeps_its_second_and_its_day() {
    let before = parse_timestamp("2016-12-31T23:59:59Z").unwrap();
    let leap = parse_timestamp("2016-12-31T23:59:60Z").unwrap();
    let after = parse_timestamp("2017-01-01T00:00:00Z").unwrap();
    assert_eq!(leap, before + 999_999_999);
    assert_eq!(after, before + 1_000_000_000);
    assert_eq!(instant((5, 1_500_000_000)), 5_999_999_999);
    assert_eq!(instant((-1, 250)), -999_999_750);
    assert_eq!(event_day(leap), event_day(before));
    assert_eq!(event_day(after), event_day(before) + 1);
}
