use std::io::Write;

use base64::engine::general_purpose::STANDARD as BASE64;
use base64::Engine as _;
use flate2::write::GzEncoder;
use flate2::Compression;
use hoglet::capture::event::CapturedEvent;
use hoglet::capture::decompress::DecodeError;
use hoglet::capture::{
    body_limit, CaptureQuery, CaptureRequest, LegacyRegistryCaptureAuthorizer, SinkOutcome, Stage,
    Status, MAX_BATCH_BODY_BYTES, MAX_EVENT_BODY_BYTES,
};
use hoglet::metrics::Metrics;

const NOW: i128 = 1_784_635_200_000_000_000;

const EVENT: &str = r#"[{"event":"click","distinct_id":"u1","token":"phc_t"}]"#;

struct Capture {
    /// The tokens of the projects that exist.
    accepted: Vec<String>,
    /// What the sink answers.
    outcome: SinkOutcome,
    /// Whether the limiter lets a token through.
    allowed: bool,
    metrics: Metrics,
    stored: Vec<CapturedEvent>,
    historical: Vec<bool>,
}

impl Capture {
    fn new() -> Capture {
        Capture {
            accepted: vec!["phc_t".into()],
            outcome: SinkOutcome::Stored,
            allowed: true,
            metrics: Metrics::default(),
            stored: Vec::new(),
            historical: Vec::new(),
        }
    }

    fn post(
        &mut self,
        path: &str,
        beacon: Option<&str>,
        content_type: Option<&str>,
        body: &[u8],
    ) -> u16 {
        match body_limit(path) {
            None => return 404,
            Some(limit) if body.len() > limit => return 413,
            Some(_) => {}
        }
        let query = CaptureQuery {
            sent_at: None,
            compression: None,
            beacon: beacon.map(|b| b.to_string()),
        };
        let valid: Vec<String> = ["phc_t", "phc_known", "phc_unknown"]
            .iter()
            .map(|t| t.to_string())
            .collect();
        let authorizer = LegacyRegistryCaptureAuthorizer::new(self.accepted.clone());
        let mut request =
            CaptureRequest::read(&query, content_type, body, NOW, &valid, &mut self.metrics);
        loop {
            match request.stage {
                Stage::Authorizing => request.authorize(&authorizer, &mut self.metrics),
                Stage::Limiting(_) => request.limit(self.allowed, &mut self.metrics),
                Stage::Storing => {
                    let batch = request.batch();
                    if self.outcome == SinkOutcome::Stored {
                        self.historical.push(batch.historical_migration);
                        self.stored.extend(batch.events);
                    }
                    request.stored(self.outcome, &mut self.metrics);
                }
                Stage::Identifying => request.identified(),
                Stage::Answered(status) => return status.code(),
            }
        }
    }
}

fn post_body(capture: &mut Capture, path: &str, body: &str) -> u16 {
    capture.post(path, None, None, body.as_bytes())
}

#[test]
fn plain_json_to_e_stores_event() {
    let mut capture = Capture::new();
    assert_eq!(post_body(&mut capture, "/e/", EVENT), 200);
    assert_eq!(capture.stored.len(), 1);
    assert_eq!(capture.stored[0].event, "click");
    assert_eq!(capture.stored[0].distinct_id, "u1");
}

#[test]
fn gzip_without_hint_is_sniffed() {
    let mut capture = Capture::new();
    let mut enc = GzEncoder::new(Vec::new(), Compression::default());
    enc.write_all(EVENT.as_bytes()).unwrap();
    assert_eq!(capture.post("/e/", None, None, &enc.finish().unwrap()), 200);
    assert_eq!(capture.stored.len(), 1);
}

#[test]
fn base64_body_unwraps() {
    let mut capture = Capture::new();
    assert_eq!(post_body(&mut capture, "/e/", &BASE64.encode(EVENT)), 200);
    assert_eq!(capture.stored.len(), 1);
}

#[test]
fn beacon_returns_204() {
    let mut capture = Capture::new();
    assert_eq!(capture.post("/e/", Some("1"), None, EVENT.as_bytes()), 204);
    assert_eq!(capture.stored.len(), 1);
}

#[test]
fn batch_endpoint_accepts_batch_shape() {
    let mut capture = Capture::new();
    let body = r#"{"api_key":"phc_t","batch":[{"event":"a","distinct_id":"u1"},{"event":"b","distinct_id":"u2"}]}"#;
    assert_eq!(post_body(&mut capture, "/batch/", body), 200);
    assert_eq!(capture.stored.len(), 2);
}

#[test]
fn one_unknown_token_rejects_entire_batch_before_append() {
    let mut capture = Capture::new();
    capture.accepted = vec!["phc_known".into()];
    let body = r#"[{"event":"known","distinct_id":"u1","token":"phc_known"},{"event":"unknown","distinct_id":"u2","token":"phc_unknown"}]"#;

    assert_eq!(post_body(&mut capture, "/batch/", body), 401);
    assert!(capture.stored.is_empty());
}

#[test]
fn capture_clients_cannot_mark_batches_as_historical_migrations() {
    let mut capture = Capture::new();
    let body = r#"{"api_key":"phc_t","historical_migration":true,"batch":[{"event":"a","distinct_id":"u1"}]}"#;

    assert_eq!(post_body(&mut capture, "/batch/", body), 200);
    assert_eq!(capture.historical.len(), 1);
    assert!(!capture.historical[0]);
}

#[test]
fn all_aliases_accept() {
    for path in ["/e", "/capture", "/track", "/engage", "/i/v0/e", "/batch"] {
        let mut capture = Capture::new();
        let body = if path == "/engage" {
            r#"{"distinct_id":"u1","token":"phc_t","$set":{"a":1}}"#
        } else {
            EVENT
        };
        assert_eq!(post_body(&mut capture, path, body), 200, "alias {path} failed");
    }
}

#[test]
fn malformed_json_is_400_never_retried() {
    let mut capture = Capture::new();
    assert_eq!(post_body(&mut capture, "/e/", "not json"), 400);
}

#[test]
fn missing_token_is_401() {
    let mut capture = Capture::new();
    assert_eq!(post_body(&mut capture, "/e/", r#"[{"event":"a","distinct_id":"u1"}]"#), 401);
}

#[test]
fn form_encoded_beacon_path_works() {
    let mut capture = Capture::new();
    let data = BASE64
        .encode(EVENT)
        .replace('+', "%2B")
        .replace('/', "%2F")
        .replace('=', "%3D");
    let status = capture.post(
        "/e/",
        Some("1"),
        Some("application/x-www-form-urlencoded"),
        format!("data={data}").as_bytes(),
    );
    assert_eq!(status, 204);
    assert_eq!(capture.stored.len(), 1);
}

#[test]
fn only_a_retryable_failure_asks_for_a_retry() {
    let mut capture = Capture::new();
    capture.outcome = SinkOutcome::Retryable;
    assert_eq!(post_body(&mut capture, "/e/", EVENT), 503);
    assert_eq!(capture.metrics.sink_errors, 1);
    capture.outcome = SinkOutcome::Fatal;
    assert_eq!(post_body(&mut capture, "/e/", EVENT), 400);
    assert!(capture.stored.is_empty());
}

#[test]
fn the_limiter_refuses_before_anything_is_stored() {
    let mut capture = Capture::new();
    capture.allowed = false;
    assert_eq!(post_body(&mut capture, "/e/", EVENT), 429);
    assert!(capture.stored.is_empty());
    assert_eq!(capture.metrics.rejected, 1);
}

#[test]
fn an_unknown_project_is_refused() {
    let mut capture = Capture::new();
    let body = r#"[{"event":"a","distinct_id":"u","token":"phc_unknown"}]"#;
    assert_eq!(post_body(&mut capture, "/e/", body), 401);
}

#[test]
fn counters_follow_a_request() {
    let mut capture = Capture::new();
    post_body(&mut capture, "/e/", EVENT);
    assert_eq!((capture.metrics.captured, capture.metrics.acked), (1, 1));
    assert_eq!(capture.metrics.rejected, 0);
}

#[test]
fn an_empty_batch_is_answered_at_once() {
    let mut capture = Capture::new();
    let body = r#"[{"event":"$performance_event","distinct_id":"u","token":"phc_t"}]"#;
    assert_eq!(post_body(&mut capture, "/e/", body), 200);
    assert!(capture.stored.is_empty());
    assert!(matches!(
        CaptureRequest::with_events(vec![], true).stage,
        Stage::Answered(Status::NoContent)
    ));
}

#[test]
fn a_bomb_is_too_large() {
    let mut capture = Capture::new();
    let mut enc = GzEncoder::new(Vec::new(), Compression::default());
    enc.write_all(&vec![b' '; (64 << 20) + 1]).unwrap();
    assert_eq!(capture.post("/e/", None, None, &enc.finish().unwrap()), 413);
}

#[test]
fn every_rejection_is_counted() {
    let mut capture = Capture::new();
    let bodies: [&[u8]; 3] = [&[0xff, 0xfe, 0x01], b"{", b"[{\"event\":\"a\",\"token\":\"phc_t\"}]"];
    for (i, body) in bodies.iter().enumerate() {
        let query = CaptureQuery { compression: None, beacon: None, sent_at: None };
        let request =
            CaptureRequest::read(&query, None, body, NOW, &vec![], &mut capture.metrics);
        assert!(matches!(request.stage, Stage::Answered(Status::BadRequest | Status::Unauthorized)));
        assert_eq!(capture.metrics.rejected, i as u64 + 1);
    }
}

#[test]
fn bodies_are_limited_by_their_endpoint() {
    for path in ["/e", "/e/", "/capture/", "/track", "/engage/", "/i/v0/e"] {
        assert_eq!(body_limit(path), Some(MAX_EVENT_BODY_BYTES));
    }
    assert_eq!(body_limit("/batch"), Some(MAX_BATCH_BODY_BYTES));
    assert_eq!(body_limit("/batch/"), Some(MAX_BATCH_BODY_BYTES));
    for path in ["/", "/e//", "/ee", "/i/v0", "/batch/x", ""] {
        assert_eq!(body_limit(path), None);
    }
    let mut capture = Capture::new();
    let body = " ".repeat(MAX_EVENT_BODY_BYTES) + EVENT;
    assert_eq!(post_body(&mut capture, "/e", &body), 413);
    assert_eq!(post_body(&mut capture, "/batch", &body), 200);
    assert_eq!(post_body(&mut capture, "/elsewhere", EVENT), 404);
}

#[test]
fn a_decoded_body_is_read_alike() {
    let query = CaptureQuery { compression: None, beacon: None, sent_at: None };
    let valid = vec!["phc_t".to_string()];
    let mut metrics = Metrics::default();
    let text = CaptureRequest::text_of(&query, None, BASE64.encode(EVENT).as_bytes());
    assert_eq!(text.as_deref(), Ok(EVENT));
    let request = CaptureRequest::read_text(&query, text, NOW, &valid, &mut metrics);
    assert_eq!(request.events.len(), 1);
    assert!(matches!(request.stage, Stage::Authorizing));
    let large = Err(DecodeError::TooLarge);
    let refused = CaptureRequest::read_text(&query, large, NOW, &valid, &mut metrics);
    assert!(matches!(refused.stage, Stage::Answered(Status::PayloadTooLarge)));
    assert_eq!(metrics.rejected, 1);
}
