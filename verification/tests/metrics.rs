use hoglet::metrics::Metrics;

#[test]
fn renders_prometheus_text() {
    let mut m = Metrics::new(1000);
    m.inc_captured(5);
    m.inc_acked(5);
    m.inc_rejected();
    let out = m.render(1010);
    assert!(out.contains("hoglet_events_captured_total 5"));
    assert!(out.contains("hoglet_events_acked_total 5"));
    assert!(out.contains("hoglet_requests_rejected_total 1"));
    assert!(out.contains("hoglet_uptime_seconds 10"));
}

#[test]
fn the_whole_text_of_the_metrics() {
    let mut m = Metrics::new(7);
    m.inc_sink_errors();
    m.inc_sink_errors();
    assert_eq!(
        m.render(3),
        "# HELP hoglet_events_captured_total Events accepted into the pipeline.\n\
         # TYPE hoglet_events_captured_total counter\n\
         hoglet_events_captured_total 0\n\
         # HELP hoglet_events_acked_total Events durably acknowledged.\n\
         # TYPE hoglet_events_acked_total counter\n\
         hoglet_events_acked_total 0\n\
         # HELP hoglet_requests_rejected_total Requests rejected with 4xx.\n\
         # TYPE hoglet_requests_rejected_total counter\n\
         hoglet_requests_rejected_total 0\n\
         # HELP hoglet_sink_errors_total Retryable sink failures (503).\n\
         # TYPE hoglet_sink_errors_total counter\n\
         hoglet_sink_errors_total 2\n\
         # HELP hoglet_uptime_seconds Seconds since process start.\n\
         # TYPE hoglet_uptime_seconds gauge\n\
         hoglet_uptime_seconds 0\n"
    );
}

#[test]
fn counters_go_on_from_zero() {
    let mut m = Metrics::default();
    m.inc_captured(u64::MAX);
    m.inc_captured(3);
    assert_eq!(m.captured, 2);
}
