//! What an operator watches: counters of the capture edge, and uptime, as Prometheus text.
use vstd::prelude::*;
use vstd::string::*;

use crate::text::{decimal, decimal_text, joined};

verus! {

/// Counters of the capture edge.
#[derive(Debug, Clone, Copy, PartialEq, Eq, Structural)]
pub struct Metrics {
    /// Events accepted into the pipeline.
    pub captured: u64,
    /// Events that are durable.
    pub acked: u64,
    /// Requests that were rejected: a bad token, malformed or too large, over a limit.
    pub rejected: u64,
    /// Failures of the pipeline that a client retries.
    pub sink_errors: u64,
    /// When the process started, in seconds.
    pub start_epoch: u64,
}

/// A counter that goes on from zero after the largest number.
pub open spec fn counted(count: u64, n: u64) -> u64 {
    ((count + n) % 0x1_0000_0000_0000_0000) as u64
}

fn count(counter: u64, n: u64) -> (r: u64)
    ensures
        r == counted(counter, n),
{
    if counter > u64::MAX - n {
        n - (u64::MAX - counter) - 1
    } else {
        counter + n
    }
}

/// A counter as Prometheus reads it.
pub open spec fn metric_text(
    name: Seq<char>,
    help: Seq<char>,
    kind: Seq<char>,
    value: u64,
) -> Seq<char> {
    "# HELP "@ + name + " "@ + help + "\n# TYPE "@ + name + " "@ + kind + "\n"@ + name + " "@
        + decimal(value as nat) + "\n"@
}

fn metric(name: &str, help: &str, kind: &str, value: u64) -> (r: String)
    ensures
        r@ == metric_text(name@, help@, kind@, value),
{
    let mut out = joined("# HELP ", name);
    out.append(" ");
    out.append(help);
    out.append("\n# TYPE ");
    out.append(name);
    out.append(" ");
    out.append(kind);
    out.append("\n");
    out.append(name);
    out.append(" ");
    out.append(decimal_text(value).as_str());
    out.append("\n");
    out
}

/// The seconds since a start; none before it.
pub open spec fn uptime(start: u64, now: u64) -> u64 {
    if now >= start {
        (now - start) as u64
    } else {
        0
    }
}

/// All the metrics as text.
pub open spec fn rendered_metrics(m: Metrics, now: u64) -> Seq<char> {
    metric_text(
        "hoglet_events_captured_total"@,
        "Events accepted into the pipeline."@,
        "counter"@,
        m.captured,
    ) + metric_text(
        "hoglet_events_acked_total"@,
        "Events durably acknowledged."@,
        "counter"@,
        m.acked,
    ) + metric_text(
        "hoglet_requests_rejected_total"@,
        "Requests rejected with 4xx."@,
        "counter"@,
        m.rejected,
    ) + metric_text(
        "hoglet_sink_errors_total"@,
        "Retryable sink failures (503)."@,
        "counter"@,
        m.sink_errors,
    ) + metric_text(
        "hoglet_uptime_seconds"@,
        "Seconds since process start."@,
        "gauge"@,
        uptime(m.start_epoch, now),
    )
}

impl Default for Metrics {
    fn default() -> (r: Self)
        ensures
            r == (Metrics {
                captured: 0,
                acked: 0,
                rejected: 0,
                sink_errors: 0,
                start_epoch: 0,
            }),
    {
        Metrics { captured: 0, acked: 0, rejected: 0, sink_errors: 0, start_epoch: 0 }
    }
}

impl Metrics {
    /// Counters at zero, for a process that starts now.
    pub fn new(now_epoch: u64) -> (r: Metrics)
        ensures
            r == (Metrics {
                captured: 0,
                acked: 0,
                rejected: 0,
                sink_errors: 0,
                start_epoch: now_epoch,
            }),
    {
        Metrics { captured: 0, acked: 0, rejected: 0, sink_errors: 0, start_epoch: now_epoch }
    }

    /// Counts events that were accepted.
    pub fn inc_captured(&mut self, n: u64)
        ensures
            *final(self) == (Metrics { captured: counted(old(self).captured, n), ..*old(self) }),
    {
        self.captured = count(self.captured, n);
    }

    /// Counts events that are durable.
    pub fn inc_acked(&mut self, n: u64)
        ensures
            *final(self) == (Metrics { acked: counted(old(self).acked, n), ..*old(self) }),
    {
        self.acked = count(self.acked, n);
    }

    /// Counts a request that was rejected.
    pub fn inc_rejected(&mut self)
        ensures
            *final(self) == (Metrics { rejected: counted(old(self).rejected, 1), ..*old(self) }),
    {
        self.rejected = count(self.rejected, 1);
    }

    /// Counts a failure that a client retries.
    pub fn inc_sink_errors(&mut self)
        ensures
            *final(self) == (Metrics {
                sink_errors: counted(old(self).sink_errors, 1),
                ..*old(self)
            }),
    {
        self.sink_errors = count(self.sink_errors, 1);
    }

    /// The metrics as Prometheus text.
    pub fn render(&self, now_epoch: u64) -> (r: String)
        ensures
            r@ == rendered_metrics(*self, now_epoch),
    {
        let uptime: u64 = if now_epoch >= self.start_epoch {
            now_epoch - self.start_epoch
        } else {
            0
        };
        let mut out = metric(
            "hoglet_events_captured_total",
            "Events accepted into the pipeline.",
            "counter",
            self.captured,
        );
        out.append(
            metric(
                "hoglet_events_acked_total",
                "Events durably acknowledged.",
                "counter",
                self.acked,
            ).as_str(),
        );
        out.append(
            metric(
                "hoglet_requests_rejected_total",
                "Requests rejected with 4xx.",
                "counter",
                self.rejected,
            ).as_str(),
        );
        out.append(
            metric(
                "hoglet_sink_errors_total",
                "Retryable sink failures (503).",
                "counter",
                self.sink_errors,
            ).as_str(),
        );
        out.append(
            metric(
                "hoglet_uptime_seconds",
                "Seconds since process start.",
                "gauge",
                uptime,
            ).as_str(),
        );
        out
    }
}

} // verus!
