//! Result types: scored anomalies with context, and the per-source and
//! whole-run reports built from them.

use vstd::prelude::*;

verus! {

/// Abstract value of an `Anomaly`.
pub struct AnomalyV {
    pub distance: u32,
    pub pos: nat,
    pub line: Seq<char>,
}

/// One anomalous line: its dissimilarity score (scaled so that
/// `DISTANCE_SCALE` means complete dissimilarity), its position within its
/// source, and the raw text.
#[derive(Debug, Clone, PartialEq, Eq)]
pub struct Anomaly {
    pub distance: u32,
    pub pos: usize,
    pub line: String,
}

impl View for Anomaly {
    type V = AnomalyV;

    open spec fn view(&self) -> AnomalyV {
        AnomalyV { distance: self.distance, pos: self.pos as nat, line: self.line@ }
    }
}

impl DeepView for Anomaly {
    type V = AnomalyV;

    open spec fn deep_view(&self) -> AnomalyV {
        self.view()
    }
}

/// Abstract value of an `AnomalyContext`.
pub struct AnomalyContextV {
    pub before: Seq<Seq<char>>,
    pub anomaly: AnomalyV,
    pub after: Seq<Seq<char>>,
}

/// An anomaly together with the raw lines immediately around it.
#[derive(Debug, Clone, PartialEq, Eq)]
pub struct AnomalyContext {
    pub before: Vec<String>,
    pub anomaly: Anomaly,
    pub after: Vec<String>,
}

impl View for AnomalyContext {
    type V = AnomalyContextV;

    open spec fn view(&self) -> AnomalyContextV {
        AnomalyContextV {
            before: self.before.deep_view(),
            anomaly: self.anomaly@,
            after: self.after.deep_view(),
        }
    }
}

impl DeepView for AnomalyContext {
    type V = AnomalyContextV;

    open spec fn deep_view(&self) -> AnomalyContextV {
        self.view()
    }
}

/// Abstract value of a `LogReport`.
pub struct LogReportV {
    pub test_time_ms: u64,
    pub anomalies: Seq<AnomalyContextV>,
}

/// The anomalies of one target source, with the caller-measured inspection
/// time.
#[derive(Debug, Clone, PartialEq, Eq)]
pub struct LogReport {
    pub test_time_ms: u64,
    pub anomalies: Vec<AnomalyContext>,
}

impl View for LogReport {
    type V = LogReportV;

    open spec fn view(&self) -> LogReportV {
        LogReportV { test_time_ms: self.test_time_ms, anomalies: self.anomalies.deep_view() }
    }
}

impl DeepView for LogReport {
    type V = LogReportV;

    open spec fn deep_view(&self) -> LogReportV {
        self.view()
    }
}

/// Abstract value of a `Report`.
pub struct ReportV {
    pub created_at_ms: u64,
    pub targets: Seq<LogReportV>,
}

/// The whole-run report: one `LogReport` per target source that produced at
/// least one anomaly, in source-processing order.
#[derive(Debug, Clone, PartialEq, Eq)]
pub struct Report {
    pub created_at_ms: u64,
    pub targets: Vec<LogReport>,
}

impl View for Report {
    type V = ReportV;

    open spec fn view(&self) -> ReportV {
        ReportV { created_at_ms: self.created_at_ms, targets: self.targets.deep_view() }
    }
}

impl DeepView for Report {
    type V = ReportV;

    open spec fn deep_view(&self) -> ReportV {
        self.view()
    }
}

} // verus!
