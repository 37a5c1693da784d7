//! Names of the metrics the proxy records (Prometheus text at `GET /metrics`).
use vstd::prelude::*;

verus! {

/// Counter of requests handled, labelled `route`, `method`, `status`.
pub const HTTP_REQUESTS_TOTAL: &'static str = "http_requests_total";

/// Histogram of end-to-end latency in seconds, labelled `route`, `method`.
pub const HTTP_REQUEST_DURATION: &'static str = "http_request_duration_seconds";

/// Gauge of requests currently being processed.
pub const HTTP_IN_FLIGHT: &'static str = "http_requests_in_flight";

/// Counter of upstream attempts, labelled `backend`, `status`.
pub const UPSTREAM_REQUESTS_TOTAL: &'static str = "upstream_requests_total";

/// Histogram of upstream hop latency in seconds, labelled `backend`.
pub const UPSTREAM_REQUEST_DURATION: &'static str = "upstream_request_duration_seconds";

/// Counter of upstream connect/transport failures, labelled `backend`, `kind`.
pub const UPSTREAM_ERRORS_TOTAL: &'static str = "upstream_errors_total";

} // verus!
