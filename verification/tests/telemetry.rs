use edgeproxy::telemetry::filter::effective_log_filter;
use edgeproxy::proxy::routing::BackendRoute;
use edgeproxy::telemetry::layer::{access_log_level, request_id, route_label, AccessLogLevel, ObservabilityLayer};
use edgeproxy::telemetry::metrics::{HTTP_IN_FLIGHT, HTTP_REQUESTS_TOTAL, UPSTREAM_ERRORS_TOTAL};
use http::HeaderMap;

#[test]
fn request_id_preserved_when_present() {
    let mut headers = HeaderMap::new();
    headers.insert("x-request-id", "my-trace-id-abc".parse().unwrap());
    assert_eq!(request_id(&headers), "my-trace-id-abc");
}

#[test]
fn request_id_generated_when_absent_or_empty() {
    for headers in [HeaderMap::new(), {
        let mut h = HeaderMap::new();
        h.insert("x-request-id", "".parse().unwrap());
        h
    }] {
        let id = request_id(&headers);
        assert_eq!(id.len(), 36);
        assert!(uuid::Uuid::parse_str(&id).is_ok(), "not a UUID: {id}");
        assert_eq!(id.as_bytes()[14], b'4');
    }
}

#[test]
fn access_log_level_by_status_class() {
    assert_eq!(access_log_level(200), AccessLogLevel::Info);
    assert_eq!(access_log_level(404), AccessLogLevel::Info);
    assert_eq!(access_log_level(499), AccessLogLevel::Info);
    assert_eq!(access_log_level(500), AccessLogLevel::Warn);
    assert_eq!(access_log_level(502), AccessLogLevel::Warn);
    assert_eq!(access_log_level(599), AccessLogLevel::Warn);
    assert_eq!(access_log_level(600), AccessLogLevel::Info);
}

#[test]
fn route_label_never_raw_path() {
    assert_eq!(route_label(Some(&BackendRoute("api".to_string()))), "api");
    assert_eq!(route_label(None), "unmatched");
}

#[test]
fn metric_names() {
    assert_eq!(HTTP_REQUESTS_TOTAL, "http_requests_total");
    assert_eq!(HTTP_IN_FLIGHT, "http_requests_in_flight");
    assert_eq!(UPSTREAM_ERRORS_TOTAL, "upstream_errors_total");
}

#[test]
fn layer_wraps_inner() {
    let l = ObservabilityLayer::new();
    let svc = l.layer(42u8);
    assert_eq!(svc.inner, 42);
}

#[test]
fn invalid_log_level_falls_back_to_info() {
    assert_eq!(effective_log_filter("debug"), "debug");
    assert_eq!(effective_log_filter("edgeproxy=trace,warn"), "edgeproxy=trace,warn");
    assert_eq!(effective_log_filter("!!"), "info");
}
