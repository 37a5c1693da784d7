use edgeproxy::proxy::routing::{
    connection_declared_headers, forwarded_for, strip_hop_by_hop, upstream_target, upstream_url, HopByHop,
};
use http::{HeaderMap, HeaderName, HeaderValue};

#[test]
fn removes_standard_hop_by_hop_headers() {
    let mut headers = HeaderMap::new();
    headers.insert("keep-alive", "timeout=5".parse().unwrap());
    headers.insert("transfer-encoding", "chunked".parse().unwrap());
    headers.insert("te", "trailers".parse().unwrap());
    headers.insert("trailer", "Expires".parse().unwrap());
    headers.insert("upgrade", "websocket".parse().unwrap());
    headers.insert("x-real-header", "must-survive".parse().unwrap());

    strip_hop_by_hop(&mut headers);

    assert!(headers.get("keep-alive").is_none(), "keep-alive should be stripped");
    assert!(headers.get("transfer-encoding").is_none(), "transfer-encoding should be stripped");
    assert!(headers.get("te").is_none(), "te should be stripped");
    assert!(headers.get("trailer").is_none(), "trailer should be stripped");
    assert!(headers.get("upgrade").is_none(), "upgrade should be stripped");
    assert_eq!(headers.get("x-real-header").unwrap(), "must-survive");
}

#[test]
fn removes_connection_declared_headers() {
    let mut headers = HeaderMap::new();
    headers.insert("connection", "keep-alive, x-custom-token".parse().unwrap());
    headers.insert("keep-alive", "timeout=5".parse().unwrap());
    headers.insert("x-custom-token", "secret".parse().unwrap());
    headers.insert("x-real-header", "must-survive".parse().unwrap());

    strip_hop_by_hop(&mut headers);

    assert!(headers.get("connection").is_none(), "connection should be stripped");
    assert!(headers.get("keep-alive").is_none(), "keep-alive should be stripped");
    assert!(
        headers.get("x-custom-token").is_none(),
        "connection-declared header should be stripped"
    );
    assert_eq!(headers.get("x-real-header").unwrap(), "must-survive");
}

#[test]
fn preserves_end_to_end_headers() {
    let mut headers = HeaderMap::new();
    headers.insert("authorization", "Bearer token123".parse().unwrap());
    headers.insert("content-type", "application/json".parse().unwrap());
    headers.insert("x-request-id", "abc-123".parse().unwrap());

    strip_hop_by_hop(&mut headers);

    assert!(headers.get("authorization").is_some());
    assert!(headers.get("content-type").is_some());
    assert!(headers.get("x-request-id").is_some());
}

#[test]
fn connection_tokens_are_normalized_and_invalid_ones_skipped() {
    let mut headers = HeaderMap::new();
    headers.append("connection", "Close ,  X-Upper-Token,bad token,".parse().unwrap());
    headers.append("connection", "x-second".parse().unwrap());
    let names = connection_declared_headers(&headers);
    assert_eq!(names, vec!["close".to_string(), "x-upper-token".to_string(), "x-second".to_string()]);

    headers.insert("x-upper-token", "v".parse().unwrap());
    headers.insert("x-second", "v".parse().unwrap());
    headers.insert("x-kept", "v".parse().unwrap());
    strip_hop_by_hop(&mut headers);
    assert!(headers.get("x-upper-token").is_none());
    assert!(headers.get("x-second").is_none());
    assert!(headers.get("x-kept").is_some());
}

#[test]
fn non_text_connection_value_declares_nothing() {
    let mut headers = HeaderMap::new();
    headers.insert("connection", HeaderValue::from_bytes(b"x-a\xff").unwrap());
    assert!(connection_declared_headers(&headers).is_empty());
}

#[test]
fn strip_twice_is_strip_once() {
    let mut headers = HeaderMap::new();
    headers.insert("connection", "x-a".parse().unwrap());
    headers.insert("x-a", "1".parse().unwrap());
    headers.insert("proxy-authorization", "secret".parse().unwrap());
    headers.insert("accept", "*/*".parse().unwrap());
    strip_hop_by_hop(&mut headers);
    let once = headers.clone();
    strip_hop_by_hop(&mut headers);
    assert_eq!(headers, once);
    assert_eq!(headers.len(), 1);
    assert!(headers.get("accept").is_some());
}

#[test]
fn hop_by_hop_names() {
    assert_eq!(HopByHop::Connection.as_str(), "connection");
    assert_eq!(HopByHop::KeepAlive.as_str(), "keep-alive");
    assert_eq!(HopByHop::TransferEncoding.as_str(), "transfer-encoding");
    assert_eq!(HopByHop::Te.as_str(), "te");
    assert_eq!(HopByHop::Trailer.as_str(), "trailer");
    assert_eq!(HopByHop::Upgrade.as_str(), "upgrade");
    assert_eq!(HopByHop::ProxyAuthorization.as_str(), "proxy-authorization");
    assert_eq!(HopByHop::ProxyAuthenticate.as_str(), "proxy-authenticate");
    assert_eq!(HopByHop::all().len(), 8);
}

#[test]
fn from_header_recognizes_catalogue() {
    let h = HopByHop::from_header(&HeaderName::from_static("upgrade"));
    assert_eq!(h, Some(HopByHop::Upgrade));
    let h = HopByHop::from_header(&HeaderName::from_static("te"));
    assert_eq!(h, Some(HopByHop::Te));
    assert_eq!(HopByHop::from_header(&HeaderName::from_static("authorization")), None);
}

#[test]
fn forwarded_for_appends_client() {
    let mut headers = HeaderMap::new();
    assert_eq!(forwarded_for(&headers, "10.0.0.1"), "10.0.0.1");
    headers.insert("x-forwarded-for", "1.1.1.1, 2.2.2.2".parse().unwrap());
    assert_eq!(forwarded_for(&headers, "10.0.0.1"), "1.1.1.1, 2.2.2.2, 10.0.0.1");
}

#[test]
fn upstream_url_joins_base_and_path() {
    assert_eq!(upstream_url("http://127.0.0.1:3001", Some("/api/x?q=1")), "http://127.0.0.1:3001/api/x?q=1");
    assert_eq!(upstream_url("http://127.0.0.1:3001", None), "http://127.0.0.1:3001/");
}

#[test]
fn upstream_target_parses_the_joined_url() {
    assert_eq!(
        upstream_target("http://127.0.0.1:3001", Some("/api/x?q=1")),
        Some(("http://127.0.0.1:3001/api/x?q=1".to_string(), "127.0.0.1:3001".to_string()))
    );
    assert_eq!(
        upstream_target("https://example.org", None),
        Some(("https://example.org/".to_string(), "example.org".to_string()))
    );
    assert_eq!(upstream_target("", Some("/x")), Some(("/x".to_string(), String::new())));
    assert_eq!(upstream_target("http://bad host", Some("/x")), None);
}
