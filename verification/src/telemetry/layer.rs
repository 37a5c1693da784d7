//! The per-request decisions of the observability layer: the request id,
//! the access-log level and the metric labels.
use crate::proxy::routing::{
    first_header_text, first_text, header_values, lemma_lower_name_is_canonical, BackendRoute,
};
use crate::text::string_from_chars;
use http::HeaderMap;
use vstd::prelude::*;

verus! {

/// Tower layer that opens the root `request` span, keeps the in-flight
/// gauge, records the HTTP metrics and echoes the request id.
#[derive(Clone, Copy, Debug, Default)]
pub struct ObservabilityLayer;

/// The service [`ObservabilityLayer`] wraps around an inner service.
#[derive(Clone, Debug)]
pub struct ObservabilityService<S> {
    pub inner: S,
}

impl ObservabilityLayer {
    pub fn new() -> (l: Self)
        ensures
            l == ObservabilityLayer,
    {
        ObservabilityLayer
    }

    /// Wraps `inner`.
    pub fn layer<S>(&self, inner: S) -> (s: ObservabilityService<S>)
        ensures
            s.inner == inner,
    {
        ObservabilityService { inner }
    }
}

pub open spec fn is_lower_hex(c: char) -> bool {
    ('0' <= c <= '9') || ('a' <= c <= 'f')
}

/// The shape of a hyphenated, lower-case version-4 UUID: 36 characters,
/// `-` at 8, 13, 18 and 23, lower-case hex digits elsewhere, `4` at 14.
pub open spec fn is_uuid_v4_text(s: Seq<char>) -> bool {
    &&& s.len() == 36
    &&& forall|i: int|
        0 <= i < 36 ==> if i == 8 || i == 13 || i == 18 || i == 23 {
            #[trigger] s[i] == '-'
        } else {
            is_lower_hex(s[i])
        }
    &&& s[14] == '4'
}

/// `uuid::Uuid::new_v4()` rendered with `Display` (hyphenated, lower case).
/// The value is random; only its shape is stated.
#[verifier::external_body]
fn fresh_request_id() -> (s: String)
    ensures
        is_uuid_v4_text(s@),
{
    uuid::Uuid::new_v4().to_string()
}

/// The inbound request id worth keeping: the first `x-request-id` value when
/// it is text and not empty.
pub open spec fn kept_request_id(h: Map<Seq<char>, Seq<Seq<u8>>>) -> Option<Seq<char>> {
    match first_text(h, "x-request-id"@) {
        Some(t) => if t.len() > 0 {
            Some(t)
        } else {
            None
        },
        None => None,
    }
}

/// The request id of a request: the inbound `x-request-id` when it is
/// present, text and non-empty; otherwise a freshly generated UUID v4.
pub fn request_id(headers: &HeaderMap) -> (s: String)
    ensures
        match kept_request_id(header_values(*headers)) {
            Some(t) => s@ == t,
            None => is_uuid_v4_text(s@),
        },
{
    proof {
        reveal_strlit("x-request-id");
        lemma_lower_name_is_canonical("x-request-id"@);
    }
    match first_header_text(headers, "x-request-id") {
        Some(t) => {
            if t.len() > 0 {
                string_from_chars(&t)
            } else {
                fresh_request_id()
            }
        },
        None => fresh_request_id(),
    }
}

/// The level of the one access-log event per request.
#[derive(Clone, Copy, Debug, PartialEq, Eq, Structural)]
pub enum AccessLogLevel {
    Info,
    Warn,
}

/// 5xx responses are logged at `WARN`, everything else at `INFO`.
pub open spec fn access_level_of(status: u16) -> AccessLogLevel {
    if 500 <= status < 600 {
        AccessLogLevel::Warn
    } else {
        AccessLogLevel::Info
    }
}

/// The access-log level for a response status.
pub fn access_log_level(status: u16) -> (l: AccessLogLevel)
    ensures
        l == access_level_of(status),
{
    if 500 <= status && status < 600 {
        AccessLogLevel::Warn
    } else {
        AccessLogLevel::Info
    }
}

/// The `route` label of the HTTP metrics: the backend that served the
/// request, or `unmatched`. Never the raw path.
pub fn route_label(route: Option<&BackendRoute>) -> (s: String)
    ensures
        s@ == match route {
            Some(r) => r.0@,
            None => "unmatched"@,
        },
{
    match route {
        Some(r) => r.0.clone(),
        None => String::from_str("unmatched"),
    }
}

} // verus!
