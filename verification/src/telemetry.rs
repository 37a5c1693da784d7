pub mod filter;
pub mod layer;
pub mod metrics;

pub use layer::ObservabilityLayer;
pub use metrics::{
    HTTP_IN_FLIGHT, HTTP_REQUESTS_TOTAL, HTTP_REQUEST_DURATION, UPSTREAM_ERRORS_TOTAL,
    UPSTREAM_REQUESTS_TOTAL, UPSTREAM_REQUEST_DURATION,
};
