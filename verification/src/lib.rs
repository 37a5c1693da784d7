//! Configuration pipeline and routing core of the `edgeproxy` reverse proxy.
//!
//! - [`config`]: `${VAR}` interpolation, YAML deep-merge and the
//!   validating conversion from the on-disk model to the runtime blueprint.
//! - [`proxy`]: the live backend registry, load balancing and hop-by-hop
//!   header handling.
//! - [`telemetry`]: the decisions the observability layer makes per request.
pub mod config;
pub mod proxy;
pub mod telemetry;
pub mod text;
