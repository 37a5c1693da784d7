//! The on-disk configuration model: a faithful mirror of the YAML file.
//! Defaults are *not* applied here; that happens in the conversion to the
//! runtime blueprint. Scalars are typed because interpolation runs over raw
//! text before parsing.
use crate::proxy::lb::LbStrategy;
use vstd::prelude::*;

verus! {

/// The whole configuration document.
#[derive(Debug)]
pub struct Config {
    pub listen: Option<String>,
    pub tls: Option<TlsConfig>,
    pub defaults: Option<Defaults>,
    pub cache_store: Option<CacheStoreConfig>,
    pub observability: Option<ObservabilityConfig>,
    pub backends: Vec<BackendConfig>,
}

#[derive(Debug)]
pub struct TlsConfig {
    pub cert: String,
    pub key: String,
}

/// Values every backend inherits unless it sets its own.
#[derive(Debug, Default)]
pub struct Defaults {
    pub request_timeout_s: Option<u64>,
    pub connect_timeout_s: Option<u64>,
    pub retries: Option<u32>,
    pub rate_limit: Option<RateLimitConfig>,
    pub cache: Option<CacheConfig>,
}

#[derive(Debug, Default, Clone)]
pub struct RateLimitConfig {
    pub rps: Option<u32>,
    pub burst: Option<u32>,
    pub key: Option<String>,
}

#[derive(Debug, Default, Clone)]
pub struct CacheConfig {
    pub enabled: Option<bool>,
    pub ttl_s: Option<u64>,
    pub max_body_kb: Option<u64>,
}

#[derive(Debug, Default)]
pub struct CacheStoreConfig {
    pub l1_max_entries: Option<u64>,
    pub l2_path: Option<String>,
}

#[derive(Debug, Default)]
pub struct ObservabilityConfig {
    pub log_format: Option<String>,
    pub log_level: Option<String>,
    pub otlp_endpoint: Option<String>,
}

/// One backend (route) as written in the file.
#[derive(Debug)]
pub struct BackendConfig {
    pub name: String,
    pub prefix: String,
    pub kind: BackendKindConfig,
    pub request_timeout_s: Option<u64>,
    pub connect_timeout_s: Option<u64>,
    pub retries: Option<u32>,
    pub rate_limit: Option<RateLimitConfig>,
    pub cache: Option<CacheConfig>,
}

/// Dispatch seam in config form: only plain HTTP pass-through today.
#[derive(Debug)]
pub enum BackendKindConfig {
    HttpPassthrough { upstreams: Vec<String>, lb: LbStrategy },
}

} // verus!
