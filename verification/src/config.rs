pub mod blueprint;
pub mod document;
pub mod merge;
pub mod model;
pub mod report;
pub mod resolve;

pub use blueprint::{
    BackendBlueprint, BackendKindBlueprint, Blueprint, CacheBlueprint, CacheStoreBlueprint,
    LogFormat, ObservabilityBlueprint, RateLimitBlueprint, RateLimitKey, TlsBlueprint,
    ValidationError,
};
pub use model::{
    BackendConfig, BackendKindConfig, CacheConfig, CacheStoreConfig, Config, Defaults,
    ObservabilityConfig, RateLimitConfig, TlsConfig,
};
pub use resolve::InterpolationError;
