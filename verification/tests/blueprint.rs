use edgeproxy::config::blueprint::{
    listen_address, valid_upstream, BackendKindBlueprint, Blueprint, LogFormat, RateLimitKey,
};
use edgeproxy::config::model::{
    BackendConfig, BackendKindConfig, CacheConfig, CacheStoreConfig, Config, Defaults,
    ObservabilityConfig, RateLimitConfig, TlsConfig,
};
use edgeproxy::proxy::lb::LbStrategy;
use std::path::PathBuf;
use std::time::Duration;

fn empty_config() -> Config {
    Config {
        listen: None,
        tls: None,
        defaults: None,
        cache_store: None,
        observability: None,
        backends: vec![],
    }
}

fn backend(name: &str, prefix: &str, upstreams: &[&str]) -> BackendConfig {
    BackendConfig {
        name: name.to_string(),
        prefix: prefix.to_string(),
        kind: BackendKindConfig::HttpPassthrough {
            upstreams: upstreams.iter().map(|u| u.to_string()).collect(),
            lb: LbStrategy::default(),
        },
        request_timeout_s: None,
        connect_timeout_s: None,
        retries: None,
        rate_limit: None,
        cache: None,
    }
}

#[test]
fn applies_defaults() {
    let mut cfg = empty_config();
    cfg.backends = vec![backend("api", "/api", &["http://127.0.0.1:3001"])];
    let bp = Blueprint::try_from_config(cfg, Some("0.0.0.0:8080".to_string())).unwrap();

    assert_eq!(bp.listen.to_string(), "0.0.0.0:8080");
    assert_eq!(bp.observability.log_format, LogFormat::Json);
    assert_eq!(bp.observability.log_level, "info");
    assert_eq!(bp.cache_store.l1_max_entries, 100_000);

    let b = &bp.backends[0];
    assert_eq!(b.retries, 2);
    assert_eq!(b.request_timeout, Duration::from_secs(30));
    assert_eq!(b.rate_limit.rps, 100);
    assert_eq!(b.rate_limit.key, RateLimitKey::Ip);
    assert!(!b.cache.enabled);
    match &b.kind {
        BackendKindBlueprint::HttpPassthrough { lb, .. } => {
            assert!(matches!(lb, LbStrategy::RoundRobin))
        }
    }
}

#[test]
fn log_level_passthrough() {
    let mut cfg = empty_config();
    cfg.observability = Some(ObservabilityConfig {
        log_format: None,
        log_level: Some("debug,hyper=warn".to_string()),
        otlp_endpoint: None,
    });
    let bp = Blueprint::try_from_config(cfg, Some("0.0.0.0:8080".to_string())).unwrap();
    assert_eq!(bp.observability.log_level, "debug,hyper=warn");
}

#[test]
fn route_overrides_defaults() {
    let mut cfg = empty_config();
    cfg.defaults = Some(Defaults {
        rate_limit: Some(RateLimitConfig { rps: Some(100), burst: None, key: None }),
        cache: Some(CacheConfig { enabled: Some(false), ttl_s: None, max_body_kb: None }),
        ..Default::default()
    });
    let mut b = backend("api", "/api", &["http://127.0.0.1:3001"]);
    b.rate_limit = Some(RateLimitConfig { rps: Some(500), burst: None, key: None });
    b.cache = Some(CacheConfig { enabled: Some(true), ttl_s: Some(90), max_body_kb: None });
    cfg.backends = vec![b];
    let bp = Blueprint::try_from_config(cfg, Some("0.0.0.0:8080".to_string())).unwrap();
    let b = &bp.backends[0];
    assert_eq!(b.rate_limit.rps, 500); // route override
    assert!(b.cache.enabled);
    assert_eq!(b.cache.ttl, Duration::from_secs(90));
}

#[test]
fn accumulates_all_errors() {
    let mut cfg = empty_config();
    cfg.listen = Some("not-an-addr".to_string());
    cfg.backends = vec![
        backend("dup", "noslash", &[]),
        backend("dup", "/ok", &["ftp://bad"]),
    ];
    // "not-an-addr" does not parse as a socket address
    let errs = Blueprint::try_from_config(cfg, None).unwrap_err();
    let paths: Vec<&str> = errs.iter().map(|e| e.path.as_str()).collect();

    assert!(paths.contains(&"listen"), "{paths:?}");
    assert!(paths.iter().any(|p| *p == "backends[0].prefix"), "{paths:?}");
    assert!(paths.iter().any(|p| *p == "backends[0].kind.upstreams"), "{paths:?}");
    assert!(paths.iter().any(|p| *p == "backends[1].name"), "{paths:?}");
    assert!(paths.iter().any(|p| *p == "backends[1].kind.upstreams[0]"), "{paths:?}");
    assert!(errs.len() >= 5, "expected >=5 errors, got {}", errs.len());
}

#[test]
fn error_messages_and_order_are_exact() {
    let mut cfg = empty_config();
    cfg.listen = Some("bad".to_string());
    cfg.observability = Some(ObservabilityConfig {
        log_format: Some("xml".to_string()),
        log_level: None,
        otlp_endpoint: None,
    });
    let mut b0 = backend(" ", "/a", &["http://ok:1", "nope"]);
    b0.rate_limit = Some(RateLimitConfig { rps: None, burst: None, key: Some("user".to_string()) });
    let b1 = backend("svc", "/a", &["https://ok:2"]);
    let b2 = backend("svc", "x", &["http://h:3"]);
    cfg.backends = vec![b0, b1, b2];
    let errs = Blueprint::try_from_config(cfg, None).unwrap_err();
    let got: Vec<(String, String)> = errs.into_iter().map(|e| (e.path, e.message)).collect();
    let want: Vec<(&str, &str)> = vec![
        ("listen", "'bad' is not a valid socket address (expected ip:port)"),
        ("observability.log_format", "unknown log_format 'xml' (supported: json, pretty)"),
        ("backends[0].name", "must not be empty"),
        ("backends[0].kind.upstreams[1]", "'nope' is not a valid http(s) URL"),
        ("backends[0].rate_limit.key", "unknown rate-limit key 'user' (supported: ip)"),
        ("backends[1].prefix", "duplicate prefix '/a'"),
        ("backends[2].name", "duplicate backend name 'svc'"),
        ("backends[2].prefix", "must start with '/', got 'x'"),
    ];
    let want: Vec<(String, String)> =
        want.into_iter().map(|(p, m)| (p.to_string(), m.to_string())).collect();
    assert_eq!(got, want);
}

#[test]
fn valid_config_converts_every_field() {
    let mut cfg = empty_config();
    cfg.listen = Some("127.0.0.1:9999".to_string());
    cfg.tls = Some(TlsConfig { cert: "c.pem".to_string(), key: "k.pem".to_string() });
    cfg.cache_store = Some(CacheStoreConfig { l1_max_entries: Some(7), l2_path: Some("/tmp/l2".to_string()) });
    cfg.observability = Some(ObservabilityConfig {
        log_format: Some("pretty".to_string()),
        log_level: None,
        otlp_endpoint: Some("http://collector:4317".to_string()),
    });
    cfg.defaults = Some(Defaults {
        request_timeout_s: Some(11),
        connect_timeout_s: Some(3),
        retries: Some(4),
        rate_limit: Some(RateLimitConfig { rps: None, burst: Some(9), key: Some("ip".to_string()) }),
        cache: Some(CacheConfig { enabled: None, ttl_s: Some(60), max_body_kb: Some(2) }),
    });
    let mut b = backend("api", "/api", &["http://127.0.0.1:3001", "https://example.org"]);
    b.connect_timeout_s = Some(8);
    b.retries = Some(0);
    cfg.backends = vec![b, backend("web", "/web", &["http://127.0.0.1:3002"])];
    let bp = Blueprint::try_from_config(cfg, Some("127.0.0.1:9999".to_string())).unwrap();
    assert_eq!(bp.listen, "127.0.0.1:9999");
    let tls = bp.tls.unwrap();
    assert_eq!(tls.cert, PathBuf::from("c.pem"));
    assert_eq!(tls.key, PathBuf::from("k.pem"));
    assert_eq!(bp.cache_store.l1_max_entries, 7);
    assert_eq!(bp.cache_store.l2_path, Some(PathBuf::from("/tmp/l2")));
    assert_eq!(bp.observability.log_format, LogFormat::Pretty);
    assert_eq!(bp.observability.log_level, "info");
    assert_eq!(bp.observability.otlp_endpoint.as_deref(), Some("http://collector:4317"));
    assert_eq!(bp.backends.len(), 2);
    let api = &bp.backends[0];
    assert_eq!(api.name, "api");
    assert_eq!(api.request_timeout, Duration::from_secs(11));
    assert_eq!(api.connect_timeout, Duration::from_secs(8));
    assert_eq!(api.retries, 0);
    assert_eq!(api.rate_limit.rps, 100);
    assert_eq!(api.rate_limit.burst, 9);
    assert!(!api.cache.enabled);
    assert_eq!(api.cache.ttl, Duration::from_secs(60));
    assert_eq!(api.cache.max_body_bytes, 2048);
    assert_eq!(bp.backends[1].name, "web");
    assert_eq!(bp.backends[1].retries, 4);
}

#[test]
fn default_cache_body_limit_is_256_kib() {
    let mut cfg = empty_config();
    cfg.backends = vec![backend("api", "/api", &["http://127.0.0.1:3001"])];
    let bp = Blueprint::try_from_config(cfg, Some("0.0.0.0:8080".to_string())).unwrap();
    assert_eq!(bp.backends[0].cache.max_body_bytes, 262_144);
    assert_eq!(bp.backends[0].cache.ttl, Duration::from_secs(30));
    assert_eq!(bp.backends[0].connect_timeout, Duration::from_secs(5));
    assert_eq!(bp.backends[0].rate_limit.burst, 50);
}

#[test]
fn listen_address_defaults() {
    let cfg = empty_config();
    assert_eq!(listen_address(&cfg), "0.0.0.0:8080");
    let mut cfg = empty_config();
    cfg.listen = Some("1.2.3.4:1".to_string());
    assert_eq!(listen_address(&cfg), "1.2.3.4:1");
}

#[test]
fn upstream_validity() {
    assert!(valid_upstream("http://127.0.0.1:3001"));
    assert!(valid_upstream("https://example.org/path"));
    assert!(!valid_upstream("ftp://bad"));
    assert!(!valid_upstream("/relative/only"));
    assert!(!valid_upstream("not a uri"));
}

#[test]
fn empty_backend_list_is_valid() {
    let bp = Blueprint::try_from_config(empty_config(), Some("0.0.0.0:8080".to_string())).unwrap();
    assert!(bp.backends.is_empty());
    assert!(bp.tls.is_none());
}

#[test]
fn listen_is_the_parsed_address() {
    // an address with a leading-zero port is kept as the parser writes it back
    let mut cfg = empty_config();
    cfg.listen = Some("0.0.0.0:08080".to_string());
    let bp = Blueprint::try_from_config(cfg, Some("0.0.0.0:8080".to_string())).unwrap();
    assert_eq!(bp.listen, "0.0.0.0:8080");
}
