use edgeproxy::config::blueprint::{
    BackendBlueprint, BackendKindBlueprint, CacheBlueprint, RateLimitBlueprint, RateLimitKey,
};
use edgeproxy::proxy::backend::{Backend, BackendKind};
use edgeproxy::proxy::lb::{LbState, LbStrategy};
use std::time::Duration;

fn make_bp(lb: LbStrategy) -> BackendBlueprint {
    BackendBlueprint {
        name: "test-api".into(),
        prefix: "/api".into(),
        kind: BackendKindBlueprint::HttpPassthrough {
            upstreams: vec!["http://127.0.0.1:19999".into(), "http://127.0.0.1:19998".into()],
            lb,
        },
        request_timeout: Duration::from_secs(5),
        connect_timeout: Duration::from_secs(1),
        retries: 0,
        rate_limit: RateLimitBlueprint { rps: 1000, burst: 500, key: RateLimitKey::Ip },
        cache: CacheBlueprint { enabled: false, ttl: Duration::from_secs(30), max_body_bytes: 262_144 },
    }
}

#[test]
fn from_blueprint_copies_identity_and_builds_balancer() {
    let b = Backend::from_blueprint(&make_bp(LbStrategy::LeastConnections));
    assert_eq!(b.name, "test-api");
    assert_eq!(b.prefix, "/api");
    match b.kind {
        BackendKind::HttpPassthrough { lb: LbState::LeastConnections { replicas, active } } => {
            assert_eq!(replicas, vec!["http://127.0.0.1:19999".to_string(), "http://127.0.0.1:19998".to_string()]);
            assert_eq!(active, vec![0, 0]);
        }
        _ => panic!("expected a least-connections balancer"),
    }
}

#[test]
fn from_blueprint_round_robin_starts_at_zero() {
    let b = Backend::from_blueprint(&make_bp(LbStrategy::RoundRobin));
    match b.kind {
        BackendKind::HttpPassthrough { lb: LbState::RoundRobin { counter, .. } } => assert_eq!(counter, 0),
        _ => panic!("expected a round-robin balancer"),
    }
}
