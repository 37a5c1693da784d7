use edgeproxy::proxy::lb::{LbState, LbStrategy};
use std::collections::hash_map::DefaultHasher;
use std::hash::{Hash, Hasher};

fn replicas(n: usize) -> Vec<String> {
    (0..n).map(|i| format!("http://127.0.0.1:{}", 3000 + i)).collect()
}

#[test]
fn default_strategy_is_round_robin() {
    assert_eq!(LbStrategy::default(), LbStrategy::RoundRobin);
}

#[test]
fn round_robin_cycles_through_replicas() {
    let mut lb = LbState::new(LbStrategy::RoundRobin, replicas(3));
    let picks: Vec<usize> = (0..7).map(|_| lb.pick(None).0).collect();
    assert_eq!(picks, vec![0, 1, 2, 0, 1, 2, 0]);
}

#[test]
fn pick_returns_the_replica_url() {
    let mut lb = LbState::new(LbStrategy::RoundRobin, replicas(2));
    assert_eq!(lb.pick(None), (0, "http://127.0.0.1:3000".to_string()));
    assert_eq!(lb.pick(None), (1, "http://127.0.0.1:3001".to_string()));
}

#[test]
fn round_robin_counter_wraps() {
    let mut lb = LbState::RoundRobin { replicas: replicas(3), counter: usize::MAX };
    let (idx, _) = lb.pick(None);
    assert_eq!(idx, usize::MAX % 3);
    match lb {
        LbState::RoundRobin { counter, .. } => assert_eq!(counter, 0),
        _ => unreachable!(),
    }
}

#[test]
fn least_connections_prefers_idle_replica() {
    let mut lb = LbState::new(LbStrategy::LeastConnections, replicas(3));
    assert_eq!(lb.pick(None).0, 0);
    lb.increment(0);
    assert_eq!(lb.pick(None).0, 1);
    lb.increment(1);
    lb.increment(1);
    assert_eq!(lb.pick(None).0, 2);
    lb.increment(2);
    // counts are now [1, 2, 1]: the first minimum wins
    assert_eq!(lb.pick(None).0, 0);
}

#[test]
fn increment_then_decrement_restores_counts() {
    let mut lb = LbState::new(LbStrategy::LeastConnections, replicas(2));
    lb.increment(1);
    lb.decrement(1);
    match &lb {
        LbState::LeastConnections { active, .. } => assert_eq!(active, &vec![0, 0]),
        _ => unreachable!(),
    }
}

#[test]
fn increment_is_ignored_by_other_strategies() {
    let mut lb = LbState::new(LbStrategy::IpHash, replicas(2));
    lb.increment(5);
    lb.decrement(5);
    match &lb {
        LbState::IpHash { replicas } => assert_eq!(replicas.len(), 2),
        _ => unreachable!(),
    }
}

fn expected_hash_index(ip: &str, n: usize) -> usize {
    let mut hasher = DefaultHasher::new();
    ip.hash(&mut hasher);
    hasher.finish() as usize % n
}

#[test]
fn ip_hash_is_sticky_and_uses_default_hasher() {
    let mut lb = LbState::new(LbStrategy::IpHash, replicas(5));
    let a = lb.pick(Some("10.1.2.3")).0;
    let b = lb.pick(Some("10.1.2.3")).0;
    assert_eq!(a, b);
    assert_eq!(a, expected_hash_index("10.1.2.3", 5));
    assert_eq!(lb.pick(None).0, expected_hash_index("0.0.0.0", 5));
    assert_eq!(lb.pick(None).0, lb.pick(Some("0.0.0.0")).0);
}
