//! Load balancing over a backend's upstream replicas.
use std::collections::hash_map::DefaultHasher;
use std::hash::Hash;
use std::hash::Hasher;
use vstd::prelude::*;
use vstd::std_specs::hash::DefaultHasherAdditionalSpecFns;

verus! {

/// How a backend spreads requests over its replicas.
#[derive(Debug, Clone, Copy, PartialEq, Eq, Structural)]
pub enum LbStrategy {
    RoundRobin,
    LeastConnections,
    IpHash,
}

impl Default for LbStrategy {
    /// Round-robin is the strategy used when the configuration names none.
    fn default() -> (s: Self)
        ensures
            s == LbStrategy::RoundRobin,
    {
        LbStrategy::RoundRobin
    }
}

/// The writes (byte chunks) that `<str as Hash>::hash` makes into a hasher.
pub uninterp spec fn str_hash_writes(s: Seq<char>) -> Seq<Seq<u8>>;

/// `<str as Hash>::hash` fed into a `DefaultHasher`: appends the writes the
/// string's `Hash` impl makes. Which bytes those are is left unsaid.
#[verifier::external_body]
fn hash_str_into(s: &str, state: &mut DefaultHasher)
    ensures
        final(state)@ == old(state)@ + str_hash_writes(s@),
{
    s.hash(state);
}

/// The hash a fresh `DefaultHasher` gives a string slice.
pub open spec fn default_hash_of_str(s: Seq<char>) -> u64 {
    DefaultHasher::spec_finish(str_hash_writes(s))
}

/// Hashes `s` with a fresh `std::collections::hash_map::DefaultHasher`.
fn hash_str(s: &str) -> (h: u64)
    ensures
        h == default_hash_of_str(s@),
{
    let mut hasher = DefaultHasher::new();
    hash_str_into(s, &mut hasher);
    proof {
        assert(Seq::<Seq<u8>>::empty() + str_hash_writes(s@) =~= str_hash_writes(s@));
    }
    hasher.finish()
}

/// `x + 1`, wrapping to 0 past `usize::MAX` (what an atomic `fetch_add` does).
pub open spec fn wrapping_inc(x: usize) -> usize {
    if x == usize::MAX {
        0
    } else {
        (x + 1) as usize
    }
}

/// `x - 1`, wrapping to `usize::MAX` below 0 (what an atomic `fetch_sub` does).
pub open spec fn wrapping_dec(x: usize) -> usize {
    if x == 0 {
        usize::MAX
    } else {
        (x - 1) as usize
    }
}

/// Index of the first smallest element (ties go to the earliest index).
pub open spec fn first_min_index(s: Seq<usize>) -> int
    decreases s.len(),
{
    if s.len() <= 1 {
        0
    } else {
        let i = first_min_index(s.drop_last());
        if s.last() < s[i] {
            s.len() - 1
        } else {
            i
        }
    }
}

/// The client address used for hashing when the request carries none.
pub open spec fn unknown_ip() -> Seq<char> {
    seq!['0', '.', '0', '.', '0', '.', '0']
}

/// The mathematical model of a balancer: replica URLs and counters.
pub enum LbModel {
    RoundRobin { replicas: Seq<Seq<char>>, counter: usize },
    LeastConnections { replicas: Seq<Seq<char>>, active: Seq<usize> },
    IpHash { replicas: Seq<Seq<char>> },
}

impl LbModel {
    /// The replica URLs, in configuration order.
    pub open spec fn replicas(self) -> Seq<Seq<char>> {
        match self {
            LbModel::RoundRobin { replicas, .. } => replicas,
            LbModel::LeastConnections { replicas, .. } => replicas,
            LbModel::IpHash { replicas } => replicas,
        }
    }

    /// The least-connections state keeps one counter per replica.
    pub open spec fn wf(self) -> bool {
        match self {
            LbModel::LeastConnections { replicas, active } => active.len() == replicas.len(),
            _ => true,
        }
    }

    /// The replica index that `pick` chooses in this state.
    pub open spec fn picked_index(self, client_ip: Option<Seq<char>>) -> int {
        match self {
            LbModel::RoundRobin { replicas, counter } => counter as int % replicas.len() as int,
            LbModel::LeastConnections { active, .. } => first_min_index(active),
            LbModel::IpHash { replicas } => {
                let ip = match client_ip {
                    Some(ip) => ip,
                    None => unknown_ip(),
                };
                (default_hash_of_str(ip) as usize) as int % replicas.len() as int
            },
        }
    }

    /// The state after `pick`: only round-robin moves (its counter advances).
    pub open spec fn after_pick(self) -> LbModel {
        match self {
            LbModel::RoundRobin { replicas, counter } => LbModel::RoundRobin {
                replicas,
                counter: wrapping_inc(counter),
            },
            other => other,
        }
    }

    /// The state after `increment(idx)`: one more open connection on `idx`
    /// under least-connections; the other strategies keep no such count.
    pub open spec fn incremented(self, idx: int) -> LbModel {
        match self {
            LbModel::LeastConnections { replicas, active } => LbModel::LeastConnections {
                replicas,
                active: active.update(idx, wrapping_inc(active[idx])),
            },
            other => other,
        }
    }

    /// The state after `decrement(idx)`.
    pub open spec fn decremented(self, idx: int) -> LbModel {
        match self {
            LbModel::LeastConnections { replicas, active } => LbModel::LeastConnections {
                replicas,
                active: active.update(idx, wrapping_dec(active[idx])),
            },
            other => other,
        }
    }
}

/// The balancer `LbState::new` builds: every counter starts at 0.
pub open spec fn new_model(strategy: LbStrategy, replicas: Seq<Seq<char>>) -> LbModel {
    match strategy {
        LbStrategy::RoundRobin => LbModel::RoundRobin { replicas, counter: 0 },
        LbStrategy::LeastConnections => LbModel::LeastConnections {
            replicas,
            active: Seq::new(replicas.len(), |i: int| 0usize),
        },
        LbStrategy::IpHash => LbModel::IpHash { replicas },
    }
}

/// Runtime state for a single backend's load balancer.
pub enum LbState {
    RoundRobin { replicas: Vec<String>, counter: usize },
    LeastConnections { replicas: Vec<String>, active: Vec<usize> },
    IpHash { replicas: Vec<String> },
}

impl View for LbState {
    type V = LbModel;

    open spec fn view(&self) -> LbModel {
        match self {
            LbState::RoundRobin { replicas, counter } => LbModel::RoundRobin {
                replicas: replicas@.map_values(|r: String| r@),
                counter: *counter,
            },
            LbState::LeastConnections { replicas, active } => LbModel::LeastConnections {
                replicas: replicas@.map_values(|r: String| r@),
                active: active@,
            },
            LbState::IpHash { replicas } => LbModel::IpHash {
                replicas: replicas@.map_values(|r: String| r@),
            },
        }
    }
}

impl LbState {
    /// Builds the balancer for `strategy` over `replicas`, with every counter at 0.
    pub fn new(strategy: LbStrategy, replicas: Vec<String>) -> (s: Self)
        ensures
            s@.wf(),
            s@ == new_model(strategy, replicas@.map_values(|r: String| r@)),
    {
        match strategy {
            LbStrategy::RoundRobin => LbState::RoundRobin { replicas, counter: 0 },
            LbStrategy::LeastConnections => {
                let n = replicas.len();
                let mut active: Vec<usize> = Vec::new();
                let mut i: usize = 0;
                while i < n
                    invariant
                        i <= n,
                        active@ == Seq::new(i as nat, |k: int| 0usize),
                    decreases n - i,
                {
                    active.push(0);
                    i = i + 1;
                }
                LbState::LeastConnections { replicas, active }
            },
            LbStrategy::IpHash => LbState::IpHash { replicas },
        }
    }

    /// Picks an upstream replica and returns its index and URL. Pass the index
    /// back to `increment` / `decrement` to track open connections.
    pub fn pick(&mut self, client_ip: Option<&str>) -> (r: (usize, String))
        requires
            old(self)@.wf(),
            old(self)@.replicas().len() > 0,
        ensures
            r.0 == old(self)@.picked_index(
                match client_ip {
                    Some(ip) => Some(ip@),
                    None => None,
                },
            ),
            r.0 < old(self)@.replicas().len(),
            r.1@ == old(self)@.replicas()[r.0 as int],
            final(self)@ == old(self)@.after_pick(),
            final(self)@.wf(),
    {
        match self {
            LbState::RoundRobin { replicas, counter } => {
                let idx = *counter % replicas.len();
                proof {
                    assert(replicas@.map_values(|r: String| r@).len() == replicas.len());
                }
                *counter = counter.wrapping_add(1);
                (idx, replicas[idx].clone())
            },
            LbState::LeastConnections { replicas, active } => {
                let n = active.len();
                let mut best: usize = 0;
                let mut k: usize = 1;
                proof {
                    reveal_with_fuel(first_min_index, 2);
                    assert(active@.take(1).drop_last().len() == 0);
                }
                while k < n
                    invariant
                        1 <= k <= n,
                        n == active.len(),
                        best < k,
                        best as int == first_min_index(active@.take(k as int)),
                    decreases n - k,
                {
                    proof {
                        assert(active@.take(k as int + 1).drop_last() =~= active@.take(k as int));
                    }
                    if active[k] < active[best] {
                        best = k;
                    }
                    k = k + 1;
                }
                proof {
                    assert(active@.take(n as int) =~= active@);
                }
                (best, replicas[best].clone())
            },
            LbState::IpHash { replicas } => {
                let ip: &str = match client_ip {
                    Some(ip) => ip,
                    None => "0.0.0.0",
                };
                proof {
                    reveal_strlit("0.0.0.0");
                }
                let h = hash_str(ip);
                let idx = (h as usize) % replicas.len();
                proof {
                    assert(replicas@.map_values(|r: String| r@).len() == replicas.len());
                    assert(ip@ == match client_ip {
                        Some(ip) => ip@,
                        None => unknown_ip(),
                    });
                }
                (idx, replicas[idx].clone())
            },
        }
    }

    /// Records one more open connection on replica `idx` (least-connections only).
    pub fn increment(&mut self, idx: usize)
        requires
            old(self)@.wf(),
            old(self)@ is LeastConnections ==> idx < old(self)@.replicas().len(),
        ensures
            final(self)@ == old(self)@.incremented(idx as int),
            final(self)@.wf(),
    {
        if let LbState::LeastConnections { active, .. } = self {
            let v = active[idx].wrapping_add(1);
            active.set(idx, v);
        }
    }

    /// Records one connection fewer on replica `idx` (least-connections only).
    pub fn decrement(&mut self, idx: usize)
        requires
            old(self)@.wf(),
            old(self)@ is LeastConnections ==> idx < old(self)@.replicas().len(),
        ensures
            final(self)@ == old(self)@.decremented(idx as int),
            final(self)@.wf(),
    {
        if let LbState::LeastConnections { active, .. } = self {
            let v = active[idx].wrapping_sub(1);
            active.set(idx, v);
        }
    }
}

/// The first smallest element is no larger than any element, and strictly
/// smaller than every element before it.
pub proof fn lemma_first_min_index(s: Seq<usize>)
    requires
        s.len() > 0,
    ensures
        0 <= first_min_index(s) < s.len(),
        forall|j: int| 0 <= j < s.len() ==> s[first_min_index(s)] <= #[trigger] s[j],
        forall|j: int| 0 <= j < first_min_index(s) ==> s[first_min_index(s)] < #[trigger] s[j],
    decreases s.len(),
{
    if s.len() > 1 {
        let t = s.drop_last();
        lemma_first_min_index(t);
        let i = first_min_index(t);
        assert forall|j: int| 0 <= j < s.len() implies s[first_min_index(s)] <= #[trigger] s[j] by {
            if j < s.len() - 1 {
                assert(t[j] == s[j]);
            }
        }
        assert forall|j: int| 0 <= j < first_min_index(s) implies s[first_min_index(s)] < #[trigger] s[j] by {
            if first_min_index(s) == i {
                assert(t[j] == s[j]);
                assert(t[i] == s[i]);
            } else {
                assert(t[j] == s[j]);
                assert(t[i] <= t[j]);
            }
        }
    }
}

/// Round-robin law: while the counter has not reached `usize::MAX`, two
/// consecutive picks choose consecutive replicas (modulo the replica count).
pub proof fn lemma_round_robin_advances(m: LbModel, ip1: Option<Seq<char>>, ip2: Option<Seq<char>>)
    requires
        m is RoundRobin,
        m.replicas().len() > 0,
        m->counter < usize::MAX,
    ensures
        m.after_pick().picked_index(ip2) == (m.picked_index(ip1) + 1) % (m.replicas().len() as int),
{
    let n = m.replicas().len() as int;
    let c = m->counter as int;
    assert((c + 1) % n == ((c % n) + 1) % n) by (nonlinear_arith)
        requires
            n > 0,
            c >= 0,
    {
        vstd::arithmetic::div_mod::lemma_add_mod_noop(c, 1, n);
    }
}

/// The state after `k` picks.
pub open spec fn after_picks(m: LbModel, k: nat) -> LbModel
    decreases k,
{
    if k == 0 {
        m
    } else {
        after_picks(m, (k - 1) as nat).after_pick()
    }
}

proof fn lemma_after_picks_round_robin(m: LbModel, k: nat)
    requires
        m is RoundRobin,
        m->counter + k <= usize::MAX,
    ensures
        after_picks(m, k) == (LbModel::RoundRobin { replicas: m.replicas(), counter: (m->counter + k) as usize }),
    decreases k,
{
    if k > 0 {
        lemma_after_picks_round_robin(m, (k - 1) as nat);
    }
}

/// Whether one of the next `n` picks (`n` replicas) chooses replica `j`.
pub open spec fn picked_within_cycle(m: LbModel, ip: Option<Seq<char>>, j: int) -> bool {
    exists|k: nat| k < m.replicas().len() && #[trigger] after_picks(m, k).picked_index(ip) == j
}

/// Round-robin fairness law: while the counter does not wrap, the `k`-th
/// next pick chooses replica `(counter + k) mod n`, so any `n` consecutive
/// picks visit every one of the `n` replicas exactly once.
pub proof fn lemma_round_robin_fair(m: LbModel, ip: Option<Seq<char>>)
    requires
        m is RoundRobin,
        m.replicas().len() > 0,
        m->counter + m.replicas().len() <= usize::MAX,
    ensures
        forall|k: nat| k < m.replicas().len() ==> #[trigger] after_picks(m, k).picked_index(ip)
            == (m->counter + k) % (m.replicas().len() as int),
        forall|j: int| 0 <= j < m.replicas().len() ==> #[trigger] picked_within_cycle(m, ip, j),
{
    let n = m.replicas().len() as int;
    let c = m->counter as int;
    assert forall|k: nat| k < m.replicas().len() implies #[trigger] after_picks(m, k).picked_index(ip)
        == (m->counter + k) % (m.replicas().len() as int) by {
        lemma_after_picks_round_robin(m, k);
    }
    assert forall|j: int| 0 <= j < n implies #[trigger] picked_within_cycle(m, ip, j) by {
        let k: int = (j - c % n + n) % n;
        assert(0 <= k < n) by {
            vstd::arithmetic::div_mod::lemma_mod_bound(j - c % n + n, n);
        }
        assert((c + k) % n == j) by {
            let q = c / n;
            let r = c % n;
            vstd::arithmetic::div_mod::lemma_fundamental_div_mod(c, n);
            vstd::arithmetic::div_mod::lemma_mod_bound(c, n);
            vstd::arithmetic::div_mod::lemma_mod_add_multiples_vanish(j - r, n);
            if j >= r {
                vstd::arithmetic::div_mod::lemma_small_mod((j - r) as nat, n as nat);
                assert(k == j - r);
                assert(c + k == n * q + j);
                vstd::arithmetic::div_mod::lemma_mod_multiples_vanish(q, j, n);
            } else {
                vstd::arithmetic::div_mod::lemma_small_mod((j - r + n) as nat, n as nat);
                assert(k == j - r + n);
                assert(n * (q + 1) == n * q + n) by (nonlinear_arith);
                assert(c + k == n * (q + 1) + j);
                vstd::arithmetic::div_mod::lemma_mod_multiples_vanish(q + 1, j, n);
            }
            vstd::arithmetic::div_mod::lemma_small_mod(j as nat, n as nat);
        }
        lemma_after_picks_round_robin(m, k as nat);
        assert(after_picks(m, k as nat).picked_index(ip) == j);
    }
}

/// Round-robin law from a fresh balancer: the `k`-th pick (counting from
/// 0) made by `LbState::new(RoundRobin, replicas)` chooses index `k mod n`
/// and its replica, whatever the client address, as long as the counter
/// has not wrapped (`k < usize::MAX`).
pub proof fn lemma_round_robin_kth_pick(replicas: Seq<Seq<char>>, k: nat, ip: Option<Seq<char>>)
    requires
        replicas.len() > 0,
        k < usize::MAX,
    ensures
        after_picks(new_model(LbStrategy::RoundRobin, replicas), k).picked_index(ip) == (k as int) % (
        replicas.len() as int),
        0 <= (k as int) % (replicas.len() as int) < replicas.len(),
        after_picks(new_model(LbStrategy::RoundRobin, replicas), k).replicas() == replicas,
{
    let m = new_model(LbStrategy::RoundRobin, replicas);
    lemma_after_picks_round_robin(m, k);
    vstd::arithmetic::div_mod::lemma_mod_bound(k as int, replicas.len() as int);
}

/// Least-connections law: the picked replica has the fewest open connections,
/// and every replica before it has strictly more; picking changes nothing.
pub proof fn lemma_least_connections_picks_minimum(m: LbModel, ip: Option<Seq<char>>)
    requires
        m is LeastConnections,
        m.wf(),
        m.replicas().len() > 0,
    ensures
        0 <= m.picked_index(ip) < m.replicas().len(),
        forall|j: int| 0 <= j < m.replicas().len() ==> m->active[m.picked_index(ip)] <= #[trigger] m->active[j],
        forall|j: int| 0 <= j < m.picked_index(ip) ==> m->active[m.picked_index(ip)] < #[trigger] m->active[j],
        m.after_pick() == m,
{
    lemma_first_min_index(m->active);
}

/// IP-hash law: the choice depends on the client address alone (a missing
/// address counts as `0.0.0.0`), and picking changes nothing.
pub proof fn lemma_ip_hash_is_sticky(m: LbModel, ip: Option<Seq<char>>)
    requires
        m is IpHash,
        m.replicas().len() > 0,
    ensures
        0 <= m.picked_index(ip) < m.replicas().len(),
        m.after_pick() == m,
        m.after_pick().picked_index(ip) == m.picked_index(ip),
        m.picked_index(None) == m.picked_index(Some(unknown_ip())),
{
}

/// Connection tracking law: `decrement` undoes `increment` on the same
/// replica, and `increment` undoes `decrement`, for every strategy.
pub proof fn lemma_increment_decrement_inverse(m: LbModel, idx: int)
    requires
        m.wf(),
        m is LeastConnections ==> 0 <= idx < m.replicas().len(),
    ensures
        m.incremented(idx).decremented(idx) == m,
        m.decremented(idx).incremented(idx) == m,
        m.incremented(idx).wf(),
        m.decremented(idx).wf(),
{
    if let LbModel::LeastConnections { replicas, active } = m {
        assert(active.update(idx, wrapping_inc(active[idx])).update(
            idx,
            wrapping_dec(wrapping_inc(active[idx])),
        ) =~= active);
        assert(active.update(idx, wrapping_dec(active[idx])).update(
            idx,
            wrapping_inc(wrapping_dec(active[idx])),
        ) =~= active);
    }
}

/// Every index `pick` returns addresses a replica, whatever the strategy.
pub proof fn lemma_picked_index_in_range(m: LbModel, ip: Option<Seq<char>>)
    requires
        m.wf(),
        m.replicas().len() > 0,
    ensures
        0 <= m.picked_index(ip) < m.replicas().len(),
{
    if m is LeastConnections {
        lemma_first_min_index(m->active);
    }
}

} // verus!
