//! The runtime blueprint and the validating conversion from the file model.
//!
//! Every default is applied here and nowhere else; every problem found is
//! accumulated (with the YAML path that caused it) instead of failing on the
//! first one.
use super::model::{
    BackendConfig, BackendKindConfig, CacheConfig, CacheStoreConfig, Config, Defaults,
    ObservabilityConfig, RateLimitConfig,
};
use crate::proxy::lb::LbStrategy;
use crate::text::{is_blank, is_white_space_char};
use std::path::PathBuf;
use std::time::Duration;
use vstd::prelude::*;

verus! {

// ---- defaults (applied here, nowhere else) --------------------------------
pub const DEFAULT_REQUEST_TIMEOUT_S: u64 = 30;

pub const DEFAULT_CONNECT_TIMEOUT_S: u64 = 5;

pub const DEFAULT_RETRIES: u32 = 2;

pub const DEFAULT_RPS: u32 = 100;

pub const DEFAULT_BURST: u32 = 50;

pub const DEFAULT_CACHE_ENABLED: bool = false;

pub const DEFAULT_CACHE_TTL_S: u64 = 30;

pub const DEFAULT_CACHE_MAX_BODY_KB: u64 = 256;

pub const DEFAULT_L1_MAX_ENTRIES: u64 = 100000;

/// The listen address used when the file names none.
pub open spec fn default_listen() -> Seq<char> {
    "0.0.0.0:8080"@
}

/// The log level used when the file names none.
pub open spec fn default_log_level() -> Seq<char> {
    "info"@
}

// ---- outside values -------------------------------------------------------
#[verifier::external_type_specification]
#[verifier::external_body]
pub struct ExPathBuf(PathBuf);

/// The `Duration` that `Duration::from_secs(secs)` returns.
pub uninterp spec fn duration_of_secs(secs: u64) -> Duration;

/// `std::time::Duration::from_secs`: a duration of `secs` whole seconds.
#[verifier::external_body]
fn duration_from_secs(secs: u64) -> (d: Duration)
    ensures
        d == duration_of_secs(secs),
{
    Duration::from_secs(secs)
}

/// The path that `PathBuf::from(String)` makes of a string.
pub uninterp spec fn path_buf_of(s: Seq<char>) -> PathBuf;

/// `std::path::PathBuf::from(String)`: the string taken as a path, unchanged.
#[verifier::external_body]
fn path_from_string(s: String) -> (p: PathBuf)
    ensures
        p == path_buf_of(s@),
{
    PathBuf::from(s)
}

/// What `http::Uri` makes of a string: `None` when it does not parse, else
/// its scheme (`scheme_str`) and its authority (`authority`, as text).
pub uninterp spec fn uri_parts(s: Seq<char>) -> Option<(Option<Seq<char>>, Option<Seq<char>>)>;

pub open spec fn opt_text_view(o: Option<String>) -> Option<Seq<char>> {
    match o {
        Some(s) => Some(s@),
        None => None,
    }
}

pub open spec fn uri_parts_view(p: Option<(Option<String>, Option<String>)>) -> Option<
    (Option<Seq<char>>, Option<Seq<char>>),
> {
    match p {
        Some((scheme, authority)) => Some((opt_text_view(scheme), opt_text_view(authority))),
        None => None,
    }
}

/// Parses `s` as an `http::Uri` (`FromStr`) and reads its `scheme_str` and
/// `authority` (`Authority::as_str`). The URI grammar itself is left to the
/// `http` crate.
#[verifier::external_body]
pub(crate) fn parse_uri_parts(s: &str) -> (r: Option<(Option<String>, Option<String>)>)
    ensures
        uri_parts_view(r) == uri_parts(s@),
{
    match s.parse::<http::Uri>() {
        Ok(uri) => {
            let scheme = match uri.scheme_str() {
                Some(x) => Some(String::from(x)),
                None => None,
            };
            let authority = match uri.authority() {
                Some(a) => Some(String::from(a.as_str())),
                None => None,
            };
            Some((scheme, authority))
        },
        Err(_) => None,
    }
}

// ---- the runtime model ----------------------------------------------------
#[derive(Debug, Clone, Copy, PartialEq, Eq, Structural)]
pub enum LogFormat {
    Json,
    Pretty,
}

#[derive(Debug, Clone, Copy, PartialEq, Eq, Structural)]
pub enum RateLimitKey {
    Ip,
}

/// The validated runtime configuration. `listen` is the parsed socket
/// address (`ip:port`) written back as text.
#[derive(Debug)]
pub struct Blueprint {
    pub listen: String,
    pub tls: Option<TlsBlueprint>,
    pub cache_store: CacheStoreBlueprint,
    pub observability: ObservabilityBlueprint,
    pub backends: Vec<BackendBlueprint>,
}

#[derive(Debug)]
pub struct TlsBlueprint {
    pub cert: PathBuf,
    pub key: PathBuf,
}

#[derive(Debug)]
pub struct CacheStoreBlueprint {
    pub l1_max_entries: u64,
    pub l2_path: Option<PathBuf>,
}

#[derive(Debug)]
pub struct ObservabilityBlueprint {
    pub log_format: LogFormat,
    pub log_level: String,
    pub otlp_endpoint: Option<String>,
}

#[derive(Debug)]
pub struct BackendBlueprint {
    pub name: String,
    pub prefix: String,
    pub kind: BackendKindBlueprint,
    pub request_timeout: Duration,
    pub connect_timeout: Duration,
    pub retries: u32,
    pub rate_limit: RateLimitBlueprint,
    pub cache: CacheBlueprint,
}

#[derive(Debug)]
pub enum BackendKindBlueprint {
    HttpPassthrough { upstreams: Vec<String>, lb: LbStrategy },
}

#[derive(Debug)]
pub struct RateLimitBlueprint {
    pub rps: u32,
    pub burst: u32,
    pub key: RateLimitKey,
}

#[derive(Debug)]
pub struct CacheBlueprint {
    pub enabled: bool,
    pub ttl: Duration,
    pub max_body_bytes: u64,
}

/// One config problem, with the YAML path that caused it.
#[derive(Debug, Clone, PartialEq, Eq)]
pub struct ValidationError {
    pub path: String,
    pub message: String,
}

/// The model of a [`ValidationError`].
pub struct Problem {
    pub path: Seq<char>,
    pub message: Seq<char>,
}

impl View for ValidationError {
    type V = Problem;

    open spec fn view(&self) -> Problem {
        Problem { path: self.path@, message: self.message@ }
    }
}

pub open spec fn problems_view(v: Seq<ValidationError>) -> Seq<Problem> {
    v.map_values(|e: ValidationError| e@)
}

// ---- small helpers --------------------------------------------------------
/// The route's value, else the default's, else the fallback.
pub open spec fn first_of<T>(route: Option<T>, default: Option<T>, fallback: T) -> T {
    match route {
        Some(v) => v,
        None => match default {
            Some(v) => v,
            None => fallback,
        },
    }
}

/// The route's value, else the default's, else the fallback.
pub fn pick<T>(route: Option<T>, default: Option<T>, fallback: T) -> (r: T)
    ensures
        r == first_of(route, default, fallback),
{
    match route {
        Some(v) => v,
        None => match default {
            Some(v) => v,
            None => fallback,
        },
    }
}

/// Decimal digits of `n`, most significant first (what `format!("{n}")` writes).
pub open spec fn decimal(n: nat) -> Seq<char>
    decreases n,
{
    if n < 10 {
        seq![digit_char(n)]
    } else {
        decimal(n / 10) + seq![digit_char(n % 10)]
    }
}

pub open spec fn digit_char(d: nat) -> char {
    if d == 0 {
        '0'
    } else if d == 1 {
        '1'
    } else if d == 2 {
        '2'
    } else if d == 3 {
        '3'
    } else if d == 4 {
        '4'
    } else if d == 5 {
        '5'
    } else if d == 6 {
        '6'
    } else if d == 7 {
        '7'
    } else if d == 8 {
        '8'
    } else {
        '9'
    }
}

fn digit(d: usize) -> (c: char)
    requires
        d < 10,
    ensures
        c == digit_char(d as nat),
{
    if d == 0 {
        '0'
    } else if d == 1 {
        '1'
    } else if d == 2 {
        '2'
    } else if d == 3 {
        '3'
    } else if d == 4 {
        '4'
    } else if d == 5 {
        '5'
    } else if d == 6 {
        '6'
    } else if d == 7 {
        '7'
    } else if d == 8 {
        '8'
    } else {
        '9'
    }
}

fn decimal_chars(n: usize) -> (v: Vec<char>)
    ensures
        v@ == decimal(n as nat),
    decreases n,
{
    if n < 10 {
        let mut v: Vec<char> = Vec::new();
        v.push(digit(n));
        v
    } else {
        let mut v = decimal_chars(n / 10);
        v.push(digit(n % 10));
        v
    }
}

/// `n` in decimal.
pub fn decimal_string(n: usize) -> (s: String)
    ensures
        s@ == decimal(n as nat),
{
    crate::text::string_from_chars(&decimal_chars(n))
}

/// `'s'`: the text between single quotes, as the messages show values.
pub open spec fn quoted(s: Seq<char>) -> Seq<char> {
    "'"@ + s + "'"@
}

fn quoted_string(s: &str) -> (r: String)
    ensures
        r@ == quoted(s@),
{
    let mut r = String::from_str("'");
    r.append(s);
    r.append("'");
    r
}

/// Whether `s` holds exactly the characters of `lit`.
fn is_text(s: &String, lit: &str) -> (b: bool)
    ensures
        b == (s@ == lit@),
{
    *s == String::from_str(lit)
}

/// `backends[i]`, the path of the `i`-th backend.
pub open spec fn backend_path(i: nat) -> Seq<char> {
    "backends["@ + decimal(i) + "]"@
}

fn backend_path_string(i: usize) -> (s: String)
    ensures
        s@ == backend_path(i as nat),
{
    let mut s = String::from_str("backends[");
    let d = decimal_string(i);
    s.append(d.as_str());
    s.append("]");
    s
}

/// Error accumulator: collects every problem instead of failing on the first.
struct Acc {
    errors: Vec<ValidationError>,
}

impl Acc {
    fn new() -> (a: Self)
        ensures
            a.errors@.len() == 0,
    {
        Acc { errors: Vec::new() }
    }

    fn push(&mut self, path: String, message: String)
        ensures
            problems_view(final(self).errors@) == problems_view(old(self).errors@).push(
                Problem { path: path@, message: message@ },
            ),
    {
        self.errors.push(ValidationError { path, message });
        proof {
            assert(problems_view(self.errors@) =~= problems_view(old(self).errors@).push(
                Problem { path: path@, message: message@ },
            ));
        }
    }
}

// ---- log format -----------------------------------------------------------
/// The log format a configured name selects (`json` when unset), and the
/// problems it raises.
pub open spec fn log_format_of(s: Option<Seq<char>>) -> (LogFormat, Seq<Problem>) {
    match s {
        None => (LogFormat::Json, seq![]),
        Some(v) => if v == "json"@ {
            (LogFormat::Json, seq![])
        } else if v == "pretty"@ {
            (LogFormat::Pretty, seq![])
        } else {
            (
                LogFormat::Json,
                seq![
                    Problem {
                        path: "observability.log_format"@,
                        message: "unknown log_format "@ + quoted(v) + " (supported: json, pretty)"@,
                    },
                ],
            )
        },
    }
}

pub open spec fn opt_string_view(s: Option<String>) -> Option<Seq<char>> {
    match s {
        Some(v) => Some(v@),
        None => None,
    }
}

fn parse_log_format(s: Option<&String>, acc: &mut Acc) -> (f: LogFormat)
    ensures
        f == log_format_of(
            match s {
                Some(v) => Some(v@),
                None => None,
            },
        ).0,
        problems_view(final(acc).errors@) == problems_view(old(acc).errors@) + log_format_of(
            match s {
                Some(v) => Some(v@),
                None => None,
            },
        ).1,
{
    match s {
        None => {
            proof {
                assert(problems_view(acc.errors@) + seq![] =~= problems_view(acc.errors@));
            }
            LogFormat::Json
        },
        Some(v) => {
            if is_text(v, "json") {
                proof {
                    assert(problems_view(acc.errors@) + seq![] =~= problems_view(acc.errors@));
                }
                LogFormat::Json
            } else if is_text(v, "pretty") {
                proof {
                    assert(problems_view(acc.errors@) + seq![] =~= problems_view(acc.errors@));
                }
                LogFormat::Pretty
            } else {
                let mut msg = String::from_str("unknown log_format ");
                let q = quoted_string(v.as_str());
                msg.append(q.as_str());
                msg.append(" (supported: json, pretty)");
                acc.push(String::from_str("observability.log_format"), msg);
                proof {
                    let ghost pv = problems_view(old(acc).errors@);
                    assert(pv.push(
                        Problem {
                            path: "observability.log_format"@,
                            message: "unknown log_format "@ + quoted(v@)
                                + " (supported: json, pretty)"@,
                        },
                    ) =~= pv + log_format_of(Some(v@)).1);
                }
                LogFormat::Json
            }
        },
    }
}

// ---- upstream URLs --------------------------------------------------------
/// An upstream is accepted when it parses as a URI with an `http` or `https`
/// scheme and an authority.
pub open spec fn uri_acceptable(p: Option<(Option<Seq<char>>, Option<Seq<char>>)>) -> bool {
    match p {
        Some((Some(scheme), authority)) => (scheme == "http"@ || scheme == "https"@)
            && authority is Some,
        _ => false,
    }
}

pub open spec fn upstream_is_valid(u: Seq<char>) -> bool {
    uri_acceptable(uri_parts(u))
}

/// Decides from what `http::Uri` made of an upstream string whether the
/// upstream is acceptable: scheme `http` or `https`, and an authority.
pub fn upstream_uri_acceptable(parts: &Option<(Option<String>, Option<String>)>) -> (b: bool)
    ensures
        b == uri_acceptable(uri_parts_view(*parts)),
{
    match parts {
        Some((Some(scheme), authority)) => (is_text(scheme, "http") || is_text(scheme, "https"))
            && authority.is_some(),
        _ => false,
    }
}

/// Whether `s` is a valid `http(s)` upstream URL.
pub fn valid_upstream(s: &str) -> (b: bool)
    ensures
        b == upstream_is_valid(s@),
{
    let parts = parse_uri_parts(s);
    upstream_uri_acceptable(&parts)
}

// ---- rate limit and cache -------------------------------------------------
pub open spec fn rl_rps(r: Option<RateLimitConfig>) -> Option<u32> {
    match r {
        Some(r) => r.rps,
        None => None,
    }
}

pub open spec fn rl_burst(r: Option<RateLimitConfig>) -> Option<u32> {
    match r {
        Some(r) => r.burst,
        None => None,
    }
}

pub open spec fn rl_key(r: Option<RateLimitConfig>) -> Option<Seq<char>> {
    match r {
        Some(r) => opt_string_view(r.key),
        None => None,
    }
}

/// The rate-limit key a backend ends up with: its own, else the default's.
pub open spec fn effective_key(defaults: Option<RateLimitConfig>, route: Option<RateLimitConfig>) -> Option<
    Seq<char>,
> {
    match rl_key(route) {
        Some(k) => Some(k),
        None => rl_key(defaults),
    }
}

/// Problems raised by a backend's rate-limit key (only `ip` is supported).
pub open spec fn rate_limit_problems(
    path: Seq<char>,
    defaults: Option<RateLimitConfig>,
    route: Option<RateLimitConfig>,
) -> Seq<Problem> {
    match effective_key(defaults, route) {
        None => seq![],
        Some(k) => if k == "ip"@ {
            seq![]
        } else {
            seq![
                Problem {
                    path: path + ".rate_limit.key"@,
                    message: "unknown rate-limit key "@ + quoted(k) + " (supported: ip)"@,
                },
            ]
        },
    }
}

/// The resolved rate limit: each setting from the route, else the defaults,
/// else the built-in default; the key is always `ip`.
pub open spec fn rate_limit_matches(
    r: RateLimitBlueprint,
    defaults: Option<RateLimitConfig>,
    route: Option<RateLimitConfig>,
) -> bool {
    &&& r.rps == first_of(rl_rps(route), rl_rps(defaults), DEFAULT_RPS)
    &&& r.burst == first_of(rl_burst(route), rl_burst(defaults), DEFAULT_BURST)
    &&& r.key == RateLimitKey::Ip
}

fn rl_key_of(r: Option<&RateLimitConfig>) -> (k: Option<String>)
    ensures
        opt_string_view(k) == rl_key(
            match r {
                Some(r) => Some(*r),
                None => None,
            },
        ),
{
    match r {
        Some(r) => match &r.key {
            Some(k) => Some(k.clone()),
            None => None,
        },
        None => None,
    }
}

fn resolve_rate_limit(
    defaults: Option<&RateLimitConfig>,
    route: Option<&RateLimitConfig>,
    path: &str,
    acc: &mut Acc,
) -> (r: RateLimitBlueprint)
    ensures
        rate_limit_matches(
            r,
            match defaults {
                Some(d) => Some(*d),
                None => None,
            },
            match route {
                Some(x) => Some(*x),
                None => None,
            },
        ),
        problems_view(final(acc).errors@) == problems_view(old(acc).errors@) + rate_limit_problems(
            path@,
            match defaults {
                Some(d) => Some(*d),
                None => None,
            },
            match route {
                Some(x) => Some(*x),
                None => None,
            },
        ),
{
    let rps = pick(
        match route {
            Some(r) => r.rps,
            None => None,
        },
        match defaults {
            Some(d) => d.rps,
            None => None,
        },
        DEFAULT_RPS,
    );
    let burst = pick(
        match route {
            Some(r) => r.burst,
            None => None,
        },
        match defaults {
            Some(d) => d.burst,
            None => None,
        },
        DEFAULT_BURST,
    );
    let key_str = match rl_key_of(route) {
        Some(k) => Some(k),
        None => rl_key_of(defaults),
    };
    match key_str {
        None => {
            proof {
                assert(problems_view(acc.errors@) + seq![] =~= problems_view(acc.errors@));
            }
        },
        Some(k) => {
            if is_text(&k, "ip") {
                proof {
                    assert(problems_view(acc.errors@) + seq![] =~= problems_view(acc.errors@));
                }
            } else {
                let mut p = String::from_str(path);
                p.append(".rate_limit.key");
                let mut msg = String::from_str("unknown rate-limit key ");
                let q = quoted_string(k.as_str());
                msg.append(q.as_str());
                msg.append(" (supported: ip)");
                let ghost pv = problems_view(acc.errors@);
                acc.push(p, msg);
                proof {
                    assert(pv.push(
                        Problem {
                            path: path@ + ".rate_limit.key"@,
                            message: "unknown rate-limit key "@ + quoted(k@) + " (supported: ip)"@,
                        },
                    ) =~= pv + seq![
                        Problem {
                            path: path@ + ".rate_limit.key"@,
                            message: "unknown rate-limit key "@ + quoted(k@) + " (supported: ip)"@,
                        },
                    ]);
                }
            }
        },
    }
    RateLimitBlueprint { rps, burst, key: RateLimitKey::Ip }
}

pub open spec fn c_enabled(r: Option<CacheConfig>) -> Option<bool> {
    match r {
        Some(r) => r.enabled,
        None => None,
    }
}

pub open spec fn c_ttl(r: Option<CacheConfig>) -> Option<u64> {
    match r {
        Some(r) => r.ttl_s,
        None => None,
    }
}

pub open spec fn c_max_body_kb(r: Option<CacheConfig>) -> Option<u64> {
    match r {
        Some(r) => r.max_body_kb,
        None => None,
    }
}

/// The body-size limit in KiB a backend ends up with.
pub open spec fn effective_max_body_kb(defaults: Option<CacheConfig>, route: Option<CacheConfig>) -> u64 {
    first_of(c_max_body_kb(route), c_max_body_kb(defaults), DEFAULT_CACHE_MAX_BODY_KB)
}

/// The resolved cache settings: each from the route, else the defaults, else
/// the built-in default; the size limit is converted from KiB to bytes.
pub open spec fn cache_matches(
    c: CacheBlueprint,
    defaults: Option<CacheConfig>,
    route: Option<CacheConfig>,
) -> bool {
    &&& c.enabled == first_of(c_enabled(route), c_enabled(defaults), DEFAULT_CACHE_ENABLED)
    &&& c.ttl == duration_of_secs(first_of(c_ttl(route), c_ttl(defaults), DEFAULT_CACHE_TTL_S))
    &&& c.max_body_bytes == effective_max_body_kb(defaults, route) * 1024
}

fn resolve_cache(defaults: Option<&CacheConfig>, route: Option<&CacheConfig>) -> (c: CacheBlueprint)
    requires
        effective_max_body_kb(
            match defaults {
                Some(d) => Some(*d),
                None => None,
            },
            match route {
                Some(x) => Some(*x),
                None => None,
            },
        ) * 1024 <= u64::MAX,
    ensures
        cache_matches(
            c,
            match defaults {
                Some(d) => Some(*d),
                None => None,
            },
            match route {
                Some(x) => Some(*x),
                None => None,
            },
        ),
{
    let enabled = pick(
        match route {
            Some(r) => r.enabled,
            None => None,
        },
        match defaults {
            Some(d) => d.enabled,
            None => None,
        },
        DEFAULT_CACHE_ENABLED,
    );
    let ttl_s = pick(
        match route {
            Some(r) => r.ttl_s,
            None => None,
        },
        match defaults {
            Some(d) => d.ttl_s,
            None => None,
        },
        DEFAULT_CACHE_TTL_S,
    );
    let max_body_kb = pick(
        match route {
            Some(r) => r.max_body_kb,
            None => None,
        },
        match defaults {
            Some(d) => d.max_body_kb,
            None => None,
        },
        DEFAULT_CACHE_MAX_BODY_KB,
    );
    CacheBlueprint { enabled, ttl: duration_from_secs(ttl_s), max_body_bytes: max_body_kb * 1024 }
}

// ---- per-backend checks ---------------------------------------------------
/// Problems with a backend's name: blank, or already used by an earlier backend.
pub open spec fn name_problems(path: Seq<char>, name: Seq<char>, duplicate: bool) -> Seq<Problem> {
    if is_blank(name) {
        seq![Problem { path: path + ".name"@, message: "must not be empty"@ }]
    } else if duplicate {
        seq![
            Problem {
                path: path + ".name"@,
                message: "duplicate backend name "@ + quoted(name),
            },
        ]
    } else {
        seq![]
    }
}

/// Problems with a backend's prefix: not starting with `/`, and/or already
/// used by an earlier backend.
pub open spec fn prefix_problems(path: Seq<char>, prefix: Seq<char>, duplicate: bool) -> Seq<
    Problem,
> {
    (if prefix.len() > 0 && prefix[0] == '/' {
        seq![]
    } else {
        seq![
            Problem {
                path: path + ".prefix"@,
                message: "must start with '/', got "@ + quoted(prefix),
            },
        ]
    }) + (if duplicate {
        seq![Problem { path: path + ".prefix"@, message: "duplicate prefix "@ + quoted(prefix) }]
    } else {
        seq![]
    })
}

/// One problem per invalid upstream among the first `k`, in order.
pub open spec fn upstream_problems(path: Seq<char>, ups: Seq<String>, k: int) -> Seq<Problem>
    decreases k,
{
    if k <= 0 {
        seq![]
    } else {
        upstream_problems(path, ups, k - 1) + if upstream_is_valid(ups[k - 1]@) {
            seq![]
        } else {
            seq![
                Problem {
                    path: path + ".kind.upstreams["@ + decimal((k - 1) as nat) + "]"@,
                    message: quoted(ups[k - 1]@) + " is not a valid http(s) URL"@,
                },
            ]
        }
    }
}

/// Problems with a backend's kind: no upstream at all, and each invalid one.
pub open spec fn kind_problems(path: Seq<char>, kind: BackendKindConfig) -> Seq<Problem> {
    match kind {
        BackendKindConfig::HttpPassthrough { upstreams, .. } => (if upstreams.len() == 0 {
            seq![
                Problem {
                    path: path + ".kind.upstreams"@,
                    message: "must list at least one upstream"@,
                },
            ]
        } else {
            seq![]
        }) + upstream_problems(path, upstreams@, upstreams.len() as int),
    }
}

/// Every problem of one backend, in the order they are reported.
pub open spec fn backend_problems(
    path: Seq<char>,
    b: BackendConfig,
    d: Defaults,
    duplicate_name: bool,
    duplicate_prefix: bool,
) -> Seq<Problem> {
    name_problems(path, b.name@, duplicate_name) + prefix_problems(
        path,
        b.prefix@,
        duplicate_prefix,
    ) + kind_problems(path, b.kind) + rate_limit_problems(path, d.rate_limit, b.rate_limit)
}

/// Whether an earlier backend (index below `i`) has the same name.
pub open spec fn name_taken(bs: Seq<BackendConfig>, i: int) -> bool {
    exists|j: int| 0 <= j < i && #[trigger] bs[j].name@ == bs[i].name@
}

/// Whether an earlier backend (index below `i`) has the same prefix.
pub open spec fn prefix_taken(bs: Seq<BackendConfig>, i: int) -> bool {
    exists|j: int| 0 <= j < i && #[trigger] bs[j].prefix@ == bs[i].prefix@
}

/// Problems of the first `k` backends, in order.
pub open spec fn backends_problems(bs: Seq<BackendConfig>, d: Defaults, k: int) -> Seq<Problem>
    decreases k,
{
    if k <= 0 {
        seq![]
    } else {
        backends_problems(bs, d, k - 1) + backend_problems(
            backend_path((k - 1) as nat),
            bs[k - 1],
            d,
            name_taken(bs, k - 1),
            prefix_taken(bs, k - 1),
        )
    }
}

/// The backend settings as resolved: timeouts, retries, rate limit and cache
/// from the backend, else the defaults, else the built-in defaults.
pub open spec fn backend_matches(r: BackendBlueprint, b: BackendConfig, d: Defaults) -> bool {
    &&& r.name == b.name
    &&& r.prefix == b.prefix
    &&& match (r.kind, b.kind) {
        (
            BackendKindBlueprint::HttpPassthrough { upstreams: u1, lb: l1 },
            BackendKindConfig::HttpPassthrough { upstreams: u2, lb: l2 },
        ) => u1 == u2 && l1 == l2,
    }
    &&& r.request_timeout == duration_of_secs(
        first_of(b.request_timeout_s, d.request_timeout_s, DEFAULT_REQUEST_TIMEOUT_S),
    )
    &&& r.connect_timeout == duration_of_secs(
        first_of(b.connect_timeout_s, d.connect_timeout_s, DEFAULT_CONNECT_TIMEOUT_S),
    )
    &&& r.retries == first_of(b.retries, d.retries, DEFAULT_RETRIES)
    &&& rate_limit_matches(r.rate_limit, d.rate_limit, b.rate_limit)
    &&& cache_matches(r.cache, d.cache, b.cache)
}

fn is_blank_string(s: &String) -> (b: bool)
    ensures
        b == is_blank(s@),
{
    let v = crate::text::chars_of(s.as_str());
    let mut i: usize = 0;
    while i < v.len()
        invariant
            i <= v.len(),
            v@ == s@,
            forall|k: int| 0 <= k < i ==> crate::text::is_white_space(#[trigger] v@[k]),
        decreases v.len() - i,
    {
        if !is_white_space_char(v[i]) {
            return false;
        }
        i = i + 1;
    }
    true
}

fn starts_with_slash(s: &String) -> (b: bool)
    ensures
        b == (s@.len() > 0 && s@[0] == '/'),
{
    let v = crate::text::chars_of(s.as_str());
    v.len() > 0 && v[0] == '/'
}

pub open spec fn strings_view(v: Seq<String>) -> Seq<Seq<char>> {
    v.map_values(|s: String| s@)
}

fn contains_string(v: &Vec<String>, s: &String) -> (b: bool)
    ensures
        b == strings_view(v@).contains(s@),
{
    let mut i: usize = 0;
    while i < v.len()
        invariant
            i <= v.len(),
            forall|k: int| 0 <= k < i ==> strings_view(v@)[k] != s@,
        decreases v.len() - i,
    {
        if v[i] == *s {
            proof {
                assert(strings_view(v@)[i as int] == s@);
            }
            return true;
        }
        i = i + 1;
    }
    false
}

fn upstream_checks(path: &String, upstreams: &Vec<String>, acc: &mut Acc)
    ensures
        problems_view(final(acc).errors@) == problems_view(old(acc).errors@) + (if upstreams.len()
            == 0 {
            seq![
                Problem {
                    path: path@ + ".kind.upstreams"@,
                    message: "must list at least one upstream"@,
                },
            ]
        } else {
            seq![]
        }) + upstream_problems(path@, upstreams@, upstreams.len() as int),
{
    let ghost start = problems_view(acc.errors@);
    if upstreams.len() == 0 {
        let mut p = path.clone();
        p.append(".kind.upstreams");
        acc.push(p, String::from_str("must list at least one upstream"));
    }
    let ghost mid = problems_view(acc.errors@);
    proof {
        assert(mid =~= start + (if upstreams.len() == 0 {
            seq![
                Problem {
                    path: path@ + ".kind.upstreams"@,
                    message: "must list at least one upstream"@,
                },
            ]
        } else {
            seq![]
        }));
        assert(mid + upstream_problems(path@, upstreams@, 0) =~= mid);
    }
    let mut j: usize = 0;
    while j < upstreams.len()
        invariant
            j <= upstreams.len(),
            problems_view(acc.errors@) == mid + upstream_problems(path@, upstreams@, j as int),
        decreases upstreams.len() - j,
    {
        if !valid_upstream(upstreams[j].as_str()) {
            let mut p = path.clone();
            p.append(".kind.upstreams[");
            let d = decimal_string(j);
            p.append(d.as_str());
            p.append("]");
            let mut msg = quoted_string(upstreams[j].as_str());
            msg.append(" is not a valid http(s) URL");
            acc.push(p, msg);
        }
        proof {
            assert(problems_view(acc.errors@) =~= mid + upstream_problems(
                path@,
                upstreams@,
                j + 1,
            ));
        }
        j = j + 1;
    }
}

fn name_checks(path: &String, name: &String, duplicate: bool, acc: &mut Acc)
    ensures
        problems_view(final(acc).errors@) == problems_view(old(acc).errors@) + name_problems(
            path@,
            name@,
            duplicate,
        ),
{
    let ghost start = problems_view(acc.errors@);
    if is_blank_string(name) {
        let mut p = path.clone();
        p.append(".name");
        acc.push(p, String::from_str("must not be empty"));
    } else if duplicate {
        let mut p = path.clone();
        p.append(".name");
        let mut msg = String::from_str("duplicate backend name ");
        let q = quoted_string(name.as_str());
        msg.append(q.as_str());
        acc.push(p, msg);
    }
    proof {
        assert(problems_view(acc.errors@) =~= start + name_problems(path@, name@, duplicate));
    }
}

fn prefix_checks(path: &String, prefix: &String, duplicate: bool, acc: &mut Acc)
    ensures
        problems_view(final(acc).errors@) == problems_view(old(acc).errors@) + prefix_problems(
            path@,
            prefix@,
            duplicate,
        ),
{
    let ghost start = problems_view(acc.errors@);
    if !starts_with_slash(prefix) {
        let mut p = path.clone();
        p.append(".prefix");
        let mut msg = String::from_str("must start with '/', got ");
        let q = quoted_string(prefix.as_str());
        msg.append(q.as_str());
        acc.push(p, msg);
    }
    let ghost mid = problems_view(acc.errors@);
    if duplicate {
        let mut p = path.clone();
        p.append(".prefix");
        let mut msg = String::from_str("duplicate prefix ");
        let q = quoted_string(prefix.as_str());
        msg.append(q.as_str());
        acc.push(p, msg);
    }
    proof {
        assert(problems_view(acc.errors@) =~= start + prefix_problems(path@, prefix@, duplicate));
    }
}

/// Converts one backend (the `i`-th), given whether its name and prefix were
/// already taken, recording its problems in `acc`.
#[verifier::spinoff_prover]
#[verifier::rlimit(50)]
fn convert_backend(
    b: BackendConfig,
    i: usize,
    defaults: &Defaults,
    duplicate_name: bool,
    duplicate_prefix: bool,
    acc: &mut Acc,
) -> (r: BackendBlueprint)
    requires
        effective_max_body_kb(defaults.cache, b.cache) * 1024 <= u64::MAX,
    ensures
        backend_matches(r, b, *defaults),
        problems_view(final(acc).errors@) == problems_view(old(acc).errors@) + backend_problems(
            backend_path(i as nat),
            b,
            *defaults,
            duplicate_name,
            duplicate_prefix,
        ),
{
    let ghost start = problems_view(acc.errors@);
    let path = backend_path_string(i);
    name_checks(&path, &b.name, duplicate_name, acc);
    prefix_checks(&path, &b.prefix, duplicate_prefix, acc);
    let ghost after_prefix = problems_view(acc.errors@);
    let kind = match b.kind {
        BackendKindConfig::HttpPassthrough { upstreams, lb } => {
            upstream_checks(&path, &upstreams, acc);
            BackendKindBlueprint::HttpPassthrough { upstreams, lb }
        },
    };
    let ghost after_kind = problems_view(acc.errors@);
    proof {
        assert(after_kind =~= after_prefix + kind_problems(path@, b.kind));
    }
    let request_timeout = duration_from_secs(
        pick(b.request_timeout_s, defaults.request_timeout_s, DEFAULT_REQUEST_TIMEOUT_S),
    );
    let connect_timeout = duration_from_secs(
        pick(b.connect_timeout_s, defaults.connect_timeout_s, DEFAULT_CONNECT_TIMEOUT_S),
    );
    let retries = pick(b.retries, defaults.retries, DEFAULT_RETRIES);
    let rate_limit = resolve_rate_limit(
        defaults.rate_limit.as_ref(),
        b.rate_limit.as_ref(),
        path.as_str(),
        acc,
    );
    let cache = resolve_cache(defaults.cache.as_ref(), b.cache.as_ref());
    proof {
        assert(problems_view(acc.errors@) =~= start + backend_problems(
            path@,
            b,
            *defaults,
            duplicate_name,
            duplicate_prefix,
        ));
    }
    BackendBlueprint {
        name: b.name,
        prefix: b.prefix,
        kind,
        request_timeout,
        connect_timeout,
        retries,
        rate_limit,
        cache,
    }
}

// ---- the whole document ---------------------------------------------------
/// The `defaults` section, or an empty one.
pub open spec fn defaults_in(d: Option<Defaults>) -> Defaults {
    match d {
        Some(d) => d,
        None => Defaults {
            request_timeout_s: None,
            connect_timeout_s: None,
            retries: None,
            rate_limit: None,
            cache: None,
        },
    }
}

/// The listen address text: the configured one, else `0.0.0.0:8080`.
pub open spec fn listen_text(c: Config) -> Seq<char> {
    match c.listen {
        Some(l) => l@,
        None => default_listen(),
    }
}

/// The listen problem, when the address text does not parse as `ip:port`.
pub open spec fn listen_problems(c: Config, listen_parses: bool) -> Seq<Problem> {
    if listen_parses {
        seq![]
    } else {
        seq![
            Problem {
                path: "listen"@,
                message: quoted(listen_text(c)) + " is not a valid socket address (expected ip:port)"@,
            },
        ]
    }
}

pub open spec fn configured_log_format(c: Config) -> Option<Seq<char>> {
    match c.observability {
        Some(o) => opt_string_view(o.log_format),
        None => None,
    }
}

/// Every problem of the document, in the order they are reported: the listen
/// address, the log format, then each backend in turn.
pub open spec fn config_problems(c: Config, listen_parses: bool) -> Seq<Problem> {
    listen_problems(c, listen_parses) + log_format_of(configured_log_format(c)).1
        + backends_problems(c.backends@, defaults_in(c.defaults), c.backends.len() as int)
}

/// Every backend's body-size limit, in bytes, fits in a `u64`.
pub open spec fn body_limits_fit(c: Config) -> bool {
    forall|i: int|
        0 <= i < c.backends.len() ==> effective_max_body_kb(
            defaults_in(c.defaults).cache,
            #[trigger] c.backends@[i].cache,
        ) * 1024 <= u64::MAX
}

pub open spec fn tls_of(t: Option<super::model::TlsConfig>) -> Option<TlsBlueprint> {
    match t {
        Some(t) => Some(TlsBlueprint { cert: path_buf_of(t.cert@), key: path_buf_of(t.key@) }),
        None => None,
    }
}

pub open spec fn cache_store_of(cs: Option<CacheStoreConfig>) -> CacheStoreBlueprint {
    match cs {
        Some(cs) => CacheStoreBlueprint {
            l1_max_entries: first_of(cs.l1_max_entries, None, DEFAULT_L1_MAX_ENTRIES),
            l2_path: match cs.l2_path {
                Some(p) => Some(path_buf_of(p@)),
                None => None,
            },
        },
        None => CacheStoreBlueprint { l1_max_entries: DEFAULT_L1_MAX_ENTRIES, l2_path: None },
    }
}

/// The observability settings: log format (`json` by default), log level
/// (`info` by default, passed through verbatim) and OTLP endpoint.
pub open spec fn observability_matches(o: ObservabilityBlueprint, c: Config) -> bool {
    &&& o.log_format == log_format_of(configured_log_format(c)).0
    &&& o.log_level@ == match c.observability {
        Some(obs) => match obs.log_level {
            Some(l) => l@,
            None => default_log_level(),
        },
        None => default_log_level(),
    }
    &&& o.otlp_endpoint == match c.observability {
        Some(obs) => obs.otlp_endpoint,
        None => None,
    }
}

/// The blueprint a valid document converts to, with `listen` the parsed
/// listen address written back as text.
pub open spec fn blueprint_matches(bp: Blueprint, c: Config, listen: Seq<char>) -> bool {
    &&& bp.listen@ == listen
    &&& bp.tls == tls_of(c.tls)
    &&& bp.cache_store == cache_store_of(c.cache_store)
    &&& observability_matches(bp.observability, c)
    &&& bp.backends.len() == c.backends.len()
    &&& forall|i: int|
        0 <= i < c.backends.len() ==> backend_matches(
            #[trigger] bp.backends@[i],
            c.backends@[i],
            defaults_in(c.defaults),
        )
}

/// The listen address text of a document: the configured one, else the
/// default `0.0.0.0:8080`. Check it with a socket-address parser and hand the
/// outcome to [`Blueprint::try_from_config`].
pub fn listen_address(c: &Config) -> (s: String)
    ensures
        s@ == listen_text(*c),
{
    match &c.listen {
        Some(l) => l.clone(),
        None => String::from_str("0.0.0.0:8080"),
    }
}

fn convert_observability(obs: Option<ObservabilityConfig>, acc: &mut Acc) -> (o:
    ObservabilityBlueprint)
    ensures
        o.log_format == log_format_of(
            match obs {
                Some(x) => opt_string_view(x.log_format),
                None => None,
            },
        ).0,
        problems_view(final(acc).errors@) == problems_view(old(acc).errors@) + log_format_of(
            match obs {
                Some(x) => opt_string_view(x.log_format),
                None => None,
            },
        ).1,
        o.log_level@ == match obs {
            Some(x) => match x.log_level {
                Some(l) => l@,
                None => default_log_level(),
            },
            None => default_log_level(),
        },
        o.otlp_endpoint == match obs {
            Some(x) => x.otlp_endpoint,
            None => None,
        },
{
    match obs {
        Some(x) => {
            let log_format = parse_log_format(x.log_format.as_ref(), acc);
            let log_level = match x.log_level {
                Some(l) => l,
                None => String::from_str("info"),
            };
            ObservabilityBlueprint { log_format, log_level, otlp_endpoint: x.otlp_endpoint }
        },
        None => {
            let log_format = parse_log_format(None, acc);
            ObservabilityBlueprint {
                log_format,
                log_level: String::from_str("info"),
                otlp_endpoint: None,
            }
        },
    }
}

fn convert_cache_store(cs: Option<CacheStoreConfig>) -> (r: CacheStoreBlueprint)
    ensures
        r == cache_store_of(cs),
{
    match cs {
        Some(cs) => CacheStoreBlueprint {
            l1_max_entries: pick(cs.l1_max_entries, None, DEFAULT_L1_MAX_ENTRIES),
            l2_path: match cs.l2_path {
                Some(p) => Some(path_from_string(p)),
                None => None,
            },
        },
        None => CacheStoreBlueprint { l1_max_entries: DEFAULT_L1_MAX_ENTRIES, l2_path: None },
    }
}

fn convert_tls(t: Option<super::model::TlsConfig>) -> (r: Option<TlsBlueprint>)
    ensures
        r == tls_of(t),
{
    match t {
        Some(t) => Some(TlsBlueprint { cert: path_from_string(t.cert), key: path_from_string(t.key) }),
        None => None,
    }
}

impl Blueprint {
    /// Validation by conversion: turns the file model into the runtime
    /// blueprint, applying every default, or returns every problem found.
    /// `parsed_listen` is the socket address that [`listen_address`] of `c`
    /// parses to (`ip:port`), written back as text, or `None` when it does
    /// not parse.
    pub fn try_from_config(c: Config, parsed_listen: Option<String>) -> (r: Result<
        Blueprint,
        Vec<ValidationError>,
    >)
        requires
            body_limits_fit(c),
        ensures
            match r {
                Ok(bp) => parsed_listen is Some && config_problems(c, true).len() == 0
                    && blueprint_matches(bp, c, parsed_listen->Some_0@),
                Err(es) => config_problems(c, parsed_listen is Some).len() > 0 && problems_view(es@)
                    == config_problems(c, parsed_listen is Some),
            },
    {
        let ghost c0 = c;
        let listen_parses = parsed_listen.is_some();
        let mut acc = Acc::new();
        let listen = listen_address(&c);
        if !listen_parses {
            let mut msg = quoted_string(listen.as_str());
            msg.append(" is not a valid socket address (expected ip:port)");
            acc.push(String::from_str("listen"), msg);
        }
        proof {
            assert(problems_view(acc.errors@) =~= listen_problems(c0, listen_parses));
        }
        let tls = convert_tls(c.tls);
        let cache_store = convert_cache_store(c.cache_store);
        let observability = convert_observability(c.observability, &mut acc);
        let ghost head = problems_view(acc.errors@);
        let defaults = match c.defaults {
            Some(d) => d,
            None => Defaults {
                request_timeout_s: None,
                connect_timeout_s: None,
                retries: None,
                rate_limit: None,
                cache: None,
            },
        };
        let ghost bs = c0.backends@;
        let mut rest = c.backends;
        let n = rest.len();
        let mut backends: Vec<BackendBlueprint> = Vec::new();
        let mut seen_names: Vec<String> = Vec::new();
        let mut seen_prefixes: Vec<String> = Vec::new();
        let mut i: usize = 0;
        proof {
            assert(bs.skip(0) =~= bs);
            assert(head + backends_problems(bs, defaults, 0) =~= head);
        }
        while i < n
            invariant
                i <= n,
                n == bs.len(),
                defaults == defaults_in(c0.defaults),
                body_limits_fit(c0),
                bs == c0.backends@,
                rest@ == bs.skip(i as int),
                backends.len() == i,
                forall|k: int| 0 <= k < i ==> backend_matches(#[trigger] backends@[k], bs[k], defaults),
                forall|x: Seq<char>|
                    strings_view(seen_names@).contains(x) <==> exists|j: int|
                        0 <= j < i && !is_blank(bs[j].name@) && #[trigger] bs[j].name@ == x,
                forall|x: Seq<char>|
                    strings_view(seen_prefixes@).contains(x) <==> exists|j: int|
                        0 <= j < i && #[trigger] bs[j].prefix@ == x,
                problems_view(acc.errors@) == head + backends_problems(bs, defaults, i as int),
            decreases n - i,
        {
            let b = rest.remove(0);
            proof {
                assert(b == bs[i as int]);
                assert(rest@ =~= bs.skip(i + 1));
            }
            let dup_name = contains_string(&seen_names, &b.name);
            let dup_prefix = contains_string(&seen_prefixes, &b.prefix);
            let blank = is_blank_string(&b.name);
            proof {
                if dup_prefix {
                    let j = choose|j: int| 0 <= j < i && #[trigger] bs[j].prefix@ == b.prefix@;
                    assert(prefix_taken(bs, i as int));
                }
                if prefix_taken(bs, i as int) {
                    let j = choose|j: int| 0 <= j < i && #[trigger] bs[j].prefix@ == bs[i as int].prefix@;
                    assert(strings_view(seen_prefixes@).contains(bs[j].prefix@));
                }
                if !blank {
                    if dup_name {
                        let j = choose|j: int|
                            0 <= j < i && !is_blank(bs[j].name@) && #[trigger] bs[j].name@ == b.name@;
                        assert(name_taken(bs, i as int));
                    }
                    if name_taken(bs, i as int) {
                        let j = choose|j: int| 0 <= j < i && #[trigger] bs[j].name@ == bs[i as int].name@;
                        assert(strings_view(seen_names@).contains(bs[j].name@));
                    }
                }
                assert(name_problems(backend_path(i as nat), b.name@, dup_name) == name_problems(
                    backend_path(i as nat),
                    b.name@,
                    name_taken(bs, i as int),
                ));
                assert(c0.backends@[i as int] == b);
            }
            let ghost old_names = seen_names@;
            let ghost old_prefixes = seen_prefixes@;
            if !blank {
                seen_names.push(b.name.clone());
            }
            seen_prefixes.push(b.prefix.clone());
            let converted = convert_backend(b, i, &defaults, dup_name, dup_prefix, &mut acc);
            backends.push(converted);
            proof {
                assert(problems_view(acc.errors@) =~= head + backends_problems(
                    bs,
                    defaults,
                    i + 1,
                ));
                if !blank {
                    assert(strings_view(seen_names@) =~= strings_view(old_names).push(bs[i as int].name@));
                } else {
                    assert(strings_view(seen_names@) =~= strings_view(old_names));
                }
                assert(strings_view(seen_prefixes@) =~= strings_view(old_prefixes).push(bs[i as int].prefix@));
                assert forall|x: Seq<char>|
                    strings_view(seen_names@).contains(x) <==> exists|j: int|
                        0 <= j < i + 1 && !is_blank(bs[j].name@) && #[trigger] bs[j].name@ == x by {
                    if strings_view(seen_names@).contains(x) {
                        if !strings_view(old_names).contains(x) {
                            assert(!blank && x == bs[i as int].name@);
                        }
                    }
                    if exists|j: int| 0 <= j < i + 1 && !is_blank(bs[j].name@) && #[trigger] bs[j].name@ == x {
                        let j = choose|j: int| 0 <= j < i + 1 && !is_blank(bs[j].name@) && #[trigger] bs[j].name@ == x;
                        if j < i {
                            assert(strings_view(old_names).contains(x));
                            let k = choose|k: int| 0 <= k < strings_view(old_names).len() && strings_view(old_names)[k] == x;
                            assert(strings_view(seen_names@)[k] == x);
                        } else {
                            assert(strings_view(seen_names@).last() == x);
                        }
                    }
                }
                assert forall|x: Seq<char>|
                    strings_view(seen_prefixes@).contains(x) <==> exists|j: int|
                        0 <= j < i + 1 && #[trigger] bs[j].prefix@ == x by {
                    if strings_view(seen_prefixes@).contains(x) {
                        if !strings_view(old_prefixes).contains(x) {
                            assert(x == bs[i as int].prefix@);
                        }
                    }
                    if exists|j: int| 0 <= j < i + 1 && #[trigger] bs[j].prefix@ == x {
                        let j = choose|j: int| 0 <= j < i + 1 && #[trigger] bs[j].prefix@ == x;
                        if j < i {
                            assert(strings_view(old_prefixes).contains(x));
                            let k = choose|k: int| 0 <= k < strings_view(old_prefixes).len() && strings_view(old_prefixes)[k] == x;
                            assert(strings_view(seen_prefixes@)[k] == x);
                        } else {
                            assert(strings_view(seen_prefixes@).last() == x);
                        }
                    }
                }
            }
            i = i + 1;
        }
        proof {
            assert(problems_view(acc.errors@) =~= config_problems(c0, listen_parses));
        }
        if acc.errors.len() == 0 {
            match parsed_listen {
                Some(listen) => Ok(Blueprint { listen, tls, cache_store, observability, backends }),
                None => Err(acc.errors),
            }
        } else {
            Err(acc.errors)
        }
    }
}

// ---- laws -----------------------------------------------------------------
/// Precedence law: a backend's own setting wins over the `defaults` section,
/// which wins over the built-in default.
pub proof fn lemma_route_then_defaults_then_builtin<T>(route: Option<T>, default: Option<T>, fallback: T)
    ensures
        route is Some ==> first_of(route, default, fallback) == route->0,
        route is None && default is Some ==> first_of(route, default, fallback) == default->0,
        route is None && default is None ==> first_of(route, default, fallback) == fallback,
{
}

proof fn lemma_backends_problems_prefix(bs: Seq<BackendConfig>, d: Defaults, m: int, n: int)
    requires
        0 <= m <= n,
    ensures
        backends_problems(bs, d, m).len() <= backends_problems(bs, d, n).len(),
        forall|t: int|
            0 <= t < backends_problems(bs, d, m).len() ==> #[trigger] backends_problems(bs, d, n)[t]
                == backends_problems(bs, d, m)[t],
    decreases n - m,
{
    if m < n {
        lemma_backends_problems_prefix(bs, d, m, n - 1);
    }
}

/// Accumulation law: every problem of every backend is reported, whatever
/// else is wrong in the document.
pub proof fn lemma_every_backend_problem_reported(c: Config, listen_parses: bool, j: int, p: Problem)
    requires
        0 <= j < c.backends.len(),
        backend_problems(
            backend_path(j as nat),
            c.backends@[j],
            defaults_in(c.defaults),
            name_taken(c.backends@, j),
            prefix_taken(c.backends@, j),
        ).contains(p),
    ensures
        config_problems(c, listen_parses).contains(p),
{
    let bs = c.backends@;
    let d = defaults_in(c.defaults);
    let bp = backend_problems(backend_path(j as nat), bs[j], d, name_taken(bs, j), prefix_taken(bs, j));
    let t = choose|t: int| 0 <= t < bp.len() && bp[t] == p;
    lemma_backends_problems_prefix(bs, d, j + 1, bs.len() as int);
    let upto = backends_problems(bs, d, j + 1);
    assert(upto[backends_problems(bs, d, j).len() + t] == p);
    let all = config_problems(c, listen_parses);
    let head = listen_problems(c, listen_parses) + log_format_of(configured_log_format(c)).1;
    assert(all[head.len() + backends_problems(bs, d, j).len() + t] == p);
}

/// Duplicate-name law: a non-blank name used by an earlier backend is
/// reported at the later backend's `name` path.
pub proof fn lemma_duplicate_name_reported(c: Config, listen_parses: bool, i: int, j: int)
    requires
        0 <= i < j < c.backends.len(),
        c.backends@[i].name@ == c.backends@[j].name@,
        !is_blank(c.backends@[j].name@),
    ensures
        config_problems(c, listen_parses).contains(
            Problem {
                path: backend_path(j as nat) + ".name"@,
                message: "duplicate backend name "@ + quoted(c.backends@[j].name@),
            },
        ),
{
    let bs = c.backends@;
    assert(name_taken(bs, j));
    let p = Problem {
        path: backend_path(j as nat) + ".name"@,
        message: "duplicate backend name "@ + quoted(bs[j].name@),
    };
    let bp = backend_problems(
        backend_path(j as nat),
        bs[j],
        defaults_in(c.defaults),
        name_taken(bs, j),
        prefix_taken(bs, j),
    );
    assert(bp[0] == p);
    lemma_every_backend_problem_reported(c, listen_parses, j, p);
}

/// Duplicate-prefix law: a prefix used by an earlier backend is reported at
/// the later backend's `prefix` path.
pub proof fn lemma_duplicate_prefix_reported(c: Config, listen_parses: bool, i: int, j: int)
    requires
        0 <= i < j < c.backends.len(),
        c.backends@[i].prefix@ == c.backends@[j].prefix@,
    ensures
        config_problems(c, listen_parses).contains(
            Problem {
                path: backend_path(j as nat) + ".prefix"@,
                message: "duplicate prefix "@ + quoted(c.backends@[j].prefix@),
            },
        ),
{
    let bs = c.backends@;
    assert(prefix_taken(bs, j));
    let p = Problem {
        path: backend_path(j as nat) + ".prefix"@,
        message: "duplicate prefix "@ + quoted(bs[j].prefix@),
    };
    let path = backend_path(j as nat);
    let np = name_problems(path, bs[j].name@, name_taken(bs, j));
    let pp = prefix_problems(path, bs[j].prefix@, prefix_taken(bs, j));
    let bp = backend_problems(path, bs[j], defaults_in(c.defaults), name_taken(bs, j), prefix_taken(bs, j));
    assert(pp[pp.len() - 1] == p);
    assert(bp[np.len() + pp.len() - 1] == p);
    lemma_every_backend_problem_reported(c, listen_parses, j, p);
}

/// The rules one backend must meet on its own (the one at index `i`): a
/// non-blank name, a prefix starting with `/`, at least one upstream and
/// every upstream a valid `http(s)` URL, and an effective rate-limit key
/// that is unset or `ip`.
pub open spec fn backend_acceptable(bs: Seq<BackendConfig>, d: Defaults, i: int) -> bool {
    &&& !is_blank(bs[i].name@)
    &&& bs[i].prefix@.len() > 0 && bs[i].prefix@[0] == '/'
    &&& match bs[i].kind {
        BackendKindConfig::HttpPassthrough { upstreams, .. } => upstreams.len() > 0 && forall|k: int|
            0 <= k < upstreams.len() ==> upstream_is_valid(#[trigger] upstreams@[k]@),
    }
    &&& match effective_key(d.rate_limit, bs[i].rate_limit) {
        None => true,
        Some(k) => k == "ip"@,
    }
}

/// The rules a document must meet: its listen address parses, its log
/// format is unset, `json` or `pretty`, every backend meets its own rules,
/// and no two backends share a name or a prefix.
pub open spec fn config_acceptable(c: Config, listen_parses: bool) -> bool {
    let bs = c.backends@;
    &&& listen_parses
    &&& match configured_log_format(c) {
        None => true,
        Some(f) => f == "json"@ || f == "pretty"@,
    }
    &&& forall|i: int| 0 <= i < bs.len() ==> #[trigger] backend_acceptable(bs, defaults_in(c.defaults), i)
    &&& forall|i: int, j: int| 0 <= i < j < bs.len() ==> #[trigger] bs[i].name@ != #[trigger] bs[j].name@
    &&& forall|i: int, j: int| 0 <= i < j < bs.len() ==> #[trigger] bs[i].prefix@ != #[trigger] bs[j].prefix@
}

/// Backend `i` raises no problem.
pub open spec fn backend_clean(bs: Seq<BackendConfig>, d: Defaults, i: int) -> bool {
    backend_problems(backend_path(i as nat), bs[i], d, name_taken(bs, i), prefix_taken(bs, i)).len() == 0
}

proof fn lemma_upstream_problems_empty(path: Seq<char>, ups: Seq<String>, k: int)
    requires
        0 <= k <= ups.len(),
    ensures
        upstream_problems(path, ups, k).len() == 0 <==> forall|m: int|
            0 <= m < k ==> upstream_is_valid(#[trigger] ups[m]@),
    decreases k,
{
    if k > 0 {
        lemma_upstream_problems_empty(path, ups, k - 1);
        if upstream_problems(path, ups, k).len() == 0 {
            assert forall|m: int| 0 <= m < k implies upstream_is_valid(#[trigger] ups[m]@) by {
                if m < k - 1 {
                    assert(upstream_is_valid(ups[m]@));
                }
            }
        } else if upstream_problems(path, ups, k - 1).len() != 0 {
            let m = choose|m: int| 0 <= m < k - 1 && !upstream_is_valid(#[trigger] ups[m]@);
            assert(!upstream_is_valid(ups[m]@));
        } else {
            assert(!upstream_is_valid(ups[k - 1]@));
        }
    }
}

proof fn lemma_backend_clean(bs: Seq<BackendConfig>, d: Defaults, i: int)
    requires
        0 <= i < bs.len(),
    ensures
        backend_clean(bs, d, i) <==> (backend_acceptable(bs, d, i) && !name_taken(bs, i) && !prefix_taken(
            bs,
            i,
        )),
{
    match bs[i].kind {
        BackendKindConfig::HttpPassthrough { upstreams, .. } => {
            lemma_upstream_problems_empty(backend_path(i as nat), upstreams@, upstreams.len() as int);
        },
    }
}

proof fn lemma_backends_problems_empty(bs: Seq<BackendConfig>, d: Defaults, k: int)
    requires
        0 <= k <= bs.len(),
    ensures
        backends_problems(bs, d, k).len() == 0 <==> forall|i: int| 0 <= i < k ==> #[trigger] backend_clean(bs, d, i),
    decreases k,
{
    if k > 0 {
        lemma_backends_problems_empty(bs, d, k - 1);
        if backends_problems(bs, d, k).len() == 0 {
            assert forall|i: int| 0 <= i < k implies #[trigger] backend_clean(bs, d, i) by {
                if i < k - 1 {
                    assert(backend_clean(bs, d, i));
                }
            }
        } else if backends_problems(bs, d, k - 1).len() != 0 {
            let i = choose|i: int| 0 <= i < k - 1 && !#[trigger] backend_clean(bs, d, i);
            assert(!backend_clean(bs, d, i));
        } else {
            assert(!backend_clean(bs, d, k - 1));
        }
    }
}

/// Acceptance law: a document converts without problems exactly when it
/// meets the rules of `config_acceptable`; otherwise every problem is
/// reported (`Blueprint::try_from_config`).
pub proof fn lemma_accepted_exactly_when_rules_hold(c: Config, listen_parses: bool)
    ensures
        config_problems(c, listen_parses).len() == 0 <==> config_acceptable(c, listen_parses),
{
    let bs = c.backends@;
    let d = defaults_in(c.defaults);
    lemma_backends_problems_empty(bs, d, bs.len() as int);
    let lp = listen_problems(c, listen_parses);
    let fp = log_format_of(configured_log_format(c)).1;
    let bp = backends_problems(bs, d, bs.len() as int);
    assert(config_problems(c, listen_parses).len() == lp.len() + fp.len() + bp.len());
    assert(lp.len() == 0 <==> listen_parses);
    assert(fp.len() == 0 <==> match configured_log_format(c) {
        None => true,
        Some(f) => f == "json"@ || f == "pretty"@,
    });
    assert forall|i: int| 0 <= i < bs.len() implies #[trigger] backend_clean(bs, d, i) == (
    backend_acceptable(bs, d, i) && !name_taken(bs, i) && !prefix_taken(bs, i)) by {
        lemma_backend_clean(bs, d, i);
    }
    if config_problems(c, listen_parses).len() == 0 {
        assert forall|i: int| 0 <= i < bs.len() implies #[trigger] backend_acceptable(bs, d, i) by {
            assert(backend_clean(bs, d, i));
        }
        // no backend repeats an earlier name or prefix, so they are pairwise distinct
        assert forall|i: int, j: int| 0 <= i < j < bs.len() implies #[trigger] bs[i].name@
            != #[trigger] bs[j].name@ by {
            assert(backend_clean(bs, d, j));
            assert(!name_taken(bs, j));
        }
        assert forall|i: int, j: int| 0 <= i < j < bs.len() implies #[trigger] bs[i].prefix@
            != #[trigger] bs[j].prefix@ by {
            assert(backend_clean(bs, d, j));
            assert(!prefix_taken(bs, j));
        }
        assert(config_acceptable(c, listen_parses));
    }
    if config_acceptable(c, listen_parses) {
        assert forall|i: int| 0 <= i < bs.len() implies #[trigger] backend_clean(bs, d, i) by {
            assert(backend_acceptable(bs, d, i));
            if name_taken(bs, i) {
                let j = choose|j: int| 0 <= j < i && #[trigger] bs[j].name@ == bs[i].name@;
                assert(bs[j].name@ != bs[i].name@);
            }
            if prefix_taken(bs, i) {
                let j = choose|j: int| 0 <= j < i && #[trigger] bs[j].prefix@ == bs[i].prefix@;
                assert(bs[j].prefix@ != bs[i].prefix@);
            }
        }
        assert(bp.len() == 0);
        assert(config_problems(c, listen_parses).len() == 0);
    }
}

/// Where the problems of backend `i` start in the document's problem list:
/// after the listen and log-format problems and those of backends `0..i`.
pub open spec fn backend_offset(c: Config, listen_parses: bool, i: int) -> int {
    (listen_problems(c, listen_parses).len() + log_format_of(configured_log_format(c)).1.len()
        + backends_problems(c.backends@, defaults_in(c.defaults), i).len()) as int
}

/// Order law: problems are reported in document order. The listen problem
/// comes first, then the log-format problem, then each backend's problems,
/// backend by backend in index order (each backend's own in the order
/// name, prefix, upstreams, rate-limit key), so a lower backend's problems
/// all come before a higher one's.
pub proof fn lemma_problems_in_document_order(c: Config, listen_parses: bool, i: int, j: int)
    requires
        0 <= i < j <= c.backends.len(),
    ensures
        config_problems(c, listen_parses).subrange(0, listen_problems(c, listen_parses).len() as int)
            == listen_problems(c, listen_parses),
        config_problems(c, listen_parses).subrange(
            listen_problems(c, listen_parses).len() as int,
            backend_offset(c, listen_parses, 0),
        ) == log_format_of(configured_log_format(c)).1,
        config_problems(c, listen_parses).subrange(
            backend_offset(c, listen_parses, i),
            backend_offset(c, listen_parses, i + 1),
        ) == backend_problems(
            backend_path(i as nat),
            c.backends@[i],
            defaults_in(c.defaults),
            name_taken(c.backends@, i),
            prefix_taken(c.backends@, i),
        ),
        backend_offset(c, listen_parses, i + 1) <= backend_offset(c, listen_parses, j),
        backend_offset(c, listen_parses, j) <= config_problems(c, listen_parses).len(),
{
    let bs = c.backends@;
    let d = defaults_in(c.defaults);
    let all = config_problems(c, listen_parses);
    let lp = listen_problems(c, listen_parses);
    let fp = log_format_of(configured_log_format(c)).1;
    let n = bs.len() as int;
    lemma_backends_problems_prefix(bs, d, i + 1, j);
    lemma_backends_problems_prefix(bs, d, j, n);
    lemma_backends_problems_prefix(bs, d, i + 1, n);
    let upto = backends_problems(bs, d, i + 1);
    let before = backends_problems(bs, d, i);
    let mine = backend_problems(backend_path(i as nat), bs[i], d, name_taken(bs, i), prefix_taken(bs, i));
    assert(upto == before + mine);
    assert(backends_problems(bs, d, 0).len() == 0);
    assert(all == lp + fp + backends_problems(bs, d, n));
    assert(all.subrange(0, lp.len() as int) =~= lp);
    assert(all.subrange(lp.len() as int, (lp.len() + fp.len()) as int) =~= fp);
    assert forall|t: int| 0 <= t < mine.len() implies all[lp.len() + fp.len() + before.len() + t] == #[trigger] mine[t] by {
        assert(upto[before.len() + t] == mine[t]);
        assert(backends_problems(bs, d, n)[before.len() + t] == upto[before.len() + t]);
    }
    assert(all.subrange(backend_offset(c, listen_parses, i), backend_offset(c, listen_parses, i + 1)) =~= mine);
}

/// Field law of a converted document: the blueprint has one backend per
/// configured backend, in order, each keeping its name, prefix, upstreams
/// (in order) and balancing strategy, with timeouts and retries taken from
/// the backend, else from `defaults`, else 30 s, 5 s and 2 retries.
pub proof fn lemma_blueprint_backend_fields(bp: Blueprint, c: Config, listen: Seq<char>, i: int)
    requires
        blueprint_matches(bp, c, listen),
        0 <= i < c.backends.len(),
    ensures
        bp.backends.len() == c.backends.len(),
        ({
            let b = c.backends@[i];
            let d = defaults_in(c.defaults);
            let o = bp.backends@[i];
            &&& o.name == b.name
            &&& o.prefix == b.prefix
            &&& o.kind->HttpPassthrough_upstreams == b.kind->HttpPassthrough_upstreams
            &&& o.kind->HttpPassthrough_lb == b.kind->HttpPassthrough_lb
            &&& o.request_timeout == duration_of_secs(
                match b.request_timeout_s {
                    Some(s) => s,
                    None => match d.request_timeout_s {
                        Some(s) => s,
                        None => 30,
                    },
                },
            )
            &&& o.connect_timeout == duration_of_secs(
                match b.connect_timeout_s {
                    Some(s) => s,
                    None => match d.connect_timeout_s {
                        Some(s) => s,
                        None => 5,
                    },
                },
            )
            &&& o.retries == match b.retries {
                Some(r) => r,
                None => match d.retries {
                    Some(r) => r,
                    None => 2,
                },
            }
        }),
{
    assert(backend_matches(bp.backends@[i], c.backends@[i], defaults_in(c.defaults)));
}

/// Observability law: a converted document logs in the `pretty` format
/// exactly when its observability section names `pretty`; with the name
/// `json`, or with no name, it logs in `json`. Its log level is the
/// configured one, passed through as written, else `info`; its OTLP
/// endpoint is the configured one, if any.
pub proof fn lemma_log_format_selected_by_name(bp: Blueprint, c: Config, listen: Seq<char>)
    requires
        blueprint_matches(bp, c, listen),
    ensures
        ({
            let named: Option<Seq<char>> = match c.observability {
                Some(o) => match o.log_format {
                    Some(f) => Some(f@),
                    None => None,
                },
                None => None,
            };
            &&& named == Some("pretty"@) ==> bp.observability.log_format == LogFormat::Pretty
            &&& named == Some("json"@) ==> bp.observability.log_format == LogFormat::Json
            &&& named is None ==> bp.observability.log_format == LogFormat::Json
            &&& bp.observability.log_format == LogFormat::Pretty ==> named == Some("pretty"@)
            &&& bp.observability.log_level@ == match c.observability {
                Some(o) => match o.log_level {
                    Some(l) => l@,
                    None => "info"@,
                },
                None => "info"@,
            }
            &&& bp.observability.otlp_endpoint == match c.observability {
                Some(o) => o.otlp_endpoint,
                None => None,
            }
        }),
{
    reveal_strlit("pretty");
    reveal_strlit("json");
    assert("pretty"@ != "json"@) by {
        assert("pretty"@[0] != "json"@[0]);
    }
}

/// Precedence law for rate limits and caching: each setting is the
/// backend's own when it sets one, else the `defaults` section's when that
/// sets one, else the built-in default (100 requests/s, burst 50, cache off,
/// 30 s time-to-live, 256 KiB bodies); the body limit is kept in bytes.
pub proof fn lemma_rate_limit_and_cache_precedence(bp: Blueprint, c: Config, listen: Seq<char>, i: int)
    requires
        blueprint_matches(bp, c, listen),
        0 <= i < c.backends.len(),
    ensures
        ({
            let b = c.backends@[i];
            let o = bp.backends@[i];
            let drl: Option<RateLimitConfig> = match c.defaults {
                Some(d) => d.rate_limit,
                None => None,
            };
            let dc: Option<CacheConfig> = match c.defaults {
                Some(d) => d.cache,
                None => None,
            };
            let own_burst: Option<u32> = match b.rate_limit {
                Some(r) => r.burst,
                None => None,
            };
            let def_burst: Option<u32> = match drl {
                Some(r) => r.burst,
                None => None,
            };
            let own_rps: Option<u32> = match b.rate_limit {
                Some(r) => r.rps,
                None => None,
            };
            let def_rps: Option<u32> = match drl {
                Some(r) => r.rps,
                None => None,
            };
            let own_enabled: Option<bool> = match b.cache {
                Some(x) => x.enabled,
                None => None,
            };
            let def_enabled: Option<bool> = match dc {
                Some(x) => x.enabled,
                None => None,
            };
            let own_ttl: Option<u64> = match b.cache {
                Some(x) => x.ttl_s,
                None => None,
            };
            let def_ttl: Option<u64> = match dc {
                Some(x) => x.ttl_s,
                None => None,
            };
            let own_kb: Option<u64> = match b.cache {
                Some(x) => x.max_body_kb,
                None => None,
            };
            let def_kb: Option<u64> = match dc {
                Some(x) => x.max_body_kb,
                None => None,
            };
            &&& own_burst matches Some(v) ==> o.rate_limit.burst == v
            &&& own_burst is None ==> (def_burst matches Some(v) ==> o.rate_limit.burst == v)
            &&& own_burst is None && def_burst is None ==> o.rate_limit.burst == 50
            &&& own_rps matches Some(v) ==> o.rate_limit.rps == v
            &&& own_rps is None ==> (def_rps matches Some(v) ==> o.rate_limit.rps == v)
            &&& own_rps is None && def_rps is None ==> o.rate_limit.rps == 100
            &&& own_enabled matches Some(v) ==> o.cache.enabled == v
            &&& own_enabled is None ==> (def_enabled matches Some(v) ==> o.cache.enabled == v)
            &&& own_enabled is None && def_enabled is None ==> !o.cache.enabled
            &&& own_ttl matches Some(v) ==> o.cache.ttl == duration_of_secs(v)
            &&& own_ttl is None ==> (def_ttl matches Some(v) ==> o.cache.ttl == duration_of_secs(v))
            &&& own_ttl is None && def_ttl is None ==> o.cache.ttl == duration_of_secs(30)
            &&& own_kb matches Some(v) ==> o.cache.max_body_bytes == v * 1024
            &&& own_kb is None ==> (def_kb matches Some(v) ==> o.cache.max_body_bytes == v * 1024)
            &&& own_kb is None && def_kb is None ==> o.cache.max_body_bytes == 262144
        }),
{
    assert(backend_matches(bp.backends@[i], c.backends@[i], defaults_in(c.defaults)));
}

/// Listen-address law: the address checked and listened on is the
/// configured one, else `0.0.0.0:8080`.
pub proof fn lemma_listen_address_default(c: Config)
    ensures
        listen_text(c) == match c.listen {
            Some(l) => l@,
            None => "0.0.0.0:8080"@,
        },
{
    reveal_strlit("0.0.0.0:8080");
    assert(default_listen() =~= "0.0.0.0:8080"@);
}

} // verus!
