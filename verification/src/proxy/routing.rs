//! Hop-by-hop header handling (RFC 7230 §6.1) and the request rewriting the
//! proxy performs before forwarding.
use crate::text::{
    find_char, find_char_in, lemma_find_char, slice_chars, string_from_chars, trim, trim_range,
};
use crate::config::blueprint::{parse_uri_parts, uri_parts};
use http::{HeaderMap, HeaderName, HeaderValue};
use vstd::prelude::*;

verus! {

// ---- outside types and calls ----------------------------------------------
#[verifier::external_type_specification]
#[verifier::external_body]
#[verifier::reject_recursive_types(T)]
pub struct ExHeaderMap<T>(HeaderMap<T>);

#[verifier::external_type_specification]
#[verifier::external_body]
pub struct ExHeaderName(HeaderName);

#[verifier::external_type_specification]
#[verifier::external_body]
pub struct ExHeaderValue(HeaderValue);

/// The contents of a header map: each (lower-case) header name present,
/// with its values in insertion order.
pub uninterp spec fn header_values(m: HeaderMap) -> Map<Seq<char>, Seq<Seq<u8>>>;

/// The text of a header name (`HeaderName::as_str`).
pub uninterp spec fn header_name_text(h: HeaderName) -> Seq<char>;

/// RFC 7230 `tchar`: the characters a header name may hold.
pub open spec fn is_tchar(c: char) -> bool {
    ||| 'a' <= c <= 'z'
    ||| 'A' <= c <= 'Z'
    ||| '0' <= c <= '9'
    ||| c == '!' || c == '#' || c == '$' || c == '%' || c == '&' || c == '\''
    ||| c == '*' || c == '+' || c == '-' || c == '.' || c == '^' || c == '_'
    ||| c == '`' || c == '|' || c == '~'
}

pub open spec fn ascii_lower(c: char) -> char {
    if 'A' <= c <= 'Z' {
        ((c as u32) + 32) as char
    } else {
        c
    }
}

/// The header name `http` makes of a string (`HeaderName::from_bytes`, and
/// the lookup key of a `&str`): one to 65535 `tchar`s, lower-cased;
/// anything else is not a header name.
pub open spec fn canonical_header_name(s: Seq<char>) -> Option<Seq<char>> {
    if 1 <= s.len() <= 65535 && (forall|i: int| 0 <= i < s.len() ==> is_tchar(#[trigger] s[i])) {
        Some(s.map_values(|c: char| ascii_lower(c)))
    } else {
        None
    }
}

/// The values stored under `name` (none when it is absent).
pub open spec fn stored_values(h: Map<Seq<char>, Seq<Seq<u8>>>, name: Seq<char>) -> Seq<Seq<u8>> {
    if h.dom().contains(name) {
        h[name]
    } else {
        seq![]
    }
}

pub open spec fn bytes_view(v: Seq<Vec<u8>>) -> Seq<Seq<u8>> {
    v.map_values(|b: Vec<u8>| b@)
}

/// `HeaderMap::get_all(name)`: the values stored under the header name that
/// `name` denotes, as bytes, in insertion order (none for an invalid name).
#[verifier::external_body]
fn values_of_header(m: &HeaderMap, name: &str) -> (r: Vec<Vec<u8>>)
    ensures
        bytes_view(r@) == match canonical_header_name(name@) {
            Some(c) => stored_values(header_values(*m), c),
            None => seq![],
        },
{
    let mut r = Vec::new();
    for v in m.get_all(name) {
        r.push(v.as_bytes().to_vec());
    }
    r
}

/// `HeaderMap::remove(name)`: drops every value stored under the header name
/// that `name` denotes (nothing for an invalid name).
#[verifier::external_body]
fn remove_header(m: &mut HeaderMap, name: &str)
    ensures
        header_values(*final(m)) == match canonical_header_name(name@) {
            Some(c) => header_values(*old(m)).remove(c),
            None => header_values(*old(m)),
        },
{
    m.remove(name);
}

pub open spec fn opt_text(s: Option<String>) -> Option<Seq<char>> {
    match s {
        Some(v) => Some(v@),
        None => None,
    }
}

/// `HeaderName::from_bytes(s.as_bytes())`, read back with `as_str`.
#[verifier::external_body]
fn header_name_from_str(s: &str) -> (r: Option<String>)
    ensures
        opt_text(r) == canonical_header_name(s@),
{
    match HeaderName::from_bytes(s.as_bytes()) {
        Ok(h) => Some(String::from(h.as_str())),
        Err(_) => None,
    }
}

/// `HeaderName::as_str`.
#[verifier::external_body]
fn header_name_str(h: &HeaderName) -> (s: String)
    ensures
        s@ == header_name_text(*h),
{
    String::from(h.as_str())
}

// ---- header values as text ------------------------------------------------
/// `HeaderValue::to_str`: the value as text when every byte is visible ASCII
/// (32 to 126) or a tab.
pub open spec fn header_value_text(b: Seq<u8>) -> Option<Seq<char>> {
    if forall|i: int| 0 <= i < b.len() ==> is_visible_ascii(#[trigger] b[i]) {
        Some(b.map_values(|x: u8| x as char))
    } else {
        None
    }
}

pub open spec fn is_visible_ascii(b: u8) -> bool {
    32 <= b < 127 || b == 9
}

fn value_text(b: &Vec<u8>) -> (r: Option<Vec<char>>)
    ensures
        match r {
            Some(t) => header_value_text(b@) == Some(t@),
            None => header_value_text(b@) is None,
        },
{
    let mut out: Vec<char> = Vec::new();
    let mut i: usize = 0;
    while i < b.len()
        invariant
            i <= b.len(),
            out@ == b@.take(i as int).map_values(|x: u8| x as char),
            forall|k: int| 0 <= k < i ==> is_visible_ascii(#[trigger] b@[k]),
        decreases b.len() - i,
    {
        let x = b[i];
        if !((32 <= x && x < 127) || x == 9) {
            return None;
        }
        out.push(x as char);
        proof {
            assert(out@ =~= b@.take(i + 1).map_values(|x: u8| x as char));
        }
        i = i + 1;
    }
    proof {
        assert(b@.take(b.len() as int) =~= b@);
    }
    Some(out)
}

// ---- the `Connection` header ------------------------------------------------
/// `str::split(',')`: the pieces between commas (an empty text is one empty piece).
pub open spec fn split_commas(s: Seq<char>) -> Seq<Seq<char>>
    decreases s.len(),
{
    match find_char(s, ',') {
        Some(k) => {
            proof {
                lemma_find_char(s, ',');
            }
            seq![s.take(k as int)] + split_commas(s.skip(k as int + 1))
        },
        None => seq![s],
    }
}

/// The header names that the tokens denote, skipping those that are not
/// header names.
pub open spec fn token_names(tokens: Seq<Seq<char>>) -> Seq<Seq<char>>
    decreases tokens.len(),
{
    if tokens.len() == 0 {
        seq![]
    } else {
        token_names(tokens.drop_last()) + match canonical_header_name(trim(tokens.last())) {
            Some(n) => seq![n],
            None => seq![],
        }
    }
}

/// The header names one `Connection` value declares (none when the value
/// is not text).
pub open spec fn value_names(b: Seq<u8>) -> Seq<Seq<char>> {
    match header_value_text(b) {
        Some(t) => token_names(split_commas(t)),
        None => seq![],
    }
}

/// The header names all `Connection` values declare, in order.
pub open spec fn declared_names(values: Seq<Seq<u8>>) -> Seq<Seq<char>>
    decreases values.len(),
{
    if values.len() == 0 {
        seq![]
    } else {
        declared_names(values.drop_last()) + value_names(values.last())
    }
}

pub open spec fn strings_view(v: Seq<String>) -> Seq<Seq<char>> {
    v.map_values(|s: String| s@)
}

fn names_in_value(b: &Vec<u8>, out: &mut Vec<String>)
    ensures
        strings_view(final(out)@) == strings_view(old(out)@) + value_names(b@),
{
    match value_text(b) {
        None => {
            proof {
                assert(strings_view(out@) + seq![] =~= strings_view(out@));
            }
        },
        Some(t) => {
            let n = t.len();
            let ghost start_out = strings_view(out@);
            let ghost all = split_commas(t@);
            let ghost mut done: Seq<Seq<char>> = seq![];
            let mut start: usize = 0;
            proof {
                assert(t@.subrange(0, n as int) =~= t@);
                assert(token_names(done) =~= Seq::<Seq<char>>::empty());
            }
            loop
                invariant_except_break
                    start <= n,
                    n == t.len(),
                    all == split_commas(t@),
                    all == done + split_commas(t@.subrange(start as int, n as int)),
                    strings_view(out@) == start_out + token_names(done),
                    header_value_text(b@) == Some(t@),
                ensures
                    strings_view(out@) == start_out + token_names(all),
                decreases n - start,
            {
                let j = find_char_in(&t, start, n, ',');
                let (a, e) = trim_range(&t, start, j);
                let token = string_from_chars(&slice_chars(&t, a, e));
                let ghost piece = t@.subrange(start as int, j as int);
                let ghost rest_before = t@.subrange(start as int, n as int);
                let ghost out_before = strings_view(out@);
                proof {
                    lemma_find_char(rest_before, ',');
                    if j < n {
                        assert(rest_before.take(j - start) =~= piece);
                        assert(rest_before.skip(j - start + 1) =~= t@.subrange(j + 1, n as int));
                    } else {
                        assert(rest_before =~= piece);
                    }
                    assert(token@ == trim(piece));
                }
                match header_name_from_str(token.as_str()) {
                    Some(name) => {
                        out.push(name);
                        proof {
                            assert(strings_view(out@) =~= out_before + seq![name@]);
                        }
                    },
                    None => {
                        proof {
                            assert(strings_view(out@) =~= out_before + seq![]);
                        }
                    },
                }
                proof {
                    let nd = done.push(piece);
                    assert(nd.drop_last() =~= done);
                    assert(nd.last() == piece);
                    assert(token_names(nd) == token_names(done) + match canonical_header_name(trim(piece)) {
                        Some(x) => seq![x],
                        None => seq![],
                    });
                    assert(strings_view(out@) =~= start_out + token_names(nd));
                    if j < n {
                        assert(all =~= nd + split_commas(t@.subrange(j + 1, n as int)));
                    } else {
                        assert(split_commas(rest_before) == seq![rest_before]);
                        assert(all =~= nd);
                    }
                    done = nd;
                }
                if j == n {
                    break;
                }
                start = j + 1;
            }
            proof {
                assert(value_names(b@) == token_names(all));
            }
        },
    }
}

/// The extra per-hop header names that the `Connection` header lists
/// (e.g. `Connection: close, X-Custom-Token`), normalized to lower case;
/// tokens that are not header names and values that are not text are skipped.
pub fn connection_declared_headers(headers: &HeaderMap) -> (r: Vec<String>)
    ensures
        strings_view(r@) == declared_names(stored_values(header_values(*headers), "connection"@)),
{
    let values = values_of_header(headers, "connection");
    proof {
        reveal_strlit("connection");
        assert(canonical_header_name("connection"@) == Some("connection"@)) by {
            assert("connection"@.map_values(|c: char| ascii_lower(c)) =~= "connection"@);
        }
    }
    let mut out: Vec<String> = Vec::new();
    let mut i: usize = 0;
    let ghost vs = bytes_view(values@);
    while i < values.len()
        invariant
            i <= values.len(),
            vs == bytes_view(values@),
            vs == stored_values(header_values(*headers), "connection"@),
            strings_view(out@) == declared_names(vs.take(i as int)),
        decreases values.len() - i,
    {
        names_in_value(&values[i], &mut out);
        proof {
            assert(vs.take(i + 1).drop_last() =~= vs.take(i as int));
        }
        i = i + 1;
    }
    proof {
        assert(vs.take(values.len() as int) =~= vs);
    }
    out
}

/// A name made of lower-case letters and `-` is its own canonical form.
pub proof fn lemma_lower_name_is_canonical(s: Seq<char>)
    requires
        1 <= s.len() <= 65535,
        forall|i: int| 0 <= i < s.len() ==> ('a' <= #[trigger] s[i] <= 'z' || s[i] == '-'),
    ensures
        canonical_header_name(s) == Some(s),
{
    assert(s.map_values(|c: char| ascii_lower(c)) =~= s);
}

/// The canonical form of a header name is its own canonical form.
pub proof fn lemma_canonical_idempotent(s: Seq<char>)
    requires
        canonical_header_name(s) is Some,
    ensures
        canonical_header_name(canonical_header_name(s)->0) == canonical_header_name(s),
{
    let c = canonical_header_name(s)->0;
    assert forall|i: int| 0 <= i < c.len() implies is_tchar(#[trigger] c[i]) by {
        assert(is_tchar(s[i]));
    }
    assert(c.map_values(|x: char| ascii_lower(x)) =~= c);
}

/// Every name `declared_names` yields is a canonical header name.
pub proof fn lemma_declared_names_canonical(values: Seq<Seq<u8>>)
    ensures
        forall|i: int|
            0 <= i < declared_names(values).len() ==> canonical_header_name(
                #[trigger] declared_names(values)[i],
            ) == Some(declared_names(values)[i]),
    decreases values.len(),
{
    if values.len() > 0 {
        lemma_declared_names_canonical(values.drop_last());
        let vn = value_names(values.last());
        if let Some(t) = header_value_text(values.last()) {
            lemma_token_names_canonical(split_commas(t));
        }
        let d = declared_names(values);
        let p = declared_names(values.drop_last());
        assert forall|i: int| 0 <= i < d.len() implies canonical_header_name(#[trigger] d[i]) == Some(d[i]) by {
            if i < p.len() {
                assert(d[i] == p[i]);
            } else {
                assert(d[i] == vn[i - p.len()]);
            }
        }
    }
}

proof fn lemma_token_names_canonical(tokens: Seq<Seq<char>>)
    ensures
        forall|i: int|
            0 <= i < token_names(tokens).len() ==> canonical_header_name(
                #[trigger] token_names(tokens)[i],
            ) == Some(token_names(tokens)[i]),
    decreases tokens.len(),
{
    if tokens.len() > 0 {
        lemma_token_names_canonical(tokens.drop_last());
        let d = token_names(tokens);
        let p = token_names(tokens.drop_last());
        if let Some(n) = canonical_header_name(trim(tokens.last())) {
            lemma_canonical_idempotent(trim(tokens.last()));
        }
        assert forall|i: int| 0 <= i < d.len() implies canonical_header_name(#[trigger] d[i]) == Some(d[i]) by {
            if i < p.len() {
                assert(d[i] == p[i]);
            }
        }
    }
}

/// The contents `strip_hop_by_hop` leaves of contents `h`.
pub open spec fn stripped(h: Map<Seq<char>, Seq<Seq<u8>>>) -> Map<Seq<char>, Seq<Seq<u8>>> {
    h.remove_keys(stripped_names(h))
}

/// Stripping law: no hop-by-hop header and no `Connection`-declared header
/// survives, and every other (end-to-end) header is kept with its values.
pub proof fn lemma_strip_keeps_end_to_end(h: Map<Seq<char>, Seq<Seq<u8>>>, k: Seq<char>)
    ensures
        hop_names().contains(k) ==> !stripped(h).dom().contains(k),
        declared_names(stored_values(h, "connection"@)).contains(k) ==> !stripped(h).dom().contains(k),
        !stripped_names(h).contains(k) ==> (stripped(h).dom().contains(k) == h.dom().contains(k)
            && (h.dom().contains(k) ==> stripped(h)[k] == h[k])),
{
}

/// Stripping law: stripping twice is the same as stripping once.
pub proof fn lemma_strip_idempotent(h: Map<Seq<char>, Seq<Seq<u8>>>)
    ensures
        stripped(stripped(h)) == stripped(h),
{
    let h1 = stripped(h);
    assert(hop_names().contains("connection"@));
    assert(!h1.dom().contains("connection"@));
    assert(stored_values(h1, "connection"@) == Seq::<Seq<u8>>::empty());
    assert(declared_names(Seq::<Seq<u8>>::empty()) == Seq::<Seq<char>>::empty());
    assert(stripped_names(h1) =~= hop_names());
    assert(h1.remove_keys(hop_names()) =~= h1);
}

// ---- hop-by-hop header catalogue --------------------------------------------
/// The hop-by-hop headers of RFC 7230 §6.1 (plus the proxy credentials).
#[derive(Clone, Copy, Debug, PartialEq, Eq, Structural)]
pub enum HopByHop {
    Connection,
    KeepAlive,
    TransferEncoding,
    Te,
    Trailer,
    Upgrade,
    ProxyAuthorization,
    ProxyAuthenticate,
}

/// Every hop-by-hop header, in catalogue order.
pub open spec fn all_hops() -> Seq<HopByHop> {
    seq![
        HopByHop::Connection,
        HopByHop::KeepAlive,
        HopByHop::TransferEncoding,
        HopByHop::Te,
        HopByHop::Trailer,
        HopByHop::Upgrade,
        HopByHop::ProxyAuthorization,
        HopByHop::ProxyAuthenticate,
    ]
}

/// The (lower-case) names of the hop-by-hop headers.
pub open spec fn hop_names() -> Set<Seq<char>> {
    set![
        "connection"@,
        "keep-alive"@,
        "transfer-encoding"@,
        "te"@,
        "trailer"@,
        "upgrade"@,
        "proxy-authorization"@,
        "proxy-authenticate"@,
    ]
}

impl HopByHop {
    pub open spec fn name(self) -> Seq<char> {
        match self {
            HopByHop::Connection => "connection"@,
            HopByHop::KeepAlive => "keep-alive"@,
            HopByHop::TransferEncoding => "transfer-encoding"@,
            HopByHop::Te => "te"@,
            HopByHop::Trailer => "trailer"@,
            HopByHop::Upgrade => "upgrade"@,
            HopByHop::ProxyAuthorization => "proxy-authorization"@,
            HopByHop::ProxyAuthenticate => "proxy-authenticate"@,
        }
    }

    /// The header's lower-case name.
    pub fn as_str(&self) -> (s: &'static str)
        ensures
            s@ == self.name(),
    {
        match self {
            HopByHop::Connection => "connection",
            HopByHop::KeepAlive => "keep-alive",
            HopByHop::TransferEncoding => "transfer-encoding",
            HopByHop::Te => "te",
            HopByHop::Trailer => "trailer",
            HopByHop::Upgrade => "upgrade",
            HopByHop::ProxyAuthorization => "proxy-authorization",
            HopByHop::ProxyAuthenticate => "proxy-authenticate",
        }
    }

    /// The whole catalogue, in order.
    pub fn all() -> (v: Vec<HopByHop>)
        ensures
            v@ == all_hops(),
    {
        let mut v: Vec<HopByHop> = Vec::new();
        v.push(HopByHop::Connection);
        v.push(HopByHop::KeepAlive);
        v.push(HopByHop::TransferEncoding);
        v.push(HopByHop::Te);
        v.push(HopByHop::Trailer);
        v.push(HopByHop::Upgrade);
        v.push(HopByHop::ProxyAuthorization);
        v.push(HopByHop::ProxyAuthenticate);
        proof {
            assert(v@ =~= all_hops());
        }
        v
    }

    /// The hop-by-hop header with this name, if it is one.
    pub fn from_header(name: &HeaderName) -> (r: Option<Self>)
        ensures
            match r {
                Some(h) => h.name() == header_name_text(*name),
                None => forall|h: HopByHop| h.name() != header_name_text(*name),
            },
    {
        let text = header_name_str(name);
        let all = HopByHop::all();
        let mut i: usize = 0;
        while i < all.len()
            invariant
                i <= all.len(),
                all@ == all_hops(),
                text@ == header_name_text(*name),
                forall|k: int| 0 <= k < i ==> (#[trigger] all@[k]).name() != text@,
            decreases all.len() - i,
        {
            let h = all[i];
            if text == String::from_str(h.as_str()) {
                return Some(h);
            }
            i = i + 1;
        }
        proof {
            assert forall|h: HopByHop| h.name() != header_name_text(*name) by {
                let k: int = match h {
                    HopByHop::Connection => 0,
                    HopByHop::KeepAlive => 1,
                    HopByHop::TransferEncoding => 2,
                    HopByHop::Te => 3,
                    HopByHop::Trailer => 4,
                    HopByHop::Upgrade => 5,
                    HopByHop::ProxyAuthorization => 6,
                    HopByHop::ProxyAuthenticate => 7,
                };
                assert(all@[k] == h);
            }
        }
        None
    }
}

/// Each hop-by-hop name is its own canonical header name.
proof fn lemma_hop_names_canonical(h: HopByHop)
    ensures
        canonical_header_name(h.name()) == Some(h.name()),
        hop_names().contains(h.name()),
{
    reveal_strlit("connection");
    reveal_strlit("keep-alive");
    reveal_strlit("transfer-encoding");
    reveal_strlit("te");
    reveal_strlit("trailer");
    reveal_strlit("upgrade");
    reveal_strlit("proxy-authorization");
    reveal_strlit("proxy-authenticate");
    lemma_lower_name_is_canonical(h.name());
}

/// The headers `strip_hop_by_hop` removes from a map with contents `h`: the
/// hop-by-hop headers and every header the `Connection` values name.
pub open spec fn stripped_names(h: Map<Seq<char>, Seq<Seq<u8>>>) -> Set<Seq<char>> {
    hop_names() + declared_names(stored_values(h, "connection"@)).to_set()
}

/// Removes the hop-by-hop headers, and the extra per-hop headers that the
/// `Connection` header declares, from `headers`.
pub fn strip_hop_by_hop(headers: &mut HeaderMap)
    ensures
        header_values(*final(headers)) == header_values(*old(headers)).remove_keys(
            stripped_names(header_values(*old(headers))),
        ),
{
    let ghost h0 = header_values(*headers);
    let extras = connection_declared_headers(headers);
    let ghost ex = strings_view(extras@);
    proof {
        lemma_declared_names_canonical(stored_values(h0, "connection"@));
    }
    let all = HopByHop::all();
    let mut i: usize = 0;
    proof {
        assert(h0.remove_keys(Set::empty()) =~= h0);
    }
    while i < all.len()
        invariant
            i <= all.len(),
            all@ == all_hops(),
            header_values(*headers) == h0.remove_keys(
                all_hops().take(i as int).map_values(|x: HopByHop| x.name()).to_set(),
            ),
        decreases all.len() - i,
    {
        let h = all[i];
        proof {
            lemma_hop_names_canonical(h);
        }
        remove_header(headers, h.as_str());
        proof {
            let before = all_hops().take(i as int).map_values(|x: HopByHop| x.name());
            let after = all_hops().take(i + 1).map_values(|x: HopByHop| x.name());
            assert(after =~= before.push(h.name()));
            before.lemma_push_to_set_commute(h.name());
            assert(after.to_set() =~= before.to_set().insert(h.name()));
            assert(h0.remove_keys(before.to_set()).remove(h.name()) =~= h0.remove_keys(
                after.to_set(),
            ));
        }
        i = i + 1;
    }
    proof {
        let names = all_hops().take(8).map_values(|x: HopByHop| x.name());
        reveal_strlit("connection");
        reveal_strlit("keep-alive");
        reveal_strlit("transfer-encoding");
        reveal_strlit("te");
        reveal_strlit("trailer");
        reveal_strlit("upgrade");
        reveal_strlit("proxy-authorization");
        reveal_strlit("proxy-authenticate");
        assert(names.to_set() =~= hop_names()) by {
            assert forall|x: Seq<char>| hop_names().contains(x) implies names.to_set().contains(x) by {
                if x == "connection"@ {
                    assert(names[0] == x);
                } else if x == "keep-alive"@ {
                    assert(names[1] == x);
                } else if x == "transfer-encoding"@ {
                    assert(names[2] == x);
                } else if x == "te"@ {
                    assert(names[3] == x);
                } else if x == "trailer"@ {
                    assert(names[4] == x);
                } else if x == "upgrade"@ {
                    assert(names[5] == x);
                } else if x == "proxy-authorization"@ {
                    assert(names[6] == x);
                } else {
                    assert(names[7] == x);
                }
            }
            assert forall|x: Seq<char>| names.to_set().contains(x) implies hop_names().contains(x) by {
                let k = choose|k: int| 0 <= k < names.len() && names[k] == x;
                lemma_hop_names_canonical(all_hops()[k]);
            }
        }
    }
    let mut j: usize = 0;
    while j < extras.len()
        invariant
            j <= extras.len(),
            ex == strings_view(extras@),
            ex == declared_names(stored_values(h0, "connection"@)),
            forall|k: int| 0 <= k < ex.len() ==> canonical_header_name(#[trigger] ex[k]) == Some(ex[k]),
            header_values(*headers) == h0.remove_keys(hop_names() + ex.take(j as int).to_set()),
        decreases extras.len() - j,
    {
        proof {
            assert(ex[j as int] == extras@[j as int]@);
        }
        remove_header(headers, extras[j].as_str());
        proof {
            let before = ex.take(j as int);
            let after = ex.take(j + 1);
            assert(after =~= before.push(ex[j as int]));
            before.lemma_push_to_set_commute(ex[j as int]);
            assert(after.to_set() =~= before.to_set().insert(ex[j as int]));
            assert(h0.remove_keys(hop_names() + before.to_set()).remove(ex[j as int]) =~= h0.remove_keys(
                hop_names() + after.to_set(),
            ));
        }
        j = j + 1;
    }
    proof {
        assert(ex.take(ex.len() as int) =~= ex);
    }
}

/// Carried on the response so the observability layer can label metrics
/// with the backend name rather than the raw path.
#[derive(Clone, Debug)]
pub struct BackendRoute(pub String);

/// Tower layer that strips hop-by-hop headers from requests.
#[derive(Clone, Copy, Debug)]
pub struct StripHopByHopLayer;

/// The service [`StripHopByHopLayer`] wraps around an inner service.
#[derive(Clone, Debug)]
pub struct StripHopByHopService<S> {
    pub inner: S,
}

impl StripHopByHopLayer {
    /// Wraps `inner`.
    pub fn layer<S>(&self, inner: S) -> (s: StripHopByHopService<S>)
        ensures
            s.inner == inner,
    {
        StripHopByHopService { inner }
    }
}

// ---- request rewriting ------------------------------------------------------
/// The first value of `name` as text, if there is one and it is text.
pub open spec fn first_text(h: Map<Seq<char>, Seq<Seq<u8>>>, name: Seq<char>) -> Option<Seq<char>> {
    if stored_values(h, name).len() > 0 {
        header_value_text(stored_values(h, name)[0])
    } else {
        None
    }
}

pub(crate) fn first_header_text(headers: &HeaderMap, name: &str) -> (r: Option<Vec<char>>)
    requires
        canonical_header_name(name@) == Some(name@),
    ensures
        match r {
            Some(t) => first_text(header_values(*headers), name@) == Some(t@),
            None => first_text(header_values(*headers), name@) is None,
        },
{
    let values = values_of_header(headers, name);
    if values.len() == 0 {
        None
    } else {
        proof {
            assert(bytes_view(values@)[0] == values@[0]@);
        }
        value_text(&values[0])
    }
}

/// The `X-Forwarded-For` value to send upstream: the inbound value (when it
/// is text) followed by `, ` and the client address, else the client
/// address alone.
pub fn forwarded_for(headers: &HeaderMap, client_ip: &str) -> (s: String)
    ensures
        s@ == match first_text(header_values(*headers), "x-forwarded-for"@) {
            Some(existing) => existing + ", "@ + client_ip@,
            None => client_ip@,
        },
{
    proof {
        reveal_strlit("x-forwarded-for");
        lemma_lower_name_is_canonical("x-forwarded-for"@);
    }
    match first_header_text(headers, "x-forwarded-for") {
        Some(t) => {
            let mut s = string_from_chars(&t);
            s.append(", ");
            s.append(client_ip);
            s
        },
        None => String::from_str(client_ip),
    }
}

/// The upstream URL: the replica's base URL followed by the request's path
/// and query (`/` when the request has none).
pub fn upstream_url(base: &str, path_and_query: Option<&str>) -> (s: String)
    ensures
        s@ == base@ + match path_and_query {
            Some(p) => p@,
            None => "/"@,
        },
{
    let mut s = String::from_str(base);
    match path_and_query {
        Some(p) => s.append(p),
        None => s.append("/"),
    }
    s
}

/// The upstream URL text: the upstream base followed by the request's path
/// and query, or by `/` when the request has none.
pub open spec fn upstream_text(base: Seq<char>, path_and_query: Option<Seq<char>>) -> Seq<char> {
    base + match path_and_query {
        Some(p) => p,
        None => "/"@,
    }
}

pub open spec fn opt_str_view(o: Option<&str>) -> Option<Seq<char>> {
    match o {
        Some(s) => Some(s@),
        None => None,
    }
}

/// Where a request is forwarded: the upstream URL (`upstream_text`) when it
/// parses as an `http::Uri`, with that URI's authority (empty when it has
/// none); `None` when it does not parse, which the proxy answers with 502.
pub fn upstream_target(base: &str, path_and_query: Option<&str>) -> (r: Option<(String, String)>)
    ensures
        ({
            let joined = upstream_text(base@, opt_str_view(path_and_query));
            match r {
                None => uri_parts(joined) is None,
                Some((url, authority)) => url@ == joined && match uri_parts(joined) {
                    Some((_, Some(a))) => authority@ == a,
                    Some((_, None)) => authority@ == Seq::<char>::empty(),
                    None => false,
                },
            }
        }),
{
    let joined = upstream_url(base, path_and_query);
    proof {
        assert(joined@ == upstream_text(base@, opt_str_view(path_and_query)));
    }
    match parse_uri_parts(joined.as_str()) {
        None => None,
        Some((_, authority)) => {
            let a = match authority {
                Some(a) => a,
                None => String::new(),
            };
            Some((joined, a))
        },
    }
}

} // verus!
