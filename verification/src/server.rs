//! Who may connect: what request headers say, and the answer to a proxy or a
//! metrics request.
use axum::http::HeaderMap;
use vstd::prelude::*;
use vstd::slice::slice_subrange;
use vstd::string::StrSliceExecFns;

use crate::config;
use crate::config::{Cidr, Config};
use crate::dest;
use crate::ip;
use crate::ip::{IpAddr, SocketAddr};
use crate::names::NameSet;
use crate::text;

verus! {

/// `axum::http::HeaderMap`, the headers of a request.
#[verifier::external_type_specification]
#[verifier::external_body]
#[verifier::reject_recursive_types(T)]
pub struct ExHeaderMap<T>(axum::http::HeaderMap<T>);

/// `axum::http::HeaderValue`, which a `HeaderMap` holds unless it is told otherwise.
#[verifier::external_type_specification]
#[verifier::external_body]
pub struct ExHeaderValue(axum::http::HeaderValue);

/// The names of the headers that are there.
pub uninterp spec fn header_names(headers: axum::http::HeaderMap) -> Set<Seq<char>>;

/// `axum::http::HeaderMap::contains_key`: whether there is a header `name`,
/// whatever its value.
#[verifier::external_body]
fn header_present(headers: &HeaderMap, name: &str) -> (r: bool)
    ensures
        r == header_names(*headers).contains(name@),
{
    headers.contains_key(name)
}

/// What the headers say: under the name of each header that is there, the text of
/// its first value, as far as that is visible ASCII.
pub uninterp spec fn header_texts(headers: axum::http::HeaderMap) -> Map<Seq<char>, Seq<char>>;

/// `axum::http::HeaderMap::get`, with `HeaderValue::to_str` on what it finds: the
/// text of the header `name`, if it is there and is visible ASCII. What is found
/// is there.
#[verifier::external_body]
fn header_text<'a>(headers: &'a HeaderMap, name: &str) -> (r: Option<&'a str>)
    ensures
        r is Some ==> header_names(*headers).contains(name@),
        match r {
            Some(v) => header_texts(*headers).contains_key(name@) && v@ == header_texts(
                *headers,
            )[name@],
            None => !header_texts(*headers).contains_key(name@),
        },
{
    headers.get(name).and_then(|v| v.to_str().ok())
}

/// The text of a header, if it is there and is text.
pub open spec fn header_value(headers: HeaderMap, name: Seq<char>) -> Option<Seq<char>> {
    if header_texts(headers).contains_key(name) {
        Some(header_texts(headers)[name])
    } else {
        None
    }
}

/// Whether a request may connect that has an `Origin` header or not (`present`),
/// and whose origin is `origin` if it is text. No origin is refused if there is no
/// list or the list has `*`, and a request without the header, which no browser
/// sends, is let through. Otherwise the origin must be text and on the list.
pub open spec fn origin_passes(
    present: bool,
    origin: Option<Seq<char>>,
    allowed: Set<Seq<char>>,
) -> bool {
    ||| allowed == Set::<Seq<char>>::empty()
    ||| allowed.contains("*"@)
    ||| !present
    ||| origin is Some && exists|o: Seq<char>| #[trigger]
        allowed.contains(o) && config::normal_origin(o) == config::normal_origin(origin->0)
}

/// Whether a host may be asked for. Every one may if there is no list; otherwise
/// there must be a host and it, or what stands before its first colon, must be on
/// the list.
pub open spec fn host_passes(host: Option<Seq<char>>, allowed: Set<Seq<char>>) -> bool {
    ||| allowed == Set::<Seq<char>>::empty()
    ||| host is Some && exists|h: Seq<char>| #[trigger]
        allowed.contains(h) && host_matches(host->0, h)
}

/// Whether `host` is `want`, with or without a port.
pub open spec fn host_matches(host: Seq<char>, want: Seq<char>) -> bool {
    let got = dest::normal_hostname(host);
    let name = dest::normal_hostname(want);
    got == name || got.take(text::find(got, ':') as int) == name
}

/// Decides on the origin of a request that has an `Origin` header or not.
pub fn judge_origin(present: bool, origin: Option<&str>, allowed: &NameSet) -> (r: bool)
    ensures
        r == origin_passes(present, text::said(origin), allowed@),
{
    if allowed.is_empty() || allowed.contains("*") {
        return true;
    }
    // Native clients omit Origin; browsers always send it on WS.
    if !present {
        return true;
    }
    let raw = match origin {
        Some(raw) => raw,
        None => {
            return false;
        },
    };
    let got = config::normalize_origin(raw);
    let mut i: usize = 0;
    while i < allowed.len()
        invariant
            i <= allowed.entries().len(),
            origin == Some(raw),
            got@ == config::normal_origin(raw@),
            forall|k: int|
                0 <= k < i ==> config::normal_origin(#[trigger] allowed.entries()[k]) != got@,
        decreases allowed.entries().len() - i,
    {
        let o = allowed.at(i);
        let want = config::normalize_origin(o);
        if text::same_text(want.as_str(), got.as_str()) {
            assert(allowed@.contains(o@));
            return true;
        }
        i += 1;
    }
    assert forall|o: Seq<char>| #[trigger] allowed@.contains(o) implies config::normal_origin(o)
        != got@ by {
        let k = choose|k: int| 0 <= k < allowed.entries().len() && allowed.entries()[k] == o;
        assert(config::normal_origin(allowed.entries()[k]) != got@);
    }
    false
}

/// Whether the `Origin` of a request may connect.
pub fn origin_allowed(headers: &HeaderMap, allowed: &NameSet) -> (r: bool)
    ensures
        r == origin_passes(
            header_names(*headers).contains("origin"@),
            header_value(*headers, "origin"@),
            allowed@,
        ),
{
    judge_origin(header_present(headers, "origin"), header_text(headers, "origin"), allowed)
}

/// Decides on a host.
pub fn judge_host(host: Option<&str>, allowed: &NameSet) -> (r: bool)
    ensures
        r == host_passes(text::said(host), allowed@),
{
    if allowed.is_empty() {
        return true;
    }
    let raw = match host {
        Some(raw) => raw,
        None => {
            return false;
        },
    };
    let got = config::normalize_host(raw);
    let got_chars = text::chars_of(got.as_str());
    let colon = text::find_char(got_chars.as_slice(), ':');
    let name = slice_subrange(got_chars.as_slice(), 0, colon);
    assert(name@ =~= got@.take(colon as int));
    let mut i: usize = 0;
    while i < allowed.len()
        invariant
            i <= allowed.entries().len(),
            host == Some(raw),
            got@ == dest::normal_hostname(raw@),
            colon == text::find(got@, ':'),
            name@ == got@.take(colon as int),
            forall|k: int| 0 <= k < i ==> !host_matches(raw@, #[trigger] allowed.entries()[k]),
        decreases allowed.entries().len() - i,
    {
        let h = allowed.at(i);
        let want = config::normalize_host(h);
        if text::same_text(got.as_str(), want.as_str()) || text::says(name, want.as_str()) {
            assert(allowed@.contains(h@));
            return true;
        }
        i += 1;
    }
    assert forall|h: Seq<char>| #[trigger] allowed@.contains(h) implies !host_matches(raw@, h) by {
        let k = choose|k: int| 0 <= k < allowed.entries().len() && allowed.entries()[k] == h;
        assert(!host_matches(raw@, allowed.entries()[k]));
    }
    false
}

/// Whether the `Host` of a request may be asked for.
pub fn host_allowed(headers: &HeaderMap, allowed: &NameSet) -> (r: bool)
    ensures
        r == host_passes(header_value(*headers, "host"@), allowed@),
{
    judge_host(header_text(headers, "host"), allowed)
}

/// Whether one of `trusted` holds `ip`.
pub open spec fn some_covers(trusted: Seq<Cidr>, ip: IpAddr) -> bool {
    exists|i: int| 0 <= i < trusted.len() && (#[trigger] trusted[i]).covers(ip)
}

/// The address that a header writes, if it writes one.
pub open spec fn forwarded_ip(value: Option<Seq<char>>) -> Option<IpAddr> {
    match value {
        Some(v) => ip::ip_value(text::trim(v)),
        None => None,
    }
}

/// The address that a client is counted under: the one that a trusted proxy
/// reports, or else the peer's.
pub open spec fn client_of(
    cf: Option<Seq<char>>,
    x_real: Option<Seq<char>>,
    x_forwarded: Option<Seq<char>>,
    peer: IpAddr,
    trust_forwarded: bool,
    trusted: Seq<Cidr>,
) -> IpAddr {
    if !(trust_forwarded && some_covers(trusted, peer)) {
        peer
    } else if forwarded_ip(cf) is Some {
        forwarded_ip(cf)->0
    } else if forwarded_ip(x_real) is Some {
        forwarded_ip(x_real)->0
    } else if forwarded_ip(x_forwarded) is Some {
        forwarded_ip(x_forwarded)->0
    } else {
        peer
    }
}

fn any_contains(trusted: &[Cidr], ip: IpAddr) -> (r: bool)
    requires
        config::all_valid(trusted@),
    ensures
        r == some_covers(trusted@, ip),
{
    let mut i: usize = 0;
    while i < trusted.len()
        invariant
            i <= trusted@.len(),
            config::all_valid(trusted@),
            forall|k: int| 0 <= k < i ==> !(#[trigger] trusted@[k]).covers(ip),
        decreases trusted@.len() - i,
    {
        if trusted[i].contains(ip) {
            assert(trusted@[i as int].covers(ip));
            return true;
        }
        i += 1;
    }
    false
}

fn read_forwarded(value: Option<&str>) -> (r: Option<IpAddr>)
    ensures
        r == forwarded_ip(text::said(value)),
{
    match value {
        Some(v) => {
            let chars = text::chars_of(v);
            ip::read_ip(text::trim_chars(chars.as_slice()))
        },
        None => None,
    }
}

/// Decides which address a client is counted under.
pub fn judge_client(
    cf: Option<&str>,
    x_real: Option<&str>,
    x_forwarded: Option<&str>,
    peer: IpAddr,
    trust_forwarded: bool,
    trusted: &[Cidr],
) -> (r: IpAddr)
    requires
        config::all_valid(trusted@),
    ensures
        r == client_of(
            text::said(cf),
            text::said(x_real),
            text::said(x_forwarded),
            peer,
            trust_forwarded,
            trusted@,
        ),
{
    if trust_forwarded && any_contains(trusted, peer) {
        if let Some(ip) = read_forwarded(cf) {
            return ip;
        }
        if let Some(ip) = read_forwarded(x_real) {
            return ip;
        }
        if let Some(ip) = read_forwarded(x_forwarded) {
            return ip;
        }
    }
    peer
}

/// The address that the client of a request is counted under.
pub fn client_ip(
    headers: &HeaderMap,
    peer: SocketAddr,
    trust_forwarded: bool,
    trusted: &[Cidr],
) -> (r: IpAddr)
    requires
        config::all_valid(trusted@),
    ensures
        r == client_of(
            header_value(*headers, "cf-connecting-ip"@),
            header_value(*headers, "x-real-ip"@),
            header_value(*headers, "x-forwarded-for"@),
            peer.ip,
            trust_forwarded,
            trusted@,
        ),
{
    judge_client(
        header_text(headers, "cf-connecting-ip"),
        header_text(headers, "x-real-ip"),
        header_text(headers, "x-forwarded-for"),
        peer.ip,
        trust_forwarded,
        trusted,
    )
}

/// The token that an `Authorization` header carries: what follows `Bearer ` or
/// `bearer `, if that is not blank.
pub open spec fn bearer_value(raw: Seq<char>) -> Option<Seq<char>> {
    if "Bearer "@.is_prefix_of(raw) || "bearer "@.is_prefix_of(raw) {
        let t = text::trim(raw.skip(7));
        if t.len() > 0 {
            Some(t)
        } else {
            None
        }
    } else {
        None
    }
}

/// Reads the token of an `Authorization` header.
pub fn read_bearer(raw: &str) -> (r: Option<&str>)
    ensures
        text::said(r) == bearer_value(raw@),
{
    let chars = text::chars_of(raw);
    let upper = text::chars_of("Bearer ");
    let lower = text::chars_of("bearer ");
    proof {
        reveal_strlit("Bearer ");
        reveal_strlit("bearer ");
    }
    if !text::has_prefix(chars.as_slice(), upper.as_slice()) && !text::has_prefix(
        chars.as_slice(),
        lower.as_slice(),
    ) {
        return None;
    }
    let rest = slice_subrange(chars.as_slice(), 7, chars.len());
    assert(rest@ =~= raw@.skip(7));
    let (a, b) = text::trim_bounds(rest);
    if a == b {
        return None;
    }
    assert(raw@.subrange(7 + a, 7 + b) =~= rest@.subrange(a as int, b as int));
    Some(raw.substring_char(7 + a, 7 + b))
}

/// The token in the `Authorization` header of a request.
pub open spec fn bearer_of(headers: HeaderMap) -> Option<Seq<char>> {
    match header_value(headers, "authorization"@) {
        Some(raw) => bearer_value(raw),
        None => None,
    }
}

/// The token in the `Authorization` header of a request.
pub fn bearer_token(headers: &HeaderMap) -> (r: Option<&str>)
    ensures
        text::said(r) == bearer_of(*headers),
{
    match header_text(headers, "authorization") {
        Some(raw) => read_bearer(raw),
        None => None,
    }
}

/// The token that one offered subprotocol carries: what follows `bearer.`, or the
/// whole of a `v4.local.` token.
pub open spec fn token_in(offer: Seq<char>) -> Option<Seq<char>> {
    let p = text::trim(offer);
    if "bearer."@.is_prefix_of(p) && p.len() > 7 {
        Some(p.skip(7))
    } else if "v4.local."@.is_prefix_of(p) {
        Some(p)
    } else {
        None
    }
}

/// The token of the first offered subprotocol that carries one.
pub open spec fn first_token(offers: Seq<Seq<char>>) -> Option<Seq<char>>
    decreases offers.len(),
{
    if offers.len() == 0 {
        None
    } else {
        match token_in(offers.first()) {
            Some(t) => Some(t),
            None => first_token(offers.drop_first()),
        }
    }
}

/// Reads the token of a `Sec-WebSocket-Protocol` header.
pub fn read_protocol_token(raw: &str) -> (r: Option<&str>)
    ensures
        text::said(r) == first_token(text::split(raw@, ',')),
{
    let chars = text::chars_of(raw);
    let bearer = text::chars_of("bearer.");
    let local = text::chars_of("v4.local.");
    proof {
        reveal_strlit("bearer.");
    }
    let mut start: usize = 0;
    assert(raw@.skip(0) =~= raw@);
    loop
        invariant
            start <= chars@.len(),
            chars@ == raw@,
            bearer@ == "bearer."@,
            bearer@.len() == 7,
            local@ == "v4.local."@,
            first_token(text::split(raw@, ',')) == first_token(
                text::split(raw@.skip(start as int), ','),
            ),
        decreases chars@.len() - start,
    {
        let rest = slice_subrange(chars.as_slice(), start, chars.len());
        assert(rest@ =~= raw@.skip(start as int));
        let k = text::find_char(rest, ',');
        let ghost all = text::split(rest@, ',');
        proof {
            text::lemma_split_head(rest@, ',');
        }
        let offer = slice_subrange(rest, 0, k);
        assert(offer@ =~= all.first());
        let (a, b) = text::trim_bounds(offer);
        let p = slice_subrange(offer, a, b);
        if text::has_prefix(p, bearer.as_slice()) && p.len() > 7 {
            assert(raw@.subrange(start + a + 7, start + b) =~= p@.skip(7));
            return Some(raw.substring_char(start + a + 7, start + b));
        }
        if text::has_prefix(p, local.as_slice()) {
            assert(raw@.subrange(start + a, start + b) =~= p@);
            return Some(raw.substring_char(start + a, start + b));
        }
        assert(token_in(all.first()) is None);
        if k == rest.len() {
            assert(all.drop_first() =~= Seq::empty());
            assert(first_token(all) is None) by {
                reveal_with_fuel(first_token, 2);
            }
            return None;
        }
        assert(all.drop_first() =~= text::split(rest@.skip(k + 1), ','));
        assert(rest@.skip(k + 1) =~= raw@.skip(start + k + 1));
        start = start + k + 1;
    }
}

/// The token in the `Sec-WebSocket-Protocol` header of a request.
pub open spec fn protocol_of(headers: HeaderMap) -> Option<Seq<char>> {
    match header_value(headers, "sec-websocket-protocol"@) {
        Some(raw) => first_token(text::split(raw, ',')),
        None => None,
    }
}

/// Token from `Sec-WebSocket-Protocol`: `bearer.<token>` or a raw `v4.local.*`.
pub fn protocol_token(headers: &HeaderMap) -> (r: Option<&str>)
    ensures
        text::said(r) == protocol_of(*headers),
{
    match header_text(headers, "sec-websocket-protocol") {
        Some(raw) => read_protocol_token(raw),
        None => None,
    }
}

/// Whether an offered subprotocol is one that carries a token.
pub open spec fn is_auth_offer(p: Seq<char>) -> bool {
    "bearer."@.is_prefix_of(p) || "v4.local."@.is_prefix_of(p)
}

/// The first offered subprotocol that carries a token.
pub open spec fn first_offer(offers: Seq<Seq<char>>) -> Option<Seq<char>>
    decreases offers.len(),
{
    if offers.len() == 0 {
        None
    } else if is_auth_offer(text::trim(offers.first())) {
        Some(text::trim(offers.first()))
    } else {
        first_offer(offers.drop_first())
    }
}

/// Reads the first subprotocol that carries a token from a
/// `Sec-WebSocket-Protocol` header.
pub fn read_auth_offer(raw: &str) -> (r: Option<String>)
    ensures
        text::kept(r) == first_offer(text::split(raw@, ',')),
{
    let chars = text::chars_of(raw);
    let bearer = text::chars_of("bearer.");
    let local = text::chars_of("v4.local.");
    let offers = text::split_chars(chars.as_slice(), ',');
    let ghost all = text::split(raw@, ',');
    let mut i: usize = 0;
    assert(all.skip(0) =~= all);
    while i < offers.len()
        invariant
            i <= offers@.len() == all.len(),
            all == text::split(raw@, ','),
            forall|k: int| 0 <= k < all.len() ==> (#[trigger] offers@[k])@ == all[k],
            bearer@ == "bearer."@,
            local@ == "v4.local."@,
            first_offer(all) == first_offer(all.skip(i as int)),
        decreases offers@.len() - i,
    {
        assert(offers@[i as int]@ == all[i as int]);
        assert(all.skip(i as int).drop_first() =~= all.skip(i + 1));
        let p = text::trim_chars(offers[i]);
        if text::has_prefix(p, bearer.as_slice()) || text::has_prefix(p, local.as_slice()) {
            return Some(text::string_of(p));
        }
        i += 1;
    }
    None
}

/// The subprotocol of a request that carries its token, to be accepted with it.
pub open spec fn offer_of(headers: HeaderMap) -> Option<Seq<char>> {
    match header_value(headers, "sec-websocket-protocol"@) {
        Some(raw) => first_offer(text::split(raw, ',')),
        None => None,
    }
}

/// The subprotocol of a request that carries its token, to be accepted with it.
pub fn offered_auth_protocol(headers: &HeaderMap) -> (r: Option<String>)
    ensures
        text::kept(r) == offer_of(*headers),
{
    match header_text(headers, "sec-websocket-protocol") {
        Some(raw) => read_auth_offer(raw),
        None => None,
    }
}

/// The query of a proxy request.
pub struct ProxyQuery {
    /// The token, empty if none is given.
    pub token: String,
    pub remote: String,
}

/// The token of a request: the one in its query, or else in its `Authorization`
/// header, or else in its subprotocols; empty if there is none.
pub open spec fn token_of(
    query: Seq<char>,
    bearer: Option<Seq<char>>,
    protocol: Option<Seq<char>>,
) -> Seq<char> {
    if query.len() > 0 {
        query
    } else if bearer is Some {
        bearer->0
    } else if protocol is Some {
        protocol->0
    } else {
        Seq::empty()
    }
}

/// The token of a request.
pub fn proxy_token<'a>(query: &'a ProxyQuery, headers: &'a HeaderMap) -> (r: &'a str)
    ensures
        r@ == token_of(query.token@, bearer_of(*headers), protocol_of(*headers)),
{
    if !query.token.as_str().is_empty() {
        return query.token.as_str();
    }
    if let Some(b) = bearer_token(headers) {
        return b;
    }
    proof {
        reveal_strlit("");
    }
    match protocol_token(headers) {
        Some(t) => t,
        None => {
            assert(""@ =~= Seq::empty());
            ""
        },
    }
}

/// Constant-time compare for bearer tokens. Length mismatch still returns
/// false after a dummy pass so short tokens are not a cheap reject.
pub fn token_eq(a: &[u8], b: &[u8]) -> (r: bool)
    ensures
        r == (a@ == b@),
{
    let x: usize = a.len();
    let y: usize = b.len();
    let mut diff: usize = x ^ y;
    assert(diff == 0 <==> x == y) by (bit_vector)
        requires
            diff == x ^ y,
    ;
    let n: usize = if x >= y {
        x
    } else {
        y
    };
    let mut i: usize = 0;
    while i < n
        invariant
            i <= n,
            x == a@.len(),
            y == b@.len(),
            n >= x,
            n >= y,
            diff == 0 <==> x == y && forall|k: int| 0 <= k < i && k < x ==> a@[k] == b@[k],
        decreases n - i,
    {
        let p: u8 = if i < x {
            a[i]
        } else {
            0
        };
        let q: u8 = if i < y {
            b[i]
        } else {
            0
        };
        let e: usize = (p ^ q) as usize;
        let old_diff: usize = diff;
        diff = diff | e;
        assert(e == 0 <==> p == q) by (bit_vector)
            requires
                e == (p ^ q) as usize,
        ;
        assert(diff == 0 <==> old_diff == 0 && e == 0) by (bit_vector)
            requires
                diff == old_diff | e,
        ;
        i += 1;
    }
    proof {
        if diff == 0 {
            assert(a@ =~= b@);
        }
    }
    diff == 0
}

/// Whether the metrics may be seen: there is no key, or the request carries it in
/// its `Authorization` header or, without that, in its query.
pub open spec fn metrics_open(
    key: Option<Seq<char>>,
    bearer: Option<Seq<char>>,
    query: Option<Seq<char>>,
) -> bool {
    match key {
        None => true,
        Some(key) => match bearer {
            Some(b) => b == key,
            None => query == Some(key),
        },
    }
}

/// Decides whether the metrics may be seen by a request.
pub fn metrics_allowed(headers: &HeaderMap, query: Option<&str>, key: Option<&str>) -> (r: bool)
    ensures
        r == metrics_open(text::said(key), bearer_of(*headers), text::said(query)),
{
    let key = match key {
        Some(key) => key,
        None => {
            return true;
        },
    };
    let provided = match bearer_token(headers) {
        Some(b) => Some(b),
        None => query,
    };
    match provided {
        Some(p) => {
            proof {
                vstd::utf8::encode_utf8_decode_utf8(p@);
                vstd::utf8::encode_utf8_decode_utf8(key@);
            }
            token_eq(p.as_bytes(), key.as_bytes())
        },
        None => false,
    }
}

/// Whether the metrics are served where the proxy listens: only if they have no
/// address of their own.
pub fn metrics_on_proxy(config: &Config) -> (r: bool)
    ensures
        r == (config.metrics_bind is None),
{
    config.metrics_bind.is_none()
}

/// What a client says of its address counts only if a trusted proxy passes it on.
pub proof fn law_untrusted_peer_is_itself(
    cf: Option<Seq<char>>,
    x_real: Option<Seq<char>>,
    x_forwarded: Option<Seq<char>>,
    peer: IpAddr,
    trust_forwarded: bool,
    trusted: Seq<Cidr>,
)
    requires
        !trust_forwarded || trusted.len() == 0 || !some_covers(trusted, peer),
    ensures
        client_of(cf, x_real, x_forwarded, peer, trust_forwarded, trusted) == peer,
{
}

/// A browser on a site that is not listed is refused, whatever the case of its
/// origin, and a listed one is let through. An origin that is no text is refused.
pub proof fn law_only_listed_origins(origin: Seq<char>, allowed: Set<Seq<char>>)
    requires
        allowed != Set::<Seq<char>>::empty(),
        !allowed.contains("*"@),
    ensures
        origin_passes(true, Some(origin), allowed) == origin_passes(
            true,
            Some(text::lower(origin)),
            allowed,
        ),
        allowed.contains(origin) ==> origin_passes(true, Some(origin), allowed),
        (forall|o: Seq<char>| #[trigger]
            allowed.contains(o) ==> config::normal_origin(o) != config::normal_origin(origin))
            ==> !origin_passes(true, Some(origin), allowed),
        !origin_passes(true, None, allowed),
{
    config::law_origin_case_is_ignored(origin);
}

/// A client that sends no `Origin` header is never refused for it.
pub proof fn law_native_clients_pass(origin: Option<Seq<char>>, allowed: Set<Seq<char>>)
    ensures
        origin_passes(false, origin, allowed),
{
}

/// A request without a host is refused wherever hosts are listed.
pub proof fn law_listed_hosts_need_a_host(allowed: Set<Seq<char>>)
    requires
        allowed != Set::<Seq<char>>::empty(),
    ensures
        !host_passes(None, allowed),
{
}

/// Whether every character of `s` is white space.
pub open spec fn is_blank_text(s: Seq<char>) -> bool {
    forall|i: int| 0 <= i < s.len() ==> text::is_space(#[trigger] s[i])
}

/// The token that follows `Bearer` or `bearer` and a space is read, without white
/// space around it, and one that is blank or that follows anything else is none.
pub proof fn law_bearer_is_read(before: Seq<char>, token: Seq<char>, after: Seq<char>)
    requires
        is_blank_text(before),
        is_blank_text(after),
        token.len() > 0 ==> !text::is_space(token.first()) && !text::is_space(token.last()),
    ensures
        ({
            let rest = before + token + after;
            let value = if token.len() > 0 {
                Some(token)
            } else {
                None
            };
            &&& bearer_value(seq!['B', 'e', 'a', 'r', 'e', 'r', ' '] + rest) == value
            &&& bearer_value(seq!['b', 'e', 'a', 'r', 'e', 'r', ' '] + rest) == value
        }),
{
    reveal_strlit("Bearer ");
    reveal_strlit("bearer ");
    let rest = before + token + after;
    let upper = seq!['B', 'e', 'a', 'r', 'e', 'r', ' '];
    let small = seq!['b', 'e', 'a', 'r', 'e', 'r', ' '];
    text::law_trim(before, token, after);
    assert("Bearer "@ =~= upper);
    assert("bearer "@ =~= small);
    assert((upper + rest).subrange(0, 7) =~= upper);
    assert((small + rest).subrange(0, 7) =~= small);
    assert((upper + rest).skip(7) =~= rest);
    assert((small + rest).skip(7) =~= rest);
}

/// Whether an offered subprotocol carries no token.
pub open spec fn carries_none(offer: Seq<char>) -> bool {
    let p = text::trim(offer);
    &&& !(p.len() > 7 && p.take(7) == seq!['b', 'e', 'a', 'r', 'e', 'r', '.'])
    &&& !(p.len() >= 9 && p.take(9) == seq!['v', '4', '.', 'l', 'o', 'c', 'a', 'l', '.'])
}

proof fn lemma_carries_none(offer: Seq<char>)
    requires
        carries_none(offer),
    ensures
        token_in(offer) is None,
{
    reveal_strlit("bearer.");
    reveal_strlit("v4.local.");
    let p = text::trim(offer);
    assert("bearer."@ =~= seq!['b', 'e', 'a', 'r', 'e', 'r', '.']);
    assert("v4.local."@ =~= seq!['v', '4', '.', 'l', 'o', 'c', 'a', 'l', '.']);
    if "bearer."@.is_prefix_of(p) {
        assert(p.take(7) =~= p.subrange(0, 7));
    }
    if "v4.local."@.is_prefix_of(p) {
        assert(p.take(9) =~= p.subrange(0, 9));
    }
}

proof fn lemma_first_token_behind(before: Seq<Seq<char>>, rest: Seq<Seq<char>>)
    requires
        forall|i: int| 0 <= i < before.len() ==> carries_none(#[trigger] before[i]),
    ensures
        first_token(before + rest) == first_token(rest),
    decreases before.len(),
{
    if before.len() == 0 {
        assert(before + rest =~= rest);
    } else {
        let more = before.drop_first();
        assert(carries_none(before[0]));
        lemma_carries_none(before[0]);
        assert forall|i: int| 0 <= i < more.len() implies carries_none(#[trigger] more[i]) by {
            assert(more[i] == before[i + 1]);
        }
        lemma_first_token_behind(more, rest);
        assert((before + rest).drop_first() =~= more + rest);
    }
}

/// The first offered subprotocol that carries a token counts: what follows `bearer.`,
/// or the whole of one that begins with `v4.local.`. Where none carries one, there is
/// none.
pub proof fn law_offered_token_is_read(
    before: Seq<Seq<char>>,
    offer: Seq<char>,
    token: Seq<char>,
    after: Seq<Seq<char>>,
)
    requires
        forall|i: int| 0 <= i < before.len() ==> carries_none(#[trigger] before[i]),
        before.len() > 0 ==> text::free_of(before, ','),
        text::free_of(before + (seq![offer] + after), ','),
        token.len() > 0,
        text::trim(offer) == seq!['b', 'e', 'a', 'r', 'e', 'r', '.'] + token || (text::trim(offer)
            == token && token.len() >= 9 && token.take(9) == seq![
            'v',
            '4',
            '.',
            'l',
            'o',
            'c',
            'a',
            'l',
            '.',
        ]),
    ensures
        first_token(
            text::split(text::join(before + (seq![offer] + after), ','), ','),
        ) == Some(token),
        before.len() > 0 ==> first_token(text::split(text::join(before, ','), ',')) is None,
{
    reveal_strlit("bearer.");
    reveal_strlit("v4.local.");
    let bearer = seq!['b', 'e', 'a', 'r', 'e', 'r', '.'];
    let local = seq!['v', '4', '.', 'l', 'o', 'c', 'a', 'l', '.'];
    assert("bearer."@ =~= bearer);
    assert("v4.local."@ =~= local);
    let rest = seq![offer] + after;
    let all = before + rest;
    text::law_split_undoes_join(all, ',');
    lemma_first_token_behind(before, rest);
    let p = text::trim(offer);
    if p == bearer + token {
        assert(p.subrange(0, 7) =~= bearer);
        assert(p.skip(7) =~= token);
    } else {
        assert(p.subrange(0, 9) =~= p.take(9));
        assert(p[0] == 'v') by {
            assert(p.take(9)[0] == p[0]);
        }
        assert(!"bearer."@.is_prefix_of(p)) by {
            if "bearer."@.is_prefix_of(p) {
                assert(p.subrange(0, 7)[0] == p[0]);
                assert(bearer[0] == 'b');
            }
        }
    }
    assert(token_in(offer) == Some(token));
    assert(rest.first() == offer);
    if before.len() > 0 {
        text::law_split_undoes_join(before, ',');
        let none = Seq::<Seq<char>>::empty();
        lemma_first_token_behind(before, none);
        assert(before + none =~= before);
    }
}

/// The token of the query comes first, then that of the `Authorization` header, then
/// that of the subprotocols.
pub proof fn law_order_of_tokens(
    query: Seq<char>,
    bearer: Option<Seq<char>>,
    protocol: Option<Seq<char>>,
)
    ensures
        query.len() > 0 ==> token_of(query, bearer, protocol) == query,
        bearer matches Some(b) ==> token_of(Seq::empty(), bearer, protocol) == b,
        protocol matches Some(p) ==> token_of(Seq::empty(), None, protocol) == p,
        token_of(Seq::empty(), None, None) == Seq::<char>::empty(),
{
}

/// The metrics are open without a key; with one, only to who brings that very key,
/// in the header or, where there is none in the header, in the query.
pub proof fn law_metrics_need_the_key(
    key: Seq<char>,
    bearer: Option<Seq<char>>,
    query: Option<Seq<char>>,
)
    ensures
        metrics_open(None, bearer, query),
        metrics_open(Some(key), Some(key), query),
        metrics_open(Some(key), None, Some(key)),
        !metrics_open(Some(key), None, None),
        metrics_open(Some(key), bearer, query) ==> bearer == Some(key) || query == Some(key),
        bearer matches Some(b) ==> (metrics_open(Some(key), bearer, query) <==> b == key),
{
}

/// Behind a trusted proxy a client is the first address that it reports, in the order
/// of its headers, with white space around it or without; a header that writes no
/// address is passed over, and where none writes one the client is the peer.
pub proof fn law_reported_client_counts(
    before: Seq<char>,
    address: Seq<char>,
    after: Seq<char>,
    ip: IpAddr,
    other: Option<Seq<char>>,
    another: Option<Seq<char>>,
    peer: IpAddr,
    trusted: Seq<Cidr>,
    i: int,
)
    requires
        is_blank_text(before),
        is_blank_text(after),
        address.len() > 0,
        !text::is_space(address.first()),
        !text::is_space(address.last()),
        ip::ip_value(address) == Some(ip),
        0 <= i < trusted.len(),
        trusted[i].covers(peer),
    ensures
        ({
            let header = Some(before + address + after);
            let unread = |v: Option<Seq<char>>|
                v matches Some(s) ==> ip::ip_value(text::trim(s)) is None;
            &&& client_of(header, other, another, peer, true, trusted) == ip
            &&& unread(other) ==> client_of(other, header, another, peer, true, trusted) == ip
            &&& unread(other) && unread(another) ==> client_of(
                other,
                another,
                header,
                peer,
                true,
                trusted,
            ) == ip
            &&& unread(other) && unread(another) ==> client_of(
                other,
                another,
                None,
                peer,
                true,
                trusted,
            ) == peer
        }),
{
    text::law_trim(before, address, after);
    assert(some_covers(trusted, peer));
}

/// A name with a port behind it is the name up to its first colon.
#[verifier::spinoff_prover]
proof fn lemma_name_before_port(name: Seq<char>, port: Seq<char>)
    requires
        dest::normal_hostname(name) == name,
        !name.contains(':'),
        port.len() > 0,
        !text::is_space(port.last()),
        port.last() != '.',
        name.len() > 0,
    ensures
        host_matches(name.push(':') + port, name),
{
    let s = name.push(':') + port;
    dest::law_normal_name_is_normal(name);
    text::lemma_trimmed_ends(name);
    let none = Seq::<char>::empty();
    dest::law_host_is_normalized(none, s, 0, none);
    assert(none + (s + Seq::new(0, |i: int| '.')) + none =~= s);
    let got = dest::normal_hostname(s);
    assert(got == text::lower(s));
    assert(text::lower(name) == name) by {
        text::lemma_lower_twice(text::trim_end_char(text::trim(name), '.'));
    }
    let n = name.len() as int;
    assert forall|i: int| 0 <= i < n implies got[i] != ':' by {
        assert(got[i] == text::lower_char(s[i]));
        assert(text::lower(name)[i] == text::lower_char(name[i]));
        assert(name.contains(name[i]));
    }
    assert(got[n] == text::lower_char(':'));
    text::lemma_find(got, ':', n);
    assert(got.take(n) =~= text::lower(name));
}

/// A name without a colon stays without one, and is compared whole.
#[verifier::spinoff_prover]
proof fn lemma_compared_whole(other: Seq<char>, name: Seq<char>)
    requires
        !other.contains(':'),
    ensures
        host_matches(other, name) == (dest::normal_hostname(other) == dest::normal_hostname(name)),
{
    let o = dest::normal_hostname(other);
    assert(!o.contains(':')) by {
        if o.contains(':') {
            let t = text::trim(other);
            let u = text::trim_end_char(t, '.');
            let i = choose|i: int| 0 <= i < o.len() && o[i] == ':';
            text::lemma_trim_end_char(t, '.');
            assert(o[i] == text::lower_char(u[i]));
            text::lemma_lower_char(u[i]);
            assert(u[i] == t[i]);
            text::lemma_trim_part(other, i);
        }
    }
    text::lemma_found(o, ':');
    if text::find(o, ':') < o.len() {
        assert(o[text::find(o, ':') as int] == ':');
        assert(o.contains(':'));
    }
    assert(o.take(o.len() as int) =~= o);
}

/// A listed host passes, also with a port behind it, and whatever its case; one that
/// is not listed does not.
#[verifier::spinoff_prover]
pub proof fn law_listed_host_passes(name: Seq<char>, port: Seq<char>, other: Seq<char>)
    requires
        dest::normal_hostname(name) == name,
        !name.contains(':'),
        port.len() > 0,
        !text::is_space(port.last()),
        port.last() != '.',
        name.len() > 0,
        dest::normal_hostname(other) != name,
        !other.contains(':'),
    ensures
        host_passes(Some(name), set![name]),
        host_passes(Some(text::lower(name)), set![name]),
        host_passes(Some(name.push(':') + port), set![name]),
        !host_passes(Some(other), set![name]),
        host_passes(Some(other), Set::empty()),
{
    assert(set![name].contains(name));
    dest::law_host_case_is_ignored(name);
    lemma_name_before_port(name, port);
    assert(host_matches(name, name));
    assert(host_matches(text::lower(name), name));
    lemma_compared_whole(other, name);
}

/// Whether an offered subprotocol is neither `bearer.` with a token nor a `v4.local.`
/// token.
pub open spec fn is_other_offer(offer: Seq<char>) -> bool {
    let p = text::trim(offer);
    &&& !(p.len() >= 7 && p.take(7) == seq!['b', 'e', 'a', 'r', 'e', 'r', '.'])
    &&& !(p.len() >= 9 && p.take(9) == seq!['v', '4', '.', 'l', 'o', 'c', 'a', 'l', '.'])
}

proof fn lemma_is_other_offer(offer: Seq<char>)
    ensures
        is_auth_offer(text::trim(offer)) == !is_other_offer(offer),
{
    reveal_strlit("bearer.");
    reveal_strlit("v4.local.");
    let p = text::trim(offer);
    assert("bearer."@ =~= seq!['b', 'e', 'a', 'r', 'e', 'r', '.']);
    assert("v4.local."@ =~= seq!['v', '4', '.', 'l', 'o', 'c', 'a', 'l', '.']);
    if p.len() >= 7 {
        assert(p.take(7) =~= p.subrange(0, 7));
    }
    if p.len() >= 9 {
        assert(p.take(9) =~= p.subrange(0, 9));
    }
}

proof fn lemma_first_offer_behind(before: Seq<Seq<char>>, rest: Seq<Seq<char>>)
    requires
        forall|i: int| 0 <= i < before.len() ==> is_other_offer(#[trigger] before[i]),
    ensures
        first_offer(before + rest) == first_offer(rest),
    decreases before.len(),
{
    if before.len() == 0 {
        assert(before + rest =~= rest);
    } else {
        let more = before.drop_first();
        assert(is_other_offer(before[0]));
        lemma_is_other_offer(before[0]);
        assert forall|i: int| 0 <= i < more.len() implies is_other_offer(#[trigger] more[i]) by {
            assert(more[i] == before[i + 1]);
        }
        lemma_first_offer_behind(more, rest);
        assert((before + rest).drop_first() =~= more + rest);
    }
}

/// The subprotocol that is agreed to is the first offered one that carries a token,
/// whole and without white space around it, and none if none does.
pub proof fn law_token_offer_is_agreed_to(
    before: Seq<Seq<char>>,
    offer: Seq<char>,
    after: Seq<Seq<char>>,
)
    requires
        forall|i: int| 0 <= i < before.len() ==> is_other_offer(#[trigger] before[i]),
        before.len() > 0 ==> text::free_of(before, ','),
        text::free_of(before + (seq![offer] + after), ','),
        !is_other_offer(offer),
    ensures
        first_offer(
            text::split(text::join(before + (seq![offer] + after), ','), ','),
        ) == Some(text::trim(offer)),
        before.len() > 0 ==> first_offer(text::split(text::join(before, ','), ',')) is None,
{
    let rest = seq![offer] + after;
    text::law_split_undoes_join(before + rest, ',');
    lemma_first_offer_behind(before, rest);
    lemma_is_other_offer(offer);
    assert(rest.first() == offer);
    if before.len() > 0 {
        text::law_split_undoes_join(before, ',');
        let none = Seq::<Seq<char>>::empty();
        lemma_first_offer_behind(before, none);
        assert(before + none =~= before);
    }
}

/// Without a list of origins, and with `*` on it, every origin passes, also one that
/// is no text.
pub proof fn law_open_lists_pass_any_origin(
    present: bool,
    origin: Option<Seq<char>>,
    allowed: Set<Seq<char>>,
)
    ensures
        origin_passes(present, origin, Set::empty()),
        allowed.contains(seq!['*']) ==> origin_passes(present, origin, allowed),
{
    reveal_strlit("*");
    assert("*"@ =~= seq!['*']);
}

/// A host is listed whatever the case, the white space around it and the dots behind
/// it, on the list as in the request.
pub proof fn law_listed_hosts_are_normalized(
    host: Seq<char>,
    other: Seq<char>,
    want: Seq<char>,
    listed: Seq<char>,
)
    requires
        dest::normal_hostname(host) == dest::normal_hostname(other),
        dest::normal_hostname(want) == dest::normal_hostname(listed),
    ensures
        host_matches(host, want) == host_matches(other, listed),
        host_matches(want, listed),
{
}

}
