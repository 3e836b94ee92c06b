//! Headers, tokens, and the way of a request to a connection slot.
use axum::http::HeaderMap;
use rusty_paseto::prelude::{
    CustomClaim, ExpirationClaim, Key, Local, NotBeforeClaim, PasetoBuilder, PasetoSymmetricKey,
    V4,
};

use mailiner_proxy::admission::{
    dest_message, dest_status, limit_message, limit_status, Admission, Next, Refusal,
};
use mailiner_proxy::auth::{
    check_expiry, judge_expiry, judge_life, judge_parsed, validate_token, ExpiryError, Moment, Span, Status,
};
use mailiner_proxy::config::{AuthMode, Cidr, Config, SecretKey};
use mailiner_proxy::dest::{ip_canonical, DestError, DestPolicy};
use mailiner_proxy::ip::{IpAddr, SocketAddr};
use mailiner_proxy::limits::{LimitError, LimitState, LimitsConfig};
use mailiner_proxy::metrics::RejectReason;
use mailiner_proxy::names::NameSet;
use mailiner_proxy::server::{
    bearer_token, client_ip, host_allowed, metrics_allowed, metrics_on_proxy,
    offered_auth_protocol, origin_allowed,
    protocol_token, proxy_token, token_eq, ProxyQuery,
};
use mailiner_proxy::time::Duration;

fn addr(s: &str) -> IpAddr {
    IpAddr::parse(s).unwrap()
}

fn peer() -> SocketAddr {
    SocketAddr {
        ip: addr("127.0.0.1"),
        port: 9,
    }
}

fn names(list: &[&str]) -> NameSet {
    let mut set = NameSet::new();
    for n in list {
        set.insert(n.to_string());
    }
    set
}

fn query(remote: &str, token: &str) -> ProxyQuery {
    ProxyQuery {
        token: token.to_string(),
        remote: remote.to_string(),
    }
}

/// A request of a debug build, without headers.
fn begin(config: &Config, remote: &str, token: &str) -> Result<Admission, Refusal> {
    let mut limits = LimitState::new(config.limits);
    Admission::begin(
        &query(remote, token),
        &HeaderMap::new(),
        peer(),
        config,
        true,
        &mut limits,
    )
}

fn status(r: Result<Admission, Refusal>) -> u16 {
    match r {
        Ok(_) => 101,
        Err(refusal) => refusal.status.as_u16(),
    }
}

#[test]
fn client_ip_prefers_cf_when_trusted() {
    let mut headers = HeaderMap::new();
    headers.insert("cf-connecting-ip", "203.0.113.9".parse().unwrap());
    let peer = SocketAddr {
        ip: addr("127.0.0.1"),
        port: 9,
    };
    let loopback = Cidr::parse("127.0.0.1/32").unwrap();
    assert_eq!(
        ip_canonical(client_ip(&headers, peer, true, &[loopback])),
        "203.0.113.9"
    );
    assert_eq!(
        ip_canonical(client_ip(&headers, peer, true, &[])),
        "127.0.0.1"
    );
    assert_eq!(
        ip_canonical(client_ip(&headers, peer, false, &[loopback])),
        "127.0.0.1"
    );
    let other = Cidr::parse("10.0.0.0/8").unwrap();
    assert_eq!(
        ip_canonical(client_ip(&headers, peer, true, &[other])),
        "127.0.0.1"
    );
}

#[test]
fn token_eq_is_length_aware() {
    assert!(token_eq(b"abc", b"abc"));
    assert!(!token_eq(b"abc", b"abd"));
    assert!(!token_eq(b"abc", b"ab"));
    assert!(!token_eq(b"abc", b"abcd"));
}

#[test]
fn bearer_token_parses_authorization() {
    let mut headers = HeaderMap::new();
    headers.insert("authorization", "Bearer s3cret".parse().unwrap());
    assert_eq!(bearer_token(&headers), Some("s3cret"));
    headers.insert("authorization", "bearer  also".parse().unwrap());
    assert_eq!(bearer_token(&headers), Some("also"));
    assert_eq!(bearer_token(&HeaderMap::new()), None);
}

#[test]
fn protocol_token_accepts_bearer_and_paseto() {
    let mut headers = HeaderMap::new();
    headers.insert(
        "sec-websocket-protocol",
        "bearer.v4.local.abc".parse().unwrap(),
    );
    assert_eq!(protocol_token(&headers), Some("v4.local.abc"));
    headers.insert("sec-websocket-protocol", "v4.local.xyz".parse().unwrap());
    assert_eq!(protocol_token(&headers), Some("v4.local.xyz"));
    headers.insert("sec-websocket-protocol", "chat, superchat".parse().unwrap());
    assert_eq!(protocol_token(&headers), None);
}

#[test]
fn origin_allowlist_rejects_foreign_browser() {
    let allowed = names(&["https://app.mailiner.net"]);
    let mut headers = HeaderMap::new();
    headers.insert("origin", "https://evil.example".parse().unwrap());
    assert!(!origin_allowed(&headers, &allowed));
    headers.insert("origin", "https://app.mailiner.net".parse().unwrap());
    assert!(origin_allowed(&headers, &allowed));
    // Native client: no Origin.
    assert!(origin_allowed(&HeaderMap::new(), &allowed));
    let any = names(&["*"]);
    headers.insert("origin", "https://evil.example".parse().unwrap());
    assert!(origin_allowed(&headers, &any));
}

#[test]
fn host_allowlist_matches_with_or_without_port() {
    let allowed = names(&["proxy.example.com"]);
    let mut headers = HeaderMap::new();
    headers.insert("host", "proxy.example.com:9400".parse().unwrap());
    assert!(host_allowed(&headers, &allowed));
    headers.insert("host", "evil.example".parse().unwrap());
    assert!(!host_allowed(&headers, &allowed));
    assert!(!host_allowed(&HeaderMap::new(), &allowed));
    assert!(host_allowed(&HeaderMap::new(), &NameSet::new()));
}

#[test]
fn origins_match_without_case_and_dots() {
    let allowed = names(&["https://other.example", "HTTPS://App.Mailiner.NET."]);
    let mut headers = HeaderMap::new();
    headers.insert("origin", "https://app.mailiner.net".parse().unwrap());
    assert!(origin_allowed(&headers, &allowed));
    headers.insert("origin", "http://app.mailiner.net".parse().unwrap());
    assert!(!origin_allowed(&headers, &allowed));
    assert!(origin_allowed(&headers, &NameSet::new()));
}

#[test]
fn listed_port_must_be_asked_for() {
    let allowed = names(&["proxy.example.com:443"]);
    let mut headers = HeaderMap::new();
    headers.insert("host", "PROXY.example.com:443".parse().unwrap());
    assert!(host_allowed(&headers, &allowed));
    headers.insert("host", "proxy.example.com".parse().unwrap());
    assert!(!host_allowed(&headers, &allowed));
}

#[test]
fn headers_beyond_ascii_say_nothing() {
    let allowed = names(&["proxy.example.com"]);
    let mut headers = HeaderMap::new();
    let odd = axum::http::HeaderValue::from_bytes(b"proxy.example.com\xff").unwrap();
    headers.insert("host", odd);
    assert!(!host_allowed(&headers, &allowed));
}

#[test]
fn forwarded_headers_fall_back() {
    let all = [Cidr::parse("127.0.0.0/8").unwrap()];
    let mut headers = HeaderMap::new();
    headers.insert("x-real-ip", " 2001:db8::7 ".parse().unwrap());
    assert_eq!(
        client_ip(&headers, peer(), true, &all),
        addr("2001:db8::7")
    );
    headers.insert("cf-connecting-ip", "not an address".parse().unwrap());
    assert_eq!(
        client_ip(&headers, peer(), true, &all),
        addr("2001:db8::7")
    );
    headers.insert("x-real-ip", "1.2.3.4, 5.6.7.8".parse().unwrap());
    assert_eq!(client_ip(&headers, peer(), true, &all), addr("127.0.0.1"));
    headers.insert("x-forwarded-for", "9.9.9.9".parse().unwrap());
    assert_eq!(client_ip(&headers, peer(), true, &all), addr("9.9.9.9"));
    assert_eq!(client_ip(&headers, peer(), true, &[]), addr("127.0.0.1"));
    assert_eq!(client_ip(&headers, peer(), false, &all), addr("127.0.0.1"));
    headers.insert("x-real-ip", "1.2.3.4".parse().unwrap());
    assert_eq!(client_ip(&headers, peer(), true, &all), addr("1.2.3.4"));
    headers.remove("x-real-ip");
    headers.insert("x-forwarded-for", "9.9.9.9, 8.8.8.8".parse().unwrap());
    assert_eq!(client_ip(&headers, peer(), true, &all), addr("127.0.0.1"));
}

#[test]
fn origin_beyond_ascii_is_refused() {
    let odd = || axum::http::HeaderValue::from_bytes(b"https://app.mailiner.net\xff").unwrap();
    let mut headers = HeaderMap::new();
    headers.insert("origin", odd());
    assert!(!origin_allowed(&headers, &names(&["https://app.mailiner.net"])));
    assert!(origin_allowed(&headers, &names(&["https://app.mailiner.net", "*"])));
    assert!(origin_allowed(&headers, &NameSet::new()));
    headers.remove("origin");
    headers.insert("x-origin", odd());
    assert!(origin_allowed(&headers, &names(&["https://app.mailiner.net"])));
}

#[test]
fn metrics_have_one_place() {
    assert!(metrics_on_proxy(&Config::default()));
    assert!(!metrics_on_proxy(&Config {
        metrics_bind: Some("127.0.0.1:9401".to_string()),
        ..Config::default()
    }));
}

#[test]
fn blank_bearer_is_none() {
    let mut headers = HeaderMap::new();
    headers.insert("authorization", "Bearer   ".parse().unwrap());
    assert_eq!(bearer_token(&headers), None);
    headers.insert("authorization", "Basic abc".parse().unwrap());
    assert_eq!(bearer_token(&headers), None);
    headers.insert("authorization", "BEARER abc".parse().unwrap());
    assert_eq!(bearer_token(&headers), None);
}

#[test]
fn first_token_protocol_counts() {
    let mut headers = HeaderMap::new();
    headers.insert(
        "sec-websocket-protocol",
        "chat, bearer., v4.local.one ,bearer.two".parse().unwrap(),
    );
    assert_eq!(protocol_token(&headers), Some("v4.local.one"));
    assert_eq!(offered_auth_protocol(&headers), Some("bearer.".to_string()));
    headers.insert("sec-websocket-protocol", "chat".parse().unwrap());
    assert_eq!(offered_auth_protocol(&headers), None);
    headers.insert(
        "sec-websocket-protocol",
        " bearer.two , chat".parse().unwrap(),
    );
    assert_eq!(
        offered_auth_protocol(&headers),
        Some("bearer.two".to_string())
    );
    assert_eq!(offered_auth_protocol(&HeaderMap::new()), None);
}

#[test]
fn token_of_a_request() {
    let mut headers = HeaderMap::new();
    assert_eq!(proxy_token(&query("a:1", ""), &headers), "");
    headers.insert("sec-websocket-protocol", "bearer.p".parse().unwrap());
    assert_eq!(proxy_token(&query("a:1", ""), &headers), "p");
    headers.insert("authorization", "Bearer b".parse().unwrap());
    assert_eq!(proxy_token(&query("a:1", ""), &headers), "b");
    assert_eq!(proxy_token(&query("a:1", "q"), &headers), "q");
}

#[test]
fn metrics_need_their_key() {
    let mut headers = HeaderMap::new();
    assert!(metrics_allowed(&headers, None, None));
    assert!(!metrics_allowed(&headers, None, Some("k\u{e9}y")));
    assert!(metrics_allowed(&headers, Some("k\u{e9}y"), Some("k\u{e9}y")));
    assert!(!metrics_allowed(&headers, Some("key"), Some("k\u{e9}y")));
    headers.insert("authorization", "Bearer key".parse().unwrap());
    assert!(metrics_allowed(&headers, None, Some("key")));
    assert!(!metrics_allowed(&headers, Some("other"), Some("other")));
}

#[test]
fn statuses_and_messages() {
    let dest = [
        (DestError::InvalidRemote, 400, "invalid remote"),
        (DestError::BadPort, 403, "destination port not allowed"),
        (DestError::IpLiteral, 403, "IP literals are not allowed"),
        (DestError::PrivateIp, 403, "destination is not a public address"),
        (DestError::Dns, 502, "failed to resolve destination"),
        (DestError::Connect, 502, "failed to connect to destination"),
    ];
    for (e, number, text) in dest {
        assert_eq!(dest_status(e).as_u16(), number);
        assert_eq!(dest_message(e), text);
    }
    let limit = [
        (LimitError::GlobalFull, 503, "proxy is at capacity"),
        (LimitError::PerIpFull, 429, "too many connections from this address"),
        (LimitError::PerDestFull, 503, "too many connections to this destination"),
        (LimitError::ConnectRate, 429, "connect rate limit exceeded"),
        (LimitError::GlobalConnectRate, 429, "connect rate limit exceeded"),
        (LimitError::DistinctDests, 429, "too many distinct destinations"),
        (LimitError::ByteCap, 403, "byte limit exceeded"),
    ];
    for (e, number, text) in limit {
        assert_eq!(limit_status(e).as_u16(), number);
        assert_eq!(limit_message(e), text);
    }
}

#[test]
fn reasons_have_labels() {
    let labels = [
        (RejectReason::Auth, "auth"),
        (RejectReason::BadOrigin, "bad_origin"),
        (RejectReason::BadHost, "bad_host"),
        (RejectReason::from(DestError::InvalidRemote), "invalid_remote"),
        (RejectReason::from(DestError::BadPort), "bad_port"),
        (RejectReason::from(DestError::IpLiteral), "ip_literal"),
        (RejectReason::from(DestError::PrivateIp), "private_ip"),
        (RejectReason::from(DestError::Dns), "dns"),
        (RejectReason::from(DestError::Connect), "connect"),
        (RejectReason::from(LimitError::ConnectRate), "connect_rate"),
        (
            RejectReason::from(LimitError::GlobalConnectRate),
            "global_connect_rate",
        ),
        (RejectReason::from(LimitError::DistinctDests), "distinct_dests"),
        (RejectReason::from(LimitError::GlobalFull), "global_full"),
        (RejectReason::from(LimitError::PerIpFull), "per_ip_full"),
        (RejectReason::from(LimitError::PerDestFull), "per_dest_full"),
        (RejectReason::Proto, "proto"),
        (RejectReason::from(LimitError::ByteCap), "byte_cap"),
        (RejectReason::Lifetime, "lifetime"),
    ];
    for (reason, label) in labels {
        assert_eq!(reason.label(), label);
    }
}

fn random_key() -> (PasetoSymmetricKey<V4, Local>, SecretKey) {
    let secret = Key::<32>::try_new_random().expect("key");
    let mine = SecretKey { bytes: *secret };
    (PasetoSymmetricKey::<V4, Local>::from(secret), mine)
}

fn token_for(key: &PasetoSymmetricKey<V4, Local>, remote: &'static str, secs: i64) -> String {
    let exp = chrono::Utc::now() + chrono::Duration::seconds(secs);
    PasetoBuilder::<V4, Local>::default()
        .set_claim(ExpirationClaim::try_from(exp.to_rfc3339()).unwrap())
        .set_claim(CustomClaim::try_from(("remote", remote)).unwrap())
        .build(key)
        .unwrap()
}

#[test]
fn far_future_exp_is_rejected() {
    let secret = Key::<32>::try_new_random().expect("key");
    let mine = SecretKey { bytes: *secret };
    let key = PasetoSymmetricKey::<V4, Local>::from(secret);
    let far = chrono::Utc::now() + chrono::Duration::days(3650);
    let token = PasetoBuilder::<V4, Local>::default()
        .set_claim(ExpirationClaim::try_from(far.to_rfc3339()).unwrap())
        .set_claim(CustomClaim::try_from(("remote", "imap.example.com:993")).unwrap())
        .build(&key)
        .unwrap();
    let err = validate_token(
        &token,
        "imap.example.com:993",
        AuthMode::Paseto,
        &Some(mine),
        Duration::from_secs(3600),
        true,
    );
    assert_eq!(err, Err(Status::Unauthorized));
    // Without a bound the same token is good.
    let ok = validate_token(
        &token,
        "imap.example.com:993",
        AuthMode::Paseto,
        &Some(mine),
        Duration::from_secs(0),
        true,
    );
    assert_eq!(ok, Ok(()));
}

#[test]
fn token_is_bound_to_its_remote_and_key() {
    let (key, mine) = random_key();
    let (_, other) = random_key();
    let token = token_for(&key, "imap.example.com:993", 600);
    let hour = Duration::from_secs(3600);
    let ask = |remote: &str, secret: SecretKey| {
        validate_token(&token, remote, AuthMode::Paseto, &Some(secret), hour, false)
    };
    assert_eq!(ask("imap.example.com:993", mine), Ok(()));
    assert_eq!(ask("imap.example.com:143", mine), Err(Status::Unauthorized));
    assert_eq!(ask("imap.example.com:993", other), Err(Status::Unauthorized));
}

#[test]
fn token_must_expire_and_not_be_early() {
    let (key, mine) = random_key();
    let hour = Duration::from_secs(3600);
    let ask = |token: &str| {
        validate_token(token, "a:993", AuthMode::Paseto, &Some(mine), hour, false)
    };
    assert_eq!(ask(&token_for(&key, "a:993", 600)), Ok(()));
    assert_eq!(
        ask(&token_for(&key, "a:993", -600)),
        Err(Status::Unauthorized)
    );
    assert_eq!(
        ask(&token_for(&key, "a:993", 4000)),
        Err(Status::Unauthorized)
    );
    let forever = PasetoBuilder::<V4, Local>::default()
        .set_claim(CustomClaim::try_from(("remote", "a:993")).unwrap())
        .set_no_expiration_danger_acknowledged()
        .build(&key)
        .unwrap();
    assert_eq!(ask(&forever), Err(Status::Unauthorized));
    let later = chrono::Utc::now() + chrono::Duration::seconds(300);
    let early = PasetoBuilder::<V4, Local>::default()
        .set_claim(NotBeforeClaim::try_from(later.to_rfc3339()).unwrap())
        .set_claim(CustomClaim::try_from(("remote", "a:993")).unwrap())
        .build(&key)
        .unwrap();
    assert_eq!(ask(&early), Err(Status::Unauthorized));
}

#[test]
fn short_and_odd_tokens_are_unauthorized() {
    let (_, mine) = random_key();
    let hour = Duration::from_secs(3600);
    for token in [
        "v4.local.",
        "v4.local.abc",
        "v4.local.abc.def",
        "thisisnotavalidtoken",
        "a.b.c.d.e",
        "v4.public.AAAA",
        "..",
        "testtoken",
    ] {
        assert_eq!(
            validate_token(token, "a:993", AuthMode::Paseto, &Some(mine), hour, false),
            Err(Status::Unauthorized),
            "{token}"
        );
    }
    let long = format!("v4.local.{}", "A".repeat(86));
    assert_eq!(
        validate_token(&long, "a:993", AuthMode::Paseto, &Some(mine), hour, false),
        Err(Status::Unauthorized)
    );
}

#[test]
fn test_token_counts_in_debug_builds_only() {
    let hour = Duration::from_secs(3600);
    let ask = |token: &str, mode: AuthMode, debug: bool| {
        validate_token(token, "a:993", mode, &None, hour, debug)
    };
    assert_eq!(ask("testtoken", AuthMode::Paseto, true), Ok(()));
    assert_eq!(
        ask("testtoken", AuthMode::Paseto, false),
        Err(Status::InternalServerError)
    );
    assert_eq!(ask("", AuthMode::Paseto, true), Err(Status::Unauthorized));
    assert_eq!(ask("", AuthMode::Public, false), Ok(()));
    assert_eq!(ask("nonsense", AuthMode::Public, false), Ok(()));
}

#[test]
fn expiries_are_judged() {
    let now = Moment {
        secs: 1_000,
        nanos: 5,
    };
    let at = |secs: i64, nanos: u32| Some(Moment { secs, nanos });
    assert_eq!(judge_expiry("x", at(1_000, 6), now), Ok(()));
    assert_eq!(
        judge_expiry("x", at(1_000, 5), now),
        Err(ExpiryError::Expired)
    );
    assert_eq!(
        judge_expiry("x", at(999, 999_999_999), now),
        Err(ExpiryError::Expired)
    );
    assert_eq!(judge_expiry("x", None, now), Err(ExpiryError::NotADate));
    assert_eq!(
        judge_expiry("", at(2_000, 0), now),
        Err(ExpiryError::Expired)
    );
    assert_eq!(check_expiry("9999-01-01T00:00:00Z"), Ok(()));
    assert_eq!(
        check_expiry("1970-01-01T00:00:00+00:00"),
        Err(ExpiryError::Expired)
    );
    assert_eq!(check_expiry("tomorrow"), Err(ExpiryError::NotADate));
    assert_eq!(check_expiry(""), Err(ExpiryError::Expired));
}

#[test]
fn lives_are_judged() {
    let minute = Duration::from_secs(60);
    let left = |secs: i64, nanos: i32| Some(Span { secs, nanos });
    assert_eq!(judge_life(left(60, 0), minute), Ok(()));
    assert_eq!(judge_life(left(0, 0), minute), Ok(()));
    assert_eq!(judge_life(left(60, 1), minute), Err(Status::Unauthorized));
    assert_eq!(judge_life(left(0, -1), minute), Err(Status::Unauthorized));
    assert_eq!(judge_life(left(-5, 0), minute), Err(Status::Unauthorized));
    assert_eq!(judge_life(None, minute), Err(Status::Unauthorized));
    assert_eq!(judge_life(None, Duration::from_secs(0)), Ok(()));
}

#[test]
fn test_missing_token_returns_unauthorized() {
    let config = Config::for_tests();
    assert_eq!(status(begin(&config, "127.0.0.1:4000", "")), 401);
}

#[test]
fn test_missing_paseto_secret_key_returns_server_error() {
    let config = Config::for_tests();
    let refusal = begin(&config, "127.0.0.1:4000", "whatever").err().unwrap();
    assert_eq!(refusal.status.as_u16(), 500);
    assert_eq!(refusal.reason, None);
    assert_eq!(refusal.message, "");
}

#[test]
fn test_invalid_token_returns_unauthorized() {
    let mut config = Config::for_tests();
    config.secret_key = Some(random_key().1);
    let r = begin(&config, "127.0.0.1:4000", "thisisnotavalidtoken");
    let refusal = r.err().unwrap();
    assert_eq!(refusal.status.as_u16(), 401);
    assert_eq!(refusal.reason, Some(RejectReason::Auth));
    assert_eq!(refusal.message, "unauthorized");
}

#[test]
fn test_valid_token_passes() {
    let (key, mine) = random_key();
    let mut config = Config::for_tests();
    config.secret_key = Some(mine);
    // Claims expire in one hour by default, which is good enough for this test
    let claim = PasetoBuilder::<V4, Local>::default()
        .set_claim(CustomClaim::try_from(("remote", "127.0.0.1:4000")).unwrap())
        .build(&key)
        .unwrap();
    assert_eq!(status(begin(&config, "127.0.0.1:4000", &claim)), 101);
}

#[test]
fn test_token_with_wrong_remote_claim_returns_unauthorized() {
    let (key, mine) = random_key();
    let mut config = Config::for_tests();
    config.secret_key = Some(mine);
    let claim = PasetoBuilder::<V4, Local>::default()
        .set_claim(CustomClaim::try_from(("remote", "blablabla")).unwrap())
        .build(&key)
        .unwrap();
    assert_eq!(status(begin(&config, "127.0.0.1:4000", &claim)), 401);
}

#[test]
fn test_expired_token_returns_unauthorized() {
    let (key, mine) = random_key();
    let mut config = Config::for_tests();
    config.secret_key = Some(mine);
    let claim = token_for(&key, "127.0.0.1:4000", -3600);
    assert_eq!(status(begin(&config, "127.0.0.1:4000", &claim)), 401);
}

#[test]
fn test_public_auth_allows_missing_token() {
    let config = Config {
        auth_mode: AuthMode::Public,
        ..Config::for_tests()
    };
    assert_eq!(status(begin(&config, "127.0.0.1:4000", "")), 101);
}

#[test]
fn test_rejects_disallowed_port() {
    let config = Config {
        dest: DestPolicy::default(),
        ..Config::for_tests()
    };
    assert_eq!(status(begin(&config, "127.0.0.1:4000", "testtoken")), 403);
}

#[test]
fn test_rejects_private_destination() {
    let mut dest = DestPolicy::unrestricted();
    dest.allow_private_destinations = false;
    dest.allow_ip_literals = true;
    let config = Config {
        dest,
        ..Config::for_tests()
    };
    assert_eq!(status(begin(&config, "127.0.0.1:4000", "testtoken")), 403);
}

#[test]
fn test_rejects_ip_literal() {
    let mut dest = DestPolicy::unrestricted();
    dest.allow_ip_literals = false;
    let config = Config {
        dest,
        ..Config::for_tests()
    };
    assert_eq!(status(begin(&config, "127.0.0.1:4000", "testtoken")), 403);
}

#[test]
fn test_per_ip_connection_limit() {
    let config = Config {
        limits: LimitsConfig {
            max_conns_per_ip: 1,
            ..LimitsConfig::unlimited()
        },
        ..Config::for_tests()
    };
    let mut limits = LimitState::new(config.limits);
    let headers = HeaderMap::new();
    let q = query("127.0.0.1:4000", "testtoken");
    let mut leases = Vec::new();
    for n in 0..2 {
        let mut a = Admission::begin(&q, &headers, peer(), &config, true, &mut limits)
            .ok()
            .unwrap();
        assert!(!a.needs_lookup());
        assert!(matches!(a.on_lookup(&config.dest, None), Next::Dial(_)));
        match a.take_lease(&mut limits) {
            Ok(lease) => leases.push(lease),
            Err(refusal) => {
                assert_eq!(n, 1);
                assert_eq!(refusal.status.as_u16(), 429);
                assert_eq!(refusal.reason, Some(RejectReason::PerIpFull));
            }
        }
    }
    assert_eq!(leases.len(), 1);
}

#[test]
fn request_goes_to_a_slot() {
    let mut config = Config {
        auth_mode: AuthMode::Public,
        trust_forwarded_client_ip: true,
        ..Config::default()
    };
    config.trusted_proxies.push(Cidr::parse("127.0.0.1").unwrap());
    let mut limits = LimitState::new(config.limits);
    let mut headers = HeaderMap::new();
    headers.insert("cf-connecting-ip", "203.0.113.9".parse().unwrap());
    let q = query("Mail.Example:993", "");
    let mut a = Admission::begin(&q, &headers, peer(), &config, false, &mut limits)
        .ok()
        .unwrap();
    assert_eq!(a.client(), addr("203.0.113.9"));
    assert_eq!(a.remote().host, "mail.example");
    assert!(a.needs_lookup());
    let sock = |s: &str| SocketAddr {
        ip: addr(s),
        port: 993,
    };
    let answer = vec![sock("10.0.0.1"), sock("8.8.8.8"), sock("1.1.1.1")];
    match a.on_lookup(&config.dest, Some(answer)) {
        Next::Dial(first) => assert_eq!(first, sock("8.8.8.8")),
        Next::Refuse(_) => panic!("refused"),
    }
    match a.on_dial_failed() {
        Next::Dial(second) => assert_eq!(second, sock("1.1.1.1")),
        Next::Refuse(_) => panic!("refused"),
    }
    let lease = a.take_lease(&mut limits).ok().unwrap();
    assert_eq!(limits.open_connections(), 1);
    limits.release(lease);
    assert_eq!(limits.open_connections(), 0);
    match a.on_dial_failed() {
        Next::Dial(_) => panic!("dialed"),
        Next::Refuse(refusal) => {
            assert_eq!(refusal.status, Status::BadGateway);
            assert_eq!(refusal.reason, Some(RejectReason::Connect));
        }
    }
    assert_eq!(a.into_parts().0, addr("203.0.113.9"));
}

#[test]
fn failed_lookups_are_refused() {
    let config = Config {
        auth_mode: AuthMode::Public,
        ..Config::default()
    };
    let mut a = begin(&config, "mail.example:993", "").ok().unwrap();
    match a.on_lookup(&config.dest, None) {
        Next::Refuse(refusal) => assert_eq!(refusal.reason, Some(RejectReason::Dns)),
        Next::Dial(_) => panic!("dialed"),
    }
    let inside = vec![SocketAddr {
        ip: addr("169.254.169.254"),
        port: 993,
    }];
    match a.on_lookup(&config.dest, Some(inside)) {
        Next::Refuse(refusal) => {
            assert_eq!(refusal.status, Status::Forbidden);
            assert_eq!(refusal.reason, Some(RejectReason::PrivateIp));
        }
        Next::Dial(_) => panic!("dialed"),
    }
}

#[test]
fn first_failing_check_decides() {
    let mut config = Config::default();
    config.allowed_origins.insert("https://app.example".to_string());
    config.allowed_hosts.insert("proxy.example".to_string());
    let mut limits = LimitState::new(config.limits);
    let mut headers = HeaderMap::new();
    headers.insert("origin", "https://evil.example".parse().unwrap());
    let bad = query("nonsense", "");
    let mut ask = |headers: &HeaderMap, q: &ProxyQuery| {
        Admission::begin(q, headers, peer(), &config, true, &mut limits)
            .err()
            .unwrap()
    };
    let refusal = ask(&headers, &bad);
    assert_eq!(refusal.reason, Some(RejectReason::BadOrigin));
    assert_eq!(refusal.message, "origin not allowed");
    headers.insert("origin", "https://app.example".parse().unwrap());
    let refusal = ask(&headers, &bad);
    assert_eq!(refusal.reason, Some(RejectReason::BadHost));
    assert_eq!(refusal.message, "host not allowed");
    assert_eq!(refusal.status, Status::Forbidden);
    headers.insert("host", "proxy.example:9400".parse().unwrap());
    assert_eq!(ask(&headers, &bad).reason, Some(RejectReason::Auth));
    let refusal = ask(&headers, &query("nonsense", "testtoken"));
    assert_eq!(refusal.reason, Some(RejectReason::InvalidRemote));
    assert_eq!(refusal.status, Status::BadRequest);
    let refusal = ask(&headers, &query("a:25", "testtoken"));
    assert_eq!(refusal.reason, Some(RejectReason::BadPort));
    // None of these was counted.
    assert_eq!(limits.tracked_ip_count(), 0);
}

#[test]
fn attempts_are_limited() {
    let config = Config {
        limits: LimitsConfig {
            connects_per_ip: 1,
            ..LimitsConfig::unlimited()
        },
        ..Config::for_tests()
    };
    let mut limits = LimitState::new(config.limits);
    let headers = HeaderMap::new();
    let q = query("a:993", "testtoken");
    assert!(Admission::begin(&q, &headers, peer(), &config, true, &mut limits).is_ok());
    let refusal = Admission::begin(&q, &headers, peer(), &config, true, &mut limits)
        .err()
        .unwrap();
    assert_eq!(refusal.status, Status::TooManyRequests);
    assert_eq!(refusal.reason, Some(RejectReason::ConnectRate));
}

#[test]
fn parsed_tokens_must_not_live_too_long() {
    // Ten seconds before the year 2030.
    let now = Moment {
        secs: 1_893_455_990,
        nanos: 0,
    };
    let exp = Some("2030-01-01T00:00:00Z");
    assert_eq!(judge_parsed(exp, now, Duration::from_secs(10)), Ok(()));
    assert_eq!(
        judge_parsed(exp, now, Duration::from_secs(9)),
        Err(Status::Unauthorized)
    );
    assert_eq!(
        judge_parsed(Some("2030-01-01T02:00:00+02:00"), now, Duration::from_secs(10)),
        Ok(())
    );
    assert_eq!(judge_parsed(exp, now, Duration::from_secs(0)), Ok(()));
    let late = Moment {
        secs: 1_893_456_001,
        nanos: 0,
    };
    assert_eq!(
        judge_parsed(exp, late, Duration::from_secs(10)),
        Err(Status::Unauthorized)
    );
    assert_eq!(
        judge_parsed(Some("soon"), now, Duration::from_secs(10)),
        Err(Status::Unauthorized)
    );
    assert_eq!(
        judge_parsed(None, now, Duration::from_secs(0)),
        Err(Status::Unauthorized)
    );
}
