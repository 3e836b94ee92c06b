//! Configuration, the environment and starting up.
use std::collections::HashSet;

use mailiner_proxy::config::{
    normalize_host, normalize_origin, parse_allowed_ports, parse_cidrs, parse_csv_set, AuthMode,
    Cidr, Config, SecretKey,
};
use mailiner_proxy::dest::DEFAULT_ALLOWED_PORTS;
use mailiner_proxy::ip::IpAddr;
use mailiner_proxy::limits::LimitsConfig;
use mailiner_proxy::names::NameSet;
use mailiner_proxy::startup::{
    apply_env, check_startup, env_bool, env_secs, env_u64, env_u8, env_usize, parse_auth_mode,
    parse_secret_key, Environment, StartupError,
};
use mailiner_proxy::time::Duration;

fn addr(s: &str) -> IpAddr {
    IpAddr::parse(s).unwrap()
}

#[test]
fn parse_ports_default_and_any() {
    assert_eq!(
        parse_allowed_ports(""),
        Some(HashSet::from(DEFAULT_ALLOWED_PORTS))
    );
    assert_eq!(parse_allowed_ports("any"), None);
    assert_eq!(parse_allowed_ports("*"), None);
    assert_eq!(
        parse_allowed_ports("993, 587"),
        Some(HashSet::from([993, 587]))
    );
}

#[test]
fn csv_set_and_origin_host_normalize() {
    let set = parse_csv_set(" https://App.Example.com , * ");
    assert!(set.contains("https://App.Example.com"));
    assert!(set.contains("*"));
    assert_eq!(
        normalize_origin("HTTPS://APP.EXAMPLE.COM"),
        "https://app.example.com"
    );
    assert_eq!(
        normalize_host("Proxy.Example.COM:443"),
        "proxy.example.com:443"
    );
}

#[test]
fn cidr_parse_and_contains() {
    let c = Cidr::parse("10.0.0.0/8").unwrap();
    assert!(c.contains(addr("10.1.2.3")));
    assert!(!c.contains(addr("11.0.0.1")));
    let one = Cidr::parse("127.0.0.1").unwrap();
    assert!(one.contains(addr("127.0.0.1")));
    assert!(!one.contains(addr("127.0.0.2")));
    let v6 = Cidr::parse("2001:db8::/32").unwrap();
    assert!(v6.contains(addr("2001:db8::1")));
    assert!(!v6.contains(addr("2001:db9::1")));
}

#[test]
fn default_config_is_public_safe() {
    assert!(Config::default().public_safety_errors().is_empty());
}

#[test]
fn test_config_is_not_public_safe() {
    assert!(!Config::for_tests().public_safety_errors().is_empty());
}

#[test]
fn public_auth_requires_origin_allowlist() {
    let mut c = Config {
        auth_mode: AuthMode::Public,
        ..Config::default()
    };
    assert!(c
        .public_safety_errors()
        .iter()
        .any(|e| e.contains("ALLOWED_ORIGINS")));
    c.allowed_origins.insert("https://app.example".into());
    assert!(c.public_safety_errors().is_empty());
}

#[test]
fn ports_that_are_no_ports_are_left_out() {
    assert_eq!(
        parse_allowed_ports(" 25,x,,0,70000,-1, +143 "),
        Some(HashSet::from([25, 143]))
    );
    assert_eq!(parse_allowed_ports("  ANY "), None);
    assert_eq!(parse_allowed_ports("0"), Some(HashSet::new()));
    assert_eq!(parse_allowed_ports("any,25"), Some(HashSet::from([25])));
}

#[test]
fn blocks_of_addresses() {
    assert_eq!(Cidr::parse("10.0.0.0/33"), None);
    assert_eq!(Cidr::parse("::/129"), None);
    assert_eq!(Cidr::parse("10.0.0.0/x"), None);
    assert_eq!(Cidr::parse("10.0.0/8"), None);
    assert_eq!(Cidr::parse("10.0.0.0/8/8"), None);
    assert_eq!(Cidr::parse(" 10.0.0.0/8 ").unwrap().bits, 8);
    assert_eq!(Cidr::parse("::1").unwrap().bits, 128);
    assert_eq!(
        parse_cidrs("10.0.0.0/8, nonsense ,::1"),
        vec![
            Cidr::parse("10.0.0.0/8").unwrap(),
            Cidr::parse("::1").unwrap()
        ]
    );
    assert!(parse_cidrs("").is_empty());
}

#[test]
fn blocks_see_through_mapped_addresses() {
    let c = Cidr::parse("10.0.0.0/8").unwrap();
    assert!(c.contains(addr("::ffff:10.1.2.3")));
    assert!(!c.contains(addr("::ffff:11.1.2.3")));
    assert!(!c.contains(addr("2001:db8::1")));
    let all = Cidr::parse("::/0").unwrap();
    assert!(all.contains(addr("2001:db8::1")));
    assert!(all.contains(addr("::ffff:1.2.3.4")));
    assert!(!all.contains(addr("1.2.3.4")));
    assert!(Cidr::parse("0.0.0.0/0").unwrap().contains(addr("255.1.2.3")));
    let mapped = Cidr::parse("::ffff:10.0.0.0/8").unwrap();
    assert!(mapped.contains(addr("::ffff:10.1.2.3")));
    assert!(!mapped.contains(addr("::ffff:11.1.2.3")));
    let full = Cidr::parse("::ffff:10.0.0.0/104").unwrap();
    assert!(full.contains(addr("::ffff:10.0.0.0")));
    assert!(!full.contains(addr("::ffff:10.1.2.3")));
}

#[test]
fn names_are_kept_once() {
    let mut set = NameSet::new();
    assert!(set.is_empty());
    assert!(set.insert("b".to_string()));
    assert!(set.insert("a".to_string()));
    assert!(!set.insert("b".to_string()));
    assert_eq!(set.len(), 2);
    assert_eq!(set.at(0), "b");
    assert_eq!(set.at(1), "a");
    assert!(set.contains("a"));
    assert!(!set.contains("A"));
    assert_eq!(parse_csv_set(" , ,x, x ,y").len(), 2);
}

#[test]
fn origins_are_normalized() {
    assert_eq!(normalize_origin(" * "), "*");
    assert_eq!(normalize_origin("NULL"), "null");
    assert_eq!(
        normalize_origin("HTTP://Mail.Example.:8080"),
        "http://mail.example.:8080"
    );
    assert_eq!(normalize_origin("http://Mail.Example.."), "http://mail.example");
    assert_eq!(normalize_origin("a://B://C"), "a://b://c");
    assert_eq!(
        normalize_origin("HTTPS://APP.example"),
        normalize_origin("https://app.EXAMPLE.")
    );
}

#[test]
fn every_unsafe_setting_is_reported() {
    let c = Config {
        trust_forwarded_client_ip: true,
        auth_mode: AuthMode::Public,
        ..Config::for_tests()
    };
    assert_eq!(
        c.public_safety_errors(),
        vec![
            "MAILINER_ALLOWED_PORTS=any/* opens every TCP port",
            "MAILINER_ALLOW_PRIVATE_DESTS=1 enables SSRF to RFC1918/loopback",
            "MAILINER_ALLOW_IP_LITERALS=1 allows raw IP destinations",
            "MAILINER_REQUIRE_PROTOCOL_PROBE=0 disables the mail-protocol probes",
            "MAILINER_TRUST_FORWARDED_CLIENT_IP=1 requires MAILINER_TRUSTED_PROXIES",
            "MAILINER_AUTH=public requires MAILINER_ALLOWED_ORIGINS (not *)",
            "MAILINER_MAX_GLOBAL_CONNECTIONS=0 disables that cap",
            "MAILINER_MAX_CONNS_PER_IP=0 disables that cap",
            "MAILINER_MAX_CONNS_PER_DEST=0 disables that cap",
            "MAILINER_CONNECTS_PER_IP_PER_MIN=0 disables that cap",
            "MAILINER_DISTINCT_DESTS_PER_IP_PER_MIN=0 disables that cap",
            "MAILINER_GLOBAL_CONNECTS_PER_SEC=0 disables that cap",
            "MAILINER_MAX_BYTES_PER_CONNECTION=0 disables that cap",
            "MAILINER_MAX_BYTES_PER_IP_PER_HOUR=0 disables that cap",
            "MAILINER_MAX_LIFETIME_SECS=0 disables that cap",
        ]
    );
}

#[test]
fn every_disabled_cap_is_unsafe() {
    let limits = [
        LimitsConfig { max_global_connections: 0, ..LimitsConfig::default() },
        LimitsConfig { max_conns_per_ip: 0, ..LimitsConfig::default() },
        LimitsConfig { max_conns_per_dest: 0, ..LimitsConfig::default() },
        LimitsConfig { connects_per_ip: 0, ..LimitsConfig::default() },
        LimitsConfig { distinct_dests_per_ip: 0, ..LimitsConfig::default() },
        LimitsConfig { global_connects: 0, ..LimitsConfig::default() },
        LimitsConfig { max_bytes_per_ip: 0, ..LimitsConfig::default() },
    ];
    for limits in limits {
        let c = Config { limits, ..Config::default() };
        assert_eq!(c.public_safety_errors().len(), 1);
    }
}

#[test]
fn any_origin_is_unsafe_in_public_mode() {
    let mut c = Config {
        auth_mode: AuthMode::Public,
        ..Config::default()
    };
    c.allowed_origins.insert("https://app.example".to_string());
    c.allowed_origins.insert("*".to_string());
    assert_eq!(c.public_safety_errors().len(), 1);
}

#[test]
fn switches() {
    for v in ["1", "true", " YES ", "On"] {
        assert!(env_bool(Some(v), false), "{v}");
    }
    for v in ["", "0", "no", "2", "enabled"] {
        assert!(!env_bool(Some(v), true), "{v}");
    }
    assert!(env_bool(None, true));
    assert!(!env_bool(None, false));
}

#[test]
fn numbers() {
    assert_eq!(env_u64(Some("18446744073709551615"), 1), u64::MAX);
    assert_eq!(env_u64(Some("18446744073709551616"), 1), 1);
    assert_eq!(env_u64(Some("+7"), 1), 7);
    assert_eq!(env_u64(Some(" 7"), 1), 1);
    assert_eq!(env_u64(Some(""), 1), 1);
    assert_eq!(env_u64(None, 1), 1);
    assert_eq!(env_usize(Some("0"), 1), 0);
    assert_eq!(env_usize(Some("-1"), 1), 1);
    assert_eq!(env_u8(Some("255"), 1), 255);
    assert_eq!(env_u8(Some("256"), 1), 1);
    assert_eq!(
        env_secs(Some("5"), Duration::from_secs(1)),
        Duration::from_secs(5)
    );
    assert_eq!(
        env_secs(Some("x"), Duration::from_millis(1500)),
        Duration::from_secs(1)
    );
    assert_eq!(
        env_secs(None, Duration::from_millis(1500)),
        Duration::from_millis(1500)
    );
}

#[test]
fn auth_modes() {
    assert_eq!(parse_auth_mode(Some("Public")), AuthMode::Public);
    assert_eq!(parse_auth_mode(Some("paseto")), AuthMode::Paseto);
    assert_eq!(parse_auth_mode(Some(" public")), AuthMode::Paseto);
    assert_eq!(parse_auth_mode(None), AuthMode::Paseto);
}

#[test]
fn secrets_are_32_bytes() {
    assert!(matches!(parse_secret_key(None), Ok(None)));
    let text = "0123456789abcdef0123456789abcdef";
    let key = parse_secret_key(Some(text)).unwrap().unwrap();
    assert_eq!(key.bytes, text.as_bytes());
    assert!(matches!(
        parse_secret_key(Some("short")),
        Err(StartupError::BadSecret)
    ));
    assert!(matches!(
        parse_secret_key(Some("0123456789abcdef0123456789abcde\u{e9}")),
        Err(StartupError::BadSecret)
    ));
}

fn nothing_set() -> Environment {
    Environment {
        auth: None,
        allowed_ports: None,
        allow_private_dests: None,
        allow_ip_literals: None,
        max_global_connections: None,
        max_conns_per_ip: None,
        max_conns_per_dest: None,
        connects_per_ip: None,
        distinct_dests_per_ip: None,
        global_connects: None,
        max_bytes_per_connection: None,
        max_bytes_per_ip: None,
        ipv4_prefix: None,
        ipv6_prefix: None,
        max_tracked_ips: None,
        max_lifetime: None,
        dns_timeout: None,
        ws_max_message_bytes: None,
        ws_max_frame_bytes: None,
        trust_forwarded_client_ip: None,
        trusted_proxies: None,
        require_protocol_probe: None,
        allowed_origins: None,
        allowed_hosts: None,
    }
}

#[test]
fn unset_environment_keeps_the_defaults() {
    let mut c = Config::default();
    apply_env(&mut c, &nothing_set());
    assert_eq!(c.listen_port, 9400);
    assert_eq!(c.auth_mode, AuthMode::Paseto);
    assert_eq!(
        c.dest.allowed_ports,
        Some(HashSet::from(DEFAULT_ALLOWED_PORTS))
    );
    assert_eq!(c.max_bytes_per_connection, 262_144_000);
    assert_eq!(c.max_lifetime, Duration::from_secs(86_400));
    assert_eq!(c.dns_timeout, Duration::from_secs(5));
    assert_eq!(c.ws_max_message_bytes, 1_048_576);
    assert_eq!(c.ws_max_frame_bytes, 262_144);
    assert_eq!(c.limits.ipv4_prefix, 32);
    assert_eq!(c.limits.ipv6_prefix, 64);
    assert!(c.public_safety_errors().is_empty());
}

#[test]
fn environment_is_applied() {
    let set = |s: &str| Some(s.to_string());
    let mut c = Config::default();
    let env = Environment {
        auth: set("public"),
        allowed_ports: set("993"),
        allow_private_dests: set("1"),
        allow_ip_literals: set("on"),
        max_global_connections: set("1"),
        max_conns_per_ip: set("2"),
        max_conns_per_dest: set("3"),
        connects_per_ip: set("4"),
        distinct_dests_per_ip: set("5"),
        global_connects: set("6"),
        max_bytes_per_connection: set("7"),
        max_bytes_per_ip: set("8"),
        ipv4_prefix: set("24"),
        ipv6_prefix: set("56"),
        max_tracked_ips: set("9"),
        max_lifetime: set("10"),
        dns_timeout: set("11"),
        ws_max_message_bytes: set("12"),
        ws_max_frame_bytes: set("13"),
        trust_forwarded_client_ip: set("1"),
        trusted_proxies: set("10.0.0.0/8"),
        require_protocol_probe: set("0"),
        allowed_origins: set("https://app.mailiner.net"),
        allowed_hosts: set("proxy.example.com"),
    };
    apply_env(&mut c, &env);
    assert_eq!(c.auth_mode, AuthMode::Public);
    assert_eq!(c.dest.allowed_ports, Some(HashSet::from([993])));
    assert!(c.dest.allow_private_destinations);
    assert!(c.dest.allow_ip_literals);
    assert_eq!(c.limits.max_global_connections, 1);
    assert_eq!(c.limits.max_conns_per_ip, 2);
    assert_eq!(c.limits.max_conns_per_dest, 3);
    assert_eq!(c.limits.connects_per_ip, 4);
    assert_eq!(c.limits.distinct_dests_per_ip, 5);
    assert_eq!(c.limits.global_connects, 6);
    assert_eq!(c.max_bytes_per_connection, 7);
    assert_eq!(c.limits.max_bytes_per_ip, 8);
    assert_eq!(c.limits.ipv4_prefix, 24);
    assert_eq!(c.limits.ipv6_prefix, 56);
    assert_eq!(c.limits.max_tracked_ips, 9);
    assert_eq!(c.max_lifetime, Duration::from_secs(10));
    assert_eq!(c.dns_timeout, Duration::from_secs(11));
    assert_eq!(c.ws_max_message_bytes, 12);
    assert_eq!(c.ws_max_frame_bytes, 13);
    assert!(c.trust_forwarded_client_ip);
    assert_eq!(c.trusted_proxies, parse_cidrs("10.0.0.0/8"));
    assert!(!c.require_protocol_probe);
    assert!(c.allowed_origins.contains("https://app.mailiner.net"));
    assert!(c.allowed_hosts.contains("proxy.example.com"));
}

#[test]
fn release_builds_refuse_to_start() {
    let mut c = Config::default();
    assert!(check_startup(&c, false, false).is_ok());
    assert!(matches!(
        check_startup(&c, true, false),
        Err(StartupError::MissingMetricsToken)
    ));
    c.metrics_auth_key = Some("m".to_string());
    assert!(matches!(
        check_startup(&c, true, false),
        Err(StartupError::MissingSecret)
    ));
    c.secret_key = Some(SecretKey { bytes: [7; 32] });
    assert!(check_startup(&c, true, false).is_ok());
    c.dest.allow_ip_literals = true;
    match check_startup(&c, true, false) {
        Err(StartupError::Unsafe(lines)) => assert_eq!(lines.len(), 1),
        _ => panic!("an unsafe configuration was accepted"),
    }
    assert!(check_startup(&c, true, true).is_ok());
    assert!(check_startup(&c, false, false).is_ok());
}

#[test]
fn public_release_build_needs_no_secret() {
    let mut c = Config {
        auth_mode: AuthMode::Public,
        metrics_auth_key: Some("m".to_string()),
        ..Config::default()
    };
    c.allowed_origins.insert("https://app.example".to_string());
    assert!(check_startup(&c, true, false).is_ok());
}
