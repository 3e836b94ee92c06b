//! Destinations: parsing, policy, and which addresses may be dialed.
use mailiner_proxy::dest::{
    check_policy, connect_addrs, ip_canonical, is_global_unicast, is_valid_dns_hostname,
    needs_lookup, normalize_hostname, parse_remote, resolve_filtered, DestError, DestPolicy, Dial,
    DEFAULT_ALLOWED_PORTS,
};
use mailiner_proxy::ip::{IpAddr, Ipv4Addr, Ipv6Addr, SocketAddr};

fn addr(s: &str) -> IpAddr {
    IpAddr::parse(s).unwrap()
}

fn sock(s: &str, port: u16) -> SocketAddr {
    SocketAddr { ip: addr(s), port }
}

#[test]
fn parse_hostname_port() {
    let r = parse_remote("imap.gmail.com:993").unwrap();
    assert_eq!(r.host, "imap.gmail.com");
    assert_eq!(r.port, 993);
    assert!(r.ip_literal.is_none());
}

#[test]
fn parse_normalizes_hostname() {
    let r = parse_remote("IMAP.Gmail.COM.:993").unwrap();
    assert_eq!(r.host, "imap.gmail.com");
}

#[test]
fn parse_ipv4() {
    let r = parse_remote("8.8.8.8:993").unwrap();
    assert_eq!(r.ip_literal, Some(IpAddr::V4(Ipv4Addr::new(8, 8, 8, 8))));
    assert_eq!(r.port, 993);
}

#[test]
fn parse_ipv6() {
    let r = parse_remote("[2001:db8::1]:993").unwrap();
    assert!(matches!(r.ip_literal.unwrap(), IpAddr::V6(_)));
    assert_eq!(r.port, 993);
}

#[test]
fn parse_rejects_unbracketed_ipv6() {
    assert_eq!(parse_remote("::1:993"), Err(DestError::InvalidRemote));
}

#[test]
fn parse_rejects_missing_port() {
    assert_eq!(
        parse_remote("imap.gmail.com"),
        Err(DestError::InvalidRemote)
    );
}

#[test]
fn parse_rejects_port_zero() {
    assert_eq!(
        parse_remote("imap.gmail.com:0"),
        Err(DestError::InvalidRemote)
    );
}

#[test]
fn parse_loose_ipv4_forms_as_literals() {
    let cases = [
        ("134744072:993", "8.8.8.8"),
        ("0x08080808:993", "8.8.8.8"),
        ("0X8.8.8.8:993", "8.8.8.8"),
        ("8.8.8:993", "8.8.0.8"),
        ("1.2:993", "1.0.0.2"),
        ("127.1:993", "127.0.0.1"),
        ("0177.0.0.1:993", "127.0.0.1"),
        ("0x7f.0.0.1:993", "127.0.0.1"),
        ("0:993", "0.0.0.0"),
        ("123:993", "0.0.0.123"),
    ];
    for (raw, canon) in cases {
        let r = parse_remote(raw).expect(raw);
        assert_eq!(r.host, canon, "{raw}");
        assert_eq!(ip_canonical(r.ip_literal.unwrap()), canon, "{raw}");
    }
}

#[test]
fn default_policy_rejects_loose_ipv4_literals() {
    let p = DestPolicy::default();
    for raw in ["134744072:993", "127.1:993", "0x08080808:993", "8.8.8:993"] {
        let r = parse_remote(raw).unwrap();
        assert_eq!(check_policy(&r, &p), Err(DestError::IpLiteral), "{raw}");
    }
}

#[test]
fn parse_rejects_invalid_hostnames() {
    for raw in [
        "has space.com:993",
        "has/slash.com:993",
        "has@at.com:993",
        "-leading-hyphen.com:993",
        "trailing-hyphen-.com:993",
        "a..b.com:993",
        &format!("{}.com:993", "a".repeat(64)),
        &format!("{}:993", format!("{}.", "a".repeat(50)).repeat(6)),
    ] {
        assert_eq!(parse_remote(raw), Err(DestError::InvalidRemote), "{raw}");
    }
}

#[test]
fn parse_accepts_punycode_and_localhost() {
    let r = parse_remote("xn--mnchen-3ya.de:993").unwrap();
    assert_eq!(r.host, "xn--mnchen-3ya.de");
    assert!(r.ip_literal.is_none());
    let r = parse_remote("localhost:993").unwrap();
    assert_eq!(r.host, "localhost");
}

#[test]
fn default_policy_allows_mail_ports_only() {
    let p = DestPolicy::default();
    for port in DEFAULT_ALLOWED_PORTS {
        let r = parse_remote(&format!("imap.example.com:{port}")).unwrap();
        assert!(check_policy(&r, &p).is_ok(), "port {port}");
    }
    let r = parse_remote("imap.example.com:25").unwrap();
    assert_eq!(check_policy(&r, &p), Err(DestError::BadPort));
    let r = parse_remote("imap.example.com:22").unwrap();
    assert_eq!(check_policy(&r, &p), Err(DestError::BadPort));
    let r = parse_remote("imap.example.com:443").unwrap();
    assert_eq!(check_policy(&r, &p), Err(DestError::BadPort));
}

#[test]
fn default_policy_rejects_ip_literals() {
    let p = DestPolicy::default();
    let r = parse_remote("8.8.8.8:993").unwrap();
    assert_eq!(check_policy(&r, &p), Err(DestError::IpLiteral));
}

#[test]
fn private_literal_rejected_even_when_literals_allowed() {
    let p = DestPolicy {
        allow_ip_literals: true,
        allow_private_destinations: false,
        ..DestPolicy::default()
    };
    for raw in [
        "127.0.0.1:993",
        "10.0.0.1:993",
        "192.168.1.1:993",
        "172.16.0.1:993",
        "169.254.169.254:993",
        "100.64.0.1:993",
        "[::1]:993",
        "[fc00::1]:993",
        "[fe80::1]:993",
        "[::ffff:127.0.0.1]:993",
    ] {
        let r = parse_remote(raw).unwrap();
        assert_eq!(check_policy(&r, &p), Err(DestError::PrivateIp), "{raw}");
    }
}

#[test]
fn public_literal_allowed_when_literals_on() {
    let p = DestPolicy {
        allow_ip_literals: true,
        allow_private_destinations: false,
        ..DestPolicy::default()
    };
    let r = parse_remote("8.8.8.8:993").unwrap();
    assert!(check_policy(&r, &p).is_ok());
}

#[test]
fn global_unicast_classification() {
    assert!(!is_global_unicast(addr("0.0.0.1")));
    assert!(!is_global_unicast(addr("127.0.0.1")));
    assert!(!is_global_unicast(addr("10.1.2.3")));
    assert!(!is_global_unicast(addr("192.168.0.1")));
    assert!(!is_global_unicast(addr("172.31.255.255")));
    assert!(!is_global_unicast(addr("169.254.169.254")));
    assert!(!is_global_unicast(addr("100.64.0.1")));
    assert!(!is_global_unicast(addr("224.0.0.1")));
    assert!(!is_global_unicast(addr("255.255.255.255")));
    assert!(!is_global_unicast(addr("192.0.2.1")));
    assert!(!is_global_unicast(addr("198.18.0.1")));
    assert!(!is_global_unicast(addr("240.0.0.1")));
    assert!(is_global_unicast(addr("8.8.8.8")));
    assert!(is_global_unicast(addr("1.1.1.1")));

    assert!(!is_global_unicast(addr("::1")));
    assert!(!is_global_unicast(addr("fc00::1")));
    assert!(!is_global_unicast(addr("fe80::1")));
    assert!(!is_global_unicast(addr("2001:db8::1")));
    assert!(!is_global_unicast(addr("::ffff:10.0.0.1")));
    assert!(is_global_unicast(addr("2001:4860:4860::8888")));

    // Teredo / ORCHID (2001::/23)
    assert!(!is_global_unicast(addr("2001::1")));
    // NAT64 well-known prefix embedding RFC1918 / public IPv4
    assert!(!is_global_unicast(addr("64:ff9b::a00:1"))); // 10.0.0.1
    assert!(!is_global_unicast(addr("64:ff9b::7f00:1"))); // 127.0.0.1
    assert!(is_global_unicast(addr("64:ff9b::808:808"))); // 8.8.8.8
    assert!(!is_global_unicast(addr("64:ff9b:1::1")));
    // 6to4 embedding RFC1918 / public IPv4
    assert!(!is_global_unicast(addr("2002:0a00:0001::1"))); // 10.0.0.1
    assert!(is_global_unicast(addr("2002:0808:0808::1"))); // 8.8.8.8
}

#[test]
fn resolve_localhost_private_denied() {
    let r = parse_remote("localhost:993").unwrap();
    let p = DestPolicy::default();
    // hostname, not a literal: policy check passes; resolve filters loopback.
    assert!(check_policy(&r, &p).is_ok());
    let answer = vec![sock("127.0.0.1", 993), sock("::1", 993)];
    assert_eq!(
        resolve_filtered(&r, &p, Some(answer)).unwrap_err(),
        DestError::PrivateIp
    );
}

#[test]
fn resolve_localhost_private_allowed() {
    let r = parse_remote("localhost:993").unwrap();
    let p = DestPolicy::unrestricted();
    let answer = vec![sock("127.0.0.1", 993), sock("::1", 993)];
    let addrs = resolve_filtered(&r, &p, Some(answer)).unwrap();
    assert!(addrs.iter().any(|a| a.ip == addr("127.0.0.1")));
    assert!(addrs.iter().all(|a| a.port == 993));
}

#[test]
fn lookup_keeps_public_addresses_in_order() {
    let r = parse_remote("mail.example:993").unwrap();
    let p = DestPolicy::default();
    let answer = vec![
        sock("8.8.8.8", 993),
        sock("10.0.0.1", 993),
        sock("2001:4860:4860::8888", 993),
    ];
    assert_eq!(
        resolve_filtered(&r, &p, Some(answer)),
        Ok(vec![sock("8.8.8.8", 993), sock("2001:4860:4860::8888", 993)])
    );
    assert_eq!(resolve_filtered(&r, &p, None), Err(DestError::Dns));
    assert_eq!(
        resolve_filtered(&r, &p, Some(vec![])),
        Err(DestError::PrivateIp)
    );
}

#[test]
fn literal_is_not_looked_up() {
    let r = parse_remote("8.8.8.8:993").unwrap();
    assert!(!needs_lookup(&r));
    assert_eq!(
        resolve_filtered(&r, &DestPolicy::default(), None),
        Ok(vec![sock("8.8.8.8", 993)])
    );
    let r = parse_remote("10.0.0.1:993").unwrap();
    assert_eq!(
        resolve_filtered(&r, &DestPolicy::default(), None),
        Err(DestError::PrivateIp)
    );
    assert!(needs_lookup(&parse_remote("localhost:993").unwrap()));
}

#[test]
fn dialing_goes_in_order_and_gives_up() {
    let addrs = [sock("8.8.8.8", 993), sock("1.1.1.1", 993)];
    assert_eq!(connect_addrs(&addrs, 0), Dial::Try(addrs[0]));
    assert_eq!(connect_addrs(&addrs, 1), Dial::Try(addrs[1]));
    assert_eq!(connect_addrs(&addrs, 2), Dial::GiveUp(DestError::Connect));
    assert_eq!(connect_addrs(&[], 0), Dial::GiveUp(DestError::Connect));
}

#[test]
fn literal_shows_once_the_host_is_normalized() {
    for raw in ["8.8.8.8.:993", "[ 8.8.8.8 ]:993", "0x8.8.8.8.:993"] {
        let r = parse_remote(raw).unwrap();
        assert_eq!(r.ip_literal, Some(addr("8.8.8.8")), "{raw}");
        assert_eq!(
            check_policy(&r, &DestPolicy::default()),
            Err(DestError::IpLiteral)
        );
    }
}

#[test]
fn long_loose_forms_are_literals() {
    let raw = format!("{}177.0.0.1:993", "0".repeat(60));
    let r = parse_remote(&raw).unwrap();
    assert_eq!(r.host, "127.0.0.1");
}

#[test]
fn odd_remotes_are_invalid() {
    for raw in [
        "",
        ":993",
        "host:",
        "host:65536",
        "host:-1",
        "[::1]",
        "[::1]993",
        "[::1:993",
        "[]:993",
        "a:b:993",
        "256.1.1.1.1:993x",
    ] {
        assert_eq!(parse_remote(raw), Err(DestError::InvalidRemote), "{raw}");
    }
}

#[test]
fn key_of_a_name_reads_back() {
    let r = parse_remote("  Mail.Example.ORG.:0587 ").unwrap();
    assert_eq!(r.dest_key(), "mail.example.org:587");
    assert_eq!(parse_remote(&r.dest_key()), Ok(r));
}

#[test]
fn keys_tell_destinations_apart() {
    let a = parse_remote("mail.example:99").unwrap();
    let b = parse_remote("mail.example:993").unwrap();
    assert_ne!(a.dest_key(), b.dest_key());
}

#[test]
fn mapped_literal_is_stored_as_ipv4() {
    let r = parse_remote("[::ffff:8.8.8.8]:993").unwrap();
    assert_eq!(r.host, "8.8.8.8");
    assert_eq!(r.dest_key(), "8.8.8.8:993");
    assert_eq!(
        is_global_unicast(addr("::ffff:127.0.0.1")),
        is_global_unicast(addr("127.0.0.1"))
    );
}

#[test]
fn canonical_text_of_ipv6() {
    let cases = [
        ("::", "::"),
        ("::1", "::1"),
        ("2001:DB8:0:0:1:0:0:1", "2001:db8::1:0:0:1"),
        ("2001:0:0:1:0:0:0:1", "2001:0:0:1::1"),
        ("1:2:3:4:5:6:7:8", "1:2:3:4:5:6:7:8"),
        ("1:0:3:4:5:6:7:8", "1:0:3:4:5:6:7:8"),
        ("fe80::", "fe80::"),
        ("64:ff9b::1.2.3.4", "64:ff9b::102:304"),
    ];
    for (raw, text) in cases {
        assert_eq!(ip_canonical(addr(raw)), text, "{raw}");
        assert_eq!(addr(text), addr(raw), "{raw}");
    }
}

#[test]
fn names_are_compared_without_case() {
    assert_eq!(
        normalize_hostname(" MAIL.Example.. "),
        normalize_hostname("mail.example")
    );
    assert!(is_valid_dns_hostname("mail-1.example"));
    assert!(!is_valid_dns_hostname(""));
    assert!(!is_valid_dns_hostname("mail_1.example"));
}

#[test]
fn addresses_that_are_no_addresses() {
    for raw in [
        "1.2.3", "1.2.3.4.5", "01.2.3.4", "256.1.1.1", "1.2.3.4 ", ":::", "1::2::3", "12345::",
        "1:2:3:4:5:6:7", "1:2:3:4:5:6:7:8:9", "::1.2.3", "1.2.3.4::", "g::", "",
    ] {
        assert_eq!(IpAddr::parse(raw), None, "{raw}");
    }
    assert_eq!(
        addr("::1.2.3.4"),
        IpAddr::V6(Ipv6Addr::new(0, 0, 0, 0, 0, 0, 0x102, 0x304))
    );
}

#[test]
fn key_of_an_ipv4_literal_reads_back() {
    for raw in ["8.8.8.8:993", "0x08080808:993", "010.8.2056:993"] {
        let r = parse_remote(raw).unwrap();
        assert_eq!(r.dest_key(), "8.8.8.8:993");
        assert_eq!(parse_remote(&r.dest_key()), Ok(r));
    }
    let mapped = parse_remote("[::ffff:8.8.8.8]:993").unwrap();
    assert_eq!(mapped.dest_key(), "8.8.8.8:993");
    let back = parse_remote(&mapped.dest_key()).unwrap();
    assert_eq!(back.ip_literal, Some(addr("8.8.8.8")));
    let v6 = parse_remote("[2001:db8::1]:993").unwrap();
    assert_eq!(parse_remote(&v6.dest_key()), Err(DestError::InvalidRemote));
}

#[test]
fn normal_names_stay_normal() {
    for host in ["Mail.Example.ORG..", "..", "", "UNDER_score", "\u{dc}ber."] {
        let once = normalize_hostname(host);
        assert_eq!(normalize_hostname(&once), once);
        assert_eq!(normalize_hostname(&format!("{host}.")), once);
    }
    assert_eq!(normalize_hostname(" a .. "), "a ");
    assert_eq!(normalize_hostname("a "), "a");
}
