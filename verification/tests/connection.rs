//! Sessions.
use mailiner_proxy::config::Config;
use mailiner_proxy::connection::{
    lifetime, probe_needed, Action, Closing, Connection, Count, Event, Message, Side, Written,
};
use mailiner_proxy::dest::parse_remote;
use mailiner_proxy::ip::{IpAddr, Ipv4Addr};
use mailiner_proxy::limits::{LimitState, LimitsConfig};
use mailiner_proxy::metrics::{Error, RejectReason};
use mailiner_proxy::proto::ProbeKind;
use mailiner_proxy::time::{Duration, Instant};

fn client() -> IpAddr {
    IpAddr::V4(Ipv4Addr::new(203, 0, 113, 1))
}

fn session(config: &Config) -> (Connection, LimitState) {
    let mut limits = LimitState::new(config.limits);
    let remote = parse_remote("127.0.0.1:4000").unwrap();
    let lease = limits.acquire(client(), &remote.dest_key()).unwrap();
    let c = Connection::new(remote, client(), lease, config);
    (c, limits)
}

#[test]
fn bytes_are_passed_on_unchanged() {
    let (mut c, mut limits) = session(&Config::for_tests());
    let hello = b"Hello, World".to_vec();
    let step = c.run(Event::Client(Message::Binary(hello.clone())), &mut limits);
    assert!(matches!(step.action, Action::ToUpstream(d) if d == hello));
    assert_eq!(step.count, Count::Nothing);
    let step = c.run(
        Event::Client(Message::Text("h\u{e9}llo".to_string())),
        &mut limits,
    );
    assert!(matches!(step.action, Action::ToUpstream(d) if d == "h\u{e9}llo".as_bytes()));
    let step = c.run(Event::Upstream(hello.clone()), &mut limits);
    assert!(matches!(step.action, Action::ToClient(d) if d == hello));
}

#[test]
fn test_idle_connection_survives_keepalive() {
    let (mut c, mut limits) = session(&Config::for_tests());
    for _ in 0..5 {
        let step = c.run(Event::ClientIdle, &mut limits);
        assert!(matches!(step.action, Action::Ping));
        assert_eq!(step.count, Count::Nothing);
    }
    let msg = b"still-alive".to_vec();
    let step = c.run(Event::Client(Message::Binary(msg.clone())), &mut limits);
    assert!(matches!(step.action, Action::ToUpstream(d) if d == msg));
}

#[test]
fn test_byte_cap_closes_session() {
    let (mut c, mut limits) = session(&Config {
        max_bytes_per_connection: 8,
        ..Config::for_tests()
    });
    let step = c.run(
        Event::Client(Message::Binary(b"xxxxxxxxxxxxxxxx".to_vec())),
        &mut limits,
    );
    assert!(matches!(step.action, Action::End));
    assert_eq!(step.count, Count::Rejected(RejectReason::ByteCap));
}

#[test]
fn test_max_lifetime_closes_session() {
    let config = Config {
        max_lifetime: Duration::from_millis(80),
        ..Config::for_tests()
    };
    assert_eq!(lifetime(&config), Some(Duration::from_millis(80)));
    assert_eq!(lifetime(&Config::for_tests()), None);
    let (mut c, mut limits) = session(&config);
    let step = c.run(Event::Lifetime, &mut limits);
    assert!(matches!(step.action, Action::End));
    assert_eq!(step.count, Count::Rejected(RejectReason::Lifetime));
}

#[test]
fn cap_counts_both_directions() {
    let (mut c, mut limits) = session(&Config {
        max_bytes_per_connection: 8,
        ..Config::for_tests()
    });
    let step = c.run(Event::Client(Message::Binary(vec![0; 5])), &mut limits);
    assert!(matches!(step.action, Action::ToUpstream(_)));
    let step = c.run(Event::Upstream(vec![0; 3]), &mut limits);
    assert!(matches!(step.action, Action::ToClient(_)));
    let step = c.run(Event::Client(Message::Binary(vec![])), &mut limits);
    assert!(matches!(step.action, Action::ToUpstream(d) if d.is_empty()));
    let step = c.run(Event::Upstream(vec![0]), &mut limits);
    assert!(matches!(step.action, Action::End));
    assert_eq!(step.count, Count::Rejected(RejectReason::ByteCap));
}

#[test]
fn client_budget_ends_the_session() {
    let config = Config {
        limits: LimitsConfig {
            max_bytes_per_ip: 10,
            ..LimitsConfig::unlimited()
        },
        ..Config::for_tests()
    };
    let (mut c, mut limits) = session(&config);
    let now = Instant { nanos: 0 };
    let step = c.run_at(Event::Upstream(vec![0; 10]), &mut limits, now);
    assert!(matches!(step.action, Action::ToClient(_)));
    let step = c.run_at(
        Event::Client(Message::Text("x".to_string())),
        &mut limits,
        now,
    );
    assert!(matches!(step.action, Action::End));
    assert_eq!(step.count, Count::Rejected(RejectReason::ByteCap));
    assert_eq!(
        c.account_bytes_at(&mut limits, now, 1),
        Err(RejectReason::ByteCap)
    );
    assert_eq!(c.account_bytes_at(&mut limits, now, 0), Ok(()));
}

#[test]
fn control_messages_and_ends() {
    let (mut c, mut limits) = session(&Config::for_tests());
    let step = c.run(Event::Client(Message::Ping(vec![1, 2])), &mut limits);
    assert!(matches!(step.action, Action::Pong(p) if p == vec![1, 2]));
    let step = c.run(Event::Client(Message::Pong(vec![1])), &mut limits);
    assert!(matches!(step.action, Action::Wait));
    let ends = [
        (Event::Client(Message::Close), Count::Nothing),
        (Event::ClientError, Count::ClientFailed(Error::Read)),
        (Event::ClientGone, Count::Nothing),
        (Event::Upstream(vec![]), Count::Nothing),
        (Event::UpstreamError, Count::UpstreamFailed(Error::Read)),
    ];
    for (event, count) in ends {
        let step = c.run(event, &mut limits);
        assert!(matches!(step.action, Action::End));
        assert_eq!(step.count, count);
    }
}

#[test]
fn failed_writes_end_the_session() {
    let (mut c, mut limits) = session(&Config::for_tests());
    for side in [Side::Client, Side::Upstream] {
        let step = c.run(Event::Wrote(side, Written::Done), &mut limits);
        assert!(matches!(step.action, Action::Wait));
        assert_eq!(step.count, Count::Nothing);
    }
    let ends = [
        (Side::Client, Written::Failed, Count::ClientFailed(Error::Send)),
        (Side::Client, Written::TimedOut, Count::ClientFailed(Error::Timeout)),
        (Side::Upstream, Written::Failed, Count::UpstreamFailed(Error::Send)),
        (Side::Upstream, Written::TimedOut, Count::UpstreamFailed(Error::Timeout)),
    ];
    for (side, written, count) in ends {
        let step = c.run(Event::Wrote(side, written), &mut limits);
        assert!(matches!(step.action, Action::End));
        assert_eq!(step.count, count);
    }
}

#[test]
fn both_sides_are_taken_down() {
    for went in [Written::Done, Written::Failed, Written::TimedOut] {
        let (mut c, mut limits) = session(&Config::for_tests());
        let (next, count) = c.close(Closing::Frame, went, &mut limits);
        assert_eq!(next, Some(Closing::Client));
        assert_eq!(
            count,
            match went {
                Written::Done => Count::Nothing,
                Written::Failed => Count::ClientFailed(Error::Send),
                Written::TimedOut => Count::ClientFailed(Error::Timeout),
            }
        );
        let (next, count) = c.close(Closing::Client, went, &mut limits);
        assert_eq!(next, Some(Closing::Upstream));
        assert_eq!(
            count,
            match went {
                Written::Done => Count::Nothing,
                _ => Count::ClientFailed(Error::Shutdown),
            }
        );
        assert_eq!(limits.open_connections(), 1);
        let (next, count) = c.close(Closing::Upstream, went, &mut limits);
        assert_eq!(next, None);
        assert_eq!(
            count,
            match went {
                Written::Done => Count::Nothing,
                _ => Count::UpstreamFailed(Error::Shutdown),
            }
        );
        assert_eq!(limits.open_connections(), 0);
    }
}

#[test]
fn probe_bytes_count_towards_the_cap() {
    let config = Config {
        max_bytes_per_connection: 8,
        ..Config::for_tests()
    };
    let (mut c, mut limits) = session(&config);
    assert_eq!(c.pass_probe(&mut limits, 5), Ok(()));
    let step = c.run(Event::Upstream(vec![0; 3]), &mut limits);
    assert!(matches!(step.action, Action::ToClient(d) if d.len() == 3));
    let step = c.run(Event::Client(Message::Binary(vec![0; 1])), &mut limits);
    assert!(matches!(step.action, Action::End));
    assert_eq!(step.count, Count::Rejected(RejectReason::ByteCap));

    let (mut c, mut limits) = session(&config);
    assert_eq!(c.pass_probe(&mut limits, 9), Err(RejectReason::ByteCap));
    let (mut c, mut limits) = session(&config);
    assert_eq!(c.pass_probe(&mut limits, 1), Ok(()));
    let step = c.run(Event::Client(Message::Binary(vec![0; 8])), &mut limits);
    assert!(matches!(step.action, Action::End));
}

#[test]
fn probe_bytes_count_for_the_client() {
    let config = Config {
        limits: LimitsConfig {
            max_bytes_per_ip: 8,
            ..LimitsConfig::unlimited()
        },
        ..Config::for_tests()
    };
    let (mut c, mut limits) = session(&config);
    let now = limits.now();
    assert_eq!(c.pass_probe_at(&mut limits, now, 6), Ok(()));
    assert_eq!(
        c.account_bytes_at(&mut limits, now, 3),
        Err(RejectReason::ByteCap)
    );
    assert_eq!(c.account_bytes_at(&mut limits, now, 2), Ok(()));
    assert_eq!(
        c.pass_probe_at(&mut limits, now, 1),
        Err(RejectReason::ByteCap)
    );
}

#[test]
fn bytes_pass_in_order() {
    let (mut c, mut limits) = session(&Config::for_tests());
    let (mut up, mut down) = (Vec::new(), Vec::new());
    let events = [
        Event::Client(Message::Binary(vec![1, 2])),
        Event::Upstream(vec![9]),
        Event::ClientIdle,
        Event::Client(Message::Text("a".to_string())),
        Event::Wrote(Side::Upstream, Written::Done),
        Event::Upstream(vec![8, 7]),
        Event::Client(Message::Binary(vec![3])),
        Event::Client(Message::Close),
    ];
    for event in events {
        match c.run(event, &mut limits).action {
            Action::ToUpstream(data) => up.extend(data),
            Action::ToClient(data) => down.extend(data),
            _ => {}
        }
    }
    assert_eq!(up, vec![1, 2, 97, 3]);
    assert_eq!(down, vec![9, 8, 7]);
}

#[test]
fn ended_session_gives_back_its_slot() {
    let (mut c, mut limits) = session(&Config::for_tests());
    assert_eq!(limits.open_connections(), 1);
    c.end(&mut limits);
    assert_eq!(limits.open_connections(), 0);
    c.end(&mut limits);
    assert_eq!(limits.open_connections(), 0);
    assert_eq!(c.remote().host, "127.0.0.1");
}

#[test]
fn caps_of_one_connection() {
    let (c, _) = session(&Config {
        max_bytes_per_connection: 8,
        ..Config::for_tests()
    });
    assert!(!c.over_conn_bytes(8));
    assert!(c.over_conn_bytes(9));
    let (c, _) = session(&Config::for_tests());
    assert!(!c.over_conn_bytes(u64::MAX));
}

#[test]
fn probes_are_run_where_they_are_asked_for() {
    let config = Config::default();
    assert_eq!(probe_needed(&config, 993), Some(ProbeKind::TlsSni));
    assert_eq!(probe_needed(&config, 587), Some(ProbeKind::SmtpGreeting));
    assert_eq!(probe_needed(&config, 9400), None);
    assert_eq!(probe_needed(&Config::for_tests(), 993), None);
}
