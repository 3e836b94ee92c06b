//! Caps on connections, rates, destinations and bytes.
use mailiner_proxy::ip::{IpAddr, Ipv4Addr, Ipv6Addr};
use mailiner_proxy::limits::{limit_key, LimitError, LimitState, LimitsConfig};
use mailiner_proxy::time::{Duration, Instant};

fn ip(n: u8) -> IpAddr {
    IpAddr::V4(Ipv4Addr::new(203, 0, 113, n))
}

fn v6(host: u16) -> IpAddr {
    IpAddr::V6(Ipv6Addr::new(0x2001, 0x0db8, 0, 0, 0, 0, 0, host))
}

fn millis(n: u128) -> Instant {
    Instant {
        nanos: n * 1_000_000,
    }
}

#[test]
fn per_ip_concurrent_cap() {
    let mut state = LimitState::new(LimitsConfig {
        max_conns_per_ip: 2,
        ..LimitsConfig::unlimited()
    });
    let a = state.acquire(ip(1), "imap.example:993").unwrap();
    let b = state.acquire(ip(1), "imap.example:993").unwrap();
    assert_eq!(
        state.acquire(ip(1), "imap.example:993").unwrap_err(),
        LimitError::PerIpFull
    );
    assert!(state.acquire(ip(2), "imap.example:993").is_ok());
    state.release(a);
    state.release(b);
    assert!(state.acquire(ip(1), "imap.example:993").is_ok());
}

#[test]
fn global_and_per_dest_caps() {
    let mut state = LimitState::new(LimitsConfig {
        max_global_connections: 2,
        max_conns_per_dest: 1,
        ..LimitsConfig::unlimited()
    });
    let _a = state.acquire(ip(1), "a:993").unwrap();
    assert_eq!(
        state.acquire(ip(2), "a:993").unwrap_err(),
        LimitError::PerDestFull
    );
    let _b = state.acquire(ip(2), "b:993").unwrap();
    assert_eq!(
        state.acquire(ip(3), "c:993").unwrap_err(),
        LimitError::GlobalFull
    );
}

#[test]
fn connect_rate_per_ip() {
    let mut state = LimitState::new(LimitsConfig {
        connects_per_ip: 2,
        connects_per_ip_window: Duration::from_secs(60),
        ..LimitsConfig::unlimited()
    });
    state.record_attempt(ip(1), "a:993").unwrap();
    state.record_attempt(ip(1), "a:993").unwrap();
    assert_eq!(
        state.record_attempt(ip(1), "a:993").unwrap_err(),
        LimitError::ConnectRate
    );
    assert!(state.record_attempt(ip(2), "a:993").is_ok());
}

#[test]
fn distinct_dests_per_ip() {
    let mut state = LimitState::new(LimitsConfig {
        distinct_dests_per_ip: 2,
        distinct_dests_window: Duration::from_secs(60),
        ..LimitsConfig::unlimited()
    });
    state.record_attempt(ip(1), "a:993").unwrap();
    state.record_attempt(ip(1), "b:993").unwrap();
    // same dest again is fine
    state.record_attempt(ip(1), "a:993").unwrap();
    assert_eq!(
        state.record_attempt(ip(1), "c:993").unwrap_err(),
        LimitError::DistinctDests
    );
}

#[test]
fn global_connect_rate() {
    let mut state = LimitState::new(LimitsConfig {
        global_connects: 2,
        global_connects_window: Duration::from_secs(60),
        ..LimitsConfig::unlimited()
    });
    state.record_attempt(ip(1), "a:993").unwrap();
    state.record_attempt(ip(2), "b:993").unwrap();
    assert_eq!(
        state.record_attempt(ip(3), "c:993").unwrap_err(),
        LimitError::GlobalConnectRate
    );
}

#[test]
fn byte_cap_per_ip() {
    let mut state = LimitState::new(LimitsConfig {
        max_bytes_per_ip: 10,
        bytes_window: Duration::from_secs(3600),
        ..LimitsConfig::unlimited()
    });
    state.add_bytes(ip(1), 7).unwrap();
    state.add_bytes(ip(1), 3).unwrap();
    assert_eq!(state.add_bytes(ip(1), 1).unwrap_err(), LimitError::ByteCap);
    assert!(state.add_bytes(ip(2), 10).is_ok());
}

#[test]
fn ipv6_same_slash64_shares_budget() {
    let mut state = LimitState::new(LimitsConfig {
        max_conns_per_ip: 1,
        ipv6_prefix: 64,
        ..LimitsConfig::unlimited()
    });
    let _a = state.acquire(v6(1), "imap.example:993").unwrap();
    assert_eq!(
        state.acquire(v6(2), "imap.example:993").unwrap_err(),
        LimitError::PerIpFull
    );
    // A different /64 is independent.
    assert!(state
        .acquire(
            IpAddr::V6(Ipv6Addr::new(0x2001, 0x0db8, 1, 0, 0, 0, 0, 1)),
            "imap.example:993"
        )
        .is_ok());
}

#[test]
fn ipv4_prefix_can_aggregate_slash24() {
    let mut state = LimitState::new(LimitsConfig {
        connects_per_ip: 1,
        ipv4_prefix: 24,
        ..LimitsConfig::unlimited()
    });
    state.record_attempt(ip(1), "a:993").unwrap();
    assert_eq!(
        state.record_attempt(ip(99), "a:993").unwrap_err(),
        LimitError::ConnectRate
    );
    assert!(state
        .record_attempt(IpAddr::V4(Ipv4Addr::new(198, 51, 100, 1)), "a:993")
        .is_ok());
}

#[test]
fn idle_attempt_rows_are_garbage_collected() {
    let mut state = LimitState::new(LimitsConfig {
        connects_per_ip: 8,
        connects_per_ip_window: Duration::from_millis(40),
        distinct_dests_window: Duration::from_millis(40),
        ..LimitsConfig::unlimited()
    });
    state.record_attempt_at(millis(0), ip(1), "a:993").unwrap();
    assert_eq!(state.tracked_ip_count(), 1);
    // Force GC regardless of the 30s interval.
    state.gc_idle_at(millis(50));
    assert_eq!(state.tracked_ip_count(), 0);
}

#[test]
fn tracked_ip_cap_rejects_new_prefixes() {
    let mut state = LimitState::new(LimitsConfig {
        max_tracked_ips: 2,
        ..LimitsConfig::unlimited()
    });
    state.record_attempt(ip(1), "a:993").unwrap();
    state
        .record_attempt(IpAddr::V4(Ipv4Addr::new(198, 51, 100, 1)), "a:993")
        .unwrap();
    assert_eq!(
        state
            .record_attempt(IpAddr::V4(Ipv4Addr::new(192, 0, 2, 1)), "a:993")
            .unwrap_err(),
        LimitError::GlobalConnectRate
    );
}

#[test]
fn rate_window_expires() {
    let mut state = LimitState::new(LimitsConfig {
        connects_per_ip: 1,
        connects_per_ip_window: Duration::from_millis(40),
        ..LimitsConfig::unlimited()
    });
    state.record_attempt_at(millis(0), ip(1), "a:993").unwrap();
    assert_eq!(
        state
            .record_attempt_at(millis(0), ip(1), "a:993")
            .unwrap_err(),
        LimitError::ConnectRate
    );
    state.record_attempt_at(millis(50), ip(1), "a:993").unwrap();
}

#[test]
fn window_ends_after_its_last_moment() {
    let mut state = LimitState::new(LimitsConfig {
        connects_per_ip: 1,
        connects_per_ip_window: Duration::from_millis(40),
        ..LimitsConfig::unlimited()
    });
    state.record_attempt_at(millis(0), ip(1), "a:993").unwrap();
    assert_eq!(
        state.record_attempt_at(millis(40), ip(1), "a:993"),
        Err(LimitError::ConnectRate)
    );
    assert_eq!(state.record_attempt_at(millis(41), ip(1), "a:993"), Ok(()));
}

#[test]
fn refused_attempts_are_not_counted() {
    let mut state = LimitState::new(LimitsConfig {
        connects_per_ip: 1,
        global_connects: 2,
        ..LimitsConfig::unlimited()
    });
    state.record_attempt_at(millis(0), ip(1), "a:993").unwrap();
    for _ in 0..5 {
        assert_eq!(
            state.record_attempt_at(millis(0), ip(1), "a:993"),
            Err(LimitError::ConnectRate)
        );
    }
    assert_eq!(state.record_attempt_at(millis(0), ip(2), "a:993"), Ok(()));
}

#[test]
fn lease_handed_back_restores_the_counts() {
    let mut state = LimitState::new(LimitsConfig {
        max_global_connections: 1,
        ..LimitsConfig::unlimited()
    });
    let lease = state.acquire_at(millis(0), ip(1), "a:993").unwrap();
    assert_eq!(state.open_connections(), 1);
    state.release_at(millis(1), lease);
    assert_eq!(state.open_connections(), 0);
    assert_eq!(state.tracked_ip_count(), 0);
    assert!(state.acquire_at(millis(2), ip(1), "a:993").is_ok());
}

#[test]
fn bytes_leave_their_window() {
    let mut state = LimitState::new(LimitsConfig {
        max_bytes_per_ip: 10,
        bytes_window: Duration::from_millis(40),
        ..LimitsConfig::unlimited()
    });
    assert_eq!(state.add_bytes_at(millis(0), ip(1), 10), Ok(()));
    assert_eq!(
        state.add_bytes_at(millis(40), ip(1), 1),
        Err(LimitError::ByteCap)
    );
    assert_eq!(state.add_bytes_at(millis(41), ip(1), 10), Ok(()));
    assert_eq!(state.add_bytes_at(millis(41), ip(1), 0), Ok(()));
}

#[test]
fn zero_caps_never_refuse() {
    let mut state = LimitState::new(LimitsConfig::unlimited());
    for n in 0..100 {
        assert!(state.record_attempt(ip(n), "a:993").is_ok());
        assert!(state.acquire(ip(1), "a:993").is_ok());
        assert!(state.add_bytes(ip(1), u64::MAX).is_ok());
    }
}

#[test]
fn keys_of_networks() {
    assert_eq!(limit_key(ip(77), 24, 64), ip(0));
    assert_eq!(limit_key(ip(77), 32, 64), ip(77));
    assert_eq!(limit_key(ip(77), 255, 64), ip(77));
    assert_eq!(
        limit_key(ip(77), 0, 64),
        IpAddr::V4(Ipv4Addr::new(0, 0, 0, 0))
    );
    assert_eq!(limit_key(v6(77), 32, 64), v6(0));
    assert_eq!(limit_key(v6(77), 32, 128), v6(77));
    assert_eq!(
        limit_key(v6(77), 32, 0),
        IpAddr::V6(Ipv6Addr::new(0, 0, 0, 0, 0, 0, 0, 0))
    );
    let mapped = IpAddr::parse("::ffff:203.0.113.77").unwrap();
    assert_eq!(limit_key(mapped, 24, 64), ip(0));
}

#[test]
fn default_caps() {
    let c = LimitsConfig::default();
    assert_eq!(c.max_global_connections, 5000);
    assert_eq!(c.max_conns_per_ip, 16);
    assert_eq!(c.max_conns_per_dest, 200);
    assert_eq!(c.connects_per_ip, 10);
    assert_eq!(c.distinct_dests_per_ip, 10);
    assert_eq!(c.global_connects, 20);
    assert_eq!(c.max_bytes_per_ip, 1_073_741_824);
    assert_eq!(c.max_tracked_ips, 50_000);
    assert_eq!(c.bytes_window, Duration::from_secs(3600));
}

#[test]
fn windows_slide() {
    let mut limits = LimitState::new(LimitsConfig {
        connects_per_ip: 3,
        connects_per_ip_window: Duration::from_millis(100),
        distinct_dests_per_ip: 2,
        distinct_dests_window: Duration::from_millis(100),
        max_bytes_per_ip: 10,
        bytes_window: Duration::from_millis(100),
        ..LimitsConfig::unlimited()
    });
    let start = limits.now().nanos;
    let at = |n: u128| Instant {
        nanos: start + n * 1_000_000,
    };
    let mut attempt = |n: u128, dest: &str| limits.record_attempt_at(at(n), ip(1), dest);
    assert_eq!(attempt(0, "a:993"), Ok(()));
    assert_eq!(attempt(60, "b:993"), Ok(()));
    assert_eq!(attempt(70, "c:993"), Err(LimitError::DistinctDests));
    assert_eq!(attempt(80, "b:993"), Ok(()));
    assert_eq!(attempt(100, "b:993"), Err(LimitError::ConnectRate));
    assert_eq!(attempt(101, "c:993"), Ok(()));
    assert_eq!(attempt(150, "b:993"), Err(LimitError::ConnectRate));
    assert_eq!(attempt(161, "d:993"), Err(LimitError::DistinctDests));
    assert_eq!(attempt(181, "d:993"), Ok(()));

    let mut carry = |n: u128, bytes: u64| limits.add_bytes_at(at(n), ip(1), bytes);
    assert_eq!(carry(200, 6), Ok(()));
    assert_eq!(carry(260, 4), Ok(()));
    assert_eq!(carry(300, 1), Err(LimitError::ByteCap));
    assert_eq!(carry(301, 6), Ok(()));
    assert_eq!(carry(301, 1), Err(LimitError::ByteCap));
}

#[test]
fn quiet_clients_are_let_through() {
    let second = Duration::from_secs(1);
    let mut state = LimitState::new(LimitsConfig {
        connects_per_ip: 1,
        connects_per_ip_window: second,
        distinct_dests_per_ip: 1,
        distinct_dests_window: second,
        global_connects: 1,
        global_connects_window: second,
        max_tracked_ips: 1,
        ..LimitsConfig::unlimited()
    });
    let attempt = |s: &mut LimitState, n: u128, who: u8| s.record_attempt_at(millis(n), ip(who), "a:1");
    assert_eq!(attempt(&mut state, 0, 1), Ok(()));
    assert_eq!(
        attempt(&mut state, 1000, 2),
        Err(LimitError::GlobalConnectRate)
    );
    // The row of the first client has gone quiet and makes room.
    assert_eq!(attempt(&mut state, 1001, 2), Ok(()));
    assert_eq!(attempt(&mut state, 2002, 2), Ok(()));
}

#[test]
fn slots_are_refused_in_order() {
    let mut state = LimitState::new(LimitsConfig {
        max_global_connections: 3,
        max_conns_per_ip: 2,
        max_conns_per_dest: 1,
        ..LimitsConfig::unlimited()
    });
    let a = state.acquire(ip(1), "a:1").unwrap();
    assert_eq!(state.acquire(ip(2), "a:1").unwrap_err(), LimitError::PerDestFull);
    let b = state.acquire(ip(1), "b:1").unwrap();
    assert_eq!(state.acquire(ip(1), "a:1").unwrap_err(), LimitError::PerIpFull);
    let c = state.acquire(ip(2), "c:1").unwrap();
    assert_eq!(state.acquire(ip(1), "a:1").unwrap_err(), LimitError::GlobalFull);
    assert_eq!(state.open_connections(), 3);
    state.release(a);
    assert_eq!(state.acquire(ip(1), "c:1").unwrap_err(), LimitError::PerDestFull);
    state.release(b);
    state.release(c);
    assert_eq!(state.open_connections(), 0);
}
