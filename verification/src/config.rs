//! Configuration: what an operator may set, how it is read from text, and what
//! makes a deployment unsafe.
use std::collections::HashSet;

use vstd::prelude::*;
use vstd::slice::slice_subrange;

use crate::dest;
use crate::dest::DestPolicy;
use crate::ip;
use crate::ip::IpAddr;
use crate::limits;
use crate::limits::LimitsConfig;
use crate::names;
use crate::names::NameSet;
use crate::text;
use crate::time::Duration;

verus! {

broadcast use vstd::std_specs::hash::group_hash_axioms;

/// A block of addresses: those that agree with `addr` in their leading `bits`
/// bits.
#[derive(Debug, Clone, Copy, PartialEq, Eq, Structural)]
pub struct Cidr {
    pub addr: IpAddr,
    pub bits: u8,
}

/// How many bits the addresses of a family have.
pub open spec fn width_of(ip: IpAddr) -> int {
    match ip {
        IpAddr::V4(_) => 32,
        IpAddr::V6(_) => 128,
    }
}

/// The block that `raw` writes: an address alone, or an address, a slash and a
/// prefix length.
pub open spec fn cidr_value(raw: Seq<char>) -> Option<Cidr> {
    let s = text::trim(raw);
    let slash = text::find(s, '/') as int;
    if slash == s.len() {
        match ip::ip_value(s) {
            Some(addr) => Some(Cidr { addr, bits: width_of(addr) as u8 }),
            None => None,
        }
    } else {
        match (ip::ip_value(s.take(slash)), text::unsigned_value(s.skip(slash + 1), 255)) {
            (Some(addr), Some(bits)) => if bits <= width_of(addr) {
                Some(Cidr { addr, bits: bits as u8 })
            } else {
                None
            },
            _ => None,
        }
    }
}

impl Cidr {
    /// The prefix is no longer than an address.
    pub open spec fn valid(self) -> bool {
        self.bits <= width_of(self.addr)
    }

    /// Whether the block holds `ip`. An IPv4-mapped address goes by the IPv4 one,
    /// and where both are mapped at most 32 bits count.
    pub open spec fn covers(self, ip: IpAddr) -> bool {
        match (self.addr, ip) {
            (IpAddr::V4(prefix), IpAddr::V4(x)) => ip::same_prefix(
                x.bits as int,
                prefix.bits as int,
                32,
                self.bits as nat,
            ),
            (IpAddr::V4(prefix), IpAddr::V6(x)) => match x.mapped() {
                Some(x4) => ip::same_prefix(
                    x4.bits as int,
                    prefix.bits as int,
                    32,
                    self.bits as nat,
                ),
                None => false,
            },
            (IpAddr::V6(prefix), IpAddr::V6(x)) => match (prefix.mapped(), x.mapped()) {
                (Some(p4), Some(x4)) => ip::same_prefix(
                    x4.bits as int,
                    p4.bits as int,
                    32,
                    limits::min(self.bits as int, 32) as nat,
                ),
                _ => ip::same_prefix(x.bits as int, prefix.bits as int, 128, self.bits as nat),
            },
            (IpAddr::V6(_), IpAddr::V4(_)) => false,
        }
    }

    /// Reads a block.
    pub fn parse(raw: &str) -> (r: Option<Self>)
        ensures
            r == cidr_value(raw@),
            r matches Some(c) ==> c.valid(),
    {
        let chars = text::chars_of(raw);
        read_cidr(chars.as_slice())
    }

    /// Whether the block holds `ip`.
    pub fn contains(&self, ip: IpAddr) -> (r: bool)
        requires
            self.valid(),
        ensures
            r == self.covers(ip),
    {
        proof {
            ip::lemma_pow2_widths();
        }
        match (self.addr, ip) {
            (IpAddr::V4(prefix), IpAddr::V4(x)) => ip::prefixes_agree(
                x.bits as u128,
                prefix.bits as u128,
                32,
                self.bits as u32,
            ),
            (IpAddr::V4(prefix), IpAddr::V6(x)) => match x.to_ipv4_mapped() {
                Some(x4) => ip::prefixes_agree(
                    x4.bits as u128,
                    prefix.bits as u128,
                    32,
                    self.bits as u32,
                ),
                None => false,
            },
            (IpAddr::V6(prefix), IpAddr::V6(x)) => match (
                prefix.to_ipv4_mapped(),
                x.to_ipv4_mapped(),
            ) {
                (Some(p4), Some(x4)) => {
                    let bits: u32 = if self.bits < 32 {
                        self.bits as u32
                    } else {
                        32
                    };
                    ip::prefixes_agree(x4.bits as u128, p4.bits as u128, 32, bits)
                },
                _ => ip::prefixes_agree(x.bits, prefix.bits, 128, self.bits as u32),
            },
            (IpAddr::V6(_), IpAddr::V4(_)) => false,
        }
    }
}

fn width(ip: IpAddr) -> (r: u8)
    ensures
        r == width_of(ip),
{
    match ip {
        IpAddr::V4(_) => 32,
        IpAddr::V6(_) => 128,
    }
}

fn read_cidr(raw: &[char]) -> (r: Option<Cidr>)
    ensures
        r == cidr_value(raw@),
        r matches Some(c) ==> c.valid(),
{
    let s = text::trim_chars(raw);
    let slash = text::find_char(s, '/');
    if slash == s.len() {
        return match ip::read_ip(s) {
            Some(addr) => Some(Cidr { addr, bits: width(addr) }),
            None => None,
        };
    }
    let left = slice_subrange(s, 0, slash);
    let right = slice_subrange(s, slash + 1, s.len());
    assert(left@ =~= s@.take(slash as int));
    assert(right@ =~= s@.skip(slash + 1));
    match (ip::read_ip(left), text::read_unsigned(right, 255)) {
        (Some(addr), Some(bits)) => if bits as u8 <= width(addr) {
            Some(Cidr { addr, bits: bits as u8 })
        } else {
            None
        },
        _ => None,
    }
}

/// The blocks that `parts` write, in order; parts that write none are left out.
pub open spec fn blocks(parts: Seq<Seq<char>>) -> Seq<Cidr>
    decreases parts.len(),
{
    if parts.len() == 0 {
        Seq::empty()
    } else {
        match cidr_value(parts.last()) {
            Some(c) => blocks(parts.drop_last()).push(c),
            None => blocks(parts.drop_last()),
        }
    }
}

/// Whether every block is valid.
pub open spec fn all_valid(v: Seq<Cidr>) -> bool {
    forall|i: int| 0 <= i < v.len() ==> (#[trigger] v[i]).valid()
}

proof fn lemma_next_block(q: Seq<Seq<char>>, i: int)
    requires
        0 <= i < q.len(),
    ensures
        blocks(q.take(i + 1)) == match cidr_value(q[i]) {
            Some(c) => blocks(q.take(i)).push(c),
            None => blocks(q.take(i)),
        },
{
    assert(q.take(i + 1).drop_last() =~= q.take(i));
    assert(q.take(i + 1).last() == q[i]);
}

/// Reads blocks with commas between them. What is not a block is left out.
#[verifier::spinoff_prover]
pub fn parse_cidrs(raw: &str) -> (r: Vec<Cidr>)
    ensures
        r@ == blocks(text::split(raw@, ',')),
        all_valid(r@),
{
    let chars = text::chars_of(raw);
    let parts = text::split_chars(chars.as_slice(), ',');
    let ghost q = text::split(raw@, ',');
    let mut out: Vec<Cidr> = Vec::new();
    let mut i: usize = 0;
    while i < parts.len()
        invariant
            i <= parts@.len() == q.len(),
            forall|k: int| 0 <= k < q.len() ==> (#[trigger] parts@[k])@ == q[k],
            out@ == blocks(q.take(i as int)),
            all_valid(out@),
        decreases parts@.len() - i,
    {
        assert(parts@[i as int]@ == q[i as int]);
        proof {
            lemma_next_block(q, i as int);
        }
        if let Some(c) = read_cidr(parts[i]) {
            out.push(c);
        }
        i += 1;
    }
    assert(q.take(i as int) =~= q);
    out
}

/// Whether one of `parts`, trimmed, writes the port `p`.
pub open spec fn lists_port(parts: Seq<Seq<char>>, p: u16) -> bool {
    exists|i: int|
        0 <= i < parts.len() && text::unsigned_value(
            text::trim(#[trigger] parts[i]),
            u16::MAX as int,
        ) == Some(p as int)
}

/// The ports that `raw` allows, or none if it allows every port: the mail ports
/// if it is blank, every port for `any` or `*`, or else the ports that it lists.
/// Port 0 and what is not a port are left out.
pub open spec fn ports_value(raw: Seq<char>) -> Option<Set<u16>> {
    let s = text::trim(raw);
    if s.len() == 0 {
        Some(dest::mail_ports())
    } else if text::lower(s) == "any"@ || s == "*"@ {
        None
    } else {
        Some(Set::new(|p: u16| p != 0 && lists_port(text::split(s, ','), p)))
    }
}

/// Reads a list of ports with commas between them.
pub fn parse_allowed_ports(raw: &str) -> (r: Option<HashSet<u16>>)
    ensures
        match r {
            Some(set) => ports_value(raw@) == Some(set@),
            None => ports_value(raw@) is None,
        },
{
    let chars = text::chars_of(raw);
    let s = text::trim_chars(chars.as_slice());
    if s.len() == 0 {
        return Some(dest::default_ports());
    }
    let low = text::lower_chars(s);
    if text::says(low.as_slice(), "any") || text::says(s, "*") {
        return None;
    }
    let parts = text::split_chars(s, ',');
    let ghost q = text::split(s@, ',');
    let mut set: HashSet<u16> = HashSet::new();
    let mut i: usize = 0;
    assert(set@ =~= Set::new(|p: u16| p != 0 && lists_port(q.take(0), p)));
    while i < parts.len()
        invariant
            i <= parts@.len() == q.len(),
            forall|k: int| 0 <= k < q.len() ==> (#[trigger] parts@[k])@ == q[k],
            set@ == Set::new(|p: u16| p != 0 && lists_port(q.take(i as int), p)),
        decreases parts@.len() - i,
    {
        let ghost before = set@;
        assert(parts@[i as int]@ == q[i as int]);
        let port = text::read_unsigned(text::trim_chars(parts[i]), u16::MAX as u64);
        if let Some(n) = port {
            if n != 0 {
                set.insert(n as u16);
            }
        }
        assert(set@ =~= Set::new(|p: u16| p != 0 && lists_port(q.take(i + 1), p))) by {
            assert forall|p: u16|
                set@.contains(p) == (p != 0 && lists_port(q.take(i + 1), p)) by {
                if lists_port(q.take(i as int), p) {
                    let k = choose|k: int|
                        0 <= k < i && text::unsigned_value(
                            text::trim(#[trigger] q.take(i as int)[k]),
                            u16::MAX as int,
                        ) == Some(p as int);
                    assert(q.take(i + 1)[k] == q.take(i as int)[k]);
                }
                if lists_port(q.take(i + 1), p) {
                    let k = choose|k: int|
                        0 <= k < i + 1 && text::unsigned_value(
                            text::trim(#[trigger] q.take(i + 1)[k]),
                            u16::MAX as int,
                        ) == Some(p as int);
                    if k < i {
                        assert(q.take(i as int)[k] == q.take(i + 1)[k]);
                    }
                }
                assert(q.take(i + 1)[i as int] == q[i as int]);
            }
        }
        i += 1;
    }
    assert(q.take(i as int) =~= q);
    Some(set)
}

/// Whether one of `parts`, trimmed, is `name`.
pub open spec fn lists_name(parts: Seq<Seq<char>>, name: Seq<char>) -> bool {
    exists|i: int| 0 <= i < parts.len() && text::trim(#[trigger] parts[i]) == name
}

/// The names that `raw` lists with commas between them, without white space
/// around them; blank ones are left out.
pub open spec fn names_value(raw: Seq<char>) -> Set<Seq<char>> {
    Set::new(|name: Seq<char>| name.len() > 0 && lists_name(text::split(raw, ','), name))
}

/// Comma-separated list. Empty or unset gives the empty set: nothing is restricted.
pub fn parse_csv_set(raw: &str) -> (r: NameSet)
    ensures
        r@ == names_value(raw@),
{
    let chars = text::chars_of(raw);
    let parts = text::split_chars(chars.as_slice(), ',');
    let ghost q = text::split(raw@, ',');
    let mut set = NameSet::new();
    let mut i: usize = 0;
    assert(set@ =~= Set::new(|n: Seq<char>| n.len() > 0 && lists_name(q.take(0), n)));
    while i < parts.len()
        invariant
            i <= parts@.len() == q.len(),
            forall|k: int| 0 <= k < q.len() ==> (#[trigger] parts@[k])@ == q[k],
            set@ == Set::new(|n: Seq<char>| n.len() > 0 && lists_name(q.take(i as int), n)),
        decreases parts@.len() - i,
    {
        assert(parts@[i as int]@ == q[i as int]);
        let name = text::trim_chars(parts[i]);
        if name.len() > 0 {
            set.insert(text::string_of(name));
        }
        assert(set@ =~= Set::new(|n: Seq<char>| n.len() > 0 && lists_name(q.take(i + 1), n))) by {
            assert forall|n: Seq<char>|
                set@.contains(n) == (n.len() > 0 && lists_name(q.take(i + 1), n)) by {
                if lists_name(q.take(i as int), n) {
                    let k = choose|k: int|
                        0 <= k < i && text::trim(#[trigger] q.take(i as int)[k]) == n;
                    assert(q.take(i + 1)[k] == q.take(i as int)[k]);
                }
                if lists_name(q.take(i + 1), n) {
                    let k = choose|k: int|
                        0 <= k < i + 1 && text::trim(#[trigger] q.take(i + 1)[k]) == n;
                    if k < i {
                        assert(q.take(i as int)[k] == q.take(i + 1)[k]);
                    }
                }
                assert(q.take(i + 1)[i as int] == q[i as int]);
            }
        }
        i += 1;
    }
    assert(q.take(i as int) =~= q);
    set
}

/// Normalize a Host header or allowlist entry for comparison.
pub fn normalize_host(host: &str) -> (r: String)
    ensures
        r@ == dest::normal_hostname(host@),
{
    dest::normalize_hostname(host)
}

/// An origin as it is compared: the scheme in lower case and the rest as a host
/// name. `*` stands for itself.
pub open spec fn normal_origin(origin: Seq<char>) -> Seq<char> {
    let s = text::trim(origin);
    let i = text::find_text(s, "://"@) as int;
    if s == "*"@ {
        s
    } else if i == s.len() {
        text::lower(s)
    } else {
        text::lower(s.take(i)) + "://"@ + dest::normal_hostname(s.skip(i + 3))
    }
}

/// Normalize an Origin (`scheme://host[:port]`) for comparison.
pub fn normalize_origin(origin: &str) -> (r: String)
    ensures
        r@ == normal_origin(origin@),
{
    let chars = text::chars_of(origin);
    let s = text::trim_chars(chars.as_slice());
    if text::says(s, "*") {
        return text::string_of(s);
    }
    let mark = text::chars_of("://");
    proof {
        reveal_strlit("://");
    }
    let i = text::find_text_chars(s, mark.as_slice());
    if i == s.len() {
        let low = text::lower_chars(s);
        return text::string_of(low.as_slice());
    }
    let scheme = slice_subrange(s, 0, i);
    let rest = slice_subrange(s, i + 3, s.len());
    assert(scheme@ =~= s@.take(i as int));
    assert(rest@ =~= s@.skip(i + 3));
    let mut out = text::lower_chars(scheme);
    text::push_all(&mut out, mark.as_slice());
    let host = dest::normalize_chars(rest);
    text::push_all(&mut out, host.as_slice());
    text::string_of(out.as_slice())
}

#[derive(Debug, Clone, Copy, PartialEq, Eq, Structural)]
pub enum AuthMode {
    /// Require a Paseto v4.local token bound to `remote` with a non-empty `exp`.
    Paseto,
    /// Public reflector: destination policy and limits decide. Token ignored.
    Public,
}

/// The secret that Paseto tokens are encrypted under.
#[derive(Clone, Copy)]
pub struct SecretKey {
    pub bytes: [u8; 32],
}

pub struct Config {
    pub bind_addr: String,
    pub listen_port: u16,
    pub secret_key: Option<SecretKey>,
    pub metrics_auth_key: Option<String>,
    /// If set, `/metrics` is served only on this bind address (e.g. `127.0.0.1:9401`).
    pub metrics_bind: Option<String>,
    pub auth_mode: AuthMode,
    /// How long the WebSocket may be idle before we send a keepalive ping.
    /// Idle alone never closes the connection (IMAP clients are often quiet).
    pub ws_idle_timeout: Duration,
    pub ws_write_timeout: Duration,
    pub tcp_write_timeout: Duration,
    pub tcp_connect_timeout: Duration,
    pub dns_timeout: Duration,
    pub dest: DestPolicy,
    pub limits: LimitsConfig,
    /// Combined up+down bytes on a single session. `0` = unlimited.
    pub max_bytes_per_connection: u64,
    /// Hard session lifetime. Zero = unlimited.
    pub max_lifetime: Duration,
    /// Honour `CF-Connecting-IP`, `X-Real-IP`, then `X-Forwarded-For` instead of
    /// the TCP peer. Headers are used only when the TCP peer is in
    /// [`Self::trusted_proxies`].
    pub trust_forwarded_client_ip: bool,
    /// CIDRs of reverse proxies allowed to set the forwarded-client header.
    /// If empty, forwarded headers are ignored even if trust is enabled.
    pub trusted_proxies: Vec<Cidr>,
    /// Run TLS-SNI / IMAP / SMTP greeting probes on well-known mail ports.
    pub require_protocol_probe: bool,
    /// If non-empty, a browser `Origin` must be in this set. Requests with
    /// no Origin (native clients) are still accepted. `*` allows any Origin.
    pub allowed_origins: NameSet,
    /// If non-empty, the HTTP `Host` header must match one of these
    /// values (case-insensitive, optional `:port`).
    pub allowed_hosts: NameSet,
    /// Max WebSocket message size.
    pub ws_max_message_bytes: usize,
    /// Max WebSocket frame size.
    pub ws_max_frame_bytes: usize,
    /// Reject Paseto tokens whose `exp` is further ahead than this.
    /// Zero disables the cap.
    pub paseto_max_ttl: Duration,
}

/// What every built-in configuration has in common.
pub open spec fn built_in(c: Config) -> bool {
    &&& c.bind_addr@ == "0.0.0.0"@
    &&& c.listen_port == 9400
    &&& c.secret_key is None
    &&& c.metrics_auth_key is None
    &&& c.metrics_bind is None
    &&& c.auth_mode is Paseto
    &&& c.ws_idle_timeout.nanos == 30_000_000_000
    &&& c.ws_write_timeout.nanos == 30_000_000_000
    &&& c.tcp_write_timeout.nanos == 30_000_000_000
    &&& c.tcp_connect_timeout.nanos == 30_000_000_000
    &&& c.dns_timeout.nanos == 5_000_000_000
    &&& !c.trust_forwarded_client_ip
    &&& c.trusted_proxies@.len() == 0
    &&& c.allowed_origins@ == Set::<Seq<char>>::empty()
    &&& c.allowed_hosts@ == Set::<Seq<char>>::empty()
    &&& c.ws_max_message_bytes == 1_048_576
    &&& c.ws_max_frame_bytes == 262_144
    &&& c.paseto_max_ttl.nanos == 3_600_000_000_000
}

/// The configuration of a proxy that nothing was set for.
pub open spec fn is_default(c: Config) -> bool {
    &&& built_in(c)
    &&& dest::is_default(c.dest)
    &&& limits::is_default(c.limits)
    &&& c.max_bytes_per_connection == 262_144_000
    &&& c.max_lifetime.nanos == 86_400_000_000_000
    &&& c.require_protocol_probe
}

/// A configuration without destination, rate or protocol restrictions.
pub open spec fn is_for_tests(c: Config) -> bool {
    &&& built_in(c)
    &&& dest::is_unrestricted(c.dest)
    &&& limits::is_unlimited(c.limits)
    &&& c.max_bytes_per_connection == 0
    &&& c.max_lifetime.nanos == 0
    &&& !c.require_protocol_probe
}

impl Default for Config {
    fn default() -> (r: Self)
        ensures
            is_default(r),
            r.valid(),
    {
        Config {
            bind_addr: "0.0.0.0".to_owned(),
            listen_port: 9400,
            secret_key: None,
            metrics_auth_key: None,
            metrics_bind: None,
            auth_mode: AuthMode::Paseto,
            // 30s is a reasonable keepalive interval; idle IMAP is expected
            // and never kills the connection on its own.
            ws_idle_timeout: Duration::from_secs(30),
            ws_write_timeout: Duration::from_secs(30),
            tcp_write_timeout: Duration::from_secs(30),
            tcp_connect_timeout: Duration::from_secs(30),
            dns_timeout: Duration::from_secs(5),
            dest: DestPolicy::default(),
            limits: LimitsConfig::default(),
            max_bytes_per_connection: 250 * 1024 * 1024,
            max_lifetime: Duration::from_secs(24 * 3600),
            trust_forwarded_client_ip: false,
            trusted_proxies: Vec::new(),
            require_protocol_probe: true,
            allowed_origins: NameSet::new(),
            allowed_hosts: NameSet::new(),
            ws_max_message_bytes: 1024 * 1024,
            ws_max_frame_bytes: 256 * 1024,
            paseto_max_ttl: Duration::from_secs(3600),
        }
    }
}

/// One line if `cond` holds, none otherwise.
pub open spec fn line_if(cond: bool, line: Seq<char>) -> Seq<Seq<char>> {
    if cond {
        seq![line]
    } else {
        Seq::empty()
    }
}

/// Why the policy of `c` is unsafe on the internet, one line for each reason.
pub open spec fn policy_errors(c: Config) -> Seq<Seq<char>> {
    line_if(
        c.dest.allowed_ports is None,
        "MAILINER_ALLOWED_PORTS=any/* opens every TCP port"@,
    ) + line_if(
        c.dest.allow_private_destinations,
        "MAILINER_ALLOW_PRIVATE_DESTS=1 enables SSRF to RFC1918/loopback"@,
    ) + line_if(
        c.dest.allow_ip_literals,
        "MAILINER_ALLOW_IP_LITERALS=1 allows raw IP destinations"@,
    ) + line_if(
        !c.require_protocol_probe,
        "MAILINER_REQUIRE_PROTOCOL_PROBE=0 disables the mail-protocol probes"@,
    ) + line_if(
        c.trust_forwarded_client_ip && c.trusted_proxies@.len() == 0,
        "MAILINER_TRUST_FORWARDED_CLIENT_IP=1 requires MAILINER_TRUSTED_PROXIES"@,
    ) + line_if(
        c.auth_mode is Public && any_origin(c),
        "MAILINER_AUTH=public requires MAILINER_ALLOWED_ORIGINS (not *)"@,
    )
}

/// Which caps of `c` on connections and attempts are off, one line for each.
pub open spec fn count_cap_errors(c: Config) -> Seq<Seq<char>> {
    line_if(
        c.limits.max_global_connections == 0,
        "MAILINER_MAX_GLOBAL_CONNECTIONS=0 disables that cap"@,
    ) + line_if(
        c.limits.max_conns_per_ip == 0,
        "MAILINER_MAX_CONNS_PER_IP=0 disables that cap"@,
    ) + line_if(
        c.limits.max_conns_per_dest == 0,
        "MAILINER_MAX_CONNS_PER_DEST=0 disables that cap"@,
    ) + line_if(
        c.limits.connects_per_ip == 0,
        "MAILINER_CONNECTS_PER_IP_PER_MIN=0 disables that cap"@,
    ) + line_if(
        c.limits.distinct_dests_per_ip == 0,
        "MAILINER_DISTINCT_DESTS_PER_IP_PER_MIN=0 disables that cap"@,
    ) + line_if(
        c.limits.global_connects == 0,
        "MAILINER_GLOBAL_CONNECTS_PER_SEC=0 disables that cap"@,
    )
}

/// Which caps of `c` on bytes and time are off, one line for each.
pub open spec fn volume_cap_errors(c: Config) -> Seq<Seq<char>> {
    line_if(
        c.max_bytes_per_connection == 0,
        "MAILINER_MAX_BYTES_PER_CONNECTION=0 disables that cap"@,
    ) + line_if(
        c.limits.max_bytes_per_ip == 0,
        "MAILINER_MAX_BYTES_PER_IP_PER_HOUR=0 disables that cap"@,
    ) + line_if(c.max_lifetime.nanos == 0, "MAILINER_MAX_LIFETIME_SECS=0 disables that cap"@)
}

/// Which caps of `c` are off, one line for each.
pub open spec fn cap_errors(c: Config) -> Seq<Seq<char>> {
    count_cap_errors(c) + volume_cap_errors(c)
}

/// Why `c` is unsafe on the internet, one line for each reason.
pub open spec fn safety_errors(c: Config) -> Seq<Seq<char>> {
    policy_errors(c) + cap_errors(c)
}

/// No origin is refused.
pub open spec fn any_origin(c: Config) -> bool {
    c.allowed_origins@ == Set::<Seq<char>>::empty() || c.allowed_origins@.contains("*"@)
}

/// The policy of `c` is safe on the internet: a list of ports, public addresses
/// only, no IP literals, probes on, no forwarded addresses from just anyone, and
/// origins restricted where no token is asked for.
pub open spec fn policy_safe(c: Config) -> bool {
    &&& c.dest.allowed_ports is Some
    &&& !c.dest.allow_private_destinations
    &&& !c.dest.allow_ip_literals
    &&& c.require_protocol_probe
    &&& c.trust_forwarded_client_ip ==> c.trusted_proxies@.len() > 0
    &&& c.auth_mode is Public ==> !any_origin(c)
}

/// None of the caps of `c` is off.
pub open spec fn caps_on(c: Config) -> bool {
    &&& c.limits.max_global_connections != 0
    &&& c.limits.max_conns_per_ip != 0
    &&& c.limits.max_conns_per_dest != 0
    &&& c.limits.connects_per_ip != 0
    &&& c.limits.distinct_dests_per_ip != 0
    &&& c.limits.global_connects != 0
    &&& c.max_bytes_per_connection != 0
    &&& c.limits.max_bytes_per_ip != 0
    &&& c.max_lifetime.nanos != 0
}

/// Nothing makes `c` unsafe on the internet.
pub open spec fn public_safe(c: Config) -> bool {
    policy_safe(c) && caps_on(c)
}

proof fn lemma_regroup(a: Seq<Seq<char>>, b: Seq<Seq<char>>, c: Seq<Seq<char>>)
    ensures
        a + b + c == a + (b + c),
{
    assert(a + b + c =~= a + (b + c));
}

proof fn lemma_regroup_six(
    x: Seq<Seq<char>>,
    a: Seq<Seq<char>>,
    b: Seq<Seq<char>>,
    c: Seq<Seq<char>>,
    d: Seq<Seq<char>>,
    e: Seq<Seq<char>>,
    f: Seq<Seq<char>>,
)
    ensures
        x + a + b + c + d + e + f == x + (a + b + c + d + e + f),
{
    lemma_regroup(x, a, b);
    lemma_regroup(x, a + b, c);
    lemma_regroup(x, a + b + c, d);
    lemma_regroup(x, a + b + c + d, e);
    lemma_regroup(x, a + b + c + d + e, f);
}

proof fn lemma_six_lines(
    a: Seq<Seq<char>>,
    b: Seq<Seq<char>>,
    c: Seq<Seq<char>>,
    d: Seq<Seq<char>>,
    e: Seq<Seq<char>>,
    f: Seq<Seq<char>>,
)
    ensures
        (a + b + c + d + e + f).len() == a.len() + b.len() + c.len() + d.len() + e.len() + f.len(),
{
}

/// One for what is so, and none for what is not.
pub open spec fn one_if(b: bool) -> nat {
    if b {
        1
    } else {
        0
    }
}

proof fn lemma_policy_lines(c: Config)
    ensures
        policy_errors(c).len() == one_if(c.dest.allowed_ports is None) + one_if(
            c.dest.allow_private_destinations,
        ) + one_if(c.dest.allow_ip_literals) + one_if(!c.require_protocol_probe) + one_if(
            c.trust_forwarded_client_ip && c.trusted_proxies@.len() == 0,
        ) + one_if(c.auth_mode is Public && any_origin(c)),
        policy_errors(c).len() == 0 <==> policy_safe(c),
{
    lemma_six_lines(
        line_if(
            c.dest.allowed_ports is None,
            "MAILINER_ALLOWED_PORTS=any/* opens every TCP port"@,
        ),
        line_if(
            c.dest.allow_private_destinations,
            "MAILINER_ALLOW_PRIVATE_DESTS=1 enables SSRF to RFC1918/loopback"@,
        ),
        line_if(
            c.dest.allow_ip_literals,
            "MAILINER_ALLOW_IP_LITERALS=1 allows raw IP destinations"@,
        ),
        line_if(
            !c.require_protocol_probe,
            "MAILINER_REQUIRE_PROTOCOL_PROBE=0 disables the mail-protocol probes"@,
        ),
        line_if(
            c.trust_forwarded_client_ip && c.trusted_proxies@.len() == 0,
            "MAILINER_TRUST_FORWARDED_CLIENT_IP=1 requires MAILINER_TRUSTED_PROXIES"@,
        ),
        line_if(
            c.auth_mode is Public && any_origin(c),
            "MAILINER_AUTH=public requires MAILINER_ALLOWED_ORIGINS (not *)"@,
        ),
    );
}

proof fn lemma_cap_lines(c: Config)
    ensures
        count_cap_errors(c).len() == one_if(c.limits.max_global_connections == 0) + one_if(
            c.limits.max_conns_per_ip == 0,
        ) + one_if(c.limits.max_conns_per_dest == 0) + one_if(c.limits.connects_per_ip == 0)
            + one_if(c.limits.distinct_dests_per_ip == 0) + one_if(c.limits.global_connects == 0),
        cap_errors(c).len() == 0 <==> caps_on(c),
{
    lemma_six_lines(
        line_if(
            c.limits.max_global_connections == 0,
            "MAILINER_MAX_GLOBAL_CONNECTIONS=0 disables that cap"@,
        ),
        line_if(
            c.limits.max_conns_per_ip == 0,
            "MAILINER_MAX_CONNS_PER_IP=0 disables that cap"@,
        ),
        line_if(
            c.limits.max_conns_per_dest == 0,
            "MAILINER_MAX_CONNS_PER_DEST=0 disables that cap"@,
        ),
        line_if(
            c.limits.connects_per_ip == 0,
            "MAILINER_CONNECTS_PER_IP_PER_MIN=0 disables that cap"@,
        ),
        line_if(
            c.limits.distinct_dests_per_ip == 0,
            "MAILINER_DISTINCT_DESTS_PER_IP_PER_MIN=0 disables that cap"@,
        ),
        line_if(
            c.limits.global_connects == 0,
            "MAILINER_GLOBAL_CONNECTS_PER_SEC=0 disables that cap"@,
        ),
    );
}

/// A configuration is reported as safe exactly if nothing makes it unsafe.
pub proof fn law_no_errors_iff_safe(c: Config)
    ensures
        safety_errors(c).len() == 0 <==> public_safe(c),
{
    lemma_policy_lines(c);
    lemma_cap_lines(c);
}

/// The configuration of a proxy that nothing was set for is safe on the internet.
pub proof fn law_default_is_safe(c: Config)
    requires
        is_default(c),
    ensures
        safety_errors(c) == Seq::<Seq<char>>::empty(),
{
    law_no_errors_iff_safe(c);
}

/// A configuration without restrictions is reported as unsafe.
pub proof fn law_for_tests_is_unsafe(c: Config)
    requires
        is_for_tests(c),
    ensures
        safety_errors(c).len() > 0,
{
    law_no_errors_iff_safe(c);
}

/// Adds a line if `cond` holds.
fn report(lines: &mut Vec<String>, cond: bool, line: &str)
    ensures
        names::texts(final(lines)@) == names::texts(old(lines)@) + line_if(cond, line@),
{
    let ghost before = lines@;
    if cond {
        lines.push(line.to_owned());
    }
    assert(names::texts(lines@) =~= names::texts(before) + line_if(cond, line@));
}

impl Config {
    /// The trusted proxies are valid blocks.
    pub open spec fn valid(&self) -> bool {
        all_valid(self.trusted_proxies@)
    }

    /// Misconfigurations that make a public deployment unsafe.
    /// An empty list means the process may listen on the internet.
    pub fn public_safety_errors(&self) -> (r: Vec<String>)
        ensures
            names::texts(r@) == safety_errors(*self),
    {
        let mut errors: Vec<String> = Vec::new();
        assert(names::texts(errors@) =~= Seq::empty());
        self.report_policy(&mut errors);
        self.report_caps(&mut errors);
        assert(names::texts(errors@) =~= safety_errors(*self));
        errors
    }

    fn report_policy(&self, errors: &mut Vec<String>)
        ensures
            names::texts(final(errors)@) == names::texts(old(errors)@) + policy_errors(*self),
    {
        let ghost before = names::texts(errors@);
        report(
            errors,
            self.dest.allowed_ports.is_none(),
            "MAILINER_ALLOWED_PORTS=any/* opens every TCP port",
        );
        report(
            errors,
            self.dest.allow_private_destinations,
            "MAILINER_ALLOW_PRIVATE_DESTS=1 enables SSRF to RFC1918/loopback",
        );
        report(
            errors,
            self.dest.allow_ip_literals,
            "MAILINER_ALLOW_IP_LITERALS=1 allows raw IP destinations",
        );
        report(
            errors,
            !self.require_protocol_probe,
            "MAILINER_REQUIRE_PROTOCOL_PROBE=0 disables the mail-protocol probes",
        );
        report(
            errors,
            self.trust_forwarded_client_ip && self.trusted_proxies.len() == 0,
            "MAILINER_TRUST_FORWARDED_CLIENT_IP=1 requires MAILINER_TRUSTED_PROXIES",
        );
        report(
            errors,
            matches!(self.auth_mode, AuthMode::Public) && (self.allowed_origins.is_empty()
                || self.allowed_origins.contains("*")),
            "MAILINER_AUTH=public requires MAILINER_ALLOWED_ORIGINS (not *)",
        );
        proof {
            lemma_regroup_six(
                before,
                line_if(
                    self.dest.allowed_ports is None,
                    "MAILINER_ALLOWED_PORTS=any/* opens every TCP port"@,
                ),
                line_if(
                    self.dest.allow_private_destinations,
                    "MAILINER_ALLOW_PRIVATE_DESTS=1 enables SSRF to RFC1918/loopback"@,
                ),
                line_if(
                    self.dest.allow_ip_literals,
                    "MAILINER_ALLOW_IP_LITERALS=1 allows raw IP destinations"@,
                ),
                line_if(
                    !self.require_protocol_probe,
                    "MAILINER_REQUIRE_PROTOCOL_PROBE=0 disables the mail-protocol probes"@,
                ),
                line_if(
                    self.trust_forwarded_client_ip && self.trusted_proxies@.len() == 0,
                    "MAILINER_TRUST_FORWARDED_CLIENT_IP=1 requires MAILINER_TRUSTED_PROXIES"@,
                ),
                line_if(
                    self.auth_mode is Public && any_origin(*self),
                    "MAILINER_AUTH=public requires MAILINER_ALLOWED_ORIGINS (not *)"@,
                ),
            );
        }
    }

    fn report_caps(&self, errors: &mut Vec<String>)
        ensures
            names::texts(final(errors)@) == names::texts(old(errors)@) + cap_errors(*self),
    {
        let ghost before = names::texts(errors@);
        self.report_count_caps(errors);
        self.report_volume_caps(errors);
        proof {
            lemma_regroup(before, count_cap_errors(*self), volume_cap_errors(*self));
        }
    }

    fn report_count_caps(&self, errors: &mut Vec<String>)
        ensures
            names::texts(final(errors)@) == names::texts(old(errors)@) + count_cap_errors(*self),
    {
        let ghost before = names::texts(errors@);
        report(
            errors,
            self.limits.max_global_connections == 0,
            "MAILINER_MAX_GLOBAL_CONNECTIONS=0 disables that cap",
        );
        report(
            errors,
            self.limits.max_conns_per_ip == 0,
            "MAILINER_MAX_CONNS_PER_IP=0 disables that cap",
        );
        report(
            errors,
            self.limits.max_conns_per_dest == 0,
            "MAILINER_MAX_CONNS_PER_DEST=0 disables that cap",
        );
        report(
            errors,
            self.limits.connects_per_ip == 0,
            "MAILINER_CONNECTS_PER_IP_PER_MIN=0 disables that cap",
        );
        report(
            errors,
            self.limits.distinct_dests_per_ip == 0,
            "MAILINER_DISTINCT_DESTS_PER_IP_PER_MIN=0 disables that cap",
        );
        report(
            errors,
            self.limits.global_connects == 0,
            "MAILINER_GLOBAL_CONNECTS_PER_SEC=0 disables that cap",
        );
        proof {
            lemma_regroup_six(
                before,
                line_if(
                    self.limits.max_global_connections == 0,
                    "MAILINER_MAX_GLOBAL_CONNECTIONS=0 disables that cap"@,
                ),
                line_if(
                    self.limits.max_conns_per_ip == 0,
                    "MAILINER_MAX_CONNS_PER_IP=0 disables that cap"@,
                ),
                line_if(
                    self.limits.max_conns_per_dest == 0,
                    "MAILINER_MAX_CONNS_PER_DEST=0 disables that cap"@,
                ),
                line_if(
                    self.limits.connects_per_ip == 0,
                    "MAILINER_CONNECTS_PER_IP_PER_MIN=0 disables that cap"@,
                ),
                line_if(
                    self.limits.distinct_dests_per_ip == 0,
                    "MAILINER_DISTINCT_DESTS_PER_IP_PER_MIN=0 disables that cap"@,
                ),
                line_if(
                    self.limits.global_connects == 0,
                    "MAILINER_GLOBAL_CONNECTS_PER_SEC=0 disables that cap"@,
                ),
            );
        }
    }

    fn report_volume_caps(&self, errors: &mut Vec<String>)
        ensures
            names::texts(final(errors)@) == names::texts(old(errors)@) + volume_cap_errors(*self),
    {
        let ghost before = names::texts(errors@);
        report(
            errors,
            self.max_bytes_per_connection == 0,
            "MAILINER_MAX_BYTES_PER_CONNECTION=0 disables that cap",
        );
        report(
            errors,
            self.limits.max_bytes_per_ip == 0,
            "MAILINER_MAX_BYTES_PER_IP_PER_HOUR=0 disables that cap",
        );
        report(
            errors,
            self.max_lifetime.is_zero(),
            "MAILINER_MAX_LIFETIME_SECS=0 disables that cap",
        );
        assert(names::texts(errors@) =~= before + volume_cap_errors(*self));
    }

    /// Loopback echo tests: no dest/rate/proto restrictions.
    pub fn for_tests() -> (r: Self)
        ensures
            is_for_tests(r),
            r.valid(),
    {
        let mut r = Config::default();
        r.dest = DestPolicy::unrestricted();
        r.limits = LimitsConfig::unlimited();
        r.max_bytes_per_connection = 0;
        r.max_lifetime = Duration::from_secs(0);
        r.require_protocol_probe = false;
        r
    }
}

/// A block holds its own address.
pub proof fn law_block_holds_its_address(c: Cidr)
    ensures
        c.covers(c.addr),
{
}

/// A block of a whole family holds every address of the family.
pub proof fn law_empty_prefix_holds_all(c: Cidr, ip: IpAddr)
    requires
        c.bits == 0,
        width_of(c.addr) == width_of(ip),
    ensures
        c.covers(ip),
{
    ip::lemma_pow2_widths();
    match (c.addr, ip) {
        (IpAddr::V4(p), IpAddr::V4(x)) => {
            vstd::arithmetic::div_mod::lemma_basic_div(x.bits as int, 0x1_0000_0000);
            vstd::arithmetic::div_mod::lemma_basic_div(p.bits as int, 0x1_0000_0000);
        },
        (IpAddr::V6(p), IpAddr::V6(x)) => {
            let all = 0x1_0000_0000_0000_0000_0000_0000_0000_0000int;
            vstd::arithmetic::div_mod::lemma_basic_div(x.bits as int, all);
            vstd::arithmetic::div_mod::lemma_basic_div(p.bits as int, all);
            if let (Some(p4), Some(x4)) = (p.mapped(), x.mapped()) {
                vstd::arithmetic::div_mod::lemma_basic_div(x4.bits as int, 0x1_0000_0000);
                vstd::arithmetic::div_mod::lemma_basic_div(p4.bits as int, 0x1_0000_0000);
            }
        },
        _ => {},
    }
}

/// Origins are compared without regard to ASCII case.
pub proof fn law_origin_case_is_ignored(origin: Seq<char>)
    ensures
        normal_origin(text::lower(origin)) == normal_origin(origin),
{
    let s = text::trim(origin);
    let mark = "://"@;
    reveal_strlit("://");
    reveal_strlit("*");
    text::lemma_trim_lower(origin);
    assert(text::trim(text::lower(origin)) == text::lower(s));
    assert(text::lower(s) == "*"@ <==> s == "*"@) by {
        if s.len() == 1 {
            text::lemma_lower_char(s[0]);
        }
        if s == "*"@ {
            assert(text::lower(s) =~= "*"@);
        }
        assert(text::lower(s).len() == s.len());
        if text::lower(s) == "*"@ {
            assert(s.len() == 1);
            assert(text::lower(s)[0] == text::lower_char(s[0]));
            assert(s =~= "*"@);
        }
    }
    if s == "*"@ {
        assert(text::lower(s) =~= s);
    } else {
        text::lemma_find_text_lower(s, mark);
        text::lemma_lower_twice(s);
        let i = text::find_text(s, mark) as int;
        if i < s.len() {
            text::lemma_found_text(s, mark);
            let l = text::lower(s);
            assert(l.take(i) =~= text::lower(s.take(i)));
            text::lemma_lower_twice(s.take(i));
            assert(l.skip(i + 3) =~= text::lower(s.skip(i + 3)));
            dest::law_host_case_is_ignored(s.skip(i + 3));
        } else {
            text::lemma_found_text(s, mark);
        }
    }
}

/// No list of ports allows port 0.
pub proof fn law_port_zero_is_never_allowed(raw: Seq<char>)
    ensures
        ports_value(raw) matches Some(ports) ==> !ports.contains(0),
{
}

/// An address, a slash and a length are read as that block, if the length is no more
/// than an address has bits, and an address alone is a block of its own.
pub proof fn law_block_is_read(address: Seq<char>, addr: IpAddr, bits: nat)
    requires
        ip::ip_value(address) == Some(addr),
        address.len() > 0,
        !address.contains('/'),
        text::trim(address) == address,
    ensures
        ({
            let width: nat = if addr is V4 {
                32
            } else {
                128
            };
            &&& cidr_value(address.push('/') + text::digits(bits, 10)) == if bits <= width {
                Some(Cidr { addr, bits: bits as u8 })
            } else {
                None
            }
            &&& cidr_value(address) == Some(Cidr { addr, bits: width as u8 })
        }),
{
    let d = text::digits(bits, 10);
    let s = address.push('/') + d;
    let n = address.len() as int;
    text::law_digits_read_back(bits, 10);
    text::law_unsigned_is_read(bits, 0, 255);
    assert(text::zeros(0) + d =~= d);
    text::lemma_trimmed_ends(address);
    assert(0 <= text::digit_value(d[d.len() - 1]) < 10);
    assert(s.first() == address.first() && s.last() == d.last());
    text::lemma_trim_keeps(s);
    assert forall|i: int| 0 <= i < n implies s[i] != '/' && address[i] != '/' by {
        assert(address.contains(address[i]));
    }
    text::lemma_find(s, '/', n);
    text::lemma_find(address, '/', n);
    assert(s.take(n) =~= address);
    assert(s.skip(n + 1) =~= d);
}

/// A block holds the addresses of its family that agree with it in its leading bits,
/// counted as numbers. A block of IPv4 also holds them as IPv4-mapped addresses, and a
/// block of IPv6 holds no IPv4 address.
pub proof fn law_block_holds(
    prefix4: ip::Ipv4Addr,
    x4: ip::Ipv4Addr,
    prefix6: ip::Ipv6Addr,
    x6: ip::Ipv6Addr,
    bits: u8,
)
    requires
        bits <= 32,
    ensures
        ({
            let four = Cidr { addr: IpAddr::V4(prefix4), bits };
            let six = Cidr { addr: IpAddr::V6(prefix6), bits };
            let low4 = vstd::arithmetic::power2::pow2((32 - bits) as nat) as int;
            let low6 = vstd::arithmetic::power2::pow2((128 - bits) as nat) as int;
            &&& four.covers(IpAddr::V4(x4)) <==> x4.bits as int / low4 == prefix4.bits as int
                / low4
            &&& four.covers(IpAddr::V6(x6)) <==> x6.bits as int / 0x1_0000_0000 == 0xffff && (
            x6.bits as int % 0x1_0000_0000) / low4 == prefix4.bits as int / low4
            &&& !six.covers(IpAddr::V4(x4))
            &&& x6.bits as int / 0x1_0000_0000 != 0xffff ==> (six.covers(IpAddr::V6(x6))
                <==> x6.bits as int / low6 == prefix6.bits as int / low6)
        }),
{
}

/// A longer prefix of IPv6 counts all its bits.
pub proof fn law_long_block_holds(prefix: ip::Ipv6Addr, x: ip::Ipv6Addr, bits: u8)
    requires
        bits <= 128,
        x.bits as int / 0x1_0000_0000 != 0xffff,
    ensures
        ({
            let low = vstd::arithmetic::power2::pow2((128 - bits) as nat) as int;
            (Cidr { addr: IpAddr::V6(prefix), bits }).covers(IpAddr::V6(x)) <==> x.bits as int / low
                == prefix.bits as int / low
        }),
{
}

/// Blocks are read one by one and in order: what two lists write is what the one and
/// then the other writes, and a list of one writes its block or nothing.
pub proof fn law_blocks_are_read_in_order(a: Seq<Seq<char>>, b: Seq<Seq<char>>, one: Seq<char>)
    ensures
        blocks(a + b) == blocks(a) + blocks(b),
        blocks(seq![one]) == match cidr_value(one) {
            Some(c) => seq![c],
            None => Seq::empty(),
        },
    decreases b.len(),
{
    let none = Seq::<Seq<char>>::empty();
    assert(seq![one].drop_last() =~= none);
    assert(blocks(none) =~= Seq::empty());
    if let Some(c) = cidr_value(one) {
        assert(blocks(seq![one]) =~= seq![c]);
    }
    if b.len() == 0 {
        assert(a + b =~= a);
        assert(blocks(b) =~= Seq::empty());
        assert(blocks(a) + blocks(b) =~= blocks(a));
    } else {
        law_blocks_are_read_in_order(a, b.drop_last(), one);
        assert((a + b).drop_last() =~= a + b.drop_last());
        assert(blocks(a + b) =~= blocks(a) + blocks(b));
    }
}

/// The texts of ports.
pub open spec fn port_texts(ports: Seq<u16>) -> Seq<Seq<char>> {
    ports.map_values(|p: u16| text::digits(p as nat, 10))
}

proof fn lemma_port_texts(ports: Seq<u16>, i: int)
    requires
        0 <= i < ports.len(),
    ensures
        ({
            let t = port_texts(ports)[i];
            &&& text::unsigned_value(text::trim(t), u16::MAX as int) == Some(ports[i] as int)
            &&& !t.contains(',')
            &&& t.len() > 0
            &&& forall|j: int| 0 <= j < t.len() ==> '0' <= #[trigger] t[j] <= '9'
        }),
{
    let n = ports[i] as nat;
    let t = text::digits(n, 10);
    text::law_digits_read_back(n, 10);
    text::law_unsigned_is_read(n, 0, u16::MAX as int);
    assert(text::zeros(0) + t =~= t);
    assert forall|j: int| 0 <= j < t.len() implies '0' <= #[trigger] t[j] <= '9' by {
        assert(0 <= text::digit_value(t[j]) < 10);
    }
    assert('0' <= t[0] <= '9' && '0' <= t[t.len() - 1] <= '9');
    text::lemma_trim_keeps(t);
}

/// A join of parts that are not empty begins like the first and ends like the last.
proof fn lemma_join_ends(parts: Seq<Seq<char>>, sep: char)
    requires
        parts.len() > 0,
        forall|i: int| 0 <= i < parts.len() ==> (#[trigger] parts[i]).len() > 0,
    ensures
        text::join(parts, sep).len() > 0,
        text::join(parts, sep).first() == parts[0].first(),
        text::join(parts, sep).last() == parts.last().last(),
    decreases parts.len(),
{
    assert(parts[0].len() > 0 && parts[parts.len() - 1].len() > 0);
    if parts.len() > 1 {
        let init = parts.drop_last();
        assert forall|i: int| 0 <= i < init.len() implies (#[trigger] init[i]).len() > 0 by {
            assert(init[i] == parts[i]);
        }
        lemma_join_ends(init, sep);
    }
}

/// A list of ports allows these ports and no others, but for port 0, which it never
/// does.
pub proof fn law_listed_ports_are_allowed(ports: Seq<u16>)
    requires
        ports.len() > 0,
    ensures
        ports_value(text::join(port_texts(ports), ',')) == Some(
            Set::new(|p: u16| p != 0 && ports.contains(p)),
        ),
{
    let parts = port_texts(ports);
    let raw = text::join(parts, ',');
    assert forall|i: int| 0 <= i < parts.len() implies !(#[trigger] parts[i]).contains(',')
        && parts[i].len() > 0 by {
        lemma_port_texts(ports, i);
    }
    text::law_split_undoes_join(parts, ',');
    lemma_join_ends(parts, ',');
    lemma_port_texts(ports, 0);
    lemma_port_texts(ports, ports.len() - 1);
    let last = parts.last();
    assert('0' <= parts[0][0] <= '9' && '0' <= last[last.len() - 1] <= '9');
    text::lemma_trim_keeps(raw);
    reveal_strlit("any");
    reveal_strlit("*");
    assert(text::lower(raw)[0] == text::lower_char(raw[0]));
    assert(raw[0] != '*');
    assert("any"@[0] == 'a' && "*"@[0] == '*');
    let want = Set::new(|p: u16| p != 0 && ports.contains(p));
    assert forall|p: u16| lists_port(parts, p) == ports.contains(p) by {
        if lists_port(parts, p) {
            let i = choose|i: int|
                0 <= i < parts.len() && text::unsigned_value(
                    text::trim(#[trigger] parts[i]),
                    u16::MAX as int,
                ) == Some(p as int);
            lemma_port_texts(ports, i);
            assert(ports[i] == p);
        }
        if ports.contains(p) {
            let i = choose|i: int| 0 <= i < ports.len() && ports[i] == p;
            lemma_port_texts(ports, i);
            assert(text::trim(parts[i]) == text::trim(port_texts(ports)[i]));
        }
    }
    assert(ports_value(raw)->0 =~= want);
}

/// Blank stands for the mail ports, and `any` in either case and `*` for every port.
pub proof fn law_special_ports(raw: Seq<char>)
    ensures
        text::trim(raw) == Seq::<char>::empty() ==> ports_value(raw) == Some(
            set![143u16, 993u16, 465u16, 587u16],
        ),
        text::trim(raw) == "*"@ ==> ports_value(raw) is None,
        text::lower(text::trim(raw)) == "any"@ ==> ports_value(raw) is None,
{
    reveal_strlit("any");
    reveal_strlit("*");
    assert("any"@.len() == 3 && "*"@.len() == 1);
    assert(dest::mail_ports() =~= set![143u16, 993u16, 465u16, 587u16]);
    if text::trim(raw) == Seq::<char>::empty() {
        assert(text::trim(raw).len() == 0);
    }
    if text::lower(text::trim(raw)) == "any"@ {
        assert(text::trim(raw).len() == 3);
    }
}

/// A list of names holds these names and no others.
pub proof fn law_listed_names_are_kept(names: Seq<Seq<char>>)
    requires
        names.len() > 0,
        text::free_of(names, ','),
        forall|i: int|
            0 <= i < names.len() ==> (#[trigger] names[i]).len() > 0 && text::trim(names[i])
                == names[i],
    ensures
        names_value(text::join(names, ',')) == names.to_set(),
{
    text::law_split_undoes_join(names, ',');
    let got = names_value(text::join(names, ','));
    assert forall|n: Seq<char>| got.contains(n) == names.to_set().contains(n) by {
        if got.contains(n) {
            let i = choose|i: int| 0 <= i < names.len() && text::trim(#[trigger] names[i]) == n;
            assert(names[i] == n);
        }
        if names.to_set().contains(n) {
            let i = choose|i: int| 0 <= i < names.len() && names[i] == n;
            assert(text::trim(names[i]) == n);
        }
    }
    assert(got =~= names.to_set());
}

/// An origin is compared by its scheme in small letters and its host as host names
/// are compared.
pub proof fn law_origin_is_normalized(scheme: Seq<char>, host: Seq<char>)
    requires
        scheme.len() > 0,
        !scheme.contains(':'),
        text::trim(scheme + "://"@ + host) == scheme + "://"@ + host,
    ensures
        normal_origin(scheme + "://"@ + host) == text::lower(scheme) + "://"@
            + dest::normal_hostname(host),
{
    reveal_strlit("://");
    reveal_strlit("*");
    let mark = "://"@;
    let s = scheme + mark + host;
    let n = scheme.len() as int;
    assert(mark.len() == 3 && mark[0] == ':');
    assert forall|i: int| 0 <= i < n implies !mark.is_prefix_of(#[trigger] s.skip(i)) by {
        assert(s.skip(i)[0] == scheme[i]);
        assert(scheme.contains(scheme[i]));
        if mark.is_prefix_of(s.skip(i)) {
            assert(s.skip(i).subrange(0, 3)[0] == mark[0]);
        }
    }
    assert(mark.is_prefix_of(s.skip(n))) by {
        assert(s.skip(n).subrange(0, 3) =~= mark);
    }
    text::lemma_find_text(s, mark, n);
    assert(s.take(n) =~= scheme);
    assert(s.skip(n + 3) =~= host);
    assert(s.len() > 1 && "*"@.len() == 1);
}

/// Every gap in a configuration is reported, with a line of its own, and nothing else
/// is.
pub proof fn law_every_gap_is_reported(c: Config)
    ensures
        policy_errors(c).len() == one_if(c.dest.allowed_ports is None) + one_if(
            c.dest.allow_private_destinations,
        ) + one_if(c.dest.allow_ip_literals) + one_if(!c.require_protocol_probe) + one_if(
            c.trust_forwarded_client_ip && c.trusted_proxies@.len() == 0,
        ) + one_if(
            c.auth_mode is Public && ((forall|o: Seq<char>| !c.allowed_origins@.contains(o))
                || c.allowed_origins@.contains("*"@)),
        ),
        count_cap_errors(c).len() == one_if(c.limits.max_global_connections == 0) + one_if(
            c.limits.max_conns_per_ip == 0,
        ) + one_if(c.limits.max_conns_per_dest == 0) + one_if(c.limits.connects_per_ip == 0)
            + one_if(c.limits.distinct_dests_per_ip == 0) + one_if(c.limits.global_connects == 0),
        volume_cap_errors(c).len() == one_if(c.max_bytes_per_connection == 0) + one_if(
            c.limits.max_bytes_per_ip == 0,
        ) + one_if(c.max_lifetime.nanos == 0),
        safety_errors(c) == policy_errors(c) + (count_cap_errors(c) + volume_cap_errors(c)),
{
    lemma_policy_lines(c);
    lemma_cap_lines(c);
    let origins = c.allowed_origins@;
    if forall|o: Seq<char>| !origins.contains(o) {
        assert(origins =~= Set::<Seq<char>>::empty());
    }
}

/// What a proxy is set to that nothing was set for: 5000 connections, 16 of them for a
/// client and 200 for a destination, 10 attempts and 10 destinations a minute for a
/// client, 20 attempts a second in all, 250 MiB for a session and 1 GiB an hour for a
/// client, sessions of a day at most, and clients told apart by address or by /64.
pub proof fn law_default_numbers(c: Config)
    requires
        is_default(c),
    ensures
        c.listen_port == 9400,
        c.limits.max_global_connections == 5000,
        c.limits.max_conns_per_ip == 16,
        c.limits.max_conns_per_dest == 200,
        c.limits.connects_per_ip == 10,
        c.limits.connects_per_ip_window.nanos == 60 * 1_000_000_000,
        c.limits.distinct_dests_per_ip == 10,
        c.limits.distinct_dests_window.nanos == 60 * 1_000_000_000,
        c.limits.global_connects == 20,
        c.limits.global_connects_window.nanos == 1_000_000_000,
        c.max_bytes_per_connection == 250 * 1024 * 1024,
        c.limits.max_bytes_per_ip == 1024 * 1024 * 1024,
        c.limits.bytes_window.nanos == 3600 * 1_000_000_000,
        c.max_lifetime.nanos == 24 * 3600 * 1_000_000_000,
        c.limits.ipv4_prefix == 32,
        c.limits.ipv6_prefix == 64,
        c.limits.max_tracked_ips == 50_000,
        c.ws_max_message_bytes == 1024 * 1024,
        c.ws_max_frame_bytes == 256 * 1024,
        c.dns_timeout.nanos == 5 * 1_000_000_000,
        c.tcp_connect_timeout.nanos == 30 * 1_000_000_000,
        c.tcp_write_timeout.nanos == 30 * 1_000_000_000,
        c.ws_write_timeout.nanos == 30 * 1_000_000_000,
        c.ws_idle_timeout.nanos == 30 * 1_000_000_000,
        c.paseto_max_ttl.nanos == 3600 * 1_000_000_000,
{
}

/// Where a block and an address are both IPv4-mapped, the block holds the address as
/// its IPv4 form would, and with 32 bits or more only its own address.
pub proof fn law_mapped_block_holds(
    prefix: ip::Ipv6Addr,
    prefix4: ip::Ipv4Addr,
    x: ip::Ipv6Addr,
    x4: ip::Ipv4Addr,
    bits: u8,
)
    requires
        prefix.bits == 0xffff_0000_0000 + prefix4.bits,
        x.bits == 0xffff_0000_0000 + x4.bits,
        bits <= 128,
    ensures
        ({
            let covers = (Cidr { addr: IpAddr::V6(prefix), bits }).covers(IpAddr::V6(x));
            &&& bits <= 32 ==> covers == (Cidr { addr: IpAddr::V4(prefix4), bits }).covers(
                IpAddr::V4(x4),
            )
            &&& bits >= 32 ==> (covers <==> x4 == prefix4)
        }),
{
    assert(prefix.mapped() == Some(prefix4));
    assert(x.mapped() == Some(x4));
    vstd::arithmetic::power2::lemma2_to64();
    if bits >= 32 {
        assert(vstd::arithmetic::power2::pow2(0) == 1);
        assert(x4.bits as int / 1 == x4.bits && prefix4.bits as int / 1 == prefix4.bits);
        assert(ip::same_prefix(x4.bits as int, prefix4.bits as int, 32, 32) == (x4.bits
            == prefix4.bits));
        assert(limits::min(bits as int, 32) as nat == 32);
    } else {
        assert(limits::min(bits as int, 32) as nat == bits as nat);
    }
}

/// The names that a list keeps are not blank, and have no white space around them.
pub proof fn law_kept_names_are_trimmed(raw: Seq<char>, name: Seq<char>)
    requires
        names_value(raw).contains(name),
    ensures
        name.len() > 0,
        !text::is_space(name.first()),
        !text::is_space(name.last()),
{
    let parts = text::split(raw, ',');
    let i = choose|i: int| 0 <= i < parts.len() && text::trim(#[trigger] parts[i]) == name;
    text::lemma_trim_ends(parts[i]);
}

proof fn lemma_line(cond: bool, line: Seq<char>)
    requires
        cond,
    ensures
        line_if(cond, line).contains(line),
{
    assert(line_if(cond, line)[0] == line);
}

proof fn lemma_in_sum(a: Seq<Seq<char>>, b: Seq<Seq<char>>, line: Seq<char>)
    requires
        a.contains(line) || b.contains(line),
    ensures
        (a + b).contains(line),
{
    if a.contains(line) {
        let i = choose|i: int| 0 <= i < a.len() && a[i] == line;
        assert((a + b)[i] == line);
    } else {
        let i = choose|i: int| 0 <= i < b.len() && b[i] == line;
        assert((a + b)[a.len() + i] == line);
    }
}

proof fn lemma_in_six(
    a: Seq<Seq<char>>,
    b: Seq<Seq<char>>,
    c: Seq<Seq<char>>,
    d: Seq<Seq<char>>,
    e: Seq<Seq<char>>,
    f: Seq<Seq<char>>,
    line: Seq<char>,
)
    requires
        a.contains(line) || b.contains(line) || c.contains(line) || d.contains(line) || e.contains(
            line,
        ) || f.contains(line),
    ensures
        (a + b + c + d + e + f).contains(line),
{
    if a.contains(line) || b.contains(line) {
        lemma_in_sum(a, b, line);
    }
    if (a + b).contains(line) || c.contains(line) {
        lemma_in_sum(a + b, c, line);
    }
    if (a + b + c).contains(line) || d.contains(line) {
        lemma_in_sum(a + b + c, d, line);
    }
    if (a + b + c + d).contains(line) || e.contains(line) {
        lemma_in_sum(a + b + c + d, e, line);
    }
    lemma_in_sum(a + b + c + d + e, f, line);
}

/// A cap that is off is reported under the name of the variable that sets it.
pub proof fn law_open_caps_are_named(c: Config)
    ensures
        c.max_bytes_per_connection == 0 ==> volume_cap_errors(c).contains(
            "MAILINER_MAX_BYTES_PER_CONNECTION=0 disables that cap"@,
        ),
        c.limits.max_bytes_per_ip == 0 ==> volume_cap_errors(c).contains(
            "MAILINER_MAX_BYTES_PER_IP_PER_HOUR=0 disables that cap"@,
        ),
        c.max_lifetime.nanos == 0 ==> volume_cap_errors(c).contains(
            "MAILINER_MAX_LIFETIME_SECS=0 disables that cap"@,
        ),
        c.limits.max_global_connections == 0 ==> count_cap_errors(c).contains(
            "MAILINER_MAX_GLOBAL_CONNECTIONS=0 disables that cap"@,
        ),
        c.limits.max_conns_per_ip == 0 ==> count_cap_errors(c).contains(
            "MAILINER_MAX_CONNS_PER_IP=0 disables that cap"@,
        ),
        c.limits.max_conns_per_dest == 0 ==> count_cap_errors(c).contains(
            "MAILINER_MAX_CONNS_PER_DEST=0 disables that cap"@,
        ),
        c.limits.connects_per_ip == 0 ==> count_cap_errors(c).contains(
            "MAILINER_CONNECTS_PER_IP_PER_MIN=0 disables that cap"@,
        ),
        c.limits.distinct_dests_per_ip == 0 ==> count_cap_errors(c).contains(
            "MAILINER_DISTINCT_DESTS_PER_IP_PER_MIN=0 disables that cap"@,
        ),
        c.limits.global_connects == 0 ==> count_cap_errors(c).contains(
            "MAILINER_GLOBAL_CONNECTS_PER_SEC=0 disables that cap"@,
        ),
{
    let l0 = "MAILINER_MAX_BYTES_PER_CONNECTION=0 disables that cap"@;
    let l1 = "MAILINER_MAX_BYTES_PER_IP_PER_HOUR=0 disables that cap"@;
    let l2 = "MAILINER_MAX_LIFETIME_SECS=0 disables that cap"@;
    let v0 = line_if(c.max_bytes_per_connection == 0, l0);
    let v1 = line_if(c.limits.max_bytes_per_ip == 0, l1);
    let v2 = line_if(c.max_lifetime.nanos == 0, l2);
    let none = Seq::<Seq<char>>::empty();
    assert(volume_cap_errors(c) =~= v0 + v1 + v2 + none + none + none);
    if c.max_bytes_per_connection == 0 {
        lemma_line(true, l0);
        lemma_in_six(v0, v1, v2, none, none, none, l0);
    }
    if c.limits.max_bytes_per_ip == 0 {
        lemma_line(true, l1);
        lemma_in_six(v0, v1, v2, none, none, none, l1);
    }
    if c.max_lifetime.nanos == 0 {
        lemma_line(true, l2);
        lemma_in_six(v0, v1, v2, none, none, none, l2);
    }
    let t0 = "MAILINER_MAX_GLOBAL_CONNECTIONS=0 disables that cap"@;
    let t1 = "MAILINER_MAX_CONNS_PER_IP=0 disables that cap"@;
    let t2 = "MAILINER_MAX_CONNS_PER_DEST=0 disables that cap"@;
    let t3 = "MAILINER_CONNECTS_PER_IP_PER_MIN=0 disables that cap"@;
    let t4 = "MAILINER_DISTINCT_DESTS_PER_IP_PER_MIN=0 disables that cap"@;
    let t5 = "MAILINER_GLOBAL_CONNECTS_PER_SEC=0 disables that cap"@;
    let w0 = line_if(c.limits.max_global_connections == 0, t0);
    let w1 = line_if(c.limits.max_conns_per_ip == 0, t1);
    let w2 = line_if(c.limits.max_conns_per_dest == 0, t2);
    let w3 = line_if(c.limits.connects_per_ip == 0, t3);
    let w4 = line_if(c.limits.distinct_dests_per_ip == 0, t4);
    let w5 = line_if(c.limits.global_connects == 0, t5);
    if c.limits.max_global_connections == 0 {
        lemma_line(true, t0);
        lemma_in_six(w0, w1, w2, w3, w4, w5, t0);
    }
    if c.limits.max_conns_per_ip == 0 {
        lemma_line(true, t1);
        lemma_in_six(w0, w1, w2, w3, w4, w5, t1);
    }
    if c.limits.max_conns_per_dest == 0 {
        lemma_line(true, t2);
        lemma_in_six(w0, w1, w2, w3, w4, w5, t2);
    }
    if c.limits.connects_per_ip == 0 {
        lemma_line(true, t3);
        lemma_in_six(w0, w1, w2, w3, w4, w5, t3);
    }
    if c.limits.distinct_dests_per_ip == 0 {
        lemma_line(true, t4);
        lemma_in_six(w0, w1, w2, w3, w4, w5, t4);
    }
    if c.limits.global_connects == 0 {
        lemma_line(true, t5);
        lemma_in_six(w0, w1, w2, w3, w4, w5, t5);
    }
}

}
