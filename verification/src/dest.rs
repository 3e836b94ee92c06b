//! Destination policy: parse `remote=host:port`, allowlist ports, reject
//! non-global IPs, and keep only permitted addresses of what a name resolves to,
//! so that a later DNS answer cannot rebind a connection onto a private address.
use std::collections::HashSet;

use vstd::arithmetic::power2::pow2;
use vstd::prelude::*;
use vstd::slice::slice_subrange;

use crate::ip;
use crate::ip::{IpAddr, Ipv4Addr, Ipv6Addr, SocketAddr};
use crate::text;

verus! {

broadcast use vstd::std_specs::hash::group_hash_axioms;

/// IMAP / IMAPS / SMTP submission / SMTPS. Not 25 (open-relay spam).
pub const DEFAULT_ALLOWED_PORTS: [u16; 4] = [143, 993, 465, 587];

/// The longest DNS name, without a trailing root dot.
pub const MAX_HOSTNAME_LEN: usize = 253;

/// The longest label of a DNS name.
pub const MAX_DNS_LABEL_LEN: usize = 63;

#[derive(Debug, Clone, Copy, PartialEq, Eq, Structural)]
pub enum DestError {
    InvalidRemote,
    BadPort,
    IpLiteral,
    PrivateIp,
    Dns,
    Connect,
}

#[derive(Debug, Clone)]
pub struct DestPolicy {
    /// `None` = any port (tests / emergency). Production sets the mail ports.
    pub allowed_ports: Option<HashSet<u16>>,
    pub allow_private_destinations: bool,
    pub allow_ip_literals: bool,
}

/// The mail ports, as a set.
pub open spec fn mail_ports() -> Set<u16> {
    set![143u16, 993u16, 465u16, 587u16]
}

/// The mail ports, as a set.
pub fn default_ports() -> (r: HashSet<u16>)
    ensures
        r@ == mail_ports(),
{
    let mut set: HashSet<u16> = HashSet::new();
    let mut i: usize = 0;
    while i < 4
        invariant
            i <= 4,
            set@ == Set::new(|p: u16| exists|k: int| 0 <= k < i && DEFAULT_ALLOWED_PORTS@[k] == p),
        decreases 4 - i,
    {
        let ghost before = set@;
        set.insert(DEFAULT_ALLOWED_PORTS[i]);
        assert(set@ =~= Set::new(
            |p: u16| exists|k: int| 0 <= k < i + 1 && DEFAULT_ALLOWED_PORTS@[k] == p,
        )) by {
            assert forall|p: u16|
                set@.contains(p) == (exists|k: int|
                    0 <= k < i + 1 && DEFAULT_ALLOWED_PORTS@[k] == p) by {
                if before.contains(p) {
                    let k = choose|k: int| 0 <= k < i && DEFAULT_ALLOWED_PORTS@[k] == p;
                    assert(DEFAULT_ALLOWED_PORTS@[k] == p);
                }
                if p == DEFAULT_ALLOWED_PORTS@[i as int] {
                    assert(DEFAULT_ALLOWED_PORTS@[i as int] == p);
                }
            }
        }
        i += 1;
    }
    assert(set@ =~= mail_ports()) by {
        assert(DEFAULT_ALLOWED_PORTS@[0] == 143u16);
        assert(DEFAULT_ALLOWED_PORTS@[1] == 993u16);
        assert(DEFAULT_ALLOWED_PORTS@[2] == 465u16);
        assert(DEFAULT_ALLOWED_PORTS@[3] == 587u16);
    }
    set
}

/// Mail ports only, no private destinations, no IP literals.
pub open spec fn is_default(policy: DestPolicy) -> bool {
    &&& policy.allowed_ports matches Some(set)
    &&& set@ == mail_ports()
    &&& !policy.allow_private_destinations
    &&& !policy.allow_ip_literals
}

/// Everything is permitted.
pub open spec fn is_unrestricted(policy: DestPolicy) -> bool {
    &&& policy.allowed_ports is None
    &&& policy.allow_private_destinations
    &&& policy.allow_ip_literals
}

impl Default for DestPolicy {
    /// Mail ports only, no private destinations, no IP literals.
    fn default() -> (r: Self)
        ensures
            is_default(r),
    {
        DestPolicy {
            allowed_ports: Some(default_ports()),
            allow_private_destinations: false,
            allow_ip_literals: false,
        }
    }
}

impl DestPolicy {
    /// Everything is permitted.
    pub fn unrestricted() -> (r: Self)
        ensures
            is_unrestricted(r),
    {
        DestPolicy {
            allowed_ports: None,
            allow_private_destinations: true,
            allow_ip_literals: true,
        }
    }

    /// Whether the policy permits a port.
    pub open spec fn permits_port(self, port: u16) -> bool {
        match self.allowed_ports {
            None => true,
            Some(set) => set@.contains(port),
        }
    }

    /// Whether the policy permits dialing an address.
    pub open spec fn permits_ip(self, ip: IpAddr) -> bool {
        self.allow_private_destinations || global_unicast(ip)
    }

    /// Whether the policy permits a port.
    pub fn port_allowed(&self, port: u16) -> (r: bool)
        ensures
            r == self.permits_port(port),
    {
        match &self.allowed_ports {
            None => true,
            Some(set) => set.contains(&port),
        }
    }
}

/// A destination.
#[derive(Debug, Clone, PartialEq, Eq)]
pub struct Remote {
    /// Normalized hostname (lowercase, no trailing dots) or canonical IP text.
    pub host: String,
    pub port: u16,
    pub ip_literal: Option<IpAddr>,
}

/// What a destination says.
pub struct RemoteView {
    pub host: Seq<char>,
    pub port: u16,
    pub ip_literal: Option<IpAddr>,
}

impl View for Remote {
    type V = RemoteView;

    open spec fn view(&self) -> RemoteView {
        RemoteView { host: self.host@, port: self.port, ip_literal: self.ip_literal }
    }
}

impl RemoteView {
    /// `host:port`.
    pub open spec fn key(self) -> Seq<char> {
        self.host.push(':') + text::digits(self.port as nat, 10)
    }
}

impl Remote {
    /// `host:port`, the key under which connections to a destination are counted.
    pub fn dest_key(&self) -> (r: String)
        ensures
            r@ == self@.key(),
    {
        let mut out = text::chars_of(self.host.as_str());
        out.push(':');
        text::push_digits(&mut out, self.port as u64, 10);
        text::string_of(out.as_slice())
    }
}

/// A host name as it is compared and stored: no white space around it, no
/// trailing dots, ASCII lower case.
pub open spec fn normal_hostname(host: Seq<char>) -> Seq<char> {
    text::lower(text::trim_end_char(text::trim(host), '.'))
}

/// A host name as it is compared and stored.
pub fn normalize_hostname(host: &str) -> (r: String)
    ensures
        r@ == normal_hostname(host@),
{
    let chars = text::chars_of(host);
    let low = normalize_chars(chars.as_slice());
    text::string_of(low.as_slice())
}

/// A host name as it is compared and stored.
pub fn normalize_chars(host: &[char]) -> (r: Vec<char>)
    ensures
        r@ == normal_hostname(host@),
{
    text::lower_chars(text::trim_end_char_chars(text::trim_chars(host), '.'))
}

/// ASCII letters and digits.
pub open spec fn is_alphanumeric(c: char) -> bool {
    'a' <= c <= 'z' || 'A' <= c <= 'Z' || '0' <= c <= '9'
}

/// One label of a DNS name: 1 to 63 letters, digits and hyphens, with no hyphen at
/// either end.
pub open spec fn valid_label(s: Seq<char>) -> bool {
    &&& 1 <= s.len() <= MAX_DNS_LABEL_LEN
    &&& is_alphanumeric(s.first())
    &&& is_alphanumeric(s.last())
    &&& forall|i: int| 0 <= i < s.len() ==> is_alphanumeric(#[trigger] s[i]) || s[i] == '-'
}

/// A DNS name: valid labels with dots between them, at most 253 characters.
pub open spec fn valid_hostname(s: Seq<char>) -> bool {
    &&& s.len() <= MAX_HOSTNAME_LEN
    &&& forall|i: int|
        0 <= i < text::split(s, '.').len() ==> valid_label(#[trigger] text::split(s, '.')[i])
}

fn char_is_alphanumeric(c: char) -> (r: bool)
    ensures
        r == is_alphanumeric(c),
{
    ('a' <= c && c <= 'z') || ('A' <= c && c <= 'Z') || ('0' <= c && c <= '9')
}

fn is_valid_dns_label(label: &[char]) -> (r: bool)
    ensures
        r == valid_label(label@),
{
    let len: usize = label.len();
    if len == 0 || len > MAX_DNS_LABEL_LEN {
        return false;
    }
    if !char_is_alphanumeric(label[0]) || !char_is_alphanumeric(label[len - 1]) {
        return false;
    }
    let mut i: usize = 0;
    while i < len
        invariant
            i <= len == label@.len(),
            forall|k: int|
                0 <= k < i ==> is_alphanumeric(#[trigger] label@[k]) || label@[k] == '-',
        decreases len - i,
    {
        if !char_is_alphanumeric(label[i]) && label[i] != '-' {
            assert(!is_alphanumeric(label@[i as int]));
            return false;
        }
        i += 1;
    }
    true
}

/// True if `host` is a plausible DNS name (LDH labels). Used to reject
/// spaces, slashes, NULs, and arbitrarily long attacker-controlled strings
/// before they are stored in limit maps or sent to the resolver.
pub fn is_valid_dns_hostname(host: &str) -> (r: bool)
    ensures
        r == valid_hostname(host@),
{
    let chars = text::chars_of(host);
    valid_hostname_chars(chars.as_slice())
}

fn valid_hostname_chars(host: &[char]) -> (r: bool)
    ensures
        r == valid_hostname(host@),
{
    if host.len() > MAX_HOSTNAME_LEN {
        return false;
    }
    let labels = text::split_chars(host, '.');
    let n: usize = labels.len();
    let mut i: usize = 0;
    while i < n
        invariant
            i <= n == labels@.len() == text::split(host@, '.').len(),
            forall|k: int| 0 <= k < n ==> (#[trigger] labels@[k])@ == text::split(host@, '.')[k],
            forall|k: int| 0 <= k < i ==> valid_label(#[trigger] text::split(host@, '.')[k]),
        decreases n - i,
    {
        assert(labels@[i as int]@ == text::split(host@, '.')[i as int]);
        if !is_valid_dns_label(labels[i]) {
            return false;
        }
        i += 1;
    }
    true
}

/// One part of an `inet_aton` address: `0x` and hexadecimal, `0` and octal, or
/// decimal.
pub open spec fn loose_part(s: Seq<char>) -> Option<int> {
    if s.len() >= 2 && s[0] == '0' && (s[1] == 'x' || s[1] == 'X') {
        text::digits_value(s.skip(2), 16, u32::MAX as int)
    } else if s.len() > 1 && s[0] == '0' {
        text::digits_value(s, 8, u32::MAX as int)
    } else {
        text::digits_value(s, 10, u32::MAX as int)
    }
}

/// The address of one to four `inet_aton` parts: each part but the last is one
/// octet, and the last fills the octets that remain.
pub open spec fn loose_bits(p: Seq<int>) -> Option<int> {
    if p.len() == 1 {
        Some(p[0])
    } else if p.len() == 2 && p[0] <= 0xff && p[1] <= 0xff_ffff {
        Some(p[0] * 0x100_0000 + p[1])
    } else if p.len() == 3 && p[0] <= 0xff && p[1] <= 0xff && p[2] <= 0xffff {
        Some(p[0] * 0x100_0000 + p[1] * 0x1_0000 + p[2])
    } else if p.len() == 4 && p[0] <= 0xff && p[1] <= 0xff && p[2] <= 0xff && p[3] <= 0xff {
        Some(p[0] * 0x100_0000 + p[1] * 0x1_0000 + p[2] * 0x100 + p[3])
    } else {
        None
    }
}

/// The IPv4 address that `s` writes in any `inet_aton` form.
pub open spec fn loose_v4(s: Seq<char>) -> Option<Ipv4Addr> {
    let p = text::split(s, '.');
    if forall|i: int| 0 <= i < p.len() ==> loose_part(#[trigger] p[i]) is Some {
        match loose_bits(Seq::new(p.len(), |i: int| loose_part(p[i])->0)) {
            Some(bits) => Some(Ipv4Addr { bits: bits as u32 }),
            None => None,
        }
    } else {
        None
    }
}

/// inet_aton-style IPv4: 1-4 dotted parts, each decimal, `0`-octal, or `0x`-hex.
/// Matches the forms glibc `getaddrinfo` will turn into an A record without DNS.
fn parse_loose_ipv4(s: &[char]) -> (r: Option<Ipv4Addr>)
    ensures
        r == loose_v4(s@),
{
    let parts = text::split_chars(s, '.');
    let ghost q = text::split(s@, '.');
    let n: usize = parts.len();
    let mut nums: Vec<u32> = Vec::new();
    let mut i: usize = 0;
    while i < n
        invariant
            i <= n == parts@.len() == q.len(),
            q == text::split(s@, '.'),
            forall|k: int| 0 <= k < n ==> (#[trigger] parts@[k])@ == q[k],
            nums@.len() == i,
            forall|k: int| 0 <= k < i ==> loose_part(#[trigger] q[k]) == Some(nums@[k] as int),
        decreases n - i,
    {
        assert(parts@[i as int]@ == q[i as int]);
        match parse_ipv4_component(parts[i]) {
            Some(x) => {
                nums.push(x);
            },
            None => {
                return None;
            },
        }
        i += 1;
    }
    let ghost p = Seq::new(q.len(), |i: int| loose_part(q[i])->0);
    assert(forall|k: int| 0 <= k < n ==> p[k] == nums@[k]);
    let bits: u32 = if n == 1 {
        nums[0]
    } else if n == 2 {
        if nums[0] > 0xff || nums[1] > 0x00ff_ffff {
            return None;
        }
        nums[0] * 0x100_0000 + nums[1]
    } else if n == 3 {
        if nums[0] > 0xff || nums[1] > 0xff || nums[2] > 0xffff {
            return None;
        }
        nums[0] * 0x100_0000 + nums[1] * 0x1_0000 + nums[2]
    } else if n == 4 {
        if nums[0] > 0xff || nums[1] > 0xff || nums[2] > 0xff || nums[3] > 0xff {
            return None;
        }
        nums[0] * 0x100_0000 + nums[1] * 0x1_0000 + nums[2] * 0x100 + nums[3]
    } else {
        return None;
    };
    Some(Ipv4Addr { bits })
}

fn parse_ipv4_component(s: &[char]) -> (r: Option<u32>)
    ensures
        match r {
            Some(n) => loose_part(s@) == Some(n as int),
            None => loose_part(s@) is None,
        },
{
    let n = if s.len() >= 2 && s[0] == '0' && (s[1] == 'x' || s[1] == 'X') {
        let hex = slice_subrange(s, 2, s.len());
        assert(hex@ =~= s@.skip(2));
        text::read_digits(hex, 16, u32::MAX as u64)
    } else if s.len() > 1 && s[0] == '0' {
        text::read_digits(s, 8, u32::MAX as u64)
    } else {
        text::read_digits(s, 10, u32::MAX as u64)
    };
    match n {
        Some(n) => Some(n as u32),
        None => None,
    }
}

/// The text under which an IP literal is stored. An IPv4-mapped address is
/// written as the IPv4 address.
pub open spec fn canonical_text(ip: IpAddr) -> Seq<char> {
    match ip {
        IpAddr::V4(v4) => ip::v4_text(v4),
        IpAddr::V6(v6) => match v6.mapped() {
            Some(v4) => ip::v4_text(v4),
            None => ip::v6_text(v6),
        },
    }
}

/// The text under which an IP literal is stored.
pub fn ip_canonical(ip: IpAddr) -> (r: String)
    ensures
        r@ == canonical_text(ip),
{
    let mut out: Vec<char> = Vec::new();
    match ip {
        IpAddr::V4(v4) => ip::push_v4(&mut out, v4),
        IpAddr::V6(v6) => match v6.to_ipv4_mapped() {
            Some(v4) => ip::push_v4(&mut out, v4),
            None => ip::push_v6(&mut out, v6),
        },
    }
    assert(out@ =~= canonical_text(ip));
    text::string_of(out.as_slice())
}

/// The host and the port text of `host:port` or `[host]:port`.
pub open spec fn host_and_port(s: Seq<char>) -> Option<(Seq<char>, Seq<char>)> {
    if s.len() > 0 && s.first() == '[' {
        let rest = s.drop_first();
        let close = text::find(rest, ']') as int;
        if close + 1 < rest.len() && rest[close + 1] == ':' {
            Some((rest.take(close), rest.skip(close + 2)))
        } else {
            None
        }
    } else {
        let colon = text::rfind(s, ':');
        if colon < 0 || s.take(colon).contains(':') {
            None
        } else {
            Some((s.take(colon), s.skip(colon + 1)))
        }
    }
}

/// The address of an IP literal in any form that is understood.
pub open spec fn literal_value(host: Seq<char>) -> Option<IpAddr> {
    match ip::ip_value(host) {
        Some(ip) => Some(ip),
        None => match loose_v4(host) {
            Some(v4) => Some(IpAddr::V4(v4)),
            None => None,
        },
    }
}

/// The destination of a host and a port: an IP literal, also one that only shows
/// once the host is normalized, or else a DNS name.
pub open spec fn remote_of(host: Seq<char>, port: u16) -> Option<RemoteView> {
    let name = normal_hostname(host);
    let literal = match literal_value(host) {
        Some(ip) => Some(ip),
        None => if valid_hostname(name) {
            literal_value(name)
        } else {
            None
        },
    };
    match literal {
        Some(ip) => Some(
            RemoteView { host: canonical_text(ip), port, ip_literal: Some(ip) },
        ),
        None => if valid_hostname(name) {
            Some(RemoteView { host: name, port, ip_literal: None })
        } else {
            None
        },
    }
}

/// The destination that `raw` names, if it names one.
pub open spec fn remote_value(raw: Seq<char>) -> Option<RemoteView> {
    match host_and_port(text::trim(raw)) {
        None => None,
        Some((host, port_text)) => match text::unsigned_value(port_text, u16::MAX as int) {
            None => None,
            Some(port) => if port == 0 || host.len() == 0 {
                None
            } else {
                remote_of(host, port as u16)
            },
        },
    }
}

fn split_host_port(s: &[char]) -> (r: Option<(&[char], &[char])>)
    ensures
        match r {
            Some((h, p)) => host_and_port(s@) == Some((h@, p@)),
            None => host_and_port(s@) is None,
        },
{
    if s.len() > 0 && s[0] == '[' {
        let rest = slice_subrange(s, 1, s.len());
        assert(rest@ =~= s@.drop_first());
        let close = text::find_char(rest, ']');
        if close >= rest.len() || rest.len() - close <= 1 || rest[close + 1] != ':' {
            return None;
        }
        let host = slice_subrange(rest, 0, close);
        let port = slice_subrange(rest, close + 2, rest.len());
        assert(host@ =~= rest@.take(close as int));
        assert(port@ =~= rest@.skip(close + 2));
        Some((host, port))
    } else {
        match text::rfind_char(s, ':') {
            None => None,
            Some(colon) => {
                let host = slice_subrange(s, 0, colon);
                let port = slice_subrange(s, colon + 1, s.len());
                assert(host@ =~= s@.take(colon as int));
                assert(port@ =~= s@.skip(colon + 1));
                let k = text::find_char(host, ':');
                if k < host.len() {
                    // Unbracketed IPv6 is ambiguous with :port.
                    assert(host@.contains(host@[k as int]));
                    None
                } else {
                    Some((host, port))
                }
            },
        }
    }
}

fn read_literal(host: &[char]) -> (r: Option<IpAddr>)
    ensures
        r == literal_value(host@),
{
    match ip::read_ip(host) {
        Some(ip) => Some(ip),
        // glibc getaddrinfo accepts dword / octal / hex / short IPv4 forms that
        // the dotted form does not. Treat them as literals so the IP-literal
        // and private-IP policies still apply (otherwise `134744072:993` is a
        // "hostname" that resolves to 8.8.8.8).
        None => match parse_loose_ipv4(host) {
            Some(v4) => Some(IpAddr::V4(v4)),
            None => None,
        },
    }
}

/// Parse `host:port` or `[ipv6]:port`.
pub fn parse_remote(raw: &str) -> (r: Result<Remote, DestError>)
    ensures
        match r {
            Ok(remote) => remote_value(raw@) == Some(remote@),
            Err(e) => remote_value(raw@) is None && e == DestError::InvalidRemote,
        },
{
    let chars = text::chars_of(raw);
    let (host, port_text) = match split_host_port(text::trim_chars(chars.as_slice())) {
        Some(parts) => parts,
        None => {
            return Err(DestError::InvalidRemote);
        },
    };
    let port: u16 = match text::read_unsigned(port_text, u16::MAX as u64) {
        Some(n) => n as u16,
        None => {
            return Err(DestError::InvalidRemote);
        },
    };
    if port == 0 || host.len() == 0 {
        return Err(DestError::InvalidRemote);
    }
    let name = normalize_chars(host);
    let valid = valid_hostname_chars(name.as_slice());
    let literal = match read_literal(host) {
        Some(ip) => Some(ip),
        None => if valid {
            read_literal(name.as_slice())
        } else {
            None
        },
    };
    match literal {
        Some(ip) => Ok(Remote { host: ip_canonical(ip), port, ip_literal: Some(ip) }),
        None => if valid {
            Ok(Remote { host: text::string_of(name.as_slice()), port, ip_literal: None })
        } else {
            Err(DestError::InvalidRemote)
        },
    }
}

/// The answer of the policy to a destination: the port first, then whether IP
/// literals are permitted, then whether the literal may be dialed.
pub open spec fn policy_verdict(remote: RemoteView, policy: DestPolicy) -> Result<(), DestError> {
    if !policy.permits_port(remote.port) {
        Err(DestError::BadPort)
    } else {
        match remote.ip_literal {
            None => Ok(()),
            Some(ip) => if !policy.allow_ip_literals {
                Err(DestError::IpLiteral)
            } else if !policy.permits_ip(ip) {
                Err(DestError::PrivateIp)
            } else {
                Ok(())
            },
        }
    }
}

/// Checks a destination against the policy, before any name is resolved.
pub fn check_policy(remote: &Remote, policy: &DestPolicy) -> (r: Result<(), DestError>)
    ensures
        r == policy_verdict(remote@, *policy),
{
    if !policy.port_allowed(remote.port) {
        return Err(DestError::BadPort);
    }
    match remote.ip_literal {
        None => Ok(()),
        Some(ip) => {
            if !policy.allow_ip_literals {
                return Err(DestError::IpLiteral);
            }
            if !policy.allow_private_destinations && !is_global_unicast(ip) {
                return Err(DestError::PrivateIp);
            }
            Ok(())
        },
    }
}

/// Whether the addresses of a destination have to be looked up.
pub fn needs_lookup(remote: &Remote) -> (r: bool)
    ensures
        r == (remote@.ip_literal is None),
{
    remote.ip_literal.is_none()
}

/// The addresses that a destination may be dialed at: the literal itself, or the
/// permitted ones of what its name resolved to, in that order. `None` as an
/// answer is a lookup that failed or timed out.
pub open spec fn dialable(
    remote: RemoteView,
    policy: DestPolicy,
    answer: Option<Seq<SocketAddr>>,
) -> Result<Seq<SocketAddr>, DestError> {
    match remote.ip_literal {
        Some(ip) => if policy.permits_ip(ip) {
            Ok(seq![SocketAddr { ip, port: remote.port }])
        } else {
            Err(DestError::PrivateIp)
        },
        None => match answer {
            None => Err(DestError::Dns),
            Some(found) => {
                let kept = found.filter(|a: SocketAddr| policy.permits_ip(a.ip));
                if kept.len() == 0 {
                    Err(DestError::PrivateIp)
                } else {
                    Ok(kept)
                }
            },
        },
    }
}

/// Keeps only policy-allowed addresses of what `remote` resolved to. The caller
/// must connect to one of these sockaddrs (not re-resolve) to prevent DNS
/// rebinding. For an IP literal nothing is looked up and `looked_up` is ignored.
pub fn resolve_filtered(
    remote: &Remote,
    policy: &DestPolicy,
    looked_up: Option<Vec<SocketAddr>>,
) -> (r: Result<Vec<SocketAddr>, DestError>)
    ensures
        match r {
            Ok(addrs) => dialable(
                remote@,
                *policy,
                match looked_up {
                    Some(v) => Some(v@),
                    None => None,
                },
            ) == Ok::<Seq<SocketAddr>, DestError>(addrs@),
            Err(e) => dialable(
                remote@,
                *policy,
                match looked_up {
                    Some(v) => Some(v@),
                    None => None,
                },
            ) == Err::<Seq<SocketAddr>, DestError>(e),
        },
        r matches Ok(addrs) ==> addrs@.len() > 0 && forall|i: int|
            0 <= i < addrs@.len() ==> policy.permits_ip((#[trigger] addrs@[i]).ip),
{
    let ghost keep = |a: SocketAddr| policy.permits_ip(a.ip);
    if let Some(ip) = remote.ip_literal {
        // Already checked in check_policy; still filter defensively.
        if !policy.allow_private_destinations && !is_global_unicast(ip) {
            return Err(DestError::PrivateIp);
        }
        let mut one: Vec<SocketAddr> = Vec::new();
        one.push(SocketAddr { ip, port: remote.port });
        return Ok(one);
    }
    let found = match looked_up {
        Some(v) => v,
        None => {
            return Err(DestError::Dns);
        },
    };
    let mut kept: Vec<SocketAddr> = Vec::new();
    let mut i: usize = 0;
    proof {
        reveal(Seq::filter);
    }
    while i < found.len()
        invariant
            i <= found@.len(),
            keep == (|a: SocketAddr| policy.permits_ip(a.ip)),
            kept@ == found@.take(i as int).filter(keep),
            forall|k: int| 0 <= k < kept@.len() ==> policy.permits_ip((#[trigger] kept@[k]).ip),
        decreases found@.len() - i,
    {
        proof {
            reveal(Seq::filter);
        }
        assert(found@.take(i + 1).drop_last() =~= found@.take(i as int));
        let a = found[i];
        if policy.allow_private_destinations || is_global_unicast(a.ip) {
            kept.push(a);
        }
        i += 1;
    }
    assert(found@.take(i as int) =~= found@);
    if kept.len() == 0 {
        return Err(DestError::PrivateIp);
    }
    Ok(kept)
}

/// What to do next when dialing.
#[derive(Debug, Clone, Copy, PartialEq, Eq, Structural)]
pub enum Dial {
    Try(SocketAddr),
    GiveUp(DestError),
}

/// The next step of dialing `addrs` in order, after the first `failed` of them
/// could not be connected to.
pub fn connect_addrs(addrs: &[SocketAddr], failed: usize) -> (r: Dial)
    ensures
        r == if failed < addrs@.len() {
            Dial::Try(addrs@[failed as int])
        } else {
            Dial::GiveUp(DestError::Connect)
        },
{
    if failed < addrs.len() {
        Dial::Try(addrs[failed])
    } else {
        Dial::GiveUp(DestError::Connect)
    }
}

/// Globally routable unicast IPv4: outside every block that is reserved for
/// something else.
pub open spec fn global_v4(ip: Ipv4Addr) -> bool {
    let a = ip.octet(0);
    let b = ip.octet(1);
    let c = ip.octet(2);
    &&& a != 0  // "this network" 0.0.0.0/8
    &&& a != 10  // private 10.0.0.0/8
    &&& a != 127  // loopback 127.0.0.0/8
    &&& !(a == 100 && 64 <= b <= 127)  // CGNAT 100.64.0.0/10
    &&& !(a == 169 && b == 254)  // link-local 169.254.0.0/16
    &&& !(a == 172 && 16 <= b <= 31)  // private 172.16.0.0/12
    &&& !(a == 192 && b == 0 && c == 0)  // protocol assignments 192.0.0.0/24
    &&& !(a == 192 && b == 0 && c == 2)  // documentation 192.0.2.0/24
    &&& !(a == 192 && b == 168)  // private 192.168.0.0/16
    &&& !(a == 198 && 18 <= b <= 19)  // benchmarking 198.18.0.0/15
    &&& !(a == 198 && b == 51 && c == 100)  // documentation 198.51.100.0/24
    &&& !(a == 203 && b == 0 && c == 113)  // documentation 203.0.113.0/24
    &&& a < 224  // multicast 224.0.0.0/4, reserved 240.0.0.0/4, broadcast

}

/// The IPv4 address whose halves are the segments `hi` and `lo`.
pub open spec fn v4_of_halves(hi: int, lo: int) -> Ipv4Addr {
    Ipv4Addr { bits: (hi * 0x1_0000 + lo) as u32 }
}

/// The IPv4 address embedded in an IPv6 one: mapped (`::ffff:x.x.x.x`), compatible
/// (`::x.x.x.x`), NAT64 well-known (`64:ff9b::x.x.x.x`) or 6to4 (`2002:xxyy:zzww::`).
pub open spec fn embedded(ip: Ipv6Addr) -> Option<Ipv4Addr> {
    let s = ip.segs();
    if s[0] == 0 && s[1] == 0 && s[2] == 0 && s[3] == 0 && s[4] == 0 && (s[5] == 0 || s[5]
        == 0xffff) {
        Some(v4_of_halves(s[6], s[7]))
    } else if s[0] == 0x64 && s[1] == 0xff9b && s[2] == 0 && s[3] == 0 && s[4] == 0 && s[5] == 0 {
        Some(v4_of_halves(s[6], s[7]))
    } else if s[0] == 0x2002 {
        Some(v4_of_halves(s[1], s[2]))
    } else {
        None
    }
}

/// Globally routable unicast IPv6. An address that embeds an IPv4 one goes by it.
pub open spec fn global_v6(ip: Ipv6Addr) -> bool {
    let s = ip.segs();
    match embedded(ip) {
        Some(v4) => global_v4(v4),
        None => {
            &&& s[0] < 0xff00  // multicast ff00::/8
            &&& !(0xfe80 <= s[0] <= 0xfebf)  // link-local fe80::/10
            &&& !(0xfc00 <= s[0] <= 0xfdff)  // unique local fc00::/7
            &&& !(s[0] == 0x2001 && s[1] < 0x200)  // protocol assignments 2001::/23
            &&& !(s[0] == 0x2001 && s[1] == 0xdb8)  // documentation 2001:db8::/32
            &&& !(s[0] == 0x100 && s[1] == 0 && s[2] == 0 && s[3] == 0)  // discard 100::/64
            &&& !(s[0] == 0x64 && s[1] == 0xff9b && s[2] == 1)  // NAT64 64:ff9b:1::/48

        },
    }
}

/// Whether `ip` is a globally routable unicast address.
pub open spec fn global_unicast(ip: IpAddr) -> bool {
    match ip {
        IpAddr::V4(v4) => global_v4(v4),
        IpAddr::V6(v6) => global_v6(v6),
    }
}

/// True if `ip` is a globally routable unicast address we are willing to dial.
pub fn is_global_unicast(ip: IpAddr) -> (r: bool)
    ensures
        r == global_unicast(ip),
{
    match ip {
        IpAddr::V4(v4) => is_global_v4(v4),
        IpAddr::V6(v6) => is_global_v6(v6),
    }
}

fn is_global_v4(ip: Ipv4Addr) -> (r: bool)
    ensures
        r == global_v4(ip),
{
    let o = ip.octets();
    let a = o[0];
    let b = o[1];
    let c = o[2];
    if a == 0 || a == 10 || a == 127 || a >= 224 {
        return false;
    }
    if a == 100 && 64 <= b && b <= 127 {
        return false;
    }
    if a == 169 && b == 254 {
        return false;
    }
    if a == 172 && 16 <= b && b <= 31 {
        return false;
    }
    if a == 192 && ((b == 0 && (c == 0 || c == 2)) || b == 168) {
        return false;
    }
    if a == 198 && (b == 18 || b == 19 || (b == 51 && c == 100)) {
        return false;
    }
    if a == 203 && b == 0 && c == 113 {
        return false;
    }
    true
}

fn is_global_v6(ip: Ipv6Addr) -> (r: bool)
    ensures
        r == global_v6(ip),
{
    if let Some(v4) = embedded_ipv4(ip) {
        return is_global_v4(v4);
    }
    let s = ip.segments();
    if s[0] >= 0xff00 || (0xfe80 <= s[0] && s[0] <= 0xfebf) || (0xfc00 <= s[0] && s[0] <= 0xfdff) {
        return false;
    }
    if s[0] == 0x2001 && (s[1] < 0x200 || s[1] == 0x0db8) {
        return false;
    }
    if s[0] == 0x0100 && s[1] == 0 && s[2] == 0 && s[3] == 0 {
        return false;
    }
    if s[0] == 0x64 && s[1] == 0xff9b && s[2] == 1 {
        return false;
    }
    true
}

fn embedded_ipv4(ip: Ipv6Addr) -> (r: Option<Ipv4Addr>)
    ensures
        r == embedded(ip),
{
    let s = ip.segments();
    let low = s[0] == 0 && s[1] == 0 && s[2] == 0 && s[3] == 0 && s[4] == 0 && (s[5] == 0 || s[5]
        == 0xffff);
    let nat64 = s[0] == 0x64 && s[1] == 0xff9b && s[2] == 0 && s[3] == 0 && s[4] == 0 && s[5] == 0;
    if low || nat64 {
        return Some(Ipv4Addr { bits: s[6] as u32 * 0x1_0000 + s[7] as u32 });
    }
    if s[0] == 0x2002 {
        return Some(Ipv4Addr { bits: s[1] as u32 * 0x1_0000 + s[2] as u32 });
    }
    None
}

/// A destination that the policy lets through has a permitted port, and if it is
/// an IP literal, literals are allowed and it may be dialed.
pub proof fn law_policy_admits(remote: RemoteView, policy: DestPolicy)
    requires
        policy_verdict(remote, policy) is Ok,
    ensures
        policy.permits_port(remote.port),
        remote.ip_literal matches Some(ip) ==> policy.allow_ip_literals && policy.permits_ip(ip),
{
}

/// By default only host names on mail ports are let through: a DNS name that is no
/// IP address in any form.
pub proof fn law_default_takes_names_only(raw: Seq<char>, policy: DestPolicy)
    requires
        is_default(policy),
        remote_value(raw) is Some,
        policy_verdict(remote_value(raw)->0, policy) is Ok,
    ensures
        ({
            let remote = remote_value(raw)->0;
            &&& remote.port == 143 || remote.port == 993 || remote.port == 465 || remote.port == 587
            &&& remote.ip_literal is None
            &&& valid_hostname(remote.host)
            &&& literal_value(remote.host) is None
        }),
{
}

/// An IP address in any form, dotted, IPv6, or one of the `inet_aton` forms, is
/// taken as the literal that it is, never as a name.
pub proof fn law_address_is_no_name(host: Seq<char>, port: u16)
    requires
        literal_value(host) is Some || (valid_hostname(normal_hostname(host)) && literal_value(
            normal_hostname(host),
        ) is Some),
    ensures
        remote_of(host, port) matches Some(remote) && remote.ip_literal is Some,
{
}

/// Every address that is dialed is permitted. It is the literal itself or one that
/// the lookup gave, and a lookup that gave a permitted one is never refused.
pub proof fn law_dialed_is_permitted(
    remote: RemoteView,
    policy: DestPolicy,
    answer: Option<Seq<SocketAddr>>,
)
    ensures
        dialable(remote, policy, answer) matches Ok(addrs) ==> addrs.len() > 0 && forall|i: int|
            0 <= i < addrs.len() ==> policy.permits_ip((#[trigger] addrs[i]).ip) && match remote.ip_literal {
                Some(ip) => addrs[i] == (SocketAddr { ip, port: remote.port }),
                None => answer is Some && answer->0.contains(addrs[i]),
            },
        remote.ip_literal is None && answer is Some ==> (dialable(remote, policy, answer) is Ok
            <==> exists|i: int|
            0 <= i < answer->0.len() && policy.permits_ip((#[trigger] answer->0[i]).ip)),
{
    if let Some(found) = answer {
        let keep = |a: SocketAddr| policy.permits_ip(a.ip);
        let kept = found.filter(keep);
        assert forall|i: int| 0 <= i < kept.len() implies keep(#[trigger] kept[i]) && found.contains(
            kept[i],
        ) by {
            found.lemma_filter_pred(keep, i);
            assert(kept.contains(kept[i]));
            found.lemma_filter_contains_rev(keep, kept[i]);
        }
        if exists|i: int| 0 <= i < found.len() && policy.permits_ip((#[trigger] found[i]).ip) {
            let i = choose|i: int| 0 <= i < found.len() && policy.permits_ip((#[trigger] found[i]).ip);
            assert(keep(found[i]));
            found.lemma_filter_contains(keep, i);
        }
        if kept.len() > 0 {
            assert(keep(kept[0]) && found.contains(kept[0]));
            let i = choose|i: int| 0 <= i < found.len() && found[i] == kept[0];
            assert(policy.permits_ip(found[i].ip));
        }
    }
}

/// Destinations that are counted under one key have the same host and port.
pub proof fn law_key_tells_apart(a: RemoteView, b: RemoteView)
    requires
        a.key() == b.key(),
    ensures
        a.host == b.host,
        a.port == b.port,
{
    let x = text::digits(a.port as nat, 10);
    let y = text::digits(b.port as nat, 10);
    text::law_digits_read_back(a.port as nat, 10);
    text::law_digits_read_back(b.port as nat, 10);
    text::lemma_rfind_joined(a.host, ':', x);
    text::lemma_rfind_joined(b.host, ':', y);
    assert(a.key().take(a.host.len() as int) =~= a.host);
    assert(b.key().take(b.host.len() as int) =~= b.host);
    assert(a.key().skip(a.host.len() as int + 1) =~= x);
    assert(b.key().skip(b.host.len() as int + 1) =~= y);
}

/// The ends of a DNS name are letters or digits, and there are only letters,
/// digits, hyphens and dots in it.
proof fn lemma_name_chars(s: Seq<char>)
    requires
        valid_hostname(s),
    ensures
        s.len() > 0,
        is_alphanumeric(s.first()),
        is_alphanumeric(s.last()),
        forall|i: int| 0 <= i < s.len() ==> is_alphanumeric(#[trigger] s[i]) || s[i] == '-' || s[i] == '.',
{
    let p = text::split(s, '.');
    text::lemma_split_nonempty(s, '.');
    assert(valid_label(p[0]) && valid_label(p[p.len() - 1]));
    text::lemma_split_last(s, '.');
    text::lemma_split_head(s, '.');
    text::lemma_found(s, '.');
    let k = text::find(s, '.') as int;
    if k < s.len() {
        assert(p[0] == s.take(k));
        assert(s.take(k).first() == s.first());
    } else {
        assert(p[0] == s);
    }
    let ok = |c: char| is_alphanumeric(c) || c == '-';
    assert forall|i: int, j: int| 0 <= i < p.len() && 0 <= j < p[i].len() implies ok(
        #[trigger] p[i][j],
    ) by {
        assert(valid_label(p[i]));
    }
    text::lemma_split_chars(s, '.', ok);
    assert forall|i: int| 0 <= i < s.len() implies is_alphanumeric(#[trigger] s[i]) || s[i] == '-' || s[i]
        == '.' by {
        assert(s[i] == '.' || ok(s[i]));
    }
}

/// Whether there is white space in `s`.
pub open spec fn has_space(s: Seq<char>) -> bool {
    exists|i: int| 0 <= i < s.len() && text::is_space(#[trigger] s[i])
}

proof fn lemma_normal_is_normal(host: Seq<char>)
    requires
        text::trim(normal_hostname(host)) == normal_hostname(host),
    ensures
        normal_hostname(normal_hostname(host)) == normal_hostname(host),
{
    let t = text::trim_end_char(text::trim(host), '.');
    let n = normal_hostname(host);
    text::lemma_trim_end_char(text::trim(host), '.');
    text::lemma_lower_twice(t);
    if n.len() > 0 {
        text::lemma_lower_char(t.last());
        assert(n.last() == text::lower_char(t.last()));
    }
    assert(text::trim_end_char(n, '.') == n);
}

/// A host name without white space stays as it is when it is normalized again, and
/// so does every one that is a DNS name once it is normalized. In general a
/// normalized name stays as it is exactly if no white space has come to its ends,
/// as happens with white space before trailing dots.
pub proof fn law_normal_name_is_normal(host: Seq<char>)
    ensures
        !has_space(host) ==> normal_hostname(normal_hostname(host)) == normal_hostname(host),
        valid_hostname(normal_hostname(host)) ==> normal_hostname(normal_hostname(host))
            == normal_hostname(host),
        normal_hostname(normal_hostname(host)) == normal_hostname(host) <==> text::trim(
            normal_hostname(host),
        ) == normal_hostname(host),
{
    let n = normal_hostname(host);
    if !has_space(host) {
        if host.len() > 0 {
            assert(!text::is_space(host[0]) && !text::is_space(host[host.len() - 1]));
        }
        text::lemma_trim_keeps(host);
        text::lemma_trim_end_char(host, '.');
        if n.len() > 0 {
            let last = n.len() - 1;
            assert(n[0] == text::lower_char(host[0]));
            assert(n[last] == text::lower_char(host[last]));
            assert(!text::is_space(host[0]) && !text::is_space(host[last]));
            text::lemma_lower_char(host[0]);
            text::lemma_lower_char(host[last]);
        }
        text::lemma_trim_keeps(n);
        lemma_normal_is_normal(host);
    }
    if valid_hostname(n) {
        lemma_name_chars(n);
        text::lemma_trim_keeps(n);
        lemma_normal_is_normal(host);
    }
    if text::trim(n) == n {
        lemma_normal_is_normal(host);
    }
    if normal_hostname(n) == n {
        text::lemma_trim_end_char(text::trim(n), '.');
        text::lemma_trim_shorter(n);
    }
}

/// A trailing dot makes no difference to a host name that has no white space at
/// its ends.
pub proof fn law_trailing_dot_is_ignored(host: Seq<char>)
    requires
        text::trim(host) == host,
    ensures
        normal_hostname(host.push('.')) == normal_hostname(host),
{
    let d = host.push('.');
    text::lemma_trimmed_ends(host);
    assert(d.first() == if host.len() > 0 {
        host.first()
    } else {
        '.'
    });
    text::lemma_trim_keeps(d);
    assert(d.drop_last() =~= host);
}

/// Host names are compared without regard to ASCII case.
pub proof fn law_host_case_is_ignored(host: Seq<char>)
    ensures
        normal_hostname(text::lower(host)) == normal_hostname(host),
{
    text::lemma_trim_lower(host);
    text::lemma_trim_dots_lower(text::trim(host));
    text::lemma_lower_twice(text::trim_end_char(text::trim(host), '.'));
}

/// The key of a destination that is a name or an IPv4 address names that
/// destination, with an IPv4-mapped address as the IPv4 address that it is stored
/// as. Other IPv6 addresses are left out.
pub proof fn law_key_reads_back(raw: Seq<char>)
    requires
        remote_value(raw) is Some,
        remote_value(raw)->0.ip_literal matches Some(ip) ==> ip::unmapped(ip) is V4,
    ensures
        ({
            let r = remote_value(raw)->0;
            remote_value(r.key()) == Some(
                RemoteView {
                    ip_literal: match r.ip_literal {
                        Some(ip) => Some(ip::unmapped(ip)),
                        None => None,
                    },
                    ..r
                },
            )
        }),
{
    let r = remote_value(raw)->0;
    let d = text::digits(r.port as nat, 10);
    let k = r.key();
    let (host, port_text) = host_and_port(text::trim(raw))->0;
    match r.ip_literal {
        None => {
            assert(r.host == normal_hostname(host));
            lemma_name_chars(r.host);
            law_normal_name_is_normal(host);
        },
        Some(ip) => {
            if let IpAddr::V4(v4) = ip::unmapped(ip) {
                assert(r.host == ip::v4_text(v4));
                ip::lemma_v4_text_chars(v4);
                ip::law_v4_text_reads_back(v4);
            }
        },
    }
    text::law_digits_read_back(r.port as nat, 10);
    text::lemma_rfind_joined(r.host, ':', d);
    assert(k.first() == r.host.first());
    assert(k.last() == d.last());
    assert(0 <= text::digit_value(d[d.len() - 1]) < 10);
    text::lemma_trim_keeps(k);
    let colon = r.host.len() as int;
    assert(k.take(colon) =~= r.host);
    assert(k.skip(colon + 1) =~= d);
    assert(!r.host.contains(':'));
    assert(0 <= text::digit_value(d[0]) < 10);
    assert(text::unsigned_value(d, u16::MAX as int) == Some(r.port as int));
    assert(host_and_port(k) == Some((r.host, d)));
    let port = text::unsigned_value(port_text, u16::MAX as int)->0;
    text::lemma_unsigned_range(port_text, u16::MAX as int);
    assert(port != 0 && r.port == port);
    if r.ip_literal is None {
        assert(remote_of(r.host, r.port) == Some(r));
    }
}

/// An IPv4-mapped address is as public as the IPv4 address in it.
pub proof fn law_mapped_goes_by_v4(v6: Ipv6Addr)
    requires
        v6.mapped() is Some,
    ensures
        global_unicast(IpAddr::V6(v6)) == global_unicast(IpAddr::V4(v6.mapped()->0)),
{
    reveal_with_fuel(ip::place, 8);
    let s = v6.segs();
    let x = v6.bits as int;
    assert(x / 0x1_0000_0000 == 0xffff);
    assert(s[7] == x % 0x1_0000);
    assert(s[6] == x / 0x1_0000 % 0x1_0000);
    assert(x / 0x1_0000 / 0x1_0000 == 0xffff) by (nonlinear_arith)
        requires
            x / 0x1_0000_0000 == 0xffff,
    ;
    assert(s[5] == 0xffff);
    assert(s[6] * 0x1_0000 + s[7] == x % 0x1_0000_0000) by (nonlinear_arith)
        requires
            s[7] == x % 0x1_0000,
            s[6] == x / 0x1_0000 % 0x1_0000,
    ;
}

/// An address that holds an IPv4 address, mapped, by NAT64 or by 6to4, is as public
/// as the address in it.
pub proof fn law_embedded_goes_by_v4(v6: Ipv6Addr)
    requires
        embedded(v6) is Some,
    ensures
        global_unicast(IpAddr::V6(v6)) == global_unicast(IpAddr::V4(embedded(v6)->0)),
{
}

/// The mail ports are the ports that have a probe.
pub proof fn law_mail_ports_are_probed(port: u16)
    ensures
        mail_ports().contains(port) <==> crate::proto::probe_of(port) is Some,
{
}

/// The text that an IP literal is stored under is read back as that address.
pub proof fn law_canonical_text_reads_back(ip: IpAddr)
    ensures
        ip::ip_value(canonical_text(ip)) == Some(ip::unmapped(ip)),
{
    match ip {
        IpAddr::V4(v4) => ip::law_v4_text_reads_back(v4),
        IpAddr::V6(v6) => match v6.mapped() {
            Some(v4) => ip::law_v4_text_reads_back(v4),
            None => ip::law_v6_text_reads_back(v6),
        },
    }
}

/// The number of an IPv4 address that is written with dots.
pub open spec fn dotted(a: int, b: int, c: int, d: int) -> int {
    ((a * 256 + b) * 256 + c) * 256 + d
}

/// The blocks of IPv4 that are not globally routable unicast, each with the length of
/// its prefix.
pub open spec fn reserved_v4() -> Seq<(int, nat)> {
    seq![
        (dotted(0, 0, 0, 0), 8),
        (dotted(10, 0, 0, 0), 8),
        (dotted(100, 64, 0, 0), 10),
        (dotted(127, 0, 0, 0), 8),
        (dotted(169, 254, 0, 0), 16),
        (dotted(172, 16, 0, 0), 12),
        (dotted(192, 0, 0, 0), 24),
        (dotted(192, 0, 2, 0), 24),
        (dotted(192, 168, 0, 0), 16),
        (dotted(198, 18, 0, 0), 15),
        (dotted(198, 51, 100, 0), 24),
        (dotted(203, 0, 113, 0), 24),
        (dotted(224, 0, 0, 0), 4),
        (dotted(240, 0, 0, 0), 4),
    ]
}

/// Whether `x` lies in one of `blocks` of addresses of `width` bits.
pub open spec fn in_some_block(x: int, width: nat, blocks: Seq<(int, nat)>) -> bool {
    exists|i: int|
        0 <= i < blocks.len() && ip::same_prefix(x, (#[trigger] blocks[i]).0, width, blocks[i].1)
}

proof fn lemma_in_block(x: int, block: (int, nat), width: nat, shift: nat, size: int, lead: int)
    requires
        block.1 + shift == width,
        pow2(shift) == size,
        block.0 / size == lead,
    ensures
        ip::same_prefix(x, block.0, width, block.1) == (x / size == lead),
{
    assert((width - block.1) as nat == shift);
}

/// An IPv4 address is public exactly if it lies in none of the reserved blocks.
pub proof fn law_public_v4_by_blocks(v4: Ipv4Addr)
    ensures
        global_unicast(IpAddr::V4(v4)) <==> !in_some_block(v4.bits as int, 32, reserved_v4()),
{
    reveal_with_fuel(ip::place, 4);
    vstd::arithmetic::power2::lemma2_to64();
    let x = v4.bits as int;
    let a = v4.octet(0);
    let b = v4.octet(1);
    let c = v4.octet(2);
    let t = reserved_v4();
    assert(x / 0x100_0000 == a);
    assert(x / 0x1_0000 == a * 256 + b);
    assert(x / 0x100 == (a * 256 + b) * 256 + c);
    assert(x / 0x40_0000 == a * 4 + b / 64);
    assert(x / 0x10_0000 == a * 16 + b / 16);
    assert(x / 0x2_0000 == a * 128 + b / 2);
    assert(x / 0x1000_0000 == a / 16);
    assert(0 <= a < 256 && 0 <= b < 256 && 0 <= c < 256);
    lemma_in_block(x, t[0], 32, 24, 0x1000000, 0);
    assert(ip::same_prefix(x, t[0].0, 32, t[0].1) == (a == 0));
    lemma_in_block(x, t[1], 32, 24, 0x1000000, 10);
    assert(ip::same_prefix(x, t[1].0, 32, t[1].1) == (a == 10));
    lemma_in_block(x, t[2], 32, 22, 0x400000, 401);
    assert(ip::same_prefix(x, t[2].0, 32, t[2].1) == (a == 100 && 64 <= b <= 127));
    lemma_in_block(x, t[3], 32, 24, 0x1000000, 127);
    assert(ip::same_prefix(x, t[3].0, 32, t[3].1) == (a == 127));
    lemma_in_block(x, t[4], 32, 16, 0x10000, 43518);
    assert(ip::same_prefix(x, t[4].0, 32, t[4].1) == (a == 169 && b == 254));
    lemma_in_block(x, t[5], 32, 20, 0x100000, 2753);
    assert(ip::same_prefix(x, t[5].0, 32, t[5].1) == (a == 172 && 16 <= b <= 31));
    lemma_in_block(x, t[6], 32, 8, 0x100, 12582912);
    assert(ip::same_prefix(x, t[6].0, 32, t[6].1) == (a == 192 && b == 0 && c == 0));
    lemma_in_block(x, t[7], 32, 8, 0x100, 12582914);
    assert(ip::same_prefix(x, t[7].0, 32, t[7].1) == (a == 192 && b == 0 && c == 2));
    lemma_in_block(x, t[8], 32, 16, 0x10000, 49320);
    assert(ip::same_prefix(x, t[8].0, 32, t[8].1) == (a == 192 && b == 168));
    lemma_in_block(x, t[9], 32, 17, 0x20000, 25353);
    assert(ip::same_prefix(x, t[9].0, 32, t[9].1) == (a == 198 && 18 <= b <= 19));
    lemma_in_block(x, t[10], 32, 8, 0x100, 12989284);
    assert(ip::same_prefix(x, t[10].0, 32, t[10].1) == (a == 198 && b == 51 && c == 100));
    lemma_in_block(x, t[11], 32, 8, 0x100, 13303921);
    assert(ip::same_prefix(x, t[11].0, 32, t[11].1) == (a == 203 && b == 0 && c == 113));
    lemma_in_block(x, t[12], 32, 28, 0x10000000, 14);
    assert(ip::same_prefix(x, t[12].0, 32, t[12].1) == (224 <= a < 240));
    lemma_in_block(x, t[13], 32, 28, 0x10000000, 15);
    assert(ip::same_prefix(x, t[13].0, 32, t[13].1) == (240 <= a));
}

/// The number of an IPv6 address whose first four segments are these.
pub open spec fn from_segments(a: int, b: int, c: int, d: int) -> int {
    (((a * 0x1_0000 + b) * 0x1_0000 + c) * 0x1_0000 + d) * 0x1_0000_0000_0000_0000
}

/// The blocks of IPv6 that are not globally routable unicast and hold no IPv4
/// addresses, each with the length of its prefix.
pub open spec fn reserved_v6() -> Seq<(int, nat)> {
    seq![
        (from_segments(0xff00, 0, 0, 0), 8),
        (from_segments(0xfe80, 0, 0, 0), 10),
        (from_segments(0xfc00, 0, 0, 0), 7),
        (from_segments(0x2001, 0, 0, 0), 23),
        (from_segments(0x2001, 0xdb8, 0, 0), 32),
        (from_segments(0x100, 0, 0, 0), 64),
        (from_segments(0x64, 0xff9b, 1, 0), 48),
    ]
}

/// The quotients of an IPv6 address by powers of two, in terms of its segments.
proof fn lemma_v6_quotients(v6: Ipv6Addr)
    ensures
        ({
            let x = v6.bits as int;
            let s = v6.segs();
            let top = (s[0] * 0x1_0000 + s[1]) * 0x1_0000 + s[2];
            &&& forall|i: int| 0 <= i < 8 ==> 0 <= #[trigger] s[i] < 0x1_0000
            &&& x == ((((top * 0x1_0000 + s[3]) * 0x1_0000 + s[4]) * 0x1_0000 + s[5]) * 0x1_0000
                + s[6]) * 0x1_0000 + s[7]
        }),
{
    reveal_with_fuel(ip::place, 8);
    let g = v6.segs();
    let x0 = v6.bits as int;
    let x1 = x0 / 0x1_0000;
    let x2 = x1 / 0x1_0000;
    let x3 = x2 / 0x1_0000;
    let x4 = x3 / 0x1_0000;
    let x5 = x4 / 0x1_0000;
    let x6 = x5 / 0x1_0000;
    let x7 = x6 / 0x1_0000;
    assert(x7 < 0x1_0000);
    assert(g[0] == x7 % 0x1_0000 && g[1] == x6 % 0x1_0000 && g[2] == x5 % 0x1_0000 && g[3] == x4
        % 0x1_0000 && g[4] == x3 % 0x1_0000 && g[5] == x2 % 0x1_0000 && g[6] == x1 % 0x1_0000
        && g[7] == x0 % 0x1_0000);
}

/// Powers of two beyond 64.
proof fn lemma_large_powers()
    ensures
        pow2(64) == 0x1_0000_0000_0000_0000,
        pow2(80) == 0x1_0000_0000_0000_0000_0000,
        pow2(96) == 0x1_0000_0000_0000_0000_0000_0000,
        pow2(105) == 0x200_0000_0000_0000_0000_0000_0000,
        pow2(118) == 0x40_0000_0000_0000_0000_0000_0000_0000,
        pow2(120) == 0x100_0000_0000_0000_0000_0000_0000_0000,
        pow2(121) == 0x200_0000_0000_0000_0000_0000_0000_0000,
{
    vstd::arithmetic::power2::lemma2_to64();
    vstd::arithmetic::power2::lemma2_to64_rest();
    vstd::arithmetic::power2::lemma_pow2_adds(64, 16);
    vstd::arithmetic::power2::lemma_pow2_adds(64, 32);
    vstd::arithmetic::power2::lemma_pow2_adds(64, 41);
    vstd::arithmetic::power2::lemma_pow2_adds(64, 54);
    vstd::arithmetic::power2::lemma_pow2_adds(64, 56);
    vstd::arithmetic::power2::lemma_pow2_adds(64, 57);
}

/// Where the segments of an IPv6 address stand in it, as far as embedded IPv4
/// addresses go.
#[verifier::spinoff_prover]
proof fn lemma_v6_halves(v6: Ipv6Addr)
    ensures
        forall|i: int| 0 <= i < 8 ==> 0 <= #[trigger] v6.segs()[i] < 0x1_0000,
        v6.bits as int / 0x1_0000_0000 == ((((v6.segs()[0] * 0x1_0000 + v6.segs()[1]) * 0x1_0000
            + v6.segs()[2]) * 0x1_0000 + v6.segs()[3]) * 0x1_0000 + v6.segs()[4]) * 0x1_0000
            + v6.segs()[5],
        v6.bits as int % 0x1_0000_0000 == v6.segs()[6] * 0x1_0000 + v6.segs()[7],
        v6.bits as int / 0x1_0000_0000_0000_0000_0000_0000_0000 == v6.segs()[0],
        v6.bits as int / 0x1_0000_0000_0000_0000_0000 == (v6.segs()[0] * 0x1_0000 + v6.segs()[1])
            * 0x1_0000 + v6.segs()[2],
        v6.bits as int / 0x1_0000_0000_0000_0000_0000 % 0x1_0000_0000 == v6.segs()[1] * 0x1_0000
            + v6.segs()[2],
{
    lemma_v6_quotients(v6);
    let s = v6.segs();
    assert(0 <= s[0] < 0x1_0000 && 0 <= s[1] < 0x1_0000 && 0 <= s[2] < 0x1_0000 && 0 <= s[3]
        < 0x1_0000 && 0 <= s[4] < 0x1_0000 && 0 <= s[5] < 0x1_0000 && 0 <= s[6] < 0x1_0000 && 0
        <= s[7] < 0x1_0000);
}

/// What stands before the bits that the reserved blocks leave open.
#[verifier::spinoff_prover]
proof fn lemma_v6_prefixes(v6: Ipv6Addr)
    ensures
        forall|i: int| 0 <= i < 8 ==> 0 <= #[trigger] v6.segs()[i] < 0x1_0000,
        v6.bits as int / 0x100_0000_0000_0000_0000_0000_0000_0000 == v6.segs()[0] / 256,
        v6.bits as int / 0x40_0000_0000_0000_0000_0000_0000_0000 == v6.segs()[0] / 64,
        v6.bits as int / 0x200_0000_0000_0000_0000_0000_0000_0000 == v6.segs()[0] / 512,
        v6.bits as int / 0x200_0000_0000_0000_0000_0000_0000 == v6.segs()[0] * 128 + v6.segs()[1]
            / 512,
        v6.bits as int / 0x1_0000_0000_0000_0000_0000_0000 == v6.segs()[0] * 0x1_0000
            + v6.segs()[1],
        v6.bits as int / 0x1_0000_0000_0000_0000_0000 == (v6.segs()[0] * 0x1_0000 + v6.segs()[1])
            * 0x1_0000 + v6.segs()[2],
        v6.bits as int / 0x1_0000_0000_0000_0000 == ((v6.segs()[0] * 0x1_0000 + v6.segs()[1])
            * 0x1_0000 + v6.segs()[2]) * 0x1_0000 + v6.segs()[3],
{
    lemma_v6_quotients(v6);
    let s = v6.segs();
    assert(0 <= s[0] < 0x1_0000 && 0 <= s[1] < 0x1_0000 && 0 <= s[2] < 0x1_0000 && 0 <= s[3]
        < 0x1_0000 && 0 <= s[4] < 0x1_0000 && 0 <= s[5] < 0x1_0000 && 0 <= s[6] < 0x1_0000 && 0
        <= s[7] < 0x1_0000);
}

/// The reserved blocks by the segments that they begin with.
#[verifier::spinoff_prover]
proof fn lemma_reserved_v6(v6: Ipv6Addr)
    ensures
        in_some_block(v6.bits as int, 128, reserved_v6()) == ({
            let s = v6.segs();
            ||| s[0] >= 0xff00
            ||| 0xfe80 <= s[0] <= 0xfebf
            ||| 0xfc00 <= s[0] <= 0xfdff
            ||| s[0] == 0x2001 && s[1] < 0x200
            ||| s[0] == 0x2001 && s[1] == 0xdb8
            ||| s[0] == 0x100 && s[1] == 0 && s[2] == 0 && s[3] == 0
            ||| s[0] == 0x64 && s[1] == 0xff9b && s[2] == 1
        }),
{
    lemma_v6_prefixes(v6);
    lemma_large_powers();
    let x = v6.bits as int;
    let t = reserved_v6();
    let s = v6.segs();
    assert(0 <= s[0] < 0x1_0000 && 0 <= s[1] < 0x1_0000 && 0 <= s[2] < 0x1_0000 && 0 <= s[3]
        < 0x1_0000 && 0 <= s[4] < 0x1_0000 && 0 <= s[5] < 0x1_0000 && 0 <= s[6] < 0x1_0000 && 0
        <= s[7] < 0x1_0000);
    lemma_in_block(x, t[0], 128, 120, 0x1000000000000000000000000000000, 0xff);
    assert(ip::same_prefix(x, t[0].0, 128, t[0].1) == (s[0] >= 0xff00));
    lemma_in_block(x, t[1], 128, 118, 0x400000000000000000000000000000, 0x3fa);
    assert(ip::same_prefix(x, t[1].0, 128, t[1].1) == (0xfe80 <= s[0] <= 0xfebf));
    lemma_in_block(x, t[2], 128, 121, 0x2000000000000000000000000000000, 0x7e);
    assert(ip::same_prefix(x, t[2].0, 128, t[2].1) == (0xfc00 <= s[0] <= 0xfdff));
    lemma_in_block(x, t[3], 128, 105, 0x200000000000000000000000000, 0x100080);
    assert(ip::same_prefix(x, t[3].0, 128, t[3].1) == (s[0] == 0x2001 && s[1] < 0x200));
    lemma_in_block(x, t[4], 128, 96, 0x1000000000000000000000000, 0x20010db8);
    assert(ip::same_prefix(x, t[4].0, 128, t[4].1) == (s[0] == 0x2001 && s[1] == 0xdb8));
    lemma_in_block(x, t[5], 128, 64, 0x10000000000000000, 0x100000000000000);
    assert(ip::same_prefix(x, t[5].0, 128, t[5].1) == (s[0] == 0x100 && s[1] == 0 && s[2] == 0
        && s[3] == 0));
    lemma_in_block(x, t[6], 128, 80, 0x100000000000000000000, 0x64ff9b0001);
    assert(ip::same_prefix(x, t[6].0, 128, t[6].1) == (s[0] == 0x64 && s[1] == 0xff9b && s[2]
        == 1));
}

/// An IPv6 address that holds an IPv4 address is as public as that one: in its lower
/// 32 bits behind `::`, `::ffff:` or `64:ff9b::`, and behind the prefix `2002::/16`.
/// Every other one is public exactly if it lies in none of the reserved blocks.
pub proof fn law_public_v6_by_blocks(v6: Ipv6Addr)
    ensures
        ({
            let x = v6.bits as int;
            let upper = x / 0x1_0000_0000;
            global_unicast(IpAddr::V6(v6)) <==> if upper == 0 || upper == 0xffff || upper
                == 0x64_ff9b_0000_0000_0000_0000 {
                global_unicast(IpAddr::V4(Ipv4Addr { bits: (x % 0x1_0000_0000) as u32 }))
            } else if x / 0x1_0000_0000_0000_0000_0000_0000_0000 == 0x2002 {
                global_unicast(
                    IpAddr::V4(
                        Ipv4Addr {
                            bits: (x / 0x1_0000_0000_0000_0000_0000 % 0x1_0000_0000) as u32,
                        },
                    ),
                )
            } else {
                !in_some_block(x, 128, reserved_v6())
            }
        }),
{
    lemma_v6_halves(v6);
    lemma_reserved_v6(v6);
    let s = v6.segs();
    assert(0 <= s[0] < 0x1_0000 && 0 <= s[1] < 0x1_0000 && 0 <= s[2] < 0x1_0000 && 0 <= s[3]
        < 0x1_0000 && 0 <= s[4] < 0x1_0000 && 0 <= s[5] < 0x1_0000 && 0 <= s[6] < 0x1_0000 && 0
        <= s[7] < 0x1_0000);
}

/// Whether `s` is a label as DNS has it, counted in characters.
pub open spec fn is_ldh_label(s: Seq<char>) -> bool {
    &&& 1 <= s.len() <= 63
    &&& s.first() != '-' && s.last() != '-'
    &&& forall|i: int|
        0 <= i < s.len() ==> ('a' <= #[trigger] s[i] <= 'z' || 'A' <= s[i] <= 'Z' || '0' <= s[i]
            <= '9' || s[i] == '-')
}

/// Labels with dots between them are a DNS name exactly if each is a label of 1 to 63
/// letters, digits and inner hyphens, and there are no more than 253 characters.
pub proof fn law_labels_make_a_name(labels: Seq<Seq<char>>)
    requires
        labels.len() > 0,
        text::free_of(labels, '.'),
    ensures
        valid_hostname(text::join(labels, '.')) <==> text::join(labels, '.').len() <= 253 && (
        forall|i: int| 0 <= i < labels.len() ==> is_ldh_label(#[trigger] labels[i])),
{
    text::law_split_undoes_join(labels, '.');
    assert forall|i: int| 0 <= i < labels.len() implies valid_label(#[trigger] labels[i])
        == is_ldh_label(labels[i]) by {
        let s = labels[i];
        if is_ldh_label(s) {
            assert(is_alphanumeric(s[0]) && is_alphanumeric(s[s.len() - 1]));
        }
        if valid_label(s) {
            assert(is_alphanumeric(s[0]) && is_alphanumeric(s[s.len() - 1]));
        }
    }
    let name = text::join(labels, '.');
    if forall|i: int| 0 <= i < labels.len() ==> is_ldh_label(#[trigger] labels[i]) {
        assert forall|i: int| 0 <= i < labels.len() implies valid_label(#[trigger] labels[i]) by {
            assert(is_ldh_label(labels[i]));
        }
    }
    if valid_hostname(name) {
        assert forall|i: int| 0 <= i < labels.len() implies is_ldh_label(#[trigger] labels[i]) by {
            assert(valid_label(text::split(name, '.')[i]));
        }
    }
}

proof fn lemma_port_text(port: u16)
    requires
        port != 0,
    ensures
        text::unsigned_value(text::digits(port as nat, 10), u16::MAX as int) == Some(port as int),
        text::digits(port as nat, 10).len() > 0,
        !text::digits(port as nat, 10).contains(':'),
        !text::is_space(text::digits(port as nat, 10).last()),
{
    let d = text::digits(port as nat, 10);
    text::law_unsigned_is_read(port as nat, 0, u16::MAX as int);
    text::law_digits_read_back(port as nat, 10);
    assert(text::zeros(0) + d =~= d);
    assert(0 <= text::digit_value(d[d.len() - 1]) < 10);
}

/// A DNS name, a colon and a port are that name in lower case and that port, where
/// the name is no IP address in any form.
pub proof fn law_name_and_port_are_read(labels: Seq<Seq<char>>, port: u16)
    requires
        labels.len() > 0,
        text::free_of(labels, '.'),
        text::join(labels, '.').len() <= 253,
        forall|i: int| 0 <= i < labels.len() ==> is_ldh_label(#[trigger] labels[i]),
        port != 0,
        literal_value(text::join(labels, '.')) is None,
        literal_value(text::lower(text::join(labels, '.'))) is None,
    ensures
        remote_value(text::join(labels, '.').push(':') + text::digits(port as nat, 10)) == Some(
            RemoteView { host: text::lower(text::join(labels, '.')), port, ip_literal: None },
        ),
{
    let name = text::join(labels, '.');
    let d = text::digits(port as nat, 10);
    let s = name.push(':') + d;
    law_labels_make_a_name(labels);
    lemma_name_chars(name);
    lemma_port_text(port);
    text::lemma_rfind_joined(name, ':', d);
    assert(s.first() == name.first() && s.last() == d.last());
    text::lemma_trim_keeps(s);
    assert(s.take(name.len() as int) =~= name);
    assert(s.skip(name.len() as int + 1) =~= d);
    assert(!name.contains(':'));
    assert(host_and_port(s) == Some((name, d)));
    text::lemma_trim_keeps(name);
    assert(normal_hostname(name) == text::lower(name));
    lemma_lower_name(labels);
}

/// A DNS name in lower case is one.
proof fn lemma_lower_name(labels: Seq<Seq<char>>)
    requires
        labels.len() > 0,
        text::free_of(labels, '.'),
        valid_hostname(text::join(labels, '.')),
    ensures
        valid_hostname(text::lower(text::join(labels, '.'))),
{
    let low = labels.map_values(|l: Seq<char>| text::lower(l));
    lemma_lower_join(labels);
    law_labels_make_a_name(labels);
    assert forall|i: int| 0 <= i < low.len() implies is_ldh_label(#[trigger] low[i]) && !low[i].contains(
        '.',
    ) by {
        let l = labels[i];
        assert(is_ldh_label(l) && !l.contains('.'));
        assert forall|j: int| 0 <= j < low[i].len() implies low[i][j] != '.' by {
            text::lemma_lower_char(l[j]);
            assert(l.contains(l[j]));
        }
    }
    law_labels_make_a_name(low);
}

proof fn lemma_lower_join(parts: Seq<Seq<char>>)
    ensures
        text::join(parts.map_values(|l: Seq<char>| text::lower(l)), '.') == text::lower(
            text::join(parts, '.'),
        ),
    decreases parts.len(),
{
    let low = parts.map_values(|l: Seq<char>| text::lower(l));
    if parts.len() > 1 {
        assert(low.drop_last() =~= parts.drop_last().map_values(|l: Seq<char>| text::lower(l)));
        lemma_lower_join(parts.drop_last());
        let init = text::join(parts.drop_last(), '.');
        assert(text::lower(init).push('.') + text::lower(parts.last()) =~= text::lower(
            init.push('.') + parts.last(),
        ));
    } else if parts.len() == 0 {
        assert(text::lower(Seq::empty()) =~= Seq::empty());
    }
}

/// An IP address in brackets, a colon and a port are that address and that port.
pub proof fn law_bracketed_address_is_read(address: Seq<char>, ip: IpAddr, port: u16)
    requires
        ip::ip_value(address) == Some(ip),
        address.len() > 0,
        !address.contains(']'),
        port != 0,
    ensures
        remote_value(seq!['['] + address + seq![']', ':'] + text::digits(port as nat, 10)) == Some(
            RemoteView { host: canonical_text(ip), port, ip_literal: Some(ip) },
        ),
{
    let d = text::digits(port as nat, 10);
    let s = seq!['['] + address + seq![']', ':'] + d;
    lemma_port_text(port);
    assert(s.last() == d.last());
    text::lemma_trim_keeps(s);
    let rest = s.drop_first();
    let n = address.len() as int;
    assert(rest =~= address + seq![']', ':'] + d);
    assert forall|i: int| 0 <= i < n implies rest[i] != ']' by {
        assert(address.contains(address[i]));
    }
    text::lemma_find(rest, ']', n);
    assert(rest.take(n) =~= address);
    assert(rest.skip(n + 2) =~= d);
}

/// Every part of an address may be written in decimal, after `0x` in hexadecimal, or
/// after `0` in octal.
pub proof fn law_address_parts(n: u32)
    ensures
        loose_part(text::digits(n as nat, 10)) == Some(n as int),
        loose_part(seq!['0', 'x'] + text::digits(n as nat, 16)) == Some(n as int),
        loose_part(seq!['0', 'X'] + text::digits(n as nat, 16)) == Some(n as int),
        loose_part(seq!['0'] + text::digits(n as nat, 8)) == Some(n as int),
{
    let dec = text::digits(n as nat, 10);
    let hex = text::digits(n as nat, 16);
    let oct = text::digits(n as nat, 8);
    text::law_digits_read_back(n as nat, 10);
    text::law_digits_read_back(n as nat, 16);
    text::law_digits_read_back(n as nat, 8);
    assert((seq!['0', 'x'] + hex).skip(2) =~= hex);
    assert((seq!['0', 'X'] + hex).skip(2) =~= hex);
    assert(0 <= text::digit_value(oct[0]) < 8);
    let zero_oct = seq!['0'] + oct;
    assert(zero_oct =~= text::zeros(1) + oct);
    text::lemma_leading_zeros(1, oct, 8);
    if dec.len() > 1 {
        assert(n >= 10);
    }
}

/// One to four parts with dots between them are an IPv4 address: each part but the
/// last is an octet, and the last fills what remains.
pub proof fn law_parts_make_an_address(parts: Seq<Seq<char>>, values: Seq<int>)
    requires
        1 <= parts.len() <= 4,
        values.len() == parts.len(),
        text::free_of(parts, '.'),
        forall|i: int| 0 <= i < parts.len() ==> loose_part(#[trigger] parts[i]) == Some(values[i]),
    ensures
        ({
            let n = values.len();
            let octets_fit = forall|i: int| 0 <= i < n - 1 ==> #[trigger] values[i] <= 0xff;
            let room: int = if n == 1 {
                0xffff_ffff
            } else if n == 2 {
                0xff_ffff
            } else if n == 3 {
                0xffff
            } else {
                0xff
            };
            let lead: int = if n == 1 {
                0
            } else if n == 2 {
                dotted(values[0], 0, 0, 0)
            } else if n == 3 {
                dotted(values[0], values[1], 0, 0)
            } else {
                dotted(values[0], values[1], values[2], 0)
            };
            loose_v4(text::join(parts, '.')) == if octets_fit && values[n - 1] <= room {
                Some(Ipv4Addr { bits: (lead + values[n - 1]) as u32 })
            } else {
                None
            }
        }),
{
    text::law_split_undoes_join(parts, '.');
    let s = text::join(parts, '.');
    let p = text::split(s, '.');
    let g = Seq::new(p.len(), |i: int| loose_part(p[i])->0);
    let n = values.len();
    assert(g =~= values);
    assert forall|i: int| 0 <= i < p.len() implies loose_part(#[trigger] p[i]) is Some by {
        assert(loose_part(parts[i]) == Some(values[i]));
    }
    assert(n > 0 && loose_part(parts[n - 1]) == Some(values[n - 1]));
    assert(values[n - 1] <= 0xffff_ffff);
    if n == 2 {
        assert((forall|i: int| 0 <= i < n - 1 ==> #[trigger] values[i] <= 0xff) <==> values[0]
            <= 0xff);
    } else if n == 3 {
        assert((forall|i: int| 0 <= i < n - 1 ==> #[trigger] values[i] <= 0xff) <==> values[0]
            <= 0xff && values[1] <= 0xff);
    } else if n == 4 {
        assert((forall|i: int| 0 <= i < n - 1 ==> #[trigger] values[i] <= 0xff) <==> values[0]
            <= 0xff && values[1] <= 0xff && values[2] <= 0xff);
    }
}

/// A destination is let through exactly if its port is on the list, or there is none,
/// and it is a name, or an address where addresses are allowed that is public or need
/// not be. A port that is not on the list comes first.
pub proof fn law_policy_decides(remote: RemoteView, policy: DestPolicy)
    ensures
        ({
            let listed = policy.allowed_ports matches Some(set) ==> set@.contains(remote.port);
            policy_verdict(remote, policy) == if !listed {
                Err::<(), DestError>(DestError::BadPort)
            } else if remote.ip_literal is Some && !policy.allow_ip_literals {
                Err::<(), DestError>(DestError::IpLiteral)
            } else if remote.ip_literal is Some && !policy.allow_private_destinations
                && !global_unicast(remote.ip_literal->0) {
                Err::<(), DestError>(DestError::PrivateIp)
            } else {
                Ok::<(), DestError>(())
            }
        }),
{
}

/// The mail ports are those of IMAP, IMAPS, SMTP submission and SMTPS, and each has
/// the probe of its protocol.
pub proof fn law_mail_ports(port: u16)
    ensures
        mail_ports().contains(port) <==> port == 143 || port == 993 || port == 465 || port == 587,
        crate::proto::probe_of(port) == if port == 993 || port == 465 {
            Some(crate::proto::ProbeKind::TlsSni)
        } else if port == 143 {
            Some(crate::proto::ProbeKind::ImapGreeting)
        } else if port == 587 {
            Some(crate::proto::ProbeKind::SmtpGreeting)
        } else {
            None
        },
{
}

/// The first permitted address that a lookup gave is dialed first, and what came
/// behind it stays behind it. Where none is permitted, the destination is refused as
/// private, and where the lookup failed, for that.
pub proof fn law_first_permitted_is_first(
    remote: RemoteView,
    policy: DestPolicy,
    before: Seq<SocketAddr>,
    first: SocketAddr,
    after: Seq<SocketAddr>,
)
    requires
        remote.ip_literal is None,
        forall|i: int|
            0 <= i < before.len() ==> !policy.allow_private_destinations && !global_unicast(
                (#[trigger] before[i]).ip,
            ),
        policy.allow_private_destinations || global_unicast(first.ip),
    ensures
        dialable(remote, policy, Some(before + (seq![first] + after))) == Ok::<
            Seq<SocketAddr>,
            DestError,
        >(
            seq![first] + match dialable(remote, policy, Some(after)) {
                Ok(rest) => rest,
                Err(_) => Seq::empty(),
            },
        ),
        dialable(remote, policy, Some(before)) == Err::<Seq<SocketAddr>, DestError>(
            DestError::PrivateIp,
        ),
        dialable(remote, policy, None) == Err::<Seq<SocketAddr>, DestError>(DestError::Dns),
{
    broadcast use Seq::filter_distributes_over_add;

    let keep = |a: SocketAddr| policy.permits_ip(a.ip);
    let none = Seq::<SocketAddr>::empty();
    assert(before.filter(keep).len() == 0) by {
        if before.filter(keep).len() > 0 {
            before.lemma_filter_pred(keep, 0);
            before.lemma_filter_contains_rev(keep, before.filter(keep)[0]);
        }
    }
    assert(before.filter(keep) =~= none);
    let one = seq![first];
    assert(one.filter(keep) =~= one) by {
        reveal(Seq::filter);
        assert(one.drop_last() =~= none);
        assert(none.filter(keep) =~= none);
    }
    assert((before + (one + after)).filter(keep) == before.filter(keep) + (one + after).filter(
        keep,
    ));
    assert((one + after).filter(keep) == one.filter(keep) + after.filter(keep));
    assert(before.filter(keep) + (one + after.filter(keep)) =~= one + after.filter(keep));
}

/// White space around a host name and dots behind it are dropped, and its capitals
/// are made small.
pub proof fn law_host_is_normalized(
    before: Seq<char>,
    name: Seq<char>,
    dots: nat,
    after: Seq<char>,
)
    requires
        forall|i: int| 0 <= i < before.len() ==> text::is_space(#[trigger] before[i]),
        forall|i: int| 0 <= i < after.len() ==> text::is_space(#[trigger] after[i]),
        name.len() > 0,
        !text::is_space(name.first()),
        !text::is_space(name.last()),
        name.last() != '.',
    ensures
        normal_hostname(before + (name + Seq::new(dots, |i: int| '.')) + after) == text::lower(
            name,
        ),
{
    let tail = Seq::new(dots, |i: int| '.');
    let s = name + tail;
    assert(s.first() == name.first());
    if dots > 0 {
        assert(s.last() == '.');
    } else {
        assert(s =~= name);
    }
    text::law_trim(before, s, after);
    text::lemma_trim_end_char(s, '.');
    let kept = text::trim_end_char(s, '.');
    let last = name.len() - 1;
    assert(kept.len() >= name.len()) by {
        if kept.len() < name.len() {
            assert(s[last] == name[last]);
        }
    }
    assert(kept.len() <= name.len()) by {
        if kept.len() > name.len() {
            assert(kept.last() == s[kept.len() - 1]);
            assert(s[kept.len() - 1] == '.');
        }
    }
    assert(kept =~= name);
}

/// What has no port, no host, the port 0 or two colons outside brackets names no
/// destination.
pub proof fn law_no_destination(host: Seq<char>, more: Seq<char>, last: Seq<char>, zeros: nat)
    requires
        host.len() > 0 ==> !text::is_space(host.first()) && !text::is_space(host.last())
            && host.first() != '[',
        last.len() > 0,
        !text::is_space(last.last()),
        !last.contains(':'),
        zeros > 0,
    ensures
        !host.contains(':') ==> remote_value(host) is None,
        remote_value(seq![':'] + last) is None,
        remote_value((host.push(':') + more).push(':') + last) is None,
        remote_value(host.push(':') + text::zeros(zeros)) is None,
{
    if !host.contains(':') {
        text::lemma_trim_keeps(host);
        lemma_rfind_none(host, ':');
    }
    let bare = seq![':'] + last;
    let none = Seq::<char>::empty();
    assert(bare =~= none.push(':') + last);
    assert(bare.first() == ':' && bare.last() == last.last());
    assert(!text::is_space(':'));
    text::lemma_trim_keeps(bare);
    text::lemma_rfind_joined(none, ':', last);
    assert(bare.take(0) =~= none);
    let head = host.push(':') + more;
    let two = head.push(':') + last;
    assert(two.first() == if host.len() > 0 {
        host.first()
    } else {
        ':'
    });
    assert(two.last() == last.last());
    text::lemma_trim_keeps(two);
    text::lemma_rfind_joined(head, ':', last);
    assert(two.take(head.len() as int) =~= head);
    assert(head[host.len() as int] == ':');
    let z = text::zeros(zeros);
    let s = host.push(':') + z;
    assert(s.last() == z.last() && z.last() == '0');
    assert(s.first() == if host.len() > 0 {
        host.first()
    } else {
        ':'
    });
    text::lemma_trim_keeps(s);
    assert(!z.contains(':'));
    text::lemma_rfind_joined(host, ':', z);
    assert(s.skip(host.len() as int + 1) =~= z);
    text::lemma_leading_zeros(zeros, none, 10);
    assert(z + none =~= z);
    assert(text::number(none, 10) == 0);
    assert(z.first() == '0');
}

proof fn lemma_rfind_none(s: Seq<char>, c: char)
    requires
        !s.contains(c),
    ensures
        text::rfind(s, c) < 0,
    decreases s.len(),
{
    if s.len() > 0 {
        assert(s.contains(s.last()));
        let init = s.drop_last();
        assert forall|i: int| 0 <= i < init.len() implies init[i] != c by {
            assert(s.contains(s[i]));
        }
        lemma_rfind_none(init, c);
    }
}

}
