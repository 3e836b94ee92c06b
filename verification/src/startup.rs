//! Starting the proxy: what the environment sets, and what a build refuses to
//! start with.
use vstd::prelude::*;

use crate::config;
use crate::config::{AuthMode, Config, SecretKey};
use crate::ip;
use crate::limits::LimitsConfig;
use crate::names;
use crate::text;
use crate::time::Duration;

verus! {

/// Whether a switch is set to on.
pub open spec fn is_on(s: Seq<char>) -> bool {
    let w = text::lower(text::trim(s));
    w == "1"@ || w == "true"@ || w == "yes"@ || w == "on"@
}

/// A switch: on for `1`, `true`, `yes` and `on`, off for anything else.
pub open spec fn switch_value(value: Option<Seq<char>>, default: bool) -> bool {
    match value {
        Some(v) => is_on(v),
        None => default,
    }
}

/// A number of at most `max`, or the default if none is written.
pub open spec fn number_value(value: Option<Seq<char>>, max: int, default: int) -> int {
    match value {
        Some(v) => match text::unsigned_value(v, max) {
            Some(n) => n,
            None => default,
        },
        None => default,
    }
}

/// A number of seconds, in nanoseconds. A default that stands in for what is not
/// a number loses what is not a whole second.
pub open spec fn secs_value(value: Option<Seq<char>>, default: Duration) -> int {
    match value {
        Some(v) => match text::unsigned_value(v, u64::MAX as int) {
            Some(n) => n * 1_000_000_000,
            None => default.whole() * 1_000_000_000,
        },
        None => default.nanos as int,
    }
}

/// How clients are authorized: without a token for `public`, with one otherwise.
pub open spec fn auth_value(value: Option<Seq<char>>) -> AuthMode {
    match value {
        Some(v) => if text::lower(v) == "public"@ {
            AuthMode::Public
        } else {
            AuthMode::Paseto
        },
        None => AuthMode::Paseto,
    }
}

/// Reads a switch from what a variable says.
pub fn env_bool(value: Option<&str>, default: bool) -> (r: bool)
    ensures
        r == switch_value(text::said(value), default),
{
    match value {
        Some(v) => {
            let chars = text::chars_of(v);
            let word = text::lower_chars(text::trim_chars(chars.as_slice()));
            let w = word.as_slice();
            text::says(w, "1") || text::says(w, "true") || text::says(w, "yes") || text::says(
                w,
                "on",
            )
        },
        None => default,
    }
}

/// Reads a number of at most `max` from what a variable says.
fn env_number(value: Option<&str>, max: u64, default: u64) -> (r: u64)
    ensures
        r == number_value(text::said(value), max as int, default as int),
        r <= max || r == default,
{
    match value {
        Some(v) => {
            let chars = text::chars_of(v);
            match text::read_unsigned(chars.as_slice(), max) {
                Some(n) => n,
                None => default,
            }
        },
        None => default,
    }
}

/// Reads a number from what a variable says.
pub fn env_u64(value: Option<&str>, default: u64) -> (r: u64)
    ensures
        r == number_value(text::said(value), u64::MAX as int, default as int),
{
    env_number(value, u64::MAX, default)
}

/// Reads a size from what a variable says.
pub fn env_usize(value: Option<&str>, default: usize) -> (r: usize)
    ensures
        r == number_value(text::said(value), usize::MAX as int, default as int),
{
    env_number(value, usize::MAX as u64, default as u64) as usize
}

/// Reads a prefix length from what a variable says.
pub fn env_u8(value: Option<&str>, default: u8) -> (r: u8)
    ensures
        r == number_value(text::said(value), u8::MAX as int, default as int),
{
    env_number(value, u8::MAX as u64, default as u64) as u8
}

/// Reads a number of seconds from what a variable says.
pub fn env_secs(value: Option<&str>, default: Duration) -> (r: Duration)
    ensures
        r.nanos == secs_value(text::said(value), default),
{
    match value {
        Some(v) => {
            let chars = text::chars_of(v);
            match text::read_unsigned(chars.as_slice(), u64::MAX) {
                Some(n) => Duration::from_secs(n),
                None => default.whole_secs(),
            }
        },
        None => default,
    }
}

/// Reads how clients are authorized from what `MAILINER_AUTH` says.
pub fn parse_auth_mode(value: Option<&str>) -> (r: AuthMode)
    ensures
        r == auth_value(text::said(value)),
{
    match value {
        Some(v) => {
            let chars = text::chars_of(v);
            let low = text::lower_chars(chars.as_slice());
            if text::says(low.as_slice(), "public") {
                AuthMode::Public
            } else {
                AuthMode::Paseto
            }
        },
        None => AuthMode::Paseto,
    }
}

/// What the environment variables say, as far as they are set.
pub struct Environment {
    /// `MAILINER_AUTH`
    pub auth: Option<String>,
    /// `MAILINER_ALLOWED_PORTS`
    pub allowed_ports: Option<String>,
    /// `MAILINER_ALLOW_PRIVATE_DESTS`
    pub allow_private_dests: Option<String>,
    /// `MAILINER_ALLOW_IP_LITERALS`
    pub allow_ip_literals: Option<String>,
    /// `MAILINER_MAX_GLOBAL_CONNECTIONS`
    pub max_global_connections: Option<String>,
    /// `MAILINER_MAX_CONNS_PER_IP`
    pub max_conns_per_ip: Option<String>,
    /// `MAILINER_MAX_CONNS_PER_DEST`
    pub max_conns_per_dest: Option<String>,
    /// `MAILINER_CONNECTS_PER_IP_PER_MIN`
    pub connects_per_ip: Option<String>,
    /// `MAILINER_DISTINCT_DESTS_PER_IP_PER_MIN`
    pub distinct_dests_per_ip: Option<String>,
    /// `MAILINER_GLOBAL_CONNECTS_PER_SEC`
    pub global_connects: Option<String>,
    /// `MAILINER_MAX_BYTES_PER_CONNECTION`
    pub max_bytes_per_connection: Option<String>,
    /// `MAILINER_MAX_BYTES_PER_IP_PER_HOUR`
    pub max_bytes_per_ip: Option<String>,
    /// `MAILINER_LIMIT_IPV4_PREFIX`
    pub ipv4_prefix: Option<String>,
    /// `MAILINER_LIMIT_IPV6_PREFIX`
    pub ipv6_prefix: Option<String>,
    /// `MAILINER_MAX_TRACKED_IPS`
    pub max_tracked_ips: Option<String>,
    /// `MAILINER_MAX_LIFETIME_SECS`
    pub max_lifetime: Option<String>,
    /// `MAILINER_DNS_TIMEOUT_SECS`
    pub dns_timeout: Option<String>,
    /// `MAILINER_WS_MAX_MESSAGE_BYTES`
    pub ws_max_message_bytes: Option<String>,
    /// `MAILINER_WS_MAX_FRAME_BYTES`
    pub ws_max_frame_bytes: Option<String>,
    /// `MAILINER_TRUST_FORWARDED_CLIENT_IP`
    pub trust_forwarded_client_ip: Option<String>,
    /// `MAILINER_TRUSTED_PROXIES`
    pub trusted_proxies: Option<String>,
    /// `MAILINER_REQUIRE_PROTOCOL_PROBE`
    pub require_protocol_probe: Option<String>,
    /// `MAILINER_ALLOWED_ORIGINS`
    pub allowed_origins: Option<String>,
    /// `MAILINER_ALLOWED_HOSTS`
    pub allowed_hosts: Option<String>,
}

/// What the environment leaves alone.
pub open spec fn left_alone(before: Config, after: Config) -> bool {
    &&& after.bind_addr == before.bind_addr
    &&& after.listen_port == before.listen_port
    &&& after.secret_key == before.secret_key
    &&& after.metrics_auth_key == before.metrics_auth_key
    &&& after.metrics_bind == before.metrics_bind
    &&& after.ws_idle_timeout == before.ws_idle_timeout
    &&& after.ws_write_timeout == before.ws_write_timeout
    &&& after.tcp_write_timeout == before.tcp_write_timeout
    &&& after.tcp_connect_timeout == before.tcp_connect_timeout
    &&& after.paseto_max_ttl == before.paseto_max_ttl
}

/// What the environment makes of the destination policy and of who may connect.
pub open spec fn policy_applied(before: Config, env: Environment, after: Config) -> bool {
    &&& after.auth_mode == auth_value(text::kept(env.auth))
    &&& match env.allowed_ports {
        Some(raw) => match after.dest.allowed_ports {
            Some(set) => config::ports_value(raw@) == Some(set@),
            None => config::ports_value(raw@) is None,
        },
        None => after.dest.allowed_ports == before.dest.allowed_ports,
    }
    &&& after.dest.allow_private_destinations == switch_value(
        text::kept(env.allow_private_dests),
        before.dest.allow_private_destinations,
    )
    &&& after.dest.allow_ip_literals == switch_value(
        text::kept(env.allow_ip_literals),
        before.dest.allow_ip_literals,
    )
    &&& after.trust_forwarded_client_ip == switch_value(
        text::kept(env.trust_forwarded_client_ip),
        before.trust_forwarded_client_ip,
    )
    &&& after.trusted_proxies@ == match env.trusted_proxies {
        Some(raw) => config::blocks(text::split(raw@, ',')),
        None => before.trusted_proxies@,
    }
    &&& after.require_protocol_probe == switch_value(
        text::kept(env.require_protocol_probe),
        before.require_protocol_probe,
    )
    &&& after.allowed_origins@ == match env.allowed_origins {
        Some(raw) => config::names_value(raw@),
        None => before.allowed_origins@,
    }
    &&& after.allowed_hosts@ == match env.allowed_hosts {
        Some(raw) => config::names_value(raw@),
        None => before.allowed_hosts@,
    }
}

/// What the environment makes of the limits.
pub open spec fn limits_applied(b: LimitsConfig, env: Environment, a: LimitsConfig) -> bool {
    let word = usize::MAX as int;
    &&& a.max_global_connections == number_value(
        text::kept(env.max_global_connections),
        word,
        b.max_global_connections as int,
    )
    &&& a.max_conns_per_ip == number_value(
        text::kept(env.max_conns_per_ip),
        word,
        b.max_conns_per_ip as int,
    )
    &&& a.max_conns_per_dest == number_value(
        text::kept(env.max_conns_per_dest),
        word,
        b.max_conns_per_dest as int,
    )
    &&& a.connects_per_ip == number_value(text::kept(env.connects_per_ip), word, b.connects_per_ip as int)
    &&& a.distinct_dests_per_ip == number_value(
        text::kept(env.distinct_dests_per_ip),
        word,
        b.distinct_dests_per_ip as int,
    )
    &&& a.global_connects == number_value(text::kept(env.global_connects), word, b.global_connects as int)
    &&& a.max_bytes_per_ip == number_value(
        text::kept(env.max_bytes_per_ip),
        u64::MAX as int,
        b.max_bytes_per_ip as int,
    )
    &&& a.ipv4_prefix == number_value(text::kept(env.ipv4_prefix), 255, b.ipv4_prefix as int)
    &&& a.ipv6_prefix == number_value(text::kept(env.ipv6_prefix), 255, b.ipv6_prefix as int)
    &&& a.max_tracked_ips == number_value(text::kept(env.max_tracked_ips), word, b.max_tracked_ips as int)
    &&& a.connects_per_ip_window == b.connects_per_ip_window
    &&& a.distinct_dests_window == b.distinct_dests_window
    &&& a.global_connects_window == b.global_connects_window
    &&& a.bytes_window == b.bytes_window
}

/// What the environment makes of the caps on one session and of the timeouts.
pub open spec fn session_applied(before: Config, env: Environment, after: Config) -> bool {
    &&& after.max_bytes_per_connection == number_value(
        text::kept(env.max_bytes_per_connection),
        u64::MAX as int,
        before.max_bytes_per_connection as int,
    )
    &&& after.max_lifetime.nanos == secs_value(text::kept(env.max_lifetime), before.max_lifetime)
    &&& after.dns_timeout.nanos == secs_value(text::kept(env.dns_timeout), before.dns_timeout)
    &&& after.ws_max_message_bytes == number_value(
        text::kept(env.ws_max_message_bytes),
        usize::MAX as int,
        before.ws_max_message_bytes as int,
    )
    &&& after.ws_max_frame_bytes == number_value(
        text::kept(env.ws_max_frame_bytes),
        usize::MAX as int,
        before.ws_max_frame_bytes as int,
    )
}

fn as_text(value: &Option<String>) -> (r: Option<&str>)
    ensures
        text::said(r) == text::kept(*value),
{
    match value {
        Some(v) => Some(v.as_str()),
        None => None,
    }
}

/// The limits that the environment sets.
fn limits_from_env(limits: &LimitsConfig, env: &Environment) -> (r: LimitsConfig)
    ensures
        limits_applied(*limits, *env, r),
{
    LimitsConfig {
        max_global_connections: env_usize(
            as_text(&env.max_global_connections),
            limits.max_global_connections,
        ),
        max_conns_per_ip: env_usize(as_text(&env.max_conns_per_ip), limits.max_conns_per_ip),
        max_conns_per_dest: env_usize(as_text(&env.max_conns_per_dest), limits.max_conns_per_dest),
        connects_per_ip: env_usize(as_text(&env.connects_per_ip), limits.connects_per_ip),
        connects_per_ip_window: limits.connects_per_ip_window,
        distinct_dests_per_ip: env_usize(
            as_text(&env.distinct_dests_per_ip),
            limits.distinct_dests_per_ip,
        ),
        distinct_dests_window: limits.distinct_dests_window,
        global_connects: env_usize(as_text(&env.global_connects), limits.global_connects),
        global_connects_window: limits.global_connects_window,
        max_bytes_per_ip: env_u64(as_text(&env.max_bytes_per_ip), limits.max_bytes_per_ip),
        bytes_window: limits.bytes_window,
        ipv4_prefix: env_u8(as_text(&env.ipv4_prefix), limits.ipv4_prefix),
        ipv6_prefix: env_u8(as_text(&env.ipv6_prefix), limits.ipv6_prefix),
        max_tracked_ips: env_usize(as_text(&env.max_tracked_ips), limits.max_tracked_ips),
    }
}

/// Sets the destination policy and who may connect.
fn apply_policy(config: &mut Config, env: &Environment)
    requires
        old(config).valid(),
    ensures
        left_alone(*old(config), *final(config)),
        policy_applied(*old(config), *env, *final(config)),
        final(config).limits == old(config).limits,
        final(config).max_bytes_per_connection == old(config).max_bytes_per_connection,
        final(config).max_lifetime == old(config).max_lifetime,
        final(config).dns_timeout == old(config).dns_timeout,
        final(config).ws_max_message_bytes == old(config).ws_max_message_bytes,
        final(config).ws_max_frame_bytes == old(config).ws_max_frame_bytes,
        final(config).valid(),
{
    config.auth_mode = parse_auth_mode(as_text(&env.auth));
    if let Some(raw) = &env.allowed_ports {
        config.dest.allowed_ports = config::parse_allowed_ports(raw.as_str());
    }
    let private = env_bool(
        as_text(&env.allow_private_dests),
        config.dest.allow_private_destinations,
    );
    config.dest.allow_private_destinations = private;
    let literals = env_bool(as_text(&env.allow_ip_literals), config.dest.allow_ip_literals);
    config.dest.allow_ip_literals = literals;
    let forwarded = env_bool(
        as_text(&env.trust_forwarded_client_ip),
        config.trust_forwarded_client_ip,
    );
    config.trust_forwarded_client_ip = forwarded;
    if let Some(raw) = &env.trusted_proxies {
        config.trusted_proxies = config::parse_cidrs(raw.as_str());
    }
    let probe = env_bool(as_text(&env.require_protocol_probe), config.require_protocol_probe);
    config.require_protocol_probe = probe;
    if let Some(raw) = &env.allowed_origins {
        config.allowed_origins = config::parse_csv_set(raw.as_str());
    }
    if let Some(raw) = &env.allowed_hosts {
        config.allowed_hosts = config::parse_csv_set(raw.as_str());
    }
}

/// Sets what the environment says.
pub fn apply_env(config: &mut Config, env: &Environment)
    requires
        old(config).valid(),
    ensures
        left_alone(*old(config), *final(config)),
        policy_applied(*old(config), *env, *final(config)),
        limits_applied(old(config).limits, *env, final(config).limits),
        session_applied(*old(config), *env, *final(config)),
        final(config).valid(),
{
    apply_policy(config, env);
    config.limits = limits_from_env(&config.limits, env);
    config.max_bytes_per_connection =
    env_u64(as_text(&env.max_bytes_per_connection), config.max_bytes_per_connection);
    config.max_lifetime = env_secs(as_text(&env.max_lifetime), config.max_lifetime);
    config.dns_timeout = env_secs(as_text(&env.dns_timeout), config.dns_timeout);
    config.ws_max_message_bytes =
    env_usize(as_text(&env.ws_max_message_bytes), config.ws_max_message_bytes);
    config.ws_max_frame_bytes =
    env_usize(as_text(&env.ws_max_frame_bytes), config.ws_max_frame_bytes);
}

/// No variable is set.
pub open spec fn unset(env: Environment) -> bool {
    &&& env.auth is None
    &&& env.allowed_ports is None
    &&& env.allow_private_dests is None
    &&& env.allow_ip_literals is None
    &&& env.max_global_connections is None
    &&& env.max_conns_per_ip is None
    &&& env.max_conns_per_dest is None
    &&& env.connects_per_ip is None
    &&& env.distinct_dests_per_ip is None
    &&& env.global_connects is None
    &&& env.max_bytes_per_connection is None
    &&& env.max_bytes_per_ip is None
    &&& env.ipv4_prefix is None
    &&& env.ipv6_prefix is None
    &&& env.max_tracked_ips is None
    &&& env.max_lifetime is None
    &&& env.dns_timeout is None
    &&& env.ws_max_message_bytes is None
    &&& env.ws_max_frame_bytes is None
    &&& env.trust_forwarded_client_ip is None
    &&& env.trusted_proxies is None
    &&& env.require_protocol_probe is None
    &&& env.allowed_origins is None
    &&& env.allowed_hosts is None
}

/// An environment that sets nothing leaves the built-in configuration as it is.
pub proof fn law_unset_keeps_defaults(before: Config, env: Environment, after: Config)
    requires
        config::is_default(before),
        unset(env),
        left_alone(before, after),
        policy_applied(before, env, after),
        limits_applied(before.limits, env, after.limits),
        session_applied(before, env, after),
    ensures
        config::is_default(after),
{
}

/// Why a proxy does not start.
#[derive(Debug)]
pub enum StartupError {
    /// `MAILINER_PASETO_SECRET` is not 32 bytes long.
    BadSecret,
    /// `METRICS_AUTH_TOKEN` is not set.
    MissingMetricsToken,
    /// `MAILINER_PASETO_SECRET` is not set.
    MissingSecret,
    /// The configuration is unsafe on the internet, for the reasons given.
    Unsafe(Vec<String>),
}

/// Reads the secret from what `MAILINER_PASETO_SECRET` says: its UTF-8 bytes, of
/// which there must be 32.
pub fn parse_secret_key(value: Option<&str>) -> (r: Result<Option<SecretKey>, StartupError>)
    ensures
        match value {
            None => r matches Ok(None),
            Some(v) => if vstd::utf8::encode_utf8(v@).len() == 32 {
                r matches Ok(Some(key)) && key.bytes@ == vstd::utf8::encode_utf8(v@)
            } else {
                r matches Err(StartupError::BadSecret)
            },
        },
{
    let v = match value {
        Some(v) => v,
        None => {
            return Ok(None);
        },
    };
    let given = v.as_bytes();
    if given.len() != 32 {
        return Err(StartupError::BadSecret);
    }
    let mut bytes: [u8; 32] = [0; 32];
    let mut i: usize = 0;
    while i < 32
        invariant
            i <= 32,
            given@.len() == 32,
            bytes@.len() == 32,
            forall|k: int| 0 <= k < i ==> bytes@[k] == given@[k],
        decreases 32 - i,
    {
        bytes[i] = given[i];
        i += 1;
    }
    assert(bytes@ =~= given@);
    Ok(Some(SecretKey { bytes }))
}

/// Whether a release build starts, and if not, why: the metrics token and, where
/// tokens are asked for, the secret must be set, and the configuration must be
/// safe on the internet unless that is waived.
pub open spec fn release_starts(config: Config, waive_safety: bool) -> bool {
    &&& config.metrics_auth_key is Some
    &&& config.auth_mode is Paseto ==> config.secret_key is Some
    &&& waive_safety || config::public_safe(config)
}

/// Decides whether the proxy may start. A debug build always starts.
pub fn check_startup(config: &Config, release: bool, waive_safety: bool) -> (r: Result<
    (),
    StartupError,
>)
    ensures
        r is Ok <==> !release || release_starts(*config, waive_safety),
        match r {
            Ok(_) => true,
            Err(StartupError::MissingMetricsToken) => config.metrics_auth_key is None,
            Err(StartupError::MissingSecret) => config.metrics_auth_key is Some
                && config.auth_mode is Paseto && config.secret_key is None,
            Err(StartupError::Unsafe(lines)) => config.metrics_auth_key is Some && (
            config.auth_mode is Paseto ==> config.secret_key is Some) && names::texts(lines@)
                == config::safety_errors(*config),
            Err(StartupError::BadSecret) => false,
        },
{
    if !release {
        return Ok(());
    }
    if config.metrics_auth_key.is_none() {
        return Err(StartupError::MissingMetricsToken);
    }
    if matches!(config.auth_mode, AuthMode::Paseto) && config.secret_key.is_none() {
        return Err(StartupError::MissingSecret);
    }
    proof {
        config::law_no_errors_iff_safe(*config);
    }
    if waive_safety {
        return Ok(());
    }
    let errors = config.public_safety_errors();
    assert(names::texts(errors@).len() == errors@.len());
    if errors.len() > 0 {
        return Err(StartupError::Unsafe(errors));
    }
    Ok(())
}

/// A number that is written in decimal is taken, if it is not too large, and the
/// default otherwise.
pub proof fn law_number_is_taken(n: nat, max: int, default: int)
    ensures
        number_value(Some(text::digits(n, 10)), max, default) == if n <= max {
            n as int
        } else {
            default
        },
        number_value(None, max, default) == default,
{
    text::law_unsigned_is_read(n, 0, max);
    assert(text::zeros(0) + text::digits(n, 10) =~= text::digits(n, 10));
}

/// Seconds that are written in decimal are taken as such.
pub proof fn law_seconds_are_taken(n: nat, default: Duration)
    requires
        n <= u64::MAX,
    ensures
        secs_value(Some(text::digits(n, 10)), default) == n * 1_000_000_000,
        secs_value(None, default) == default.nanos,
        secs_value(Some(Seq::<char>::empty()), default) <= default.nanos,
        secs_value(Some(Seq::<char>::empty()), default) % 1_000_000_000 == 0,
        default.nanos - secs_value(Some(Seq::<char>::empty()), default) < 1_000_000_000,
{
    text::law_unsigned_is_read(n, 0, u64::MAX as int);
    assert(text::zeros(0) + text::digits(n, 10) =~= text::digits(n, 10));
}

/// Switches are on for `1`, `true`, `yes` and `on`, whatever their case and the white
/// space around them, and for nothing else.
pub proof fn law_switches(before: Seq<char>, word: Seq<char>, after: Seq<char>, default: bool)
    requires
        forall|i: int| 0 <= i < before.len() ==> text::is_space(#[trigger] before[i]),
        forall|i: int| 0 <= i < after.len() ==> text::is_space(#[trigger] after[i]),
        word.len() > 0 ==> !text::is_space(word.first()) && !text::is_space(word.last()),
    ensures
        switch_value(Some(before + word + after), default) <==> text::lower(word) == seq!['1']
            || text::lower(word) == seq!['o', 'n'] || text::lower(word) == seq!['y', 'e', 's']
            || text::lower(word) == seq!['t', 'r', 'u', 'e'],
        switch_value(None, default) == default,
{
    text::law_trim(before, word, after);
    reveal_strlit("1");
    reveal_strlit("on");
    reveal_strlit("yes");
    reveal_strlit("true");
    assert("1"@ =~= seq!['1']);
    assert("on"@ =~= seq!['o', 'n']);
    assert("yes"@ =~= seq!['y', 'e', 's']);
    assert("true"@ =~= seq!['t', 'r', 'u', 'e']);
}

/// Tokens are asked for unless the mode is `public`, in either case.
pub proof fn law_auth_modes(value: Seq<char>)
    ensures
        auth_value(Some(value)) is Public <==> text::lower(value) == seq![
            'p',
            'u',
            'b',
            'l',
            'i',
            'c',
        ],
        auth_value(None) is Paseto,
{
    reveal_strlit("public");
    assert("public"@ =~= seq!['p', 'u', 'b', 'l', 'i', 'c']);
}

/// Every variable sets what it is named for: a number that it writes is the value of
/// its setting, whatever the others say.
pub proof fn law_numbers_reach_their_settings(
    before: Config,
    env: Environment,
    after: Config,
    n: nat,
)
    requires
        limits_applied(before.limits, env, after.limits),
        session_applied(before, env, after),
        n <= usize::MAX,
        n <= u64::MAX,
    ensures
        ({
            let says = |v: Option<String>| text::kept(v) == Some(text::digits(n, 10));
            let a = after.limits;
            &&& says(env.max_global_connections) ==> a.max_global_connections == n
            &&& says(env.max_conns_per_ip) ==> a.max_conns_per_ip == n
            &&& says(env.max_conns_per_dest) ==> a.max_conns_per_dest == n
            &&& says(env.connects_per_ip) ==> a.connects_per_ip == n
            &&& says(env.distinct_dests_per_ip) ==> a.distinct_dests_per_ip == n
            &&& says(env.global_connects) ==> a.global_connects == n
            &&& says(env.max_bytes_per_ip) ==> a.max_bytes_per_ip == n
            &&& says(env.max_tracked_ips) ==> a.max_tracked_ips == n
            &&& says(env.ipv4_prefix) && n <= 255 ==> a.ipv4_prefix == n
            &&& says(env.ipv6_prefix) && n <= 255 ==> a.ipv6_prefix == n
            &&& says(env.max_bytes_per_connection) ==> after.max_bytes_per_connection == n
            &&& says(env.ws_max_message_bytes) ==> after.ws_max_message_bytes == n
            &&& says(env.ws_max_frame_bytes) ==> after.ws_max_frame_bytes == n
            &&& says(env.max_lifetime) ==> after.max_lifetime.nanos == n * 1_000_000_000
            &&& says(env.dns_timeout) ==> after.dns_timeout.nanos == n * 1_000_000_000
        }),
{
    law_number_is_taken(n, usize::MAX as int, 0);
    law_number_is_taken(n, u64::MAX as int, 0);
    law_number_is_taken(n, 255, 0);
    law_seconds_are_taken(n, before.max_lifetime);
    let d = text::digits(n, 10);
    assert(text::unsigned_value(d, usize::MAX as int) == Some(n as int)) by {
        text::law_unsigned_is_read(n, 0, usize::MAX as int);
        assert(text::zeros(0) + d =~= d);
    }
    assert(text::unsigned_value(d, u64::MAX as int) == Some(n as int)) by {
        text::law_unsigned_is_read(n, 0, u64::MAX as int);
        assert(text::zeros(0) + d =~= d);
    }
    assert(n <= 255 ==> text::unsigned_value(d, 255) == Some(n as int)) by {
        text::law_unsigned_is_read(n, 0, 255);
        assert(text::zeros(0) + d =~= d);
    }
}

/// Every switch turns on what it is named for, and no other.
pub proof fn law_switches_reach_their_settings(before: Config, env: Environment, after: Config)
    requires
        policy_applied(before, env, after),
    ensures
        ({
            let on = |v: Option<String>| text::kept(v) == Some(seq!['1']);
            let off = |v: Option<String>| text::kept(v) == Some(seq!['0']);
            &&& on(env.allow_private_dests) ==> after.dest.allow_private_destinations
            &&& off(env.allow_private_dests) ==> !after.dest.allow_private_destinations
            &&& on(env.allow_ip_literals) ==> after.dest.allow_ip_literals
            &&& off(env.allow_ip_literals) ==> !after.dest.allow_ip_literals
            &&& on(env.trust_forwarded_client_ip) ==> after.trust_forwarded_client_ip
            &&& off(env.trust_forwarded_client_ip) ==> !after.trust_forwarded_client_ip
            &&& on(env.require_protocol_probe) ==> after.require_protocol_probe
            &&& off(env.require_protocol_probe) ==> !after.require_protocol_probe
        }),
{
    let none = Seq::<char>::empty();
    let one = seq!['1'];
    let zero = seq!['0'];
    law_switches(none, one, none, false);
    law_switches(none, zero, none, false);
    assert(none + one + none =~= one);
    assert(none + zero + none =~= zero);
    assert(text::lower(one) =~= one);
    assert(text::lower(zero) =~= zero);
    assert(text::lower(zero)[0] == '0');
    assert(is_on(one) && !is_on(zero)) by {
        assert(one[0] == '1');
        assert(seq!['o', 'n'].len() == 2 && seq!['y', 'e', 's'].len() == 3
            && seq!['t', 'r', 'u', 'e'].len() == 4);
    }
}

/// A release build starts only with a key for its metrics and, if it asks for tokens,
/// with a secret. Unless that is waived it starts with no gap in its configuration,
/// and with none of these lacking it does start.
pub proof fn law_release_needs_its_keys(c: Config, waive_safety: bool)
    ensures
        c.metrics_auth_key is None ==> !release_starts(c, waive_safety),
        c.auth_mode is Paseto && c.secret_key is None ==> !release_starts(c, waive_safety),
        config::safety_errors(c).len() > 0 ==> !release_starts(c, false),
        c.metrics_auth_key is Some && (c.auth_mode is Public || c.secret_key is Some) ==> {
            &&& release_starts(c, true)
            &&& config::safety_errors(c).len() == 0 ==> release_starts(c, false)
        },
{
    config::law_no_errors_iff_safe(c);
}

/// A list with one entry reaches the setting that it is named for: a host, an origin,
/// a port, an address of a proxy.
pub proof fn law_lists_reach_their_settings(
    before: Config,
    env: Environment,
    after: Config,
    name: Seq<char>,
    port: u16,
    address: ip::Ipv4Addr,
)
    requires
        policy_applied(before, env, after),
        name.len() > 0,
        text::trim(name) == name,
        !name.contains(','),
        port != 0,
    ensures
        text::kept(env.allowed_hosts) == Some(name) ==> after.allowed_hosts@ == set![name],
        text::kept(env.allowed_origins) == Some(name) ==> after.allowed_origins@ == set![name],
        text::kept(env.allowed_ports) == Some(text::digits(port as nat, 10)) ==> (
        after.dest.allowed_ports matches Some(set) && set@ == set![port]),
        text::kept(env.trusted_proxies) == Some(ip::v4_text(address)) ==> after.trusted_proxies@
            == seq![config::Cidr { addr: ip::IpAddr::V4(address), bits: 32 }],
{
    let one = seq![name];
    config::law_listed_names_are_kept(one);
    assert(text::join(one, ',') == name);
    assert(one.to_set() =~= set![name]) by {
        assert(one[0] == name);
    }
    let ports = seq![port];
    config::law_listed_ports_are_allowed(ports);
    assert(config::port_texts(ports) =~= seq![text::digits(port as nat, 10)]);
    assert(text::join(config::port_texts(ports), ',') == text::digits(port as nat, 10));
    assert(Set::new(|p: u16| p != 0 && ports.contains(p)) =~= set![port]) by {
        assert(ports[0] == port);
    }
    let s = ip::v4_text(address);
    ip::lemma_v4_text_chars(address);
    ip::law_v4_text_reads_back(address);
    assert(!s.contains(',') && !s.contains('/'));
    text::lemma_trim_keeps(s);
    config::law_block_is_read(s, ip::IpAddr::V4(address), 32);
    text::lemma_split_one(s, ',');
    config::law_blocks_are_read_in_order(Seq::empty(), Seq::empty(), s);
}

/// The way in which clients are authorized is the one that the environment names, in
/// either case, and by token if it names none.
pub proof fn law_auth_mode_reaches_its_setting(before: Config, env: Environment, after: Config)
    requires
        policy_applied(before, env, after),
    ensures
        text::kept(env.auth) == Some(seq!['p', 'u', 'b', 'l', 'i', 'c']) ==> after.auth_mode is Public,
        after.auth_mode is Public ==> (text::kept(env.auth) matches Some(v) && text::lower(v)
            == seq!['p', 'u', 'b', 'l', 'i', 'c']),
{
    let word = seq!['p', 'u', 'b', 'l', 'i', 'c'];
    law_auth_modes(word);
    assert(text::lower(word) =~= word);
    if text::kept(env.auth) is Some {
        law_auth_modes(text::kept(env.auth)->0);
    }
}

}
