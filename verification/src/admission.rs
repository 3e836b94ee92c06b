//! The way of a proxy request from its headers to a connection slot, one decision
//! at a time. The lookup, the dialing and the upgrade in between are done by the
//! caller.
use axum::http::HeaderMap;
use vstd::prelude::*;

use crate::auth;
use crate::auth::Status;
use crate::config::Config;
use crate::dest;
use crate::dest::{DestError, DestPolicy, Dial, Remote, RemoteView};
use crate::ip::{IpAddr, SocketAddr};
use crate::limits::{ConnectionLease, LimitError, LimitState};
use crate::metrics;
use crate::metrics::RejectReason;
use crate::server;
use crate::server::ProxyQuery;
use crate::time::Instant;

verus! {

/// The status that answers a destination error.
pub open spec fn status_of_dest(e: DestError) -> Status {
    match e {
        DestError::InvalidRemote => Status::BadRequest,
        DestError::BadPort | DestError::IpLiteral | DestError::PrivateIp => Status::Forbidden,
        DestError::Dns | DestError::Connect => Status::BadGateway,
    }
}

/// The text that answers a destination error.
pub open spec fn text_of_dest(e: DestError) -> Seq<char> {
    match e {
        DestError::InvalidRemote => "invalid remote"@,
        DestError::BadPort => "destination port not allowed"@,
        DestError::IpLiteral => "IP literals are not allowed"@,
        DestError::PrivateIp => "destination is not a public address"@,
        DestError::Dns => "failed to resolve destination"@,
        DestError::Connect => "failed to connect to destination"@,
    }
}

/// The status that answers a limit.
pub open spec fn status_of_limit(e: LimitError) -> Status {
    match e {
        LimitError::GlobalFull | LimitError::PerDestFull => Status::ServiceUnavailable,
        LimitError::ByteCap => Status::Forbidden,
        LimitError::PerIpFull
        | LimitError::ConnectRate
        | LimitError::GlobalConnectRate
        | LimitError::DistinctDests => Status::TooManyRequests,
    }
}

/// The text that answers a limit.
pub open spec fn text_of_limit(e: LimitError) -> Seq<char> {
    match e {
        LimitError::GlobalFull => "proxy is at capacity"@,
        LimitError::PerIpFull => "too many connections from this address"@,
        LimitError::PerDestFull => "too many connections to this destination"@,
        LimitError::ConnectRate | LimitError::GlobalConnectRate => "connect rate limit exceeded"@,
        LimitError::DistinctDests => "too many distinct destinations"@,
        LimitError::ByteCap => "byte limit exceeded"@,
    }
}

/// The status that answers a destination error.
pub fn dest_status(e: DestError) -> (r: Status)
    ensures
        r == status_of_dest(e),
{
    match e {
        DestError::InvalidRemote => Status::BadRequest,
        DestError::BadPort | DestError::IpLiteral | DestError::PrivateIp => Status::Forbidden,
        DestError::Dns | DestError::Connect => Status::BadGateway,
    }
}

/// The text that answers a destination error.
pub fn dest_message(e: DestError) -> (r: &'static str)
    ensures
        r@ == text_of_dest(e),
{
    match e {
        DestError::InvalidRemote => "invalid remote",
        DestError::BadPort => "destination port not allowed",
        DestError::IpLiteral => "IP literals are not allowed",
        DestError::PrivateIp => "destination is not a public address",
        DestError::Dns => "failed to resolve destination",
        DestError::Connect => "failed to connect to destination",
    }
}

/// The status that answers a limit.
pub fn limit_status(e: LimitError) -> (r: Status)
    ensures
        r == status_of_limit(e),
{
    match e {
        LimitError::GlobalFull | LimitError::PerDestFull => Status::ServiceUnavailable,
        LimitError::ByteCap => Status::Forbidden,
        _ => Status::TooManyRequests,
    }
}

/// The text that answers a limit.
pub fn limit_message(e: LimitError) -> (r: &'static str)
    ensures
        r@ == text_of_limit(e),
{
    match e {
        LimitError::GlobalFull => "proxy is at capacity",
        LimitError::PerIpFull => "too many connections from this address",
        LimitError::PerDestFull => "too many connections to this destination",
        LimitError::ConnectRate | LimitError::GlobalConnectRate => "connect rate limit exceeded",
        LimitError::DistinctDests => "too many distinct destinations",
        LimitError::ByteCap => "byte limit exceeded",
    }
}

/// A request that is not let through.
#[derive(Debug, Clone, Copy)]
pub struct Refusal {
    pub status: Status,
    /// What it is counted under, if it is counted.
    pub reason: Option<RejectReason>,
    /// The body of the answer.
    pub message: &'static str,
}

/// What a refusal says.
pub struct RefusalView {
    pub status: Status,
    pub reason: Option<RejectReason>,
    pub message: Seq<char>,
}

impl View for Refusal {
    type V = RefusalView;

    open spec fn view(&self) -> RefusalView {
        RefusalView { status: self.status, reason: self.reason, message: self.message@ }
    }
}

/// The refusal for a destination error.
pub open spec fn dest_refused(e: DestError) -> RefusalView {
    RefusalView {
        status: status_of_dest(e),
        reason: Some(metrics::reason_of_dest(e)),
        message: text_of_dest(e),
    }
}

/// The refusal for a limit.
pub open spec fn limit_refused(e: LimitError) -> RefusalView {
    RefusalView {
        status: status_of_limit(e),
        reason: Some(metrics::reason_of_limit(e)),
        message: text_of_limit(e),
    }
}

/// The refusal for a token that was answered with `status`. A proxy that lacks its
/// secret says so with an empty body, and that is not counted.
pub open spec fn token_refused(status: Status) -> RefusalView {
    if status is InternalServerError {
        RefusalView { status, reason: None, message: ""@ }
    } else {
        RefusalView { status, reason: Some(RejectReason::Auth), message: "unauthorized"@ }
    }
}

/// The refusal for a destination error.
pub fn refuse_dest(e: DestError) -> (r: Refusal)
    ensures
        r@ == dest_refused(e),
{
    Refusal {
        status: dest_status(e),
        reason: Some(RejectReason::from(e)),
        message: dest_message(e),
    }
}

/// The refusal for a limit.
pub fn refuse_limit(e: LimitError) -> (r: Refusal)
    ensures
        r@ == limit_refused(e),
{
    Refusal {
        status: limit_status(e),
        reason: Some(RejectReason::from(e)),
        message: limit_message(e),
    }
}

/// The refusal for a token that was answered with `status`.
pub fn refuse_token(status: Status) -> (r: Refusal)
    ensures
        r@ == token_refused(status),
{
    if matches!(status, Status::InternalServerError) {
        Refusal { status, reason: None, message: "" }
    } else {
        Refusal { status, reason: Some(RejectReason::Auth), message: "unauthorized" }
    }
}

/// The answer to a request whose origin and host pass or do not, and whose token
/// was answered with `verdict`: the destination that it may be taken to, or the
/// refusal. The first check that fails decides.
pub open spec fn screened(
    origin: bool,
    host: bool,
    verdict: Result<(), Status>,
    raw: Seq<char>,
    policy: DestPolicy,
) -> Result<RemoteView, RefusalView> {
    if !origin {
        Err(
            RefusalView {
                status: Status::Forbidden,
                reason: Some(RejectReason::BadOrigin),
                message: "origin not allowed"@,
            },
        )
    } else if !host {
        Err(
            RefusalView {
                status: Status::Forbidden,
                reason: Some(RejectReason::BadHost),
                message: "host not allowed"@,
            },
        )
    } else {
        match verdict {
            Err(status) => Err(token_refused(status)),
            Ok(_) => match dest::remote_value(raw) {
                None => Err(dest_refused(DestError::InvalidRemote)),
                Some(remote) => match dest::policy_verdict(remote, policy) {
                    Err(e) => Err(dest_refused(e)),
                    Ok(_) => Ok(remote),
                },
            },
        }
    }
}

/// What a result says.
pub open spec fn outcome(r: Result<Remote, Refusal>) -> Result<RemoteView, RefusalView> {
    match r {
        Ok(remote) => Ok(remote@),
        Err(refusal) => Err(refusal@),
    }
}

/// Decides on the destination of a request whose token was answered with
/// `verdict`.
pub fn judge_destination(verdict: Result<(), Status>, raw: &str, policy: &DestPolicy) -> (r: Result<
    Remote,
    Refusal,
>)
    ensures
        outcome(r) == screened(true, true, verdict, raw@, *policy),
{
    if let Err(status) = verdict {
        return Err(refuse_token(status));
    }
    let remote = match dest::parse_remote(raw) {
        Ok(remote) => remote,
        Err(e) => {
            return Err(refuse_dest(e));
        },
    };
    match dest::check_policy(&remote, policy) {
        Err(e) => Err(refuse_dest(e)),
        Ok(_) => Ok(remote),
    }
}

/// Whether `r` may be the answer to a request before it is counted. The token is
/// looked at only where the origin and the host pass.
pub open spec fn may_screen(
    query: ProxyQuery,
    headers: HeaderMap,
    config: Config,
    debug_build: bool,
    r: Result<RemoteView, RefusalView>,
) -> bool {
    let origin = server::origin_passes(
        server::header_names(headers).contains("origin"@),
        server::header_value(headers, "origin"@),
        config.allowed_origins@,
    );
    let host = server::host_passes(
        server::header_value(headers, "host"@),
        config.allowed_hosts@,
    );
    if !(origin && host) {
        r == screened(origin, host, Err(Status::Unauthorized), query.remote@, config.dest)
    } else {
        exists|verdict: Result<(), Status>|
            #![auto]
            auth::may_answer(
                server::token_of(
                    query.token@,
                    server::bearer_of(headers),
                    server::protocol_of(headers),
                ),
                query.remote@,
                config.auth_mode,
                config.secret_key,
                config.paseto_max_ttl,
                debug_build,
                verdict,
            ) && r == screened(true, true, verdict, query.remote@, config.dest)
    }
}

/// Decides on a request before it is counted: its origin, its host, its token, its
/// destination.
pub fn screen(query: &ProxyQuery, headers: &HeaderMap, config: &Config, debug_build: bool) -> (r:
    Result<Remote, Refusal>)
    ensures
        may_screen(*query, *headers, *config, debug_build, outcome(r)),
{
    let token = server::proxy_token(query, headers);
    if !server::origin_allowed(headers, &config.allowed_origins) {
        return Err(
            Refusal {
                status: Status::Forbidden,
                reason: Some(RejectReason::BadOrigin),
                message: "origin not allowed",
            },
        );
    }
    if !server::host_allowed(headers, &config.allowed_hosts) {
        return Err(
            Refusal {
                status: Status::Forbidden,
                reason: Some(RejectReason::BadHost),
                message: "host not allowed",
            },
        );
    }
    let verdict = auth::validate_token(
        token,
        query.remote.as_str(),
        config.auth_mode,
        &config.secret_key,
        config.paseto_max_ttl,
        debug_build,
    );
    judge_destination(verdict, query.remote.as_str(), &config.dest)
}

/// What to do next for a request.
#[derive(Debug)]
pub enum Next {
    /// Dial this address, and report with [`Admission::on_dial_failed`] if that
    /// fails or with [`Admission::take_lease`] if it succeeds.
    Dial(SocketAddr),
    /// Answer with this refusal.
    Refuse(Refusal),
}

/// A request that was let through and counted, on its way to a connection.
pub struct Admission {
    client: IpAddr,
    remote: Remote,
    addrs: Vec<SocketAddr>,
    failed: usize,
}

/// What is known of an admitted request.
pub struct AdmissionView {
    /// The address that the client is counted under.
    pub client: IpAddr,
    pub remote: RemoteView,
    /// Where the destination may be dialed.
    pub addrs: Seq<SocketAddr>,
    /// How many of these could not be connected to.
    pub failed: int,
}

impl View for Admission {
    type V = AdmissionView;

    closed spec fn view(&self) -> AdmissionView {
        AdmissionView {
            client: self.client,
            remote: self.remote@,
            addrs: self.addrs@,
            failed: self.failed as int,
        }
    }
}

impl AdmissionView {
    /// The address that is being dialed, and every other one that may be, is
    /// permitted by the policy.
    pub open spec fn keeps(self, policy: DestPolicy) -> bool {
        forall|i: int| 0 <= i < self.addrs.len() ==> policy.permits_ip((#[trigger] self.addrs[i]).ip)
    }

    /// What to do once the addresses are known: dial the first that did not fail
    /// yet, or give up.
    pub open spec fn next_dial(self) -> Result<SocketAddr, DestError> {
        if 0 <= self.failed < self.addrs.len() {
            Ok(self.addrs[self.failed])
        } else {
            Err(DestError::Connect)
        }
    }
}

/// Only addresses that the policy permits, and that the lookup gave, are dialed:
/// nothing is resolved again between the check and the dialing.
pub proof fn law_only_permitted_dialed(v: AdmissionView, policy: DestPolicy)
    requires
        v.keeps(policy),
    ensures
        v.next_dial() matches Ok(addr) ==> policy.permits_ip(addr.ip) && v.addrs.contains(addr),
        (AdmissionView { failed: v.failed + 1, ..v }).keeps(policy),
{
}

/// Whether `next` is what `dial` asks for.
pub open spec fn asks_for(next: Next, dial: Result<SocketAddr, DestError>) -> bool {
    match dial {
        Ok(addr) => next == Next::Dial(addr),
        Err(e) => next matches Next::Refuse(refusal) && refusal@ == dest_refused(e),
    }
}

/// The address that the client of a request is counted under.
pub open spec fn counted_client(headers: HeaderMap, peer: SocketAddr, config: Config) -> IpAddr {
    server::client_of(
        server::header_value(headers, "cf-connecting-ip"@),
        server::header_value(headers, "x-real-ip"@),
        server::header_value(headers, "x-forwarded-for"@),
        peer.ip,
        config.trust_forwarded_client_ip,
        config.trusted_proxies@,
    )
}

impl Admission {
    /// Decides on a request and counts it. A request that is refused for its
    /// headers, its token or its destination is not counted at all.
    pub fn begin(
        query: &ProxyQuery,
        headers: &HeaderMap,
        peer: SocketAddr,
        config: &Config,
        debug_build: bool,
        limits: &mut LimitState,
    ) -> (r: Result<Self, Refusal>)
        requires
            config.valid(),
            old(limits).inv(),
        ensures
            match r {
                Ok(a) => {
                    &&& may_screen(
                        *query,
                        *headers,
                        *config,
                        debug_build,
                        Ok::<RemoteView, RefusalView>(a@.remote),
                    )
                    &&& a@.client == counted_client(*headers, peer, *config)
                    &&& a@.addrs == Seq::<SocketAddr>::empty()
                    &&& a@.failed == 0
                    &&& exists|now: Instant|
                        old(limits).clock().gives(now) && (final(limits)@, Ok::<(), LimitError>(()))
                            == #[trigger] old(limits)@.attempt(
                            old(limits).config(),
                            now,
                            old(limits).row_for(a@.client),
                            a@.remote.key(),
                        )
                },
                Err(refusal) => {
                    ||| *final(limits) == *old(limits) && may_screen(
                        *query,
                        *headers,
                        *config,
                        debug_build,
                        Err::<RemoteView, RefusalView>(refusal@),
                    )
                    ||| exists|remote: RemoteView, now: Instant, e: LimitError|
                        may_screen(
                            *query,
                            *headers,
                            *config,
                            debug_build,
                            Ok::<RemoteView, RefusalView>(remote),
                        ) && old(limits).clock().gives(now) && refusal@ == #[trigger] limit_refused(
                            e,
                        ) && (
                            final(limits)@,
                            Err::<(), LimitError>(e),
                        ) == #[trigger] old(limits)@.attempt(
                            old(limits).config(),
                            now,
                            old(limits).row_for(counted_client(*headers, peer, *config)),
                            remote.key(),
                        )
                },
            },
            final(limits).inv(),
            final(limits).config() == old(limits).config(),
            final(limits).clock() == old(limits).clock(),
            final(limits).leases() == old(limits).leases(),
    {
        let client = server::client_ip(
            headers,
            peer,
            config.trust_forwarded_client_ip,
            config.trusted_proxies.as_slice(),
        );
        let remote = match screen(query, headers, config, debug_build) {
            Ok(remote) => remote,
            Err(refusal) => {
                return Err(refusal);
            },
        };
        let key = remote.dest_key();
        match limits.record_attempt(client, key.as_str()) {
            Err(e) => Err(refuse_limit(e)),
            Ok(_) => Ok(Admission { client, remote, addrs: Vec::new(), failed: 0 }),
        }
    }

    /// The address that the client is counted under.
    pub fn client(&self) -> (r: IpAddr)
        ensures
            r == self@.client,
    {
        self.client
    }

    /// The destination.
    pub fn remote(&self) -> (r: &Remote)
        ensures
            r@ == self@.remote,
    {
        &self.remote
    }

    /// Whether the name of the destination has to be looked up.
    pub fn needs_lookup(&self) -> (r: bool)
        ensures
            r == (self@.remote.ip_literal is None),
    {
        dest::needs_lookup(&self.remote)
    }

    /// Takes the answer to the lookup, `None` if it failed or timed out. Where no
    /// lookup is needed, the answer is not used.
    pub fn on_lookup(&mut self, policy: &DestPolicy, looked_up: Option<Vec<SocketAddr>>) -> (r: Next)
        ensures
            final(self)@.client == old(self)@.client,
            final(self)@.remote == old(self)@.remote,
            match dest::dialable(
                old(self)@.remote,
                *policy,
                match looked_up {
                    Some(v) => Some(v@),
                    None => None,
                },
            ) {
                Ok(addrs) => {
                    &&& final(self)@.addrs == addrs
                    &&& final(self)@.failed == 0
                    &&& final(self)@.keeps(*policy)
                    &&& r == Next::Dial(addrs[0])
                },
                Err(e) => r matches Next::Refuse(refusal) && refusal@ == dest_refused(e),
            },
    {
        match dest::resolve_filtered(&self.remote, policy, looked_up) {
            Err(e) => Next::Refuse(refuse_dest(e)),
            Ok(addrs) => {
                self.addrs = addrs;
                self.failed = 0;
                Next::Dial(self.addrs[0])
            },
        }
    }

    /// The address that was to be dialed could not be connected to.
    pub fn on_dial_failed(&mut self) -> (r: Next)
        requires
            old(self)@.failed < old(self)@.addrs.len(),
        ensures
            final(self)@ == (AdmissionView { failed: old(self)@.failed + 1, ..old(self)@ }),
            asks_for(r, final(self)@.next_dial()),
    {
        let n: usize = self.addrs.len();
        assert(self.failed < n);
        self.failed = self.failed + 1;
        match dest::connect_addrs(self.addrs.as_slice(), self.failed) {
            Dial::Try(addr) => Next::Dial(addr),
            Dial::GiveUp(e) => Next::Refuse(refuse_dest(e)),
        }
    }

    /// Takes a connection slot, once the destination is connected to. Dialing comes
    /// first, so that a destination that does not answer pins no slot.
    pub fn take_lease(&self, limits: &mut LimitState) -> (r: Result<ConnectionLease, Refusal>)
        requires
            old(limits).inv(),
            old(limits).config().max_global_connections != 0 || old(limits)@.global_connections
                < usize::MAX,
        ensures
            exists|now: Instant|
                ({
                    let (after, out) = #[trigger] old(limits)@.acquired(
                        old(limits).config(),
                        now,
                        old(limits).row_for(self@.client),
                        self@.remote.key(),
                    );
                    &&& old(limits).clock().gives(now)
                    &&& final(limits)@ == after
                    &&& match r {
                        Ok(_) => out is Ok,
                        Err(refusal) => out matches Err(e) && refusal@ == limit_refused(e),
                    }
                }),
            match r {
                Ok(lease) => {
                    &&& lease@ == (old(limits).row_for(self@.client), self@.remote.key())
                    &&& final(limits).leases() == old(limits).leases().insert(lease@)
                },
                Err(_) => final(limits).leases() == old(limits).leases(),
            },
            final(limits).inv(),
            final(limits).config() == old(limits).config(),
            final(limits).clock() == old(limits).clock(),
    {
        let key = self.remote.dest_key();
        match limits.acquire(self.client, key.as_str()) {
            Ok(lease) => Ok(lease),
            Err(e) => Err(refuse_limit(e)),
        }
    }

    /// The client and the destination, for the session that follows.
    pub fn into_parts(self) -> (r: (IpAddr, Remote))
        ensures
            r.0 == self@.client,
            r.1@ == self@.remote,
    {
        (self.client, self.remote)
    }
}

/// What is refused for its destination is answered with 400 where it cannot be read,
/// with 502 where it cannot be reached, and with 403 where it is not allowed. Full
/// proxies and destinations answer 503, the byte cap 403, and the caps of a client
/// and the rates 429.
pub proof fn law_refusal_numbers(d: DestError, l: LimitError)
    ensures
        dest_refused(d).status.number() == if d is InvalidRemote {
            400u16
        } else if d is Dns || d is Connect {
            502
        } else {
            403
        },
        limit_refused(l).status.number() == if l is GlobalFull || l is PerDestFull {
            503u16
        } else if l is ByteCap {
            403
        } else {
            429
        },
{
}

/// Every refusal is counted under a reason of its own, and which error it was can be
/// told from the reason.
pub proof fn law_refusal_reasons(d: DestError, e: DestError, l: LimitError, m: LimitError)
    ensures
        dest_refused(d).reason is Some,
        limit_refused(l).reason is Some,
        dest_refused(d).reason == dest_refused(e).reason ==> d == e,
        limit_refused(l).reason == limit_refused(m).reason ==> l == m,
        dest_refused(d).reason != limit_refused(l).reason,
        d is Dns <==> dest_refused(d).reason == Some(RejectReason::Dns),
        d is Connect <==> dest_refused(d).reason == Some(RejectReason::Connect),
        d is BadPort <==> dest_refused(d).reason == Some(RejectReason::BadPort),
        d is IpLiteral <==> dest_refused(d).reason == Some(RejectReason::IpLiteral),
        d is PrivateIp <==> dest_refused(d).reason == Some(RejectReason::PrivateIp),
        d is InvalidRemote <==> dest_refused(d).reason == Some(RejectReason::InvalidRemote),
        l is GlobalFull <==> limit_refused(l).reason == Some(RejectReason::GlobalFull),
        l is PerIpFull <==> limit_refused(l).reason == Some(RejectReason::PerIpFull),
        l is PerDestFull <==> limit_refused(l).reason == Some(RejectReason::PerDestFull),
        l is ConnectRate <==> limit_refused(l).reason == Some(RejectReason::ConnectRate),
        l is GlobalConnectRate <==> limit_refused(l).reason == Some(
            RejectReason::GlobalConnectRate,
        ),
        l is DistinctDests <==> limit_refused(l).reason == Some(RejectReason::DistinctDests),
        l is ByteCap <==> limit_refused(l).reason == Some(RejectReason::ByteCap),
{
}

/// A request is let through exactly if its origin, its host, its token and its
/// destination all pass, and then to the destination that it names.
pub proof fn law_let_through_if_all_pass(
    origin: bool,
    host: bool,
    verdict: Result<(), Status>,
    raw: Seq<char>,
    policy: DestPolicy,
)
    ensures
        ({
            let r = screened(origin, host, verdict, raw, policy);
            let listed = |port: u16| policy.allowed_ports matches Some(set) ==> set@.contains(port);
            let named = |remote: RemoteView|
                remote.ip_literal matches Some(ip) ==> policy.allow_ip_literals && (
                policy.allow_private_destinations || dest::global_unicast(ip));
            &&& r is Ok <==> origin && host && verdict is Ok && (dest::remote_value(raw) matches Some(
                remote,
            ) && listed(remote.port) && named(remote))
            &&& r matches Ok(remote) ==> dest::remote_value(raw) == Some(remote)
        }),
{
}

/// The first check that fails decides the answer: 403 for the origin, 403 for the
/// host, the status of the token, 400 for a destination that cannot be read, and 403
/// for one that is not allowed.
pub proof fn law_first_failure_decides(
    origin: bool,
    host: bool,
    verdict: Result<(), Status>,
    raw: Seq<char>,
    policy: DestPolicy,
)
    ensures
        screened(origin, host, verdict, raw, policy) matches Err(refusal) ==> ({
            let number = refusal.status.number();
            if !origin {
                number == 403 && refusal.reason == Some(RejectReason::BadOrigin) && refusal.message
                    == "origin not allowed"@
            } else if !host {
                number == 403 && refusal.reason == Some(RejectReason::BadHost) && refusal.message
                    == "host not allowed"@
            } else if verdict is Err {
                &&& number == verdict->Err_0.number()
                &&& refusal.reason == if number == 500 {
                    None
                } else {
                    Some(RejectReason::Auth)
                }
                &&& refusal.message == if number == 500 {
                    ""@
                } else {
                    "unauthorized"@
                }
            } else if dest::remote_value(raw) is None {
                number == 400 && refusal.reason == Some(RejectReason::InvalidRemote)
            } else {
                number == 403 && refusal.reason != Some(RejectReason::InvalidRemote)
            }
        }),
{
}

/// The addresses are dialed in their order, each once, and when all of them have
/// failed the request is answered with 502.
pub proof fn law_dialed_in_order(v: AdmissionView)
    requires
        0 <= v.failed <= v.addrs.len(),
    ensures
        v.next_dial() matches Ok(addr) ==> v.failed < v.addrs.len() && addr
            == v.addrs.skip(v.failed).first(),
        v.next_dial() matches Err(e) ==> v.failed == v.addrs.len() && dest_refused(
            e,
        ).status.number() == 502 && dest_refused(e).reason == Some(RejectReason::Connect),
{
}

/// What each refusal tells the client. The two connect rates are told alike.
pub proof fn law_refusal_texts(d: DestError, l: LimitError)
    ensures
        d is InvalidRemote ==> dest_refused(d).message == "invalid remote"@,
        d is BadPort ==> dest_refused(d).message == "destination port not allowed"@,
        d is IpLiteral ==> dest_refused(d).message == "IP literals are not allowed"@,
        d is PrivateIp ==> dest_refused(d).message == "destination is not a public address"@,
        d is Dns ==> dest_refused(d).message == "failed to resolve destination"@,
        d is Connect ==> dest_refused(d).message == "failed to connect to destination"@,
        l is GlobalFull ==> limit_refused(l).message == "proxy is at capacity"@,
        l is PerIpFull ==> limit_refused(l).message == "too many connections from this address"@,
        l is PerDestFull ==> limit_refused(l).message
            == "too many connections to this destination"@,
        l is ConnectRate || l is GlobalConnectRate ==> limit_refused(l).message
            == "connect rate limit exceeded"@,
        l is DistinctDests ==> limit_refused(l).message == "too many distinct destinations"@,
        l is ByteCap ==> limit_refused(l).message == "byte limit exceeded"@,
{
}

}
