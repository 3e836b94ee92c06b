//! What is counted: kinds of errors and reasons for rejections, with their labels.
use vstd::prelude::*;
use vstd::std_specs::convert::FromSpecImpl;

use crate::dest::DestError;
use crate::limits::LimitError;

verus! {

/// Where an error on a connection occurred.
#[derive(Clone, Copy, Debug, Hash, PartialEq, Eq, Structural)]
pub enum Error {
    Handshake,
    Read,
    Send,
    Shutdown,
    Timeout,
}

/// The labels of an error counter.
#[derive(Clone, Copy, Debug, Hash, PartialEq, Eq, Structural)]
pub struct ErrorLabels {
    pub error: Error,
}

/// Why a proxy request was refused or a session ended by the proxy.
#[derive(Clone, Copy, Debug, Hash, PartialEq, Eq, Structural)]
pub enum RejectReason {
    Auth,
    BadOrigin,
    BadHost,
    InvalidRemote,
    BadPort,
    IpLiteral,
    PrivateIp,
    Dns,
    Connect,
    ConnectRate,
    GlobalConnectRate,
    DistinctDests,
    GlobalFull,
    PerIpFull,
    PerDestFull,
    Proto,
    ByteCap,
    Lifetime,
}

/// The reason that a destination error is counted under.
pub open spec fn reason_of_dest(e: DestError) -> RejectReason {
    match e {
        DestError::InvalidRemote => RejectReason::InvalidRemote,
        DestError::BadPort => RejectReason::BadPort,
        DestError::IpLiteral => RejectReason::IpLiteral,
        DestError::PrivateIp => RejectReason::PrivateIp,
        DestError::Dns => RejectReason::Dns,
        DestError::Connect => RejectReason::Connect,
    }
}

/// The reason that a limit is counted under.
pub open spec fn reason_of_limit(e: LimitError) -> RejectReason {
    match e {
        LimitError::GlobalFull => RejectReason::GlobalFull,
        LimitError::PerIpFull => RejectReason::PerIpFull,
        LimitError::PerDestFull => RejectReason::PerDestFull,
        LimitError::ConnectRate => RejectReason::ConnectRate,
        LimitError::GlobalConnectRate => RejectReason::GlobalConnectRate,
        LimitError::DistinctDests => RejectReason::DistinctDests,
        LimitError::ByteCap => RejectReason::ByteCap,
    }
}

impl FromSpecImpl<DestError> for RejectReason {
    open spec fn obeys_from_spec() -> bool {
        true
    }

    open spec fn from_spec(e: DestError) -> RejectReason {
        reason_of_dest(e)
    }
}

impl From<DestError> for RejectReason {
    fn from(e: DestError) -> (r: Self) {
        match e {
            DestError::InvalidRemote => RejectReason::InvalidRemote,
            DestError::BadPort => RejectReason::BadPort,
            DestError::IpLiteral => RejectReason::IpLiteral,
            DestError::PrivateIp => RejectReason::PrivateIp,
            DestError::Dns => RejectReason::Dns,
            DestError::Connect => RejectReason::Connect,
        }
    }
}

impl FromSpecImpl<LimitError> for RejectReason {
    open spec fn obeys_from_spec() -> bool {
        true
    }

    open spec fn from_spec(e: LimitError) -> RejectReason {
        reason_of_limit(e)
    }
}

impl From<LimitError> for RejectReason {
    fn from(e: LimitError) -> (r: Self) {
        match e {
            LimitError::GlobalFull => RejectReason::GlobalFull,
            LimitError::PerIpFull => RejectReason::PerIpFull,
            LimitError::PerDestFull => RejectReason::PerDestFull,
            LimitError::ConnectRate => RejectReason::ConnectRate,
            LimitError::GlobalConnectRate => RejectReason::GlobalConnectRate,
            LimitError::DistinctDests => RejectReason::DistinctDests,
            LimitError::ByteCap => RejectReason::ByteCap,
        }
    }
}

impl RejectReason {
    /// The value of the `reason` label.
    pub open spec fn text(self) -> Seq<char> {
        match self {
            RejectReason::Auth => "auth"@,
            RejectReason::BadOrigin => "bad_origin"@,
            RejectReason::BadHost => "bad_host"@,
            RejectReason::InvalidRemote => "invalid_remote"@,
            RejectReason::BadPort => "bad_port"@,
            RejectReason::IpLiteral => "ip_literal"@,
            RejectReason::PrivateIp => "private_ip"@,
            RejectReason::Dns => "dns"@,
            RejectReason::Connect => "connect"@,
            RejectReason::ConnectRate => "connect_rate"@,
            RejectReason::GlobalConnectRate => "global_connect_rate"@,
            RejectReason::DistinctDests => "distinct_dests"@,
            RejectReason::GlobalFull => "global_full"@,
            RejectReason::PerIpFull => "per_ip_full"@,
            RejectReason::PerDestFull => "per_dest_full"@,
            RejectReason::Proto => "proto"@,
            RejectReason::ByteCap => "byte_cap"@,
            RejectReason::Lifetime => "lifetime"@,
        }
    }

    /// The value of the `reason` label.
    pub fn label(&self) -> (r: &'static str)
        ensures
            r@ == self.text(),
    {
        match self {
            RejectReason::Auth => "auth",
            RejectReason::BadOrigin => "bad_origin",
            RejectReason::BadHost => "bad_host",
            RejectReason::InvalidRemote => "invalid_remote",
            RejectReason::BadPort => "bad_port",
            RejectReason::IpLiteral => "ip_literal",
            RejectReason::PrivateIp => "private_ip",
            RejectReason::Dns => "dns",
            RejectReason::Connect => "connect",
            RejectReason::ConnectRate => "connect_rate",
            RejectReason::GlobalConnectRate => "global_connect_rate",
            RejectReason::DistinctDests => "distinct_dests",
            RejectReason::GlobalFull => "global_full",
            RejectReason::PerIpFull => "per_ip_full",
            RejectReason::PerDestFull => "per_dest_full",
            RejectReason::Proto => "proto",
            RejectReason::ByteCap => "byte_cap",
            RejectReason::Lifetime => "lifetime",
        }
    }
}

/// The labels of a rejection counter.
#[derive(Clone, Copy, Debug, Hash, PartialEq, Eq, Structural)]
pub struct RejectLabels {
    pub reason: RejectReason,
}

/// The labels of a connection counter.
#[derive(Clone, Debug, Hash, PartialEq, Eq)]
pub struct ConnectionsLabels {
    pub remote: String,
}

/// No two reasons are counted under one label.
pub proof fn law_labels_differ(a: RejectReason, b: RejectReason)
    requires
        a.text() == b.text(),
    ensures
        a == b,
{
    reveal_strlit("auth");
    reveal_strlit("bad_origin");
    reveal_strlit("bad_host");
    reveal_strlit("invalid_remote");
    reveal_strlit("bad_port");
    reveal_strlit("ip_literal");
    reveal_strlit("private_ip");
    reveal_strlit("dns");
    reveal_strlit("connect");
    reveal_strlit("connect_rate");
    reveal_strlit("global_connect_rate");
    reveal_strlit("distinct_dests");
    reveal_strlit("global_full");
    reveal_strlit("per_ip_full");
    reveal_strlit("per_dest_full");
    reveal_strlit("proto");
    reveal_strlit("byte_cap");
    reveal_strlit("lifetime");
    if a != b {
        // The length or one of the first five characters differs.
        let s = a.text();
        let t = b.text();
        assert(s.len() == t.len());
        assert(s[0] == t[0] && s[1] == t[1] && s[2] == t[2]);
        assert(s.len() > 3 ==> s[3] == t[3]);
        assert(s.len() > 4 ==> s[4] == t[4]);
    }
}

}
