//! The protocol probes that a session begins with, fed with what arrives until
//! they pass or reject. What was read for a probe is passed on once it passes.
use vstd::prelude::*;
use vstd::string::StrSliceExecFns;

use crate::connection::{Message, Written};
use crate::dest::{Remote, RemoteView};
use crate::metrics::{Error, RejectReason};
use crate::proto;
use crate::proto::ProbeKind;

verus! {

/// How much may be read while a TLS record is still incomplete.
pub const MAX_PARTIAL_HELLO: usize = 16384;

/// What happened while a probe waited.
#[derive(Debug)]
pub enum ProbeEvent {
    /// The client sent a message.
    Client(Message),
    /// The destination sent bytes.
    Upstream(Vec<u8>),
    /// Reading failed.
    Failed,
    /// The side that was waited for is gone.
    Gone,
    /// Nothing came in time.
    TimedOut,
}

/// What a probe asks for.
#[derive(Debug)]
pub enum ProbeStep {
    /// Wait for more.
    Wait,
    /// Answer a ping with its payload, then wait for more.
    Pong(Vec<u8>),
    /// The probe has passed: send these bytes, all that was read, to the other side,
    /// once they are counted with [`crate::connection::Connection::pass_probe`].
    Pass(Vec<u8>),
    /// End the session, and count it under the reason. The error, if any, is counted
    /// besides.
    Reject(RejectReason, Option<Error>),
}

/// What a step says.
pub enum ProbeStepView {
    Wait,
    Pong(Seq<u8>),
    Pass(Seq<u8>),
    Reject(RejectReason, Option<Error>),
}

impl View for ProbeStep {
    type V = ProbeStepView;

    open spec fn view(&self) -> ProbeStepView {
        match self {
            ProbeStep::Wait => ProbeStepView::Wait,
            ProbeStep::Pong(p) => ProbeStepView::Pong(p@),
            ProbeStep::Pass(data) => ProbeStepView::Pass(data@),
            ProbeStep::Reject(reason, e) => ProbeStepView::Reject(*reason, *e),
        }
    }
}

/// The bytes that an event adds to what was read from the client.
pub open spec fn client_bytes(event: ProbeEvent) -> Option<Seq<u8>> {
    match event {
        ProbeEvent::Client(Message::Binary(data)) => Some(data@),
        ProbeEvent::Client(Message::Text(text)) => Some(vstd::utf8::encode_utf8(text@)),
        _ => None,
    }
}

/// The answer to what a client has sent so far: a complete ClientHello for the
/// destination passes, an incomplete record waits unless it is too long already.
pub open spec fn hello_step(hello: Seq<u8>, remote: RemoteView) -> ProbeStepView {
    match proto::record_lacks(hello) {
        Err(_) => ProbeStepView::Reject(RejectReason::Proto, None),
        Ok(n) => if n != 0 {
            if hello.len() > MAX_PARTIAL_HELLO {
                ProbeStepView::Reject(RejectReason::Proto, None)
            } else {
                ProbeStepView::Wait
            }
        } else {
            match proto::hello_verdict(hello, remote.host, remote.ip_literal is Some) {
                Ok(_) => ProbeStepView::Pass(hello),
                Err(_) => ProbeStepView::Reject(RejectReason::Proto, None),
            }
        },
    }
}

/// The answer of the TLS probe to an event, after `hello` was read.
pub open spec fn tls_step(hello: Seq<u8>, event: ProbeEvent, remote: RemoteView) -> ProbeStepView {
    match client_bytes(event) {
        Some(data) => hello_step(hello + data, remote),
        None => match event {
            ProbeEvent::Client(Message::Ping(p)) => ProbeStepView::Pong(p@),
            ProbeEvent::Client(Message::Pong(_)) => ProbeStepView::Wait,
            ProbeEvent::Failed => ProbeStepView::Reject(RejectReason::Proto, Some(Error::Read)),
            _ => ProbeStepView::Reject(RejectReason::Proto, None),
        },
    }
}

/// The probe of implicit TLS: the client must begin with a ClientHello for the
/// destination.
#[derive(Debug)]
pub struct TlsProbe {
    hello: Vec<u8>,
}

impl View for TlsProbe {
    type V = Seq<u8>;

    /// What was read from the client.
    closed spec fn view(&self) -> Seq<u8> {
        self.hello@
    }
}

impl TlsProbe {
    /// Nothing was read yet.
    pub fn new() -> (r: Self)
        ensures
            r@ == Seq::<u8>::empty(),
    {
        TlsProbe { hello: Vec::new() }
    }

    /// Takes an event.
    pub fn on_event(&mut self, event: ProbeEvent, remote: &Remote) -> (r: ProbeStep)
        ensures
            r@ == tls_step(old(self)@, event, remote@),
            final(self)@ == match client_bytes(event) {
                Some(data) => if r is Pass {
                    Seq::empty()
                } else {
                    old(self)@ + data
                },
                None => old(self)@,
            },
    {
        let mut data = match event {
            ProbeEvent::Client(Message::Binary(data)) => data,
            ProbeEvent::Client(Message::Text(text)) => text.as_str().as_bytes_vec(),
            ProbeEvent::Client(Message::Ping(p)) => {
                return ProbeStep::Pong(p);
            },
            ProbeEvent::Client(Message::Pong(_)) => {
                return ProbeStep::Wait;
            },
            ProbeEvent::Failed => {
                return ProbeStep::Reject(RejectReason::Proto, Some(Error::Read));
            },
            _ => {
                return ProbeStep::Reject(RejectReason::Proto, None);
            },
        };
        self.hello.append(&mut data);
        match proto::tls_record_needed(self.hello.as_slice()) {
            Err(_) => {
                return ProbeStep::Reject(RejectReason::Proto, None);
            },
            Ok(n) => {
                if n != 0 {
                    return if self.hello.len() > MAX_PARTIAL_HELLO {
                        ProbeStep::Reject(RejectReason::Proto, None)
                    } else {
                        ProbeStep::Wait
                    };
                }
            },
        }
        let verdict = proto::validate_tls_client_hello(
            self.hello.as_slice(),
            remote.host.as_str(),
            remote.ip_literal.is_some(),
        );
        if verdict.is_err() {
            return ProbeStep::Reject(RejectReason::Proto, None);
        }
        let mut hello: Vec<u8> = Vec::new();
        std::mem::swap(&mut hello, &mut self.hello);
        ProbeStep::Pass(hello)
    }
}

/// Whether enough of a greeting has come to decide on it.
pub open spec fn enough(greet: Seq<u8>) -> bool {
    greet.contains(10u8) || greet.len() >= proto::MAX_GREETING
}

/// The answer to what a destination has sent so far.
pub open spec fn greet_step(greet: Seq<u8>, kind: ProbeKind) -> ProbeStepView {
    if !enough(greet) {
        ProbeStepView::Wait
    } else if proto::greeting_fits(proto::skip_blank(greet), kind) {
        ProbeStepView::Pass(greet)
    } else {
        ProbeStepView::Reject(RejectReason::Proto, None)
    }
}

/// The answer of the greeting probe to an event, after `greet` was read. A read of
/// nothing is the end of the connection.
pub open spec fn greeting_step(greet: Seq<u8>, event: ProbeEvent, kind: ProbeKind) -> ProbeStepView {
    match event {
        ProbeEvent::Upstream(data) => if data@.len() == 0 {
            ProbeStepView::Reject(RejectReason::Proto, None)
        } else {
            greet_step(greet + data@, kind)
        },
        ProbeEvent::Failed => ProbeStepView::Reject(RejectReason::Proto, Some(Error::Read)),
        _ => ProbeStepView::Reject(RejectReason::Proto, None),
    }
}

/// The probe of a server greeting.
#[derive(Debug)]
pub struct GreetingProbe {
    greet: Vec<u8>,
    kind: ProbeKind,
}

impl View for GreetingProbe {
    type V = Seq<u8>;

    /// What was read from the destination.
    closed spec fn view(&self) -> Seq<u8> {
        self.greet@
    }
}

impl GreetingProbe {
    /// The protocol whose greeting is expected.
    pub closed spec fn expects(&self) -> ProbeKind {
        self.kind
    }

    /// Nothing was read yet.
    pub fn new(kind: ProbeKind) -> (r: Self)
        ensures
            r@ == Seq::<u8>::empty(),
            r.expects() == kind,
    {
        GreetingProbe { greet: Vec::new(), kind }
    }

    /// Takes an event.
    pub fn on_event(&mut self, event: ProbeEvent) -> (r: ProbeStep)
        ensures
            r@ == greeting_step(old(self)@, event, old(self).expects()),
            final(self).expects() == old(self).expects(),
            final(self)@ == match event {
                ProbeEvent::Upstream(data) => if r is Pass {
                    Seq::empty()
                } else {
                    old(self)@ + data@
                },
                _ => old(self)@,
            },
    {
        let mut data = match event {
            ProbeEvent::Upstream(data) => data,
            ProbeEvent::Failed => {
                return ProbeStep::Reject(RejectReason::Proto, Some(Error::Read));
            },
            _ => {
                return ProbeStep::Reject(RejectReason::Proto, None);
            },
        };
        if data.len() == 0 {
            assert(self@ + data@ =~= self@);
            return ProbeStep::Reject(RejectReason::Proto, None);
        }
        self.greet.append(&mut data);
        if !proto::greeting_complete(self.greet.as_slice()) && self.greet.len()
            < proto::max_greeting_bytes() {
            return ProbeStep::Wait;
        }
        if proto::validate_greeting(self.greet.as_slice(), self.kind).is_err() {
            return ProbeStep::Reject(RejectReason::Proto, None);
        }
        let mut greet: Vec<u8> = Vec::new();
        std::mem::swap(&mut greet, &mut self.greet);
        ProbeStep::Pass(greet)
    }
}

/// Decides how a session goes on once the bytes of a probe that has passed were
/// sent.
pub fn after_sending(written: Written) -> (r: Result<(), RejectReason>)
    ensures
        r == if written is Done {
            Ok::<(), RejectReason>(())
        } else {
            Err::<(), RejectReason>(RejectReason::Proto)
        },
{
    match written {
        Written::Done => Ok(()),
        Written::Failed | Written::TimedOut => Err(RejectReason::Proto),
    }
}

/// What reaches the destination from the TLS probe is a ClientHello that names it,
/// and all that the client has sent.
pub proof fn law_only_a_hello_passes(hello: Seq<u8>, event: ProbeEvent, remote: RemoteView)
    ensures
        tls_step(hello, event, remote) matches ProbeStepView::Pass(data) ==> {
            &&& client_bytes(event) matches Some(more) && data == hello + more
            &&& proto::hello_verdict(data, remote.host, remote.ip_literal is Some) is Ok
            &&& proto::record_lacks(data) == Ok::<int, proto::ProtoError>(0)
        },
{
}

/// What reaches the client from the greeting probe is a greeting of the protocol,
/// and all that the destination has sent.
pub proof fn law_only_a_greeting_passes(greet: Seq<u8>, event: ProbeEvent, kind: ProbeKind)
    ensures
        greeting_step(greet, event, kind) matches ProbeStepView::Pass(data) ==> {
            &&& event matches ProbeEvent::Upstream(more) && data == greet + more@
            &&& proto::greeting_fits(proto::skip_blank(data), kind)
        },
{
}

/// A ClientHello that names the destination passes with its last byte, in whatever
/// pieces it comes: before that the probe waits, and what it hands on then is the
/// whole record. One that names another destination is rejected.
pub proof fn law_hello_passes_with_its_last_byte(
    minor: u8,
    start: proto::HelloStart,
    before: Seq<(int, Seq<u8>)>,
    others: Seq<(u8, Seq<u8>)>,
    name: Seq<char>,
    rest: Seq<u8>,
    k: int,
    data: Vec<u8>,
    remote: RemoteView,
)
    requires
        start.valid(),
        proto::are_other_extensions(before),
        proto::are_other_names(others),
        name.len() > 0,
        vstd::utf8::encode_utf8(name).len() < 0x1_0000,
        proto::name_list(others, name).len() + 2 < 0x1_0000,
        start.bytes().len() + 2 + proto::naming_extensions(
            before,
            proto::name_list(others, name),
            rest,
        ).len() + 4 <= 16000,
    ensures
        ({
            let exts = proto::naming_extensions(before, proto::name_list(others, name), rest);
            let record = proto::handshake_record(minor, 1, start.bytes() + proto::vector16(exts));
            let event = ProbeEvent::Client(Message::Binary(data));
            0 <= k < record.len() ==> {
                &&& k + data@.len() < record.len() && data@ == record.subrange(
                    k,
                    k + data@.len(),
                ) ==> tls_step(record.take(k), event, remote) == ProbeStepView::Wait
                &&& data@ == record.skip(k) ==> tls_step(record.take(k), event, remote) == if
                remote.ip_literal is Some || crate::dest::normal_hostname(name)
                    == crate::dest::normal_hostname(remote.host) {
                    ProbeStepView::Pass(record)
                } else {
                    ProbeStepView::Reject(RejectReason::Proto, None)
                }
            }
        }),
{
    let exts = proto::naming_extensions(before, proto::name_list(others, name), rest);
    let message = start.bytes() + proto::vector16(exts);
    let record = proto::handshake_record(minor, 1, message);
    assert(message.len() == start.bytes().len() + 2 + exts.len());
    proto::law_server_name_reads_back(
        minor,
        start,
        before,
        others,
        name,
        rest,
        remote.host,
        remote.ip_literal is Some,
    );
    proto::law_record_is_complete_at_its_end(minor, 1, message, 9 + message.len() as int);
    assert(record.take(9 + message.len() as int) =~= record);
    if 0 <= k < record.len() {
        let n = k + data@.len();
        if n < record.len() && data@ == record.subrange(k, n) {
            assert(record.take(k) + data@ =~= record.take(n));
            proto::law_record_is_complete_at_its_end(minor, 1, message, n);
        }
        if data@ == record.skip(k) {
            assert(record.take(k) + data@ =~= record);
        }
    }
}

/// A client that begins with anything but a TLS handshake record is rejected at its
/// first byte, and one whose record is still incomplete after 16384 bytes is rejected
/// then.
pub proof fn law_other_beginnings_are_rejected(hello: Seq<u8>, data: Vec<u8>, remote: RemoteView)
    requires
        (hello + data@).len() > 0,
    ensures
        ({
            let step = tls_step(hello, ProbeEvent::Client(Message::Binary(data)), remote);
            let reject = ProbeStepView::Reject(RejectReason::Proto, None);
            let all = hello + data@;
            &&& all[0] != 22 ==> step == reject
            &&& all.len() >= 5 && all[1] != 3 ==> step == reject
            &&& all.len() > 16384 && !(step is Pass) ==> step == reject
            &&& step is Wait ==> all.len() < 5 + 256 * all[3] + all[4] || all.len() < 5
        }),
{
}

/// A greeting is judged once its line has ended or 512 bytes have come, and not
/// before: then it passes whole, behind any blanks, if it begins as its protocol says.
pub proof fn law_greeting_is_judged_by_its_line(
    greet: Seq<u8>,
    data: Vec<u8>,
    blanks: Seq<u8>,
    first: u8,
    rest: Seq<u8>,
)
    requires
        data@.len() > 0,
        greet + data@ == blanks + (seq![first] + rest),
        forall|i: int| 0 <= i < blanks.len() ==> proto::is_blank(#[trigger] blanks[i]),
        !proto::is_blank(first),
    ensures
        ({
            let line = seq![first] + rest;
            let ended = (greet + data@).len() >= 512 || (exists|i: int|
                0 <= i < (greet + data@).len() && (greet + data@)[i] == '\n' as u8);
            let event = ProbeEvent::Upstream(data);
            let judged = |fits: bool|
                if !ended {
                    ProbeStepView::Wait
                } else if fits {
                    ProbeStepView::Pass(greet + data@)
                } else {
                    ProbeStepView::Reject(RejectReason::Proto, None)
                };
            &&& greeting_step(greet, event, ProbeKind::ImapGreeting) == judged(
                line.len() >= 2 && line.take(2) == seq!['*' as u8, ' ' as u8],
            )
            &&& greeting_step(greet, event, ProbeKind::SmtpGreeting) == judged(
                line.len() >= 4 && (line.take(4) == seq!['2' as u8, '2' as u8, '0' as u8, ' ' as u8]
                    || line.take(4) == seq!['2' as u8, '2' as u8, '0' as u8, '-' as u8]),
            )
        }),
{
    proto::law_greetings(blanks, first, rest);
}

/// Pings are answered and pongs are passed over while a ClientHello is waited for. A
/// failed read, a side that is gone and a wait that took too long end either probe,
/// and so does a read of nothing.
pub proof fn law_other_probe_events(
    so_far: Seq<u8>,
    payload: Vec<u8>,
    empty: Vec<u8>,
    remote: RemoteView,
    kind: ProbeKind,
)
    requires
        empty@.len() == 0,
    ensures
        ({
            let failed = ProbeStepView::Reject(RejectReason::Proto, Some(Error::Read));
            let ended = ProbeStepView::Reject(RejectReason::Proto, None);
            &&& tls_step(so_far, ProbeEvent::Client(Message::Ping(payload)), remote)
                == ProbeStepView::Pong(payload@)
            &&& tls_step(so_far, ProbeEvent::Client(Message::Pong(payload)), remote)
                == ProbeStepView::Wait
            &&& tls_step(so_far, ProbeEvent::Failed, remote) == failed
            &&& tls_step(so_far, ProbeEvent::Gone, remote) == ended
            &&& tls_step(so_far, ProbeEvent::TimedOut, remote) == ended
            &&& greeting_step(so_far, ProbeEvent::Failed, kind) == failed
            &&& greeting_step(so_far, ProbeEvent::Gone, kind) == ended
            &&& greeting_step(so_far, ProbeEvent::TimedOut, kind) == ended
            &&& greeting_step(so_far, ProbeEvent::Upstream(empty), kind) == ended
        }),
{
}

}
