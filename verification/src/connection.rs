//! A session: the protocol probe, then bytes in both directions under the caps of
//! the connection and of its client. Reading and writing are done by the caller,
//! which reports what happened and is told what to do.
use vstd::prelude::*;
use vstd::string::StrSliceExecFns;

use crate::config::Config;
use crate::dest::{Remote, RemoteView};
use crate::history;
use crate::history::History;
use crate::ip::IpAddr;
use crate::limits::{ConnectionLease, LimitError, LimitState, LimitView, LimitsConfig};
use crate::metrics::{Error, RejectReason};
use crate::proto;
use crate::proto::ProbeKind;
use crate::time::{Duration, Instant};

verus! {

/// A message of the client.
#[derive(Debug)]
pub enum Message {
    Binary(Vec<u8>),
    Text(String),
    Ping(Vec<u8>),
    Pong(Vec<u8>),
    Close,
}

/// How a write went.
#[derive(Debug, Clone, Copy, PartialEq, Eq, Structural)]
pub enum Written {
    Done,
    Failed,
    /// It was not done in time.
    TimedOut,
}

/// A side of a session.
#[derive(Debug, Clone, Copy, PartialEq, Eq, Structural)]
pub enum Side {
    Client,
    Upstream,
}

/// What happened to a session.
#[derive(Debug)]
pub enum Event {
    /// The session has reached its longest life.
    Lifetime,
    /// The client sent a message.
    Client(Message),
    /// Reading from the client failed.
    ClientError,
    /// The client is gone.
    ClientGone,
    /// The client has been quiet for a while.
    ClientIdle,
    /// The destination sent bytes; none if it closed the connection.
    Upstream(Vec<u8>),
    /// Reading from the destination failed.
    UpstreamError,
    /// Something was sent to one side.
    Wrote(Side, Written),
}

/// What to do next. How a sending went is reported with [`Event::Wrote`].
#[derive(Debug)]
pub enum Action {
    /// Send these bytes to the destination.
    ToUpstream(Vec<u8>),
    /// Send these bytes to the client as a binary message.
    ToClient(Vec<u8>),
    /// Answer a ping with its payload.
    Pong(Vec<u8>),
    /// Send a ping to the client.
    Ping,
    /// Wait for the next event.
    Wait,
    /// End the session: take it down from [`Closing::Frame`] on, and report each
    /// stage with [`Connection::close`].
    End,
}

/// What is counted for a step.
#[derive(Debug, Clone, Copy, PartialEq, Eq, Structural)]
pub enum Count {
    Nothing,
    Rejected(RejectReason),
    ClientFailed(Error),
    UpstreamFailed(Error),
}

/// What to do next, and what to count for it.
#[derive(Debug)]
pub struct Step {
    pub action: Action,
    pub count: Count,
}

/// What an event says.
pub enum EventView {
    Lifetime,
    /// Bytes for the destination.
    Payload(Seq<u8>),
    Ping(Seq<u8>),
    Pong,
    Close,
    ClientError,
    ClientGone,
    ClientIdle,
    /// Bytes for the client.
    Upstream(Seq<u8>),
    UpstreamError,
    Wrote(Side, Written),
}

/// What an action says.
pub enum ActionView {
    ToUpstream(Seq<u8>),
    ToClient(Seq<u8>),
    Pong(Seq<u8>),
    Ping,
    Wait,
    End,
}

/// What a step says.
pub struct StepView {
    pub action: ActionView,
    pub count: Count,
}

impl View for Event {
    type V = EventView;

    open spec fn view(&self) -> EventView {
        match self {
            Event::Lifetime => EventView::Lifetime,
            Event::Client(Message::Binary(data)) => EventView::Payload(data@),
            Event::Client(Message::Text(text)) => EventView::Payload(
                vstd::utf8::encode_utf8(text@),
            ),
            Event::Client(Message::Ping(p)) => EventView::Ping(p@),
            Event::Client(Message::Pong(_)) => EventView::Pong,
            Event::Client(Message::Close) => EventView::Close,
            Event::ClientError => EventView::ClientError,
            Event::ClientGone => EventView::ClientGone,
            Event::ClientIdle => EventView::ClientIdle,
            Event::Upstream(data) => EventView::Upstream(data@),
            Event::UpstreamError => EventView::UpstreamError,
            Event::Wrote(side, written) => EventView::Wrote(*side, *written),
        }
    }
}

impl View for Action {
    type V = ActionView;

    open spec fn view(&self) -> ActionView {
        match self {
            Action::ToUpstream(data) => ActionView::ToUpstream(data@),
            Action::ToClient(data) => ActionView::ToClient(data@),
            Action::Pong(p) => ActionView::Pong(p@),
            Action::Ping => ActionView::Ping,
            Action::Wait => ActionView::Wait,
            Action::End => ActionView::End,
        }
    }
}

impl View for Step {
    type V = StepView;

    open spec fn view(&self) -> StepView {
        StepView { action: self.action@, count: self.count }
    }
}

/// The bytes that an event brings, in either direction.
pub open spec fn carried_by(event: EventView) -> nat {
    match event {
        EventView::Payload(data) => data.len(),
        EventView::Upstream(data) => data.len(),
        _ => 0,
    }
}

/// `a + b`, or the largest 64-bit number if that is larger.
pub open spec fn saturated(a: int, b: int) -> int {
    if a + b > u64::MAX {
        u64::MAX as int
    } else {
        a + b
    }
}

/// Whether `total` bytes on one connection are more than the cap, where 0 is no
/// cap.
pub open spec fn over_cap(cap: u64, total: int) -> bool {
    cap != 0 && total > cap
}

/// The error that a write is counted under, if it was not done.
pub open spec fn error_of(written: Written) -> Option<Error> {
    match written {
        Written::Done => None,
        Written::Failed => Some(Error::Send),
        Written::TimedOut => Some(Error::Timeout),
    }
}

/// What is counted for an error on one side.
pub open spec fn count_of(side: Side, error: Error) -> Count {
    match side {
        Side::Client => Count::ClientFailed(error),
        Side::Upstream => Count::UpstreamFailed(error),
    }
}

/// What an event asks for if no cap stands against it.
pub open spec fn plain_step(event: EventView) -> StepView {
    match event {
        EventView::Lifetime => StepView {
            action: ActionView::End,
            count: Count::Rejected(RejectReason::Lifetime),
        },
        EventView::Payload(data) => StepView {
            action: ActionView::ToUpstream(data),
            count: Count::Nothing,
        },
        EventView::Ping(p) => StepView { action: ActionView::Pong(p), count: Count::Nothing },
        EventView::Pong => StepView { action: ActionView::Wait, count: Count::Nothing },
        EventView::Close => StepView { action: ActionView::End, count: Count::Nothing },
        EventView::ClientError => StepView {
            action: ActionView::End,
            count: Count::ClientFailed(Error::Read),
        },
        EventView::ClientGone => StepView { action: ActionView::End, count: Count::Nothing },
        // Idle is normal for IMAP. A keepalive ping surfaces a dead peer.
        EventView::ClientIdle => StepView { action: ActionView::Ping, count: Count::Nothing },
        EventView::Upstream(data) => if data.len() == 0 {
            StepView { action: ActionView::End, count: Count::Nothing }
        } else {
            StepView { action: ActionView::ToClient(data), count: Count::Nothing }
        },
        EventView::UpstreamError => StepView {
            action: ActionView::End,
            count: Count::UpstreamFailed(Error::Read),
        },
        EventView::Wrote(side, written) => match error_of(written) {
            None => StepView { action: ActionView::Wait, count: Count::Nothing },
            Some(e) => StepView { action: ActionView::End, count: count_of(side, e) },
        },
    }
}

/// The end of a session that broke a byte cap.
pub open spec fn byte_cap_step() -> StepView {
    StepView { action: ActionView::End, count: Count::Rejected(RejectReason::ByteCap) }
}

/// Whether an event is counted in bytes: those of the client always are, even if
/// there are none, and those of the destination if there are any.
pub open spec fn is_counted(event: EventView) -> bool {
    match event {
        EventView::Payload(_) => true,
        EventView::Upstream(data) => data.len() > 0,
        _ => false,
    }
}

/// What is counted for an error on one side.
fn count_error(side: Side, error: Error) -> (r: Count)
    ensures
        r == count_of(side, error),
{
    match side {
        Side::Client => Count::ClientFailed(error),
        Side::Upstream => Count::UpstreamFailed(error),
    }
}

/// A stage of taking down a session that has ended.
#[derive(Debug, Clone, Copy, PartialEq, Eq, Structural)]
pub enum Closing {
    /// Send a close frame, so that the client learns that it was disconnected.
    Frame,
    /// Close the connection of the client.
    Client,
    /// Shut down the connection of the destination.
    Upstream,
}

/// The stage that follows, if there is one. The first is [`Closing::Frame`].
pub open spec fn closing_after(stage: Closing) -> Option<Closing> {
    match stage {
        Closing::Frame => Some(Closing::Client),
        Closing::Client => Some(Closing::Upstream),
        Closing::Upstream => None,
    }
}

/// What is counted for a stage that went as `written` says.
pub open spec fn closing_count(stage: Closing, written: Written) -> Count {
    if written is Done {
        Count::Nothing
    } else {
        match stage {
            Closing::Frame => count_of(Side::Client, error_of(written)->0),
            Closing::Client => count_of(Side::Client, Error::Shutdown),
            Closing::Upstream => count_of(Side::Upstream, Error::Shutdown),
        }
    }
}

/// What is counted for a stage that went as `written` says.
fn count_closing(stage: Closing, written: Written) -> (r: Count)
    ensures
        r == closing_count(stage, written),
{
    match (stage, written) {
        (_, Written::Done) => Count::Nothing,
        (Closing::Frame, Written::Failed) => count_error(Side::Client, Error::Send),
        (Closing::Frame, Written::TimedOut) => count_error(Side::Client, Error::Timeout),
        (Closing::Client, _) => count_error(Side::Client, Error::Shutdown),
        (Closing::Upstream, _) => count_error(Side::Upstream, Error::Shutdown),
    }
}

/// A session.
pub struct Connection {
    remote: Remote,
    client_ip: IpAddr,
    lease: Option<ConnectionLease>,
    conn_bytes: u64,
    max_bytes: u64,
}

/// What is known of a session.
pub struct ConnectionView {
    pub remote: RemoteView,
    pub client_ip: IpAddr,
    /// The slot that the session holds.
    pub lease: Option<(u128, Seq<char>)>,
    /// The bytes that came in, in both directions.
    pub conn_bytes: int,
    /// The cap on these, 0 for none.
    pub max_bytes: u64,
}

impl View for Connection {
    type V = ConnectionView;

    closed spec fn view(&self) -> ConnectionView {
        ConnectionView {
            remote: self.remote@,
            client_ip: self.client_ip,
            lease: match self.lease {
                Some(lease) => Some(lease@),
                None => None,
            },
            conn_bytes: self.conn_bytes as int,
            max_bytes: self.max_bytes,
        }
    }
}

impl ConnectionView {
    /// The session after an event.
    pub open spec fn after(self, event: EventView) -> ConnectionView {
        if is_counted(event) {
            ConnectionView {
                conn_bytes: saturated(self.conn_bytes, carried_by(event) as int),
                ..self
            }
        } else {
            self
        }
    }

    /// Whether an event breaks the cap of the connection.
    pub open spec fn breaks_cap(self, event: EventView) -> bool {
        is_counted(event) && over_cap(self.max_bytes, self.after(event).conn_bytes)
    }
}

/// A session and the limits after an event, and the step that it asks for. The cap
/// of the connection comes first, then the budget of the client.
pub open spec fn stepped(
    c: ConnectionView,
    event: EventView,
    limits: LimitView,
    cfg: LimitsConfig,
    now: Instant,
    row: u128,
) -> (ConnectionView, LimitView, StepView) {
    if c.breaks_cap(event) {
        (c.after(event), limits, byte_cap_step())
    } else if is_counted(event) {
        match limits.carried(cfg, now, row, carried_by(event) as u64) {
            (after, Ok(_)) => (c.after(event), after, plain_step(event)),
            (after, Err(_)) => (c.after(event), after, byte_cap_step()),
        }
    } else {
        (c, limits, plain_step(event))
    }
}

/// A session and the limits once a probe has passed on `n` bytes, and whether they
/// may be sent: the cap of the connection comes first, then the budget of the client.
pub open spec fn probed(
    c: ConnectionView,
    n: nat,
    limits: LimitView,
    cfg: LimitsConfig,
    now: Instant,
    row: u128,
) -> (ConnectionView, LimitView, Result<(), RejectReason>) {
    let after = ConnectionView { conn_bytes: saturated(c.conn_bytes, n as int), ..c };
    if over_cap(c.max_bytes, after.conn_bytes) {
        (after, limits, Err(RejectReason::ByteCap))
    } else {
        match limits.carried(cfg, now, row, n as u64) {
            (counted, Ok(_)) => (after, counted, Ok(())),
            (counted, Err(_)) => (after, counted, Err(RejectReason::ByteCap)),
        }
    }
}

impl Connection {
    /// A session that begins.
    pub fn new(
        remote: Remote,
        client_ip: IpAddr,
        lease: ConnectionLease,
        config: &Config,
    ) -> (r: Self)
        ensures
            r@ == (ConnectionView {
                remote: remote@,
                client_ip,
                lease: Some(lease@),
                conn_bytes: 0,
                max_bytes: config.max_bytes_per_connection,
            }),
    {
        Connection {
            remote,
            client_ip,
            lease: Some(lease),
            conn_bytes: 0,
            max_bytes: config.max_bytes_per_connection,
        }
    }

    /// The destination.
    pub fn remote(&self) -> (r: &Remote)
        ensures
            r@ == self@.remote,
    {
        &self.remote
    }

    /// Whether `total` bytes are more than the connection may carry.
    pub fn over_conn_bytes(&self, total: u64) -> (r: bool)
        ensures
            r == over_cap(self@.max_bytes, total as int),
    {
        self.max_bytes != 0 && total > self.max_bytes
    }

    /// Counts bytes for the client, at a given time.
    pub fn account_bytes_at(&self, limits: &mut LimitState, now: Instant, n: usize) -> (r: Result<
        (),
        RejectReason,
    >)
        requires
            old(limits).inv(),
        ensures
            ({
                let (after, out) = old(limits)@.carried(
                    old(limits).config(),
                    now,
                    old(limits).row_for(self@.client_ip),
                    n as u64,
                );
                &&& final(limits)@ == after
                &&& r == match out {
                    Ok(_) => Ok::<(), RejectReason>(()),
                    Err(_) => Err::<(), RejectReason>(RejectReason::ByteCap),
                }
            }),
            final(limits).inv(),
            final(limits).config() == old(limits).config(),
            final(limits).clock() == old(limits).clock(),
            final(limits).leases() == old(limits).leases(),
    {
        match limits.add_bytes_at(now, self.client_ip, n as u64) {
            Ok(_) => Ok(()),
            Err(_) => Err(RejectReason::ByteCap),
        }
    }

    /// Whether `n` more bytes may be carried, at a given time. They are counted for
    /// the connection in any case.
    fn admit_bytes_at(&mut self, limits: &mut LimitState, now: Instant, n: usize) -> (r: bool)
        requires
            old(limits).inv(),
        ensures
            final(self)@ == (ConnectionView {
                conn_bytes: saturated(old(self)@.conn_bytes, n as int),
                ..old(self)@
            }),
            if over_cap(old(self)@.max_bytes, saturated(old(self)@.conn_bytes, n as int)) {
                !r && *final(limits) == *old(limits)
            } else {
                let (after, out) = old(limits)@.carried(
                    old(limits).config(),
                    now,
                    old(limits).row_for(old(self)@.client_ip),
                    n as u64,
                );
                final(limits)@ == after && r == (out is Ok)
            },
            final(limits).inv(),
            final(limits).config() == old(limits).config(),
            final(limits).clock() == old(limits).clock(),
            final(limits).leases() == old(limits).leases(),
    {
        self.conn_bytes = self.conn_bytes.saturating_add(n as u64);
        if self.over_conn_bytes(self.conn_bytes) {
            return false;
        }
        self.account_bytes_at(limits, now, n).is_ok()
    }

    /// Counts the bytes of a probe that has passed, at a given time, before they are
    /// sent to the other side. They come out of the cap of the connection and out of
    /// the budget of the client.
    pub fn pass_probe_at(&mut self, limits: &mut LimitState, now: Instant, n: usize) -> (r: Result<
        (),
        RejectReason,
    >)
        requires
            old(limits).inv(),
        ensures
            (final(self)@, final(limits)@, r) == probed(
                old(self)@,
                n as nat,
                old(limits)@,
                old(limits).config(),
                now,
                old(limits).row_for(old(self)@.client_ip),
            ),
            final(limits).inv(),
            final(limits).config() == old(limits).config(),
            final(limits).clock() == old(limits).clock(),
            final(limits).leases() == old(limits).leases(),
    {
        if self.admit_bytes_at(limits, now, n) {
            Ok(())
        } else {
            Err(RejectReason::ByteCap)
        }
    }

    /// Counts the bytes of a probe that has passed. The clock is read once.
    pub fn pass_probe(&mut self, limits: &mut LimitState, n: usize) -> (r: Result<(), RejectReason>)
        requires
            old(limits).inv(),
        ensures
            exists|now: Instant|
                old(limits).clock().gives(now) && (final(self)@, final(limits)@, r) == #[trigger] probed(
                    old(self)@,
                    n as nat,
                    old(limits)@,
                    old(limits).config(),
                    now,
                    old(limits).row_for(old(self)@.client_ip),
                ),
            final(limits).inv(),
            final(limits).config() == old(limits).config(),
            final(limits).clock() == old(limits).clock(),
            final(limits).leases() == old(limits).leases(),
    {
        let now = limits.now();
        self.pass_probe_at(limits, now, n)
    }

    /// One turn of the session, at a given time.
    pub fn run_at(&mut self, event: Event, limits: &mut LimitState, now: Instant) -> (r: Step)
        requires
            old(limits).inv(),
        ensures
            (final(self)@, final(limits)@, r@) == stepped(
                old(self)@,
                event@,
                old(limits)@,
                old(limits).config(),
                now,
                old(limits).row_for(old(self)@.client_ip),
            ),
            final(limits).inv(),
            final(limits).config() == old(limits).config(),
            final(limits).clock() == old(limits).clock(),
            final(limits).leases() == old(limits).leases(),
    {
        match event {
            Event::Lifetime => Step {
                action: Action::End,
                count: Count::Rejected(RejectReason::Lifetime),
            },
            Event::Client(Message::Binary(data)) => {
                if self.admit_bytes_at(limits, now, data.len()) {
                    Step { action: Action::ToUpstream(data), count: Count::Nothing }
                } else {
                    Step { action: Action::End, count: Count::Rejected(RejectReason::ByteCap) }
                }
            },
            Event::Client(Message::Text(text)) => {
                let data = text.as_str().as_bytes_vec();
                if self.admit_bytes_at(limits, now, data.len()) {
                    Step { action: Action::ToUpstream(data), count: Count::Nothing }
                } else {
                    Step { action: Action::End, count: Count::Rejected(RejectReason::ByteCap) }
                }
            },
            Event::Client(Message::Ping(p)) => Step {
                action: Action::Pong(p),
                count: Count::Nothing,
            },
            Event::Client(Message::Pong(_)) => Step { action: Action::Wait, count: Count::Nothing },
            Event::Client(Message::Close) => Step { action: Action::End, count: Count::Nothing },
            Event::ClientError => Step {
                action: Action::End,
                count: Count::ClientFailed(Error::Read),
            },
            Event::ClientGone => Step { action: Action::End, count: Count::Nothing },
            Event::ClientIdle => Step { action: Action::Ping, count: Count::Nothing },
            Event::Upstream(data) => {
                if data.len() == 0 {
                    Step { action: Action::End, count: Count::Nothing }
                } else if self.admit_bytes_at(limits, now, data.len()) {
                    Step { action: Action::ToClient(data), count: Count::Nothing }
                } else {
                    Step { action: Action::End, count: Count::Rejected(RejectReason::ByteCap) }
                }
            },
            Event::UpstreamError => Step {
                action: Action::End,
                count: Count::UpstreamFailed(Error::Read),
            },
            Event::Wrote(_, Written::Done) => Step { action: Action::Wait, count: Count::Nothing },
            Event::Wrote(side, Written::Failed) => Step {
                action: Action::End,
                count: count_error(side, Error::Send),
            },
            Event::Wrote(side, Written::TimedOut) => Step {
                action: Action::End,
                count: count_error(side, Error::Timeout),
            },
        }
    }

    /// One turn of the session. The clock is read once.
    pub fn run(&mut self, event: Event, limits: &mut LimitState) -> (r: Step)
        requires
            old(limits).inv(),
        ensures
            exists|now: Instant|
                old(limits).clock().gives(now) && (final(self)@, final(limits)@, r@) == #[trigger] stepped(
                    old(self)@,
                    event@,
                    old(limits)@,
                    old(limits).config(),
                    now,
                    old(limits).row_for(old(self)@.client_ip),
                ),
            final(limits).inv(),
            final(limits).config() == old(limits).config(),
            final(limits).clock() == old(limits).clock(),
            final(limits).leases() == old(limits).leases(),
    {
        let now = limits.now();
        self.run_at(event, limits, now)
    }

    /// Ends the session and gives back its slot. A session that has ended holds
    /// none.
    pub fn end(&mut self, limits: &mut LimitState)
        requires
            old(limits).inv(),
            old(self)@.lease matches Some(lease) ==> old(limits).leases().contains(lease),
        ensures
            final(self)@ == (ConnectionView { lease: None, ..old(self)@ }),
            match old(self)@.lease {
                Some(lease) => {
                    &&& final(limits).leases() == old(limits).leases().remove(lease)
                    &&& exists|now: Instant|
                        old(limits).clock().gives(now) && final(limits)@ == #[trigger] old(limits)@.released(
                            old(limits).config(),
                            now,
                            lease.0,
                            lease.1,
                        )
                },
                None => *final(limits) == *old(limits),
            },
            final(limits).inv(),
            final(limits).config() == old(limits).config(),
            final(limits).clock() == old(limits).clock(),
    {
        match self.lease.take() {
            Some(lease) => limits.release(lease),
            None => {},
        }
    }

    /// A stage of taking down the session is over, and went as `written` says: the
    /// next stage, if there is one, and what to count. After the last one the slot
    /// is given back. However a stage went, the next one follows.
    pub fn close(&mut self, stage: Closing, written: Written, limits: &mut LimitState) -> (r: (
        Option<Closing>,
        Count,
    ))
        requires
            old(limits).inv(),
            old(self)@.lease matches Some(lease) ==> old(limits).leases().contains(lease),
        ensures
            r.0 == closing_after(stage),
            r.1 == closing_count(stage, written),
            match (r.0, old(self)@.lease) {
                (Some(_), _) => *final(self) == *old(self) && *final(limits) == *old(limits),
                (None, None) => final(self)@ == old(self)@ && *final(limits) == *old(limits),
                (None, Some(lease)) => {
                    &&& final(self)@ == (ConnectionView { lease: None, ..old(self)@ })
                    &&& final(limits).leases() == old(limits).leases().remove(lease)
                    &&& exists|now: Instant|
                        old(limits).clock().gives(now) && final(limits)@ == #[trigger] old(limits)@.released(
                            old(limits).config(),
                            now,
                            lease.0,
                            lease.1,
                        )
                },
            },
            final(limits).inv(),
            final(limits).config() == old(limits).config(),
            final(limits).clock() == old(limits).clock(),
    {
        let count = count_closing(stage, written);
        match stage {
            Closing::Frame => (Some(Closing::Client), count),
            Closing::Client => (Some(Closing::Upstream), count),
            Closing::Upstream => {
                self.end(limits);
                (None, count)
            },
        }
    }
}

/// The longest life of a session, if it has one.
pub fn lifetime(config: &Config) -> (r: Option<Duration>)
    ensures
        r == if config.max_lifetime.nanos == 0 {
            None::<Duration>
        } else {
            Some(config.max_lifetime)
        },
{
    if config.max_lifetime.is_zero() {
        None
    } else {
        Some(config.max_lifetime)
    }
}

/// The probe that a session to `port` begins with, if it does.
pub fn probe_needed(config: &Config, port: u16) -> (r: Option<ProbeKind>)
    ensures
        r == if config.require_protocol_probe {
            proto::probe_of(port)
        } else {
            None::<ProbeKind>
        },
{
    if config.require_protocol_probe {
        proto::probe_for_port(port)
    } else {
        None
    }
}

/// The bytes that a step passes on, in either direction.
pub open spec fn passed_on(step: StepView) -> nat {
    match step.action {
        ActionView::ToUpstream(data) => data.len(),
        ActionView::ToClient(data) => data.len(),
        _ => 0,
    }
}

/// The bytes that `steps` pass on altogether.
pub open spec fn total_passed_on(steps: Seq<StepView>) -> nat
    decreases steps.len(),
{
    if steps.len() == 0 {
        0
    } else {
        total_passed_on(steps.drop_last()) + passed_on(steps.last())
    }
}

/// Whether a session goes from `c` to `after` with an event and is told `step`,
/// whatever the limits are at that moment.
pub open spec fn turns(
    c: ConnectionView,
    event: EventView,
    after: ConnectionView,
    step: StepView,
) -> bool {
    exists|l: LimitView, cfg: LimitsConfig, now: Instant, row: u128|
        {
            let (next, _, told) = #[trigger] stepped(c, event, l, cfg, now, row);
            after == next && step == told
        }
}

/// Whether `steps` are answers of a session to `events`, in that order, where `c`
/// is the session as it begins and after each event.
pub open spec fn is_session(
    c: Seq<ConnectionView>,
    events: Seq<EventView>,
    steps: Seq<StepView>,
) -> bool {
    &&& c.len() == events.len() + 1
    &&& steps.len() == events.len()
    &&& forall|i: int|
        0 <= i < events.len() ==> turns(c[i], #[trigger] events[i], c[i + 1], steps[i])
}

proof fn lemma_session_before(
    c: Seq<ConnectionView>,
    events: Seq<EventView>,
    steps: Seq<StepView>,
)
    requires
        is_session(c, events, steps),
        events.len() > 0,
    ensures
        is_session(c.drop_last(), events.drop_last(), steps.drop_last()),
        turns(c[c.len() - 2], events.last(), c.last(), steps.last()),
{
    let n = events.len() - 1;
    assert forall|i: int| 0 <= i < n implies turns(
        c.drop_last()[i],
        #[trigger] events.drop_last()[i],
        c.drop_last()[i + 1],
        steps.drop_last()[i],
    ) by {
        assert(events.drop_last()[i] == events[i]);
    }
    assert(turns(c[n], events[n], c[n + 1], steps[n]));
}

proof fn lemma_passed_on(c: Seq<ConnectionView>, events: Seq<EventView>, steps: Seq<StepView>)
    requires
        is_session(c, events, steps),
        0 <= c[0].conn_bytes <= c[0].max_bytes,
        0 < c[0].max_bytes < u64::MAX,
    ensures
        c.last().max_bytes == c[0].max_bytes,
        c[0].conn_bytes + total_passed_on(steps) <= c[0].max_bytes,
        c.last().conn_bytes <= c[0].max_bytes ==> c[0].conn_bytes + total_passed_on(steps)
            <= c.last().conn_bytes,
        c.last().conn_bytes >= 0,
    decreases events.len(),
{
    if events.len() > 0 {
        lemma_session_before(c, events, steps);
        lemma_passed_on(c.drop_last(), events.drop_last(), steps.drop_last());
        let e = events.last();
        let before = c[c.len() - 2];
        let (l, cfg, now, row) = choose|l: LimitView, cfg: LimitsConfig, now: Instant, row: u128|
            {
                let (next, _, told) = #[trigger] stepped(before, e, l, cfg, now, row);
                c.last() == next && steps.last() == told
            };
        let (after, _, step) = stepped(before, e, l, cfg, now, row);
        assert(before == c.drop_last().last());
        assert(passed_on(step) > 0 ==> passed_on(step) == carried_by(e));
    }
}

/// However a session goes, what it has carried as it begins and what it passes on in
/// both directions is together no more than the cap of its connection. With the
/// largest number as its cap it would not notice when the count can grow no further,
/// so that one is left out.
pub proof fn law_session_keeps_its_cap(
    c: Seq<ConnectionView>,
    events: Seq<EventView>,
    steps: Seq<StepView>,
)
    requires
        is_session(c, events, steps),
        0 <= c[0].conn_bytes <= c[0].max_bytes,
        0 < c[0].max_bytes < u64::MAX,
    ensures
        c[0].conn_bytes + total_passed_on(steps) <= c[0].max_bytes,
{
    lemma_passed_on(c, events, steps);
}

/// The bytes of the probe count: where `n` of them were let through, they and what
/// the session passes on after them are together no more than the cap, and where
/// they alone are more, they are not let through.
pub proof fn law_probe_counts(
    begun: ConnectionView,
    n: nat,
    limits: LimitView,
    cfg: LimitsConfig,
    now: Instant,
    row: u128,
    c: Seq<ConnectionView>,
    events: Seq<EventView>,
    steps: Seq<StepView>,
)
    requires
        begun.conn_bytes == 0,
        0 < begun.max_bytes < u64::MAX,
        is_session(c, events, steps),
        c[0] == probed(begun, n, limits, cfg, now, row).0,
    ensures
        probed(begun, n, limits, cfg, now, row).2 is Ok ==> n + total_passed_on(steps)
            <= begun.max_bytes,
        n > begun.max_bytes ==> probed(begun, n, limits, cfg, now, row) == (
            c[0],
            limits,
            Err::<(), RejectReason>(RejectReason::ByteCap),
        ),
{
    if probed(begun, n, limits, cfg, now, row).2 is Ok {
        lemma_passed_on(c, events, steps);
    }
}

/// The bytes that events bring for the destination, in order.
pub open spec fn from_client(events: Seq<EventView>) -> Seq<u8>
    decreases events.len(),
{
    if events.len() == 0 {
        Seq::empty()
    } else {
        from_client(events.drop_last()) + match events.last() {
            EventView::Payload(data) => data,
            _ => Seq::empty(),
        }
    }
}

/// The bytes that events bring for the client, in order.
pub open spec fn from_upstream(events: Seq<EventView>) -> Seq<u8>
    decreases events.len(),
{
    if events.len() == 0 {
        Seq::empty()
    } else {
        from_upstream(events.drop_last()) + match events.last() {
            EventView::Upstream(data) => data,
            _ => Seq::empty(),
        }
    }
}

/// The bytes that steps send to the destination, in order.
pub open spec fn to_upstream(steps: Seq<StepView>) -> Seq<u8>
    decreases steps.len(),
{
    if steps.len() == 0 {
        Seq::empty()
    } else {
        to_upstream(steps.drop_last()) + match steps.last().action {
            ActionView::ToUpstream(data) => data,
            _ => Seq::empty(),
        }
    }
}

/// The bytes that steps send to the client, in order.
pub open spec fn to_client(steps: Seq<StepView>) -> Seq<u8>
    decreases steps.len(),
{
    if steps.len() == 0 {
        Seq::empty()
    } else {
        to_client(steps.drop_last()) + match steps.last().action {
            ActionView::ToClient(data) => data,
            _ => Seq::empty(),
        }
    }
}

/// Whether none of the steps ends the session.
pub open spec fn goes_on(steps: Seq<StepView>) -> bool {
    forall|i: int| 0 <= i < steps.len() ==> (#[trigger] steps[i]).action != ActionView::End
}

proof fn lemma_bytes_pass(c: Seq<ConnectionView>, events: Seq<EventView>, steps: Seq<StepView>)
    requires
        is_session(c, events, steps),
        goes_on(steps),
    ensures
        to_upstream(steps) == from_client(events),
        to_client(steps) == from_upstream(events),
    decreases events.len(),
{
    if events.len() > 0 {
        lemma_session_before(c, events, steps);
        assert(goes_on(steps.drop_last())) by {
            assert forall|i: int| 0 <= i < steps.drop_last().len() implies (
            #[trigger] steps.drop_last()[i]).action != ActionView::End by {
                assert(steps[i].action != ActionView::End);
            }
        }
        lemma_bytes_pass(c.drop_last(), events.drop_last(), steps.drop_last());
        assert(steps[steps.len() - 1].action != ActionView::End);
    }
}

/// Bytes pass both ways unchanged and in order: while a session goes on, what was
/// sent to each side is what came from the other, and the step that ends it sends
/// nothing more.
pub proof fn law_bytes_pass_in_order(
    c: Seq<ConnectionView>,
    events: Seq<EventView>,
    steps: Seq<StepView>,
)
    requires
        is_session(c, events, steps),
        steps.len() > 0,
        goes_on(steps.drop_last()),
    ensures
        ({
            let heard = if steps.last().action == ActionView::End {
                events.drop_last()
            } else {
                events
            };
            &&& to_upstream(steps) == from_client(heard)
            &&& to_client(steps) == from_upstream(heard)
        }),
{
    if steps.last().action == ActionView::End {
        lemma_session_before(c, events, steps);
        lemma_bytes_pass(c.drop_last(), events.drop_last(), steps.drop_last());
        assert(to_upstream(steps) =~= to_upstream(steps.drop_last()));
        assert(to_client(steps) =~= to_client(steps.drop_last()));
    } else {
        assert forall|i: int| 0 <= i < steps.len() implies (#[trigger] steps[i]).action
            != ActionView::End by {
            if i < steps.len() - 1 {
                assert(steps.drop_last()[i].action != ActionView::End);
            }
        }
        lemma_bytes_pass(c, events, steps);
    }
}

/// Whether `stages` is a whole teardown: from the first stage, each followed by the
/// one that it asks for, to one that asks for none.
pub open spec fn is_teardown(stages: Seq<Closing>) -> bool {
    &&& stages.len() > 0
    &&& stages[0] == Closing::Frame
    &&& forall|i: int|
        0 <= i < stages.len() - 1 ==> closing_after(#[trigger] stages[i]) == Some(stages[i + 1])
    &&& closing_after(stages.last()) is None
}

/// Both sides are always taken down: whatever fails on the way, a close frame is
/// sent, then the client's connection is closed, then the destination's is shut
/// down.
pub proof fn law_teardown_is_complete(stages: Seq<Closing>)
    requires
        is_teardown(stages),
    ensures
        stages == seq![Closing::Frame, Closing::Client, Closing::Upstream],
{
    if stages.len() > 1 {
        assert(closing_after(stages[0]) == Some(stages[1]));
    }
    if stages.len() > 2 {
        assert(closing_after(stages[1]) == Some(stages[2]));
    }
    if stages.len() > 3 {
        assert(closing_after(stages[2]) == Some(stages[3]));
    }
    assert(stages =~= seq![Closing::Frame, Closing::Client, Closing::Upstream]);
}

/// Being quiet never ends a session, and what is passed on is what came.
pub proof fn law_idle_keeps_the_session(
    c: ConnectionView,
    event: EventView,
    limits: LimitView,
    cfg: LimitsConfig,
    now: Instant,
    row: u128,
)
    ensures
        stepped(c, EventView::ClientIdle, limits, cfg, now, row) == (
            c,
            limits,
            StepView { action: ActionView::Ping, count: Count::Nothing },
        ),
        ({
            let (_, _, step) = stepped(c, event, limits, cfg, now, row);
            &&& step.action matches ActionView::ToUpstream(data) ==> event == EventView::Payload(
                data,
            )
            &&& step.action matches ActionView::ToClient(data) ==> event == EventView::Upstream(
                data,
            )
        }),
{
}

/// Whether an event means that a side is gone or that time is up.
pub open spec fn is_final(event: EventView) -> bool {
    match event {
        EventView::Lifetime
        | EventView::Close
        | EventView::ClientError
        | EventView::ClientGone
        | EventView::UpstreamError => true,
        EventView::Upstream(data) => data.len() == 0,
        EventView::Wrote(_, written) => !(written is Done),
        _ => false,
    }
}

/// A session ends when a side is gone or time is up, and otherwise only when a byte
/// cap is broken.
pub proof fn law_session_ends(
    c: ConnectionView,
    event: EventView,
    limits: LimitView,
    cfg: LimitsConfig,
    now: Instant,
    row: u128,
)
    ensures
        ({
            let (_, _, step) = stepped(c, event, limits, cfg, now, row);
            &&& is_final(event) ==> step.action == ActionView::End
            &&& step.action == ActionView::End ==> is_final(event) || step.count
                == Count::Rejected(RejectReason::ByteCap)
        }),
{
}

/// Whether `n` more bytes stay within the cap of the connection and within what a
/// client may carry in a window, going by what was carried before.
pub open spec fn stays_within(
    c: ConnectionView,
    n: nat,
    h: History,
    now: Instant,
    row: u128,
) -> bool {
    let used = history::recent_bytes(
        h.carried_bytes(row, h.ops.len()),
        now,
        h.cfg.bytes_window,
    );
    &&& c.max_bytes == 0 || c.conn_bytes + n <= c.max_bytes
    &&& h.cfg.max_bytes_per_ip == 0 || used + n <= h.cfg.max_bytes_per_ip
}

proof fn lemma_budget_left(c: ConnectionView, n: nat, h: History, now: Instant, row: u128)
    requires
        h.valid(),
        h.times.len() > 0 ==> h.times.last().nanos <= now.nanos,
        n <= u64::MAX,
        0 <= c.conn_bytes <= u64::MAX,
        stays_within(c, n, h, now, row),
    ensures
        h.states.last().carried(h.cfg, now, row, n as u64).1 == Ok::<(), LimitError>(()),
        !over_cap(c.max_bytes, saturated(c.conn_bytes, n as int)),
{
    if h.cfg.max_bytes_per_ip < u64::MAX {
        history::law_bytes_refused_over_cap(h, row, now, n as u64);
    }
}

/// A session is not ended while it stays within its caps: bytes of either side that
/// do are passed on to the other, the very same, and nothing is counted against the
/// session.
pub proof fn law_within_caps_is_passed_on(
    c: ConnectionView,
    data: Seq<u8>,
    h: History,
    now: Instant,
    row: u128,
)
    requires
        h.valid(),
        h.times.len() > 0 ==> h.times.last().nanos <= now.nanos,
        data.len() <= u64::MAX,
        0 <= c.conn_bytes <= u64::MAX,
        stays_within(c, data.len(), h, now, row),
    ensures
        stepped(c, EventView::Payload(data), h.states.last(), h.cfg, now, row).2 == (StepView {
            action: ActionView::ToUpstream(data),
            count: Count::Nothing,
        }),
        data.len() > 0 ==> stepped(
            c,
            EventView::Upstream(data),
            h.states.last(),
            h.cfg,
            now,
            row,
        ).2 == (StepView { action: ActionView::ToClient(data), count: Count::Nothing }),
        c.conn_bytes + data.len() <= u64::MAX ==> stepped(
            c,
            EventView::Payload(data),
            h.states.last(),
            h.cfg,
            now,
            row,
        ).0.conn_bytes == c.conn_bytes + data.len(),
        probed(c, data.len(), h.states.last(), h.cfg, now, row).2 == Ok::<(), RejectReason>(()),
{
    lemma_budget_left(c, data.len(), h, now, row);
}

/// A session is ended for its bytes once they are over the cap of the connection, or
/// over what its client may carry in a window, and then passes nothing on.
pub proof fn law_over_caps_is_ended(
    c: ConnectionView,
    data: Seq<u8>,
    h: History,
    now: Instant,
    row: u128,
)
    requires
        h.valid(),
        h.times.len() > 0 ==> h.times.last().nanos <= now.nanos,
        0 < data.len() <= u64::MAX,
        c.conn_bytes >= 0,
        c.max_bytes < u64::MAX,
        h.cfg.max_bytes_per_ip < u64::MAX,
        !stays_within(c, data.len(), h, now, row),
    ensures
        ({
            let end = StepView {
                action: ActionView::End,
                count: Count::Rejected(RejectReason::ByteCap),
            };
            let v = h.states.last();
            &&& stepped(c, EventView::Payload(data), v, h.cfg, now, row).2 == end
            &&& stepped(c, EventView::Upstream(data), v, h.cfg, now, row).2 == end
            &&& probed(c, data.len(), v, h.cfg, now, row).2 == Err::<(), RejectReason>(
                RejectReason::ByteCap,
            )
        }),
{
    history::law_bytes_refused_over_cap(h, row, now, data.len() as u64);
}

/// What carries no bytes leaves the session and the limits alone, and is answered for
/// what it is: a ping with a pong of its payload, quiet with a ping, and an end or an
/// error with the end of the session, counted where it is an error.
pub proof fn law_other_events(
    c: ConnectionView,
    payload: Seq<u8>,
    side: Side,
    limits: LimitView,
    cfg: LimitsConfig,
    now: Instant,
    row: u128,
)
    ensures
        ({
            let told = |e: EventView| stepped(c, e, limits, cfg, now, row);
            let then = |action: ActionView, count: Count|
                (c, limits, StepView { action, count });
            let end = |count: Count| then(ActionView::End, count);
            let failed = |e: Error|
                end(
                    if side is Client {
                        Count::ClientFailed(e)
                    } else {
                        Count::UpstreamFailed(e)
                    },
                );
            &&& told(EventView::Ping(payload)) == then(ActionView::Pong(payload), Count::Nothing)
            &&& told(EventView::Pong) == then(ActionView::Wait, Count::Nothing)
            &&& told(EventView::ClientIdle) == then(ActionView::Ping, Count::Nothing)
            &&& told(EventView::Wrote(side, Written::Done)) == then(
                ActionView::Wait,
                Count::Nothing,
            )
            &&& told(EventView::Lifetime) == end(Count::Rejected(RejectReason::Lifetime))
            &&& told(EventView::Close) == end(Count::Nothing)
            &&& told(EventView::ClientGone) == end(Count::Nothing)
            &&& told(EventView::Upstream(Seq::empty())) == end(Count::Nothing)
            &&& told(EventView::ClientError) == end(Count::ClientFailed(Error::Read))
            &&& told(EventView::UpstreamError) == end(Count::UpstreamFailed(Error::Read))
            &&& told(EventView::Wrote(side, Written::Failed)) == failed(Error::Send)
            &&& told(EventView::Wrote(side, Written::TimedOut)) == failed(Error::Timeout)
        }),
{
}

/// While a session is taken down, what goes well is not counted. A close frame that
/// cannot be sent counts against the client as a failed or late write, and a
/// connection that cannot be closed counts against its side as a failed shutdown.
pub proof fn law_failed_closing_is_counted(stage: Closing, written: Written)
    ensures
        closing_count(stage, Written::Done) == Count::Nothing,
        closing_count(Closing::Frame, Written::Failed) == Count::ClientFailed(Error::Send),
        closing_count(Closing::Frame, Written::TimedOut) == Count::ClientFailed(Error::Timeout),
        !(written is Done) ==> {
            &&& closing_count(Closing::Client, written) == Count::ClientFailed(Error::Shutdown)
            &&& closing_count(Closing::Upstream, written) == Count::UpstreamFailed(Error::Shutdown)
        },
{
}

}
