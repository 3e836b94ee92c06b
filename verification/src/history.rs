//! What holds of the limiter over time: however requests, sessions and bytes come
//! and go, in no window are more attempts, destinations or bytes let through than
//! the caps allow.
use vstd::prelude::*;

use crate::limits::{self, IpView, LimitError, LimitView, LimitsConfig};
use crate::time::{Duration, Instant};

verus! {

/// Something that happens to the limiter.
pub enum Op {
    Attempt { key: u128, dest: Seq<char> },
    Acquire { key: u128, dest: Seq<char> },
    Release { key: u128, dest: Seq<char> },
    Carry { key: u128, n: u64 },
    Sweep,
}

/// The limiter after something happened.
pub open spec fn next(v: LimitView, cfg: LimitsConfig, now: Instant, op: Op) -> LimitView {
    match op {
        Op::Attempt { key, dest } => v.attempt(cfg, now, key, dest).0,
        Op::Acquire { key, dest } => v.acquired(cfg, now, key, dest).0,
        Op::Release { key, dest } => v.released(cfg, now, key, dest),
        Op::Carry { key, n } => v.carried(cfg, now, key, n).0,
        Op::Sweep => v.swept(cfg, now),
    }
}

/// Whether an attempt of `key` was let through.
pub open spec fn let_through(
    v: LimitView,
    cfg: LimitsConfig,
    now: Instant,
    op: Op,
    key: u128,
) -> bool {
    op matches Op::Attempt { key: k, dest } && k == key && v.attempt(cfg, now, k, dest).1 is Ok
}

/// Whether an attempt of anyone was let through.
pub open spec fn let_anyone_through(v: LimitView, cfg: LimitsConfig, now: Instant, op: Op) -> bool {
    op matches Op::Attempt { key, dest } && v.attempt(cfg, now, key, dest).1 is Ok
}

/// Whether nothing is remembered in the windows of a row.
pub open spec fn is_blank(row: IpView) -> bool {
    &&& row.connects.len() == 0
    &&& row.dests.len() == 0
    &&& row.bytes.len() == 0
    &&& row.bytes_sum == 0
}

/// A history of the limiter: what happened, when, and what it knew before and
/// after each. Time does not run backwards, and at first nothing is remembered.
pub struct History {
    pub cfg: LimitsConfig,
    pub states: Seq<LimitView>,
    pub ops: Seq<Op>,
    pub times: Seq<Instant>,
}

impl History {
    pub open spec fn valid(self) -> bool {
        &&& self.states.len() == self.ops.len() + 1
        &&& self.times.len() == self.ops.len()
        &&& forall|k: u128| is_blank(#[trigger] self.states[0].row(k))
        &&& self.states[0].global_connects.len() == 0
        &&& forall|i: int|
            0 <= i < self.ops.len() ==> self.states[i + 1] == next(
                self.states[i],
                self.cfg,
                self.times[i],
                #[trigger] self.ops[i],
            )
        &&& forall|i: int, j: int|
            0 <= i <= j < self.times.len() ==> (#[trigger] self.times[i]).nanos <= (
            #[trigger] self.times[j]).nanos
    }

    /// When attempts of `key` were let through, among the first `n` things that
    /// happened.
    pub open spec fn accepted(self, key: u128, n: nat) -> Seq<Instant>
        decreases n,
    {
        if n == 0 {
            Seq::empty()
        } else {
            let i = n - 1;
            let before = self.accepted(key, i as nat);
            if let_through(self.states[i], self.cfg, self.times[i], self.ops[i], key) {
                before.push(self.times[i])
            } else {
                before
            }
        }
    }

    /// When attempts of `key` were let through and to where, among the first `n`
    /// things that happened.
    pub open spec fn accepted_dests(self, key: u128, n: nat) -> Seq<(Instant, Seq<char>)>
        decreases n,
    {
        if n == 0 {
            Seq::empty()
        } else {
            let i = n - 1;
            let before = self.accepted_dests(key, i as nat);
            if let_through(self.states[i], self.cfg, self.times[i], self.ops[i], key) {
                before.push((self.times[i], self.ops[i]->Attempt_dest))
            } else {
                before
            }
        }
    }

    /// When bytes of `key` were carried and how many, among the first `n` things
    /// that happened.
    pub open spec fn carried_bytes(self, key: u128, n: nat) -> Seq<(Instant, u64)>
        decreases n,
    {
        if n == 0 {
            Seq::empty()
        } else {
            let i = n - 1;
            let before = self.carried_bytes(key, i as nat);
            if let_carry(self.states[i], self.cfg, self.times[i], self.ops[i], key) {
                before.push((self.times[i], self.ops[i]->Carry_n))
            } else {
                before
            }
        }
    }

    /// When attempts of anyone were let through, among the first `n` things that
    /// happened.
    pub open spec fn accepted_from_all(self, n: nat) -> Seq<Instant>
        decreases n,
    {
        if n == 0 {
            Seq::empty()
        } else {
            let i = n - 1;
            let before = self.accepted_from_all(i as nat);
            if let_anyone_through(self.states[i], self.cfg, self.times[i], self.ops[i]) {
                before.push(self.times[i])
            } else {
                before
            }
        }
    }
}

/// When a remembered time is.
pub open spec fn of_time() -> spec_fn(Instant) -> Instant {
    |t: Instant| t
}

/// When a remembered destination was asked for.
pub open spec fn of_dest() -> spec_fn((Instant, Seq<char>)) -> Instant {
    |d: (Instant, Seq<char>)| d.0
}

/// When remembered bytes were carried.
pub open spec fn of_bytes() -> spec_fn((Instant, u64)) -> Instant {
    |b: (Instant, u64)| b.0
}

/// Whether `after` is `before` without its first `n` items, all of them older than
/// the window.
pub open spec fn is_left<T>(
    before: Seq<T>,
    after: Seq<T>,
    time: spec_fn(T) -> Instant,
    now: Instant,
    window: Duration,
    n: int,
) -> bool {
    &&& 0 <= n <= before.len()
    &&& after == before.skip(n)
    &&& forall|i: int| 0 <= i < n ==> now.since(time(#[trigger] before[i])) > window.nanos
}

/// Whether `after` is what is left of `before` at the moment `now`: only items that
/// are older than the window are gone, from the front.
pub open spec fn forgets<T>(
    before: Seq<T>,
    after: Seq<T>,
    time: spec_fn(T) -> Instant,
    now: Instant,
    window: Duration,
) -> bool {
    exists|n: int| #[trigger] is_left(before, after, time, now, window, n)
}

proof fn lemma_forgets_nothing<T>(
    a: Seq<T>,
    time: spec_fn(T) -> Instant,
    now: Instant,
    window: Duration,
)
    ensures
        forgets(a, a, time, now, window),
{
    assert(a.skip(0) =~= a);
    assert(is_left(a, a, time, now, window, 0));
}

proof fn lemma_forgets_twice<T>(
    a: Seq<T>,
    b: Seq<T>,
    c: Seq<T>,
    time: spec_fn(T) -> Instant,
    early: Instant,
    now: Instant,
    window: Duration,
)
    requires
        forgets(a, b, time, early, window),
        forgets(b, c, time, now, window),
        early.nanos <= now.nanos,
    ensures
        forgets(a, c, time, now, window),
{
    let m = choose|n: int| #[trigger] is_left(a, b, time, early, window, n);
    let n = choose|n: int| #[trigger] is_left(b, c, time, now, window, n);
    assert(c =~= a.skip(m + n));
    assert forall|i: int| 0 <= i < m + n implies now.since(time(#[trigger] a[i]))
        > window.nanos by {
        if i < m {
            assert(early.since(time(a[i])) > window.nanos);
        } else {
            assert(b[i - m] == a[i]);
        }
    }
    assert(is_left(a, c, time, now, window, m + n));
}

/// Dropping what is stale forgets only what is old. `times` are the times of `a`.
proof fn lemma_stale_forgets<T>(
    a: Seq<T>,
    times: Seq<Instant>,
    time: spec_fn(T) -> Instant,
    now: Instant,
    window: Duration,
)
    requires
        times.len() == a.len(),
        forall|i: int| 0 <= i < a.len() ==> time(#[trigger] a[i]) == times[i],
    ensures
        is_left(
            a,
            a.skip(limits::stale(times, now, window) as int),
            time,
            now,
            window,
            limits::stale(times, now, window) as int,
        ),
        forgets(a, a.skip(limits::stale(times, now, window) as int), time, now, window),
    decreases a.len(),
{
    let n = limits::stale(times, now, window) as int;
    if a.len() > 0 && now.since(times.first()) > window.nanos {
        let t = a.drop_first();
        let u = times.drop_first();
        assert forall|i: int| 0 <= i < t.len() implies time(#[trigger] t[i]) == u[i] by {
            assert(t[i] == a[i + 1]);
        }
        lemma_stale_forgets(t, u, time, now, window);
        assert forall|i: int| 0 <= i < n implies now.since(time(#[trigger] a[i]))
            > window.nanos by {
            if i > 0 {
                assert(t[i - 1] == a[i]);
            }
        }
    }
    assert(is_left(a, a.skip(n), time, now, window, n));
}

/// What a client is remembered for only shrinks by what is old.
pub open spec fn row_forgets(
    before: IpView,
    after: IpView,
    now: Instant,
    cfg: LimitsConfig,
) -> bool {
    &&& forgets(before.connects, after.connects, of_time(), now, cfg.connects_per_ip_window)
    &&& forgets(before.dests, after.dests, of_dest(), now, cfg.distinct_dests_window)
    &&& forgets(before.bytes, after.bytes, of_bytes(), now, cfg.bytes_window)
}

proof fn lemma_row_forgets_nothing(row: IpView, now: Instant, cfg: LimitsConfig)
    ensures
        row_forgets(row, row, now, cfg),
{
    lemma_forgets_nothing(row.connects, of_time(), now, cfg.connects_per_ip_window);
    lemma_forgets_nothing(row.dests, of_dest(), now, cfg.distinct_dests_window);
    lemma_forgets_nothing(row.bytes, of_bytes(), now, cfg.bytes_window);
}

proof fn lemma_row_forgets_twice(
    a: IpView,
    b: IpView,
    c: IpView,
    now: Instant,
    cfg: LimitsConfig,
)
    requires
        row_forgets(a, b, now, cfg),
        row_forgets(b, c, now, cfg),
    ensures
        row_forgets(a, c, now, cfg),
{
    lemma_forgets_twice(
        a.connects,
        b.connects,
        c.connects,
        of_time(),
        now,
        now,
        cfg.connects_per_ip_window,
    );
    lemma_forgets_twice(
        a.dests,
        b.dests,
        c.dests,
        of_dest(),
        now,
        now,
        cfg.distinct_dests_window,
    );
    lemma_forgets_twice(a.bytes, b.bytes, c.bytes, of_bytes(), now, now, cfg.bytes_window);
}

/// Pruning forgets only what is old, and a row that is idle then is all old.
proof fn lemma_pruned_forgets(row: IpView, now: Instant, cfg: LimitsConfig)
    ensures
        row_forgets(row, row.pruned(now, cfg), now, cfg),
        row.pruned(now, cfg).idle() ==> row_forgets(row, IpView::empty(), now, cfg),
{
    lemma_stale_forgets(row.connects, row.connects, of_time(), now, cfg.connects_per_ip_window);
    lemma_stale_forgets(
        row.dests,
        limits::dest_times(row.dests),
        of_dest(),
        now,
        cfg.distinct_dests_window,
    );
    lemma_stale_forgets(
        row.bytes,
        limits::byte_times(row.bytes),
        of_bytes(),
        now,
        cfg.bytes_window,
    );
    let p = row.pruned(now, cfg);
    if p.idle() {
        assert(p.connects =~= IpView::empty().connects);
        assert(p.dests =~= IpView::empty().dests);
        assert(p.bytes =~= IpView::empty().bytes);
    }
}

/// Sweeping forgets only what is old.
proof fn lemma_swept_forgets(v: LimitView, cfg: LimitsConfig, now: Instant, k: u128)
    ensures
        row_forgets(v.row(k), v.swept(cfg, now).row(k), now, cfg),
        forgets(
            v.global_connects,
            v.swept(cfg, now).global_connects,
            of_time(),
            now,
            cfg.global_connects_window,
        ),
{
    lemma_pruned_forgets(v.row(k), now, cfg);
    lemma_row_forgets_nothing(v.row(k), now, cfg);
    lemma_stale_forgets(
        v.global_connects,
        v.global_connects,
        of_time(),
        now,
        cfg.global_connects_window,
    );
}

proof fn lemma_maybe_swept_forgets(v: LimitView, cfg: LimitsConfig, now: Instant, k: u128)
    ensures
        row_forgets(v.row(k), v.maybe_swept(cfg, now).row(k), now, cfg),
        forgets(
            v.global_connects,
            v.maybe_swept(cfg, now).global_connects,
            of_time(),
            now,
            cfg.global_connects_window,
        ),
{
    lemma_swept_forgets(v, cfg, now, k);
    lemma_row_forgets_nothing(v.row(k), now, cfg);
    lemma_forgets_nothing(v.global_connects, of_time(), now, cfg.global_connects_window);
}

/// What an attempt finds when its own row is about to be looked at.
pub open spec fn made_room(v: LimitView, cfg: LimitsConfig, now: Instant, key: u128) -> LimitView {
    let a = v.maybe_swept(cfg, now).pruned(cfg, now);
    if a.no_room(cfg, key) {
        a.swept(cfg, now)
    } else {
        a
    }
}

proof fn lemma_made_room_forgets(
    v: LimitView,
    cfg: LimitsConfig,
    now: Instant,
    key: u128,
    k: u128,
)
    ensures
        row_forgets(v.row(k), made_room(v, cfg, now, key).row(k), now, cfg),
        forgets(
            v.global_connects,
            made_room(v, cfg, now, key).global_connects,
            of_time(),
            now,
            cfg.global_connects_window,
        ),
{
    let s = v.maybe_swept(cfg, now);
    let a = s.pruned(cfg, now);
    lemma_maybe_swept_forgets(v, cfg, now, k);
    lemma_stale_forgets(
        s.global_connects,
        s.global_connects,
        of_time(),
        now,
        cfg.global_connects_window,
    );
    lemma_forgets_twice(
        v.global_connects,
        s.global_connects,
        a.global_connects,
        of_time(),
        now,
        now,
        cfg.global_connects_window,
    );
    assert(a.row(k) == s.row(k));
    lemma_swept_forgets(a, cfg, now, k);
    let w = a.swept(cfg, now);
    lemma_row_forgets_twice(v.row(k), a.row(k), w.row(k), now, cfg);
    lemma_forgets_twice(
        v.global_connects,
        a.global_connects,
        w.global_connects,
        of_time(),
        now,
        now,
        cfg.global_connects_window,
    );
}

/// Whether bytes of `key` were counted.
pub open spec fn let_carry(
    v: LimitView,
    cfg: LimitsConfig,
    now: Instant,
    op: Op,
    key: u128,
) -> bool {
    op matches Op::Carry { key: k, n } && k == key && n != 0 && cfg.max_bytes_per_ip != 0
        && v.carried(cfg, now, k, n).1 is Ok
}

/// What an attempt of `k` that is let through does to its row: old items are
/// forgotten, and it is added, if there is room for it.
pub open spec fn takes_attempt(
    before: IpView,
    after: IpView,
    cfg: LimitsConfig,
    now: Instant,
    dest: Seq<char>,
) -> bool {
    &&& after.connects.len() > 0
    &&& after.connects.last() == now
    &&& after.dests.len() > 0
    &&& after.dests.last() == (now, dest)
    &&& row_forgets(
        before,
        IpView {
            connects: after.connects.drop_last(),
            dests: after.dests.drop_last(),
            ..after
        },
        now,
        cfg,
    )
    &&& cfg.connects_per_ip != 0 ==> after.connects.len() <= cfg.connects_per_ip
    &&& cfg.distinct_dests_per_ip != 0 ==> {
        let row = IpView { dests: after.dests.drop_last(), ..after };
        row.names().contains(dest) || row.names().len() < cfg.distinct_dests_per_ip
    }
}

/// What bytes of `k` that are carried do to its row: old items are forgotten, and
/// they are added, if there is room for them.
pub open spec fn takes_bytes(
    before: IpView,
    after: IpView,
    cfg: LimitsConfig,
    now: Instant,
    n: u64,
) -> bool {
    &&& after.bytes.len() > 0
    &&& after.bytes.last() == (now, n)
    &&& row_forgets(
        before,
        IpView { bytes: after.bytes.drop_last(), ..after },
        now,
        cfg,
    )
    &&& after.bytes_sum <= cfg.max_bytes_per_ip
}

proof fn lemma_next_attempt(
    v: LimitView,
    cfg: LimitsConfig,
    now: Instant,
    key: u128,
    dest: Seq<char>,
    k: u128,
)
    ensures
        ({
            let op = Op::Attempt { key, dest };
            let after = next(v, cfg, now, op).row(k);
            if let_through(v, cfg, now, op, k) {
                takes_attempt(v.row(k), after, cfg, now, dest)
            } else {
                row_forgets(v.row(k), after, now, cfg)
            }
        }),
{
    let op = Op::Attempt { key, dest };
    let before = v.row(k);
    let after = next(v, cfg, now, op).row(k);
    let b = made_room(v, cfg, now, key);
    lemma_made_room_forgets(v, cfg, now, key, k);
    let row = b.row(k).pruned(now, cfg);
    lemma_pruned_forgets(b.row(k), now, cfg);
    lemma_row_forgets_twice(before, b.row(k), row, now, cfg);
    if let_through(v, cfg, now, op, k) {
        assert(after.connects == row.connects.push(now));
        assert(after.dests == row.dests.push((now, dest)));
        assert(after.connects.drop_last() =~= row.connects);
        assert(after.dests.drop_last() =~= row.dests);
        let r = IpView { dests: after.dests.drop_last(), ..after };
        assert(r.names() == row.names());
    }
}

proof fn lemma_next_carry(
    v: LimitView,
    cfg: LimitsConfig,
    now: Instant,
    key: u128,
    n: u64,
    k: u128,
)
    ensures
        ({
            let op = Op::Carry { key, n };
            let after = next(v, cfg, now, op).row(k);
            if let_carry(v, cfg, now, op, k) {
                takes_bytes(v.row(k), after, cfg, now, n)
            } else {
                row_forgets(v.row(k), after, now, cfg)
            }
        }),
{
    let op = Op::Carry { key, n };
    let before = v.row(k);
    let after = next(v, cfg, now, op).row(k);
    lemma_maybe_swept_forgets(v, cfg, now, k);
    lemma_row_forgets_nothing(before, now, cfg);
    let a = v.maybe_swept(cfg, now);
    let row = a.row(k).pruned(now, cfg);
    lemma_pruned_forgets(a.row(k), now, cfg);
    lemma_row_forgets_twice(before, a.row(k), row, now, cfg);
    if let_carry(v, cfg, now, op, k) {
        assert(after.bytes == row.bytes.push((now, n)));
        assert(after.bytes.drop_last() =~= row.bytes);
    }
}

/// What happens to what `k` is remembered for: old items are forgotten, and what
/// is let through is added, if there is room for it.
proof fn lemma_next_row(v: LimitView, cfg: LimitsConfig, now: Instant, op: Op, k: u128)
    ensures
        ({
            let before = v.row(k);
            let after = next(v, cfg, now, op).row(k);
            if let_through(v, cfg, now, op, k) {
                takes_attempt(before, after, cfg, now, op->Attempt_dest)
            } else if let_carry(v, cfg, now, op, k) {
                takes_bytes(before, after, cfg, now, op->Carry_n)
            } else {
                row_forgets(before, after, now, cfg)
            }
        }),
{
    match op {
        Op::Attempt { key, dest } => lemma_next_attempt(v, cfg, now, key, dest, k),
        Op::Carry { key, n } => lemma_next_carry(v, cfg, now, key, n, k),
        Op::Acquire { key, dest } => {
            lemma_maybe_swept_forgets(v, cfg, now, k);
        },
        Op::Release { key, dest } => {
            let one = IpView { connections: v.row(key).connections - 1, ..v.row(key) };
            lemma_row_forgets_nothing(v.row(k), now, cfg);
            lemma_pruned_forgets(v.row(k), now, cfg);
            lemma_pruned_forgets(one, now, cfg);
        },
        Op::Sweep => {
            lemma_swept_forgets(v, cfg, now, k);
        },
    }
}

proof fn lemma_next_all(v: LimitView, cfg: LimitsConfig, now: Instant, op: Op)
    ensures
        ({
            let before = v.global_connects;
            let after = next(v, cfg, now, op).global_connects;
            let window = cfg.global_connects_window;
            if let_anyone_through(v, cfg, now, op) {
                &&& after.len() > 0
                &&& after.last() == now
                &&& forgets(before, after.drop_last(), of_time(), now, window)
                &&& cfg.global_connects != 0 ==> after.len() <= cfg.global_connects
            } else {
                forgets(before, after, of_time(), now, window)
            }
        }),
{
    let window = cfg.global_connects_window;
    let before = v.global_connects;
    lemma_maybe_swept_forgets(v, cfg, now, 0);
    lemma_swept_forgets(v, cfg, now, 0);
    lemma_forgets_nothing(before, of_time(), now, window);
    let after = next(v, cfg, now, op).global_connects;
    match op {
        Op::Attempt { key, dest } => {
            let b = made_room(v, cfg, now, key);
            lemma_made_room_forgets(v, cfg, now, key, key);
            if let_anyone_through(v, cfg, now, op) {
                assert(after == b.global_connects.push(now));
                assert(after.drop_last() =~= b.global_connects);
            }
        },
        _ => {},
    }
}

/// An item added to both sides leaves only what is old forgotten.
proof fn lemma_forgets_push<T>(
    a: Seq<T>,
    b: Seq<T>,
    item: T,
    time: spec_fn(T) -> Instant,
    now: Instant,
    window: Duration,
)
    requires
        b.len() > 0,
        b.last() == item,
        forgets(a, b.drop_last(), time, now, window),
    ensures
        forgets(a.push(item), b, time, now, window),
{
    let n = choose|n: int| #[trigger] is_left(a, b.drop_last(), time, now, window, n);
    let p = a.push(item);
    assert(p.skip(n) =~= b.drop_last().push(item));
    assert(b.drop_last().push(item) =~= b);
    assert forall|i: int| 0 <= i < n implies now.since(time(#[trigger] p[i])) > window.nanos by {
        assert(p[i] == a[i]);
    }
    assert(is_left(p, b, time, now, window, n));
}

/// Where `cap` times at most are remembered, the one before these is old.
proof fn lemma_spaced(a: Seq<Instant>, b: Seq<Instant>, now: Instant, window: Duration, cap: int)
    requires
        forgets(a, b, of_time(), now, window),
        b.len() <= cap,
        cap > 0,
        a.len() > cap,
    ensures
        now.since(a[a.len() - 1 - cap]) > window.nanos,
{
    let n = choose|n: int| #[trigger] is_left(a, b, of_time(), now, window, n);
    assert(b.len() == a.len() - n);
    assert(now.since(of_time()(a[a.len() - 1 - cap])) > window.nanos);
}

/// Whether more than a window lies between every time and the one `cap` places
/// before it.
pub open spec fn spaced(times: Seq<Instant>, cap: int, window: Duration) -> bool {
    forall|j: int|
        cap <= j < times.len() ==> (#[trigger] times[j]).since(times[j - cap]) > window.nanos
}

proof fn lemma_rate_per_ip(h: History, key: u128, n: nat)
    requires
        h.valid(),
        n <= h.ops.len(),
    ensures
        n > 0 ==> forgets(
            h.accepted(key, n),
            h.states[n as int].row(key).connects,
            of_time(),
            h.times[n - 1],
            h.cfg.connects_per_ip_window,
        ),
        n == 0 ==> h.states[n as int].row(key).connects == h.accepted(key, n),
        h.cfg.connects_per_ip != 0 ==> spaced(
            h.accepted(key, n),
            h.cfg.connects_per_ip as int,
            h.cfg.connects_per_ip_window,
        ),
    decreases n,
{
    let window = h.cfg.connects_per_ip_window;
    let cap = h.cfg.connects_per_ip as int;
    if n == 0 {
        assert(is_blank(h.states[0].row(key)));
        assert(h.states[0].row(key).connects =~= Seq::empty());
    } else {
        let i = n - 1;
        let now = h.times[i];
        let v = h.states[i];
        let op = h.ops[i];
        lemma_rate_per_ip(h, key, i as nat);
        lemma_next_row(v, h.cfg, now, op, key);
        let a = h.accepted(key, i as nat);
        let before = v.row(key).connects;
        let after = h.states[n as int].row(key).connects;
        let early = if i > 0 {
            h.times[i - 1]
        } else {
            now
        };
        if i == 0 {
            lemma_forgets_nothing(a, of_time(), now, window);
        }
        assert(early.nanos <= now.nanos);
        if let_through(v, h.cfg, now, op, key) {
            lemma_forgets_twice(a, before, after.drop_last(), of_time(), early, now, window);
            lemma_forgets_push(a, after, now, of_time(), now, window);
            let all = h.accepted(key, n);
            assert(all == a.push(now));
            if cap != 0 {
                if all.len() > cap {
                    lemma_spaced(all, after, now, window, cap);
                }
                assert forall|j: int| cap <= j < all.len() implies (#[trigger] all[j]).since(
                    all[j - cap],
                ) > window.nanos by {
                    if j < a.len() {
                        assert(all[j] == a[j] && all[j - cap] == a[j - cap]);
                    }
                }
            }
        } else {
            lemma_forgets_twice(a, before, after, of_time(), early, now, window);
        }
    }
}

proof fn lemma_rate_of_all(h: History, n: nat)
    requires
        h.valid(),
        n <= h.ops.len(),
    ensures
        n > 0 ==> forgets(
            h.accepted_from_all(n),
            h.states[n as int].global_connects,
            of_time(),
            h.times[n - 1],
            h.cfg.global_connects_window,
        ),
        n == 0 ==> h.states[n as int].global_connects == h.accepted_from_all(n),
        h.cfg.global_connects != 0 ==> spaced(
            h.accepted_from_all(n),
            h.cfg.global_connects as int,
            h.cfg.global_connects_window,
        ),
    decreases n,
{
    let window = h.cfg.global_connects_window;
    let cap = h.cfg.global_connects as int;
    if n == 0 {
        assert(h.states[0].global_connects =~= Seq::empty());
    } else {
        let i = n - 1;
        let now = h.times[i];
        let v = h.states[i];
        let op = h.ops[i];
        lemma_rate_of_all(h, i as nat);
        lemma_next_all(v, h.cfg, now, op);
        let a = h.accepted_from_all(i as nat);
        let before = v.global_connects;
        let after = h.states[n as int].global_connects;
        let early = if i > 0 {
            h.times[i - 1]
        } else {
            now
        };
        if i == 0 {
            lemma_forgets_nothing(a, of_time(), now, window);
        }
        assert(early.nanos <= now.nanos);
        if let_anyone_through(v, h.cfg, now, op) {
            lemma_forgets_twice(a, before, after.drop_last(), of_time(), early, now, window);
            lemma_forgets_push(a, after, now, of_time(), now, window);
            let all = h.accepted_from_all(n);
            assert(all == a.push(now));
            if cap != 0 {
                if all.len() > cap {
                    lemma_spaced(all, after, now, window, cap);
                }
                assert forall|j: int| cap <= j < all.len() implies (#[trigger] all[j]).since(
                    all[j - cap],
                ) > window.nanos by {
                    if j < a.len() {
                        assert(all[j] == a[j] && all[j - cap] == a[j - cap]);
                    }
                }
            }
        } else {
            lemma_forgets_twice(a, before, after, of_time(), early, now, window);
        }
    }
}

/// In no window are more attempts of one client network let through than the cap:
/// between each and the one as many places before it as the cap says lies more
/// than a window, whatever else happens in between.
pub proof fn law_connect_rate_per_ip(h: History, key: u128)
    requires
        h.valid(),
        h.cfg.connects_per_ip != 0,
    ensures
        spaced(
            h.accepted(key, h.ops.len()),
            h.cfg.connects_per_ip as int,
            h.cfg.connects_per_ip_window,
        ),
{
    lemma_rate_per_ip(h, key, h.ops.len());
}

/// In no window are more attempts let through altogether than the cap.
pub proof fn law_global_connect_rate(h: History)
    requires
        h.valid(),
        h.cfg.global_connects != 0,
    ensures
        spaced(
            h.accepted_from_all(h.ops.len()),
            h.cfg.global_connects as int,
            h.cfg.global_connects_window,
        ),
{
    lemma_rate_of_all(h, h.ops.len());
}

/// The names in a list of destinations.
pub open spec fn names_in(dests: Seq<(Instant, Seq<char>)>) -> Set<Seq<char>> {
    (IpView { dests, ..IpView::empty() }).names()
}

/// The names in `dests` up to place `j` that are no older then than the window.
pub open spec fn recent_names(
    dests: Seq<(Instant, Seq<char>)>,
    j: int,
    window: Duration,
) -> Set<Seq<char>> {
    Set::new(
        |name: Seq<char>|
            exists|i: int|
                0 <= i <= j && #[trigger] dests[i].1 == name && dests[j].0.since(dests[i].0)
                    <= window.nanos,
    )
}

/// Whether at no place more than `cap` names are recent.
pub open spec fn few_names(dests: Seq<(Instant, Seq<char>)>, cap: int, window: Duration) -> bool {
    forall|j: int|
        0 <= j < dests.len() ==> {
            &&& (#[trigger] recent_names(dests, j, window)).finite()
            &&& recent_names(dests, j, window).len() <= cap
        }
}

proof fn lemma_names_of(dests: Seq<(Instant, Seq<char>)>)
    ensures
        names_in(dests).finite(),
        forall|name: Seq<char>| #[trigger]
            names_in(dests).contains(name) <==> exists|i: int|
                0 <= i < dests.len() && #[trigger] dests[i].1 == name,
{
    let row = IpView { dests, ..IpView::empty() };
    limits::lemma_names_finite(row);
    let said = dests.map_values(|d: (Instant, Seq<char>)| d.1);
    assert forall|name: Seq<char>| #[trigger]
        names_in(dests).contains(name) <==> exists|i: int|
            0 <= i < dests.len() && #[trigger] dests[i].1 == name by {
        if names_in(dests).contains(name) {
            let i = choose|i: int| 0 <= i < said.len() && said[i] == name;
            assert(dests[i].1 == name);
        }
        if exists|i: int| 0 <= i < dests.len() && #[trigger] dests[i].1 == name {
            let i = choose|i: int| 0 <= i < dests.len() && #[trigger] dests[i].1 == name;
            assert(said[i] == name);
        }
    }
}

/// What is left of a list has no more names.
proof fn lemma_fewer_names(
    a: Seq<(Instant, Seq<char>)>,
    b: Seq<(Instant, Seq<char>)>,
    now: Instant,
    window: Duration,
)
    requires
        forgets(a, b, of_dest(), now, window),
    ensures
        names_in(b).len() <= names_in(a).len(),
{
    let n = choose|n: int| #[trigger] is_left(a, b, of_dest(), now, window, n);
    lemma_names_of(a);
    lemma_names_of(b);
    assert forall|name: Seq<char>| names_in(b).contains(name) implies names_in(a).contains(
        name,
    ) by {
        let i = choose|i: int| 0 <= i < b.len() && #[trigger] b[i].1 == name;
        assert(a[i + n].1 == name);
    }
    vstd::set_lib::lemma_len_subset(names_in(b), names_in(a));
}

/// Recent names at the end of a list are among the names that are remembered.
proof fn lemma_recent_are_remembered(
    a: Seq<(Instant, Seq<char>)>,
    b: Seq<(Instant, Seq<char>)>,
    now: Instant,
    window: Duration,
)
    requires
        forgets(a, b, of_dest(), now, window),
        a.len() > 0,
        a.last().0 == now,
    ensures
        recent_names(a, a.len() - 1, window).finite(),
        recent_names(a, a.len() - 1, window).len() <= names_in(b).len(),
{
    let n = choose|n: int| #[trigger] is_left(a, b, of_dest(), now, window, n);
    let recent = recent_names(a, a.len() - 1, window);
    lemma_names_of(b);
    assert forall|name: Seq<char>| recent.contains(name) implies names_in(b).contains(name) by {
        let i = choose|i: int|
            0 <= i <= a.len() - 1 && #[trigger] a[i].1 == name && a[a.len() - 1].0.since(a[i].0)
                <= window.nanos;
        if i < n {
            assert(now.since(of_dest()(a[i])) > window.nanos);
        }
        assert(b[i - n].1 == name);
    }
    vstd::set_lib::lemma_len_subset(recent, names_in(b));
}

/// What was recent at an earlier place stays so when more follows.
proof fn lemma_recent_before(
    a: Seq<(Instant, Seq<char>)>,
    item: (Instant, Seq<char>),
    j: int,
    window: Duration,
)
    requires
        0 <= j < a.len(),
    ensures
        recent_names(a.push(item), j, window) == recent_names(a, j, window),
{
    let p = a.push(item);
    assert forall|name: Seq<char>|
        recent_names(p, j, window).contains(name) == recent_names(a, j, window).contains(name) by {
        if recent_names(p, j, window).contains(name) {
            let i = choose|i: int|
                0 <= i <= j && #[trigger] p[i].1 == name && p[j].0.since(p[i].0) <= window.nanos;
            assert(a[i].1 == name);
        }
        if recent_names(a, j, window).contains(name) {
            let i = choose|i: int|
                0 <= i <= j && #[trigger] a[i].1 == name && a[j].0.since(a[i].0) <= window.nanos;
            assert(p[i].1 == name);
        }
    }
    assert(recent_names(p, j, window) =~= recent_names(a, j, window));
}

proof fn lemma_dests(h: History, key: u128, n: nat)
    requires
        h.valid(),
        n <= h.ops.len(),
        h.cfg.distinct_dests_per_ip != 0,
    ensures
        n > 0 ==> forgets(
            h.accepted_dests(key, n),
            h.states[n as int].row(key).dests,
            of_dest(),
            h.times[n - 1],
            h.cfg.distinct_dests_window,
        ),
        n == 0 ==> h.states[n as int].row(key).dests == h.accepted_dests(key, n),
        names_in(h.states[n as int].row(key).dests).len() <= h.cfg.distinct_dests_per_ip,
        few_names(
            h.accepted_dests(key, n),
            h.cfg.distinct_dests_per_ip as int,
            h.cfg.distinct_dests_window,
        ),
    decreases n,
{
    let window = h.cfg.distinct_dests_window;
    let cap = h.cfg.distinct_dests_per_ip as int;
    if n == 0 {
        let none = h.states[0].row(key).dests;
        assert(is_blank(h.states[0].row(key)));
        assert(none =~= Seq::empty());
        lemma_names_of(none);
        assert(names_in(none) =~= Set::empty());
    } else {
        let i = n - 1;
        let now = h.times[i];
        let v = h.states[i];
        let op = h.ops[i];
        lemma_dests(h, key, i as nat);
        lemma_next_row(v, h.cfg, now, op, key);
        let a = h.accepted_dests(key, i as nat);
        let before = v.row(key).dests;
        let after = h.states[n as int].row(key).dests;
        let early = if i > 0 {
            h.times[i - 1]
        } else {
            now
        };
        if i == 0 {
            lemma_forgets_nothing(a, of_dest(), now, window);
        }
        assert(early.nanos <= now.nanos);
        if let_through(v, h.cfg, now, op, key) {
            let dest = op->Attempt_dest;
            let kept = after.drop_last();
            lemma_forgets_twice(a, before, kept, of_dest(), early, now, window);
            lemma_fewer_names(before, kept, now, window);
            lemma_forgets_push(a, after, (now, dest), of_dest(), now, window);
            let all = h.accepted_dests(key, n);
            assert(all == a.push((now, dest)));
            lemma_names_of(kept);
            lemma_names_of(after);
            assert(names_in(after) =~= names_in(kept).insert(dest)) by {
                assert forall|name: Seq<char>|
                    names_in(after).contains(name) == names_in(kept).insert(dest).contains(name) by {
                    if names_in(after).contains(name) {
                        let k = choose|k: int| 0 <= k < after.len() && #[trigger] after[k].1 == name;
                        if k < kept.len() {
                            assert(kept[k].1 == name);
                        }
                    }
                    if names_in(kept).contains(name) {
                        let k = choose|k: int| 0 <= k < kept.len() && #[trigger] kept[k].1 == name;
                        assert(after[k].1 == name);
                    }
                    assert(after[after.len() - 1].1 == dest);
                }
            }
            let row = h.states[n as int].row(key);
            assert((IpView { dests: kept, ..row }).names() == names_in(kept));
            assert(names_in(after).len() <= cap) by {
                if names_in(kept).contains(dest) {
                    assert(names_in(kept).insert(dest) =~= names_in(kept));
                }
            }
            lemma_recent_are_remembered(all, after, now, window);
            assert forall|j: int| 0 <= j < all.len() implies (#[trigger] recent_names(
                all,
                j,
                window,
            )).finite() && recent_names(all, j, window).len() <= cap by {
                if j < a.len() {
                    lemma_recent_before(a, (now, dest), j, window);
                    assert(recent_names(a, j, window).len() <= cap);
                }
            }
        } else {
            lemma_forgets_twice(a, before, after, of_dest(), early, now, window);
            lemma_fewer_names(before, after, now, window);
        }
    }
}

/// In no window are attempts of one client network let through to more different
/// destinations than the cap.
pub proof fn law_distinct_dests_per_ip(h: History, key: u128)
    requires
        h.valid(),
        h.cfg.distinct_dests_per_ip != 0,
    ensures
        few_names(
            h.accepted_dests(key, h.ops.len()),
            h.cfg.distinct_dests_per_ip as int,
            h.cfg.distinct_dests_window,
        ),
{
    lemma_dests(h, key, h.ops.len());
}

/// Whether in no window more than `cap` bytes were carried: where no more than a
/// window lies between two places, what was carried from one to the other, both
/// included, is at most `cap`.
pub open spec fn few_bytes(bytes: Seq<(Instant, u64)>, cap: int, window: Duration) -> bool {
    forall|i: int, j: int|
        0 <= i <= j < bytes.len() && (#[trigger] bytes[j]).0.since((#[trigger] bytes[i]).0)
            <= window.nanos ==> limits::total(bytes.subrange(i, j + 1)) <= cap
}

/// The sum of a row is that of its bytes.
pub open spec fn sums(row: IpView) -> bool {
    row.bytes_sum == limits::total(row.bytes)
}

proof fn lemma_pruned_sums(row: IpView, now: Instant, cfg: LimitsConfig)
    requires
        sums(row),
    ensures
        sums(row.pruned(now, cfg)),
        sums(IpView::empty()),
{
    let b = limits::stale(limits::byte_times(row.bytes), now, cfg.bytes_window) as int;
    lemma_stale_forgets(
        row.bytes,
        limits::byte_times(row.bytes),
        of_bytes(),
        now,
        cfg.bytes_window,
    );
    limits::lemma_total_split(row.bytes, b);
}

proof fn lemma_next_sums(v: LimitView, cfg: LimitsConfig, now: Instant, op: Op, k: u128)
    requires
        sums(v.row(k)),
        cfg.max_bytes_per_ip < u64::MAX,
    ensures
        sums(next(v, cfg, now, op).row(k)),
{
    lemma_pruned_sums(v.row(k), now, cfg);
    let s = v.maybe_swept(cfg, now);
    assert(sums(v.swept(cfg, now).row(k)));
    assert(sums(s.row(k)));
    lemma_pruned_sums(s.row(k), now, cfg);
    match op {
        Op::Attempt { key, dest } => {
            let a = s.pruned(cfg, now);
            assert(a.row(k) == s.row(k));
            assert(sums(a.swept(cfg, now).row(k)));
            let b = made_room(v, cfg, now, key);
            lemma_pruned_sums(b.row(k), now, cfg);
        },
        Op::Acquire { key, dest } => {},
        Op::Release { key, dest } => {
            if k == key {
                let one = IpView { connections: v.row(key).connections - 1, ..v.row(key) };
                lemma_pruned_sums(one, now, cfg);
            }
        },
        Op::Carry { key, n } => {
            let row = s.row(k).pruned(now, cfg);
            assert(row.bytes.push((now, n)).drop_last() =~= row.bytes);
        },
        Op::Sweep => {},
    }
}

proof fn lemma_bytes(h: History, key: u128, n: nat)
    requires
        h.valid(),
        n <= h.ops.len(),
        0 < h.cfg.max_bytes_per_ip < u64::MAX,
    ensures
        n > 0 ==> forgets(
            h.carried_bytes(key, n),
            h.states[n as int].row(key).bytes,
            of_bytes(),
            h.times[n - 1],
            h.cfg.bytes_window,
        ),
        n == 0 ==> h.states[n as int].row(key).bytes == h.carried_bytes(key, n),
        sums(h.states[n as int].row(key)),
        few_bytes(
            h.carried_bytes(key, n),
            h.cfg.max_bytes_per_ip as int,
            h.cfg.bytes_window,
        ),
    decreases n,
{
    let window = h.cfg.bytes_window;
    let cap = h.cfg.max_bytes_per_ip as int;
    if n == 0 {
        assert(is_blank(h.states[0].row(key)));
        assert(h.states[0].row(key).bytes =~= Seq::empty());
    } else {
        let i = n - 1;
        let now = h.times[i];
        let v = h.states[i];
        let op = h.ops[i];
        lemma_bytes(h, key, i as nat);
        lemma_next_row(v, h.cfg, now, op, key);
        lemma_next_sums(v, h.cfg, now, op, key);
        let a = h.carried_bytes(key, i as nat);
        let before = v.row(key).bytes;
        let after = h.states[n as int].row(key).bytes;
        let early = if i > 0 {
            h.times[i - 1]
        } else {
            now
        };
        if i == 0 {
            lemma_forgets_nothing(a, of_bytes(), now, window);
        }
        assert(early.nanos <= now.nanos);
        if let_carry(v, h.cfg, now, op, key) {
            let item = (now, op->Carry_n);
            lemma_forgets_twice(a, before, after.drop_last(), of_bytes(), early, now, window);
            lemma_forgets_push(a, after, item, of_bytes(), now, window);
            let all = h.carried_bytes(key, n);
            assert(all == a.push(item));
            let m = choose|m: int| #[trigger] is_left(all, after, of_bytes(), now, window, m);
            assert forall|x: int, y: int|
                0 <= x <= y < all.len() && (#[trigger] all[y]).0.since((#[trigger] all[x]).0)
                    <= window.nanos implies limits::total(all.subrange(x, y + 1)) <= cap by {
                if y < a.len() {
                    assert(a[y] == all[y] && a[x] == all[x]);
                    assert(all.subrange(x, y + 1) =~= a.subrange(x, y + 1));
                } else {
                    if x < m {
                        assert(now.since(of_bytes()(all[x])) > window.nanos);
                    }
                    limits::lemma_total_split(after, x - m);
                    assert(after.skip(x - m) =~= all.subrange(x, y + 1));
                }
            }
        } else {
            lemma_forgets_twice(a, before, after, of_bytes(), early, now, window);
        }
    }
}

/// In no window are more bytes carried for one client network than the cap. With
/// the largest number as the cap the count could not grow past it, so that one is
/// left out.
pub proof fn law_bytes_per_ip(h: History, key: u128)
    requires
        h.valid(),
        0 < h.cfg.max_bytes_per_ip < u64::MAX,
    ensures
        few_bytes(
            h.carried_bytes(key, h.ops.len()),
            h.cfg.max_bytes_per_ip as int,
            h.cfg.bytes_window,
        ),
{
    lemma_bytes(h, key, h.ops.len());
}

/// How many of `bytes` were carried no longer ago than the window.
pub open spec fn recent_bytes(bytes: Seq<(Instant, u64)>, now: Instant, window: Duration) -> int
    decreases bytes.len(),
{
    if bytes.len() == 0 {
        0
    } else {
        recent_bytes(bytes.drop_last(), now, window) + if now.since(bytes.last().0)
            <= window.nanos {
            bytes.last().1 as int
        } else {
            0
        }
    }
}

/// What is left where all that is left is recent is what is recent.
proof fn lemma_recent_is_left(
    a: Seq<(Instant, u64)>,
    now: Instant,
    window: Duration,
    n: int,
)
    requires
        0 <= n <= a.len(),
        forall|i: int| 0 <= i < n ==> now.since((#[trigger] a[i]).0) > window.nanos,
        forall|i: int| n <= i < a.len() ==> now.since((#[trigger] a[i]).0) <= window.nanos,
    ensures
        recent_bytes(a, now, window) == limits::total(a.skip(n)),
    decreases a.len(),
{
    if a.len() == 0 {
        assert(a.skip(n).len() == 0);
    } else {
        let b = a.drop_last();
        if n == a.len() {
            lemma_recent_is_left(b, now, window, n - 1);
            assert(b.skip(n - 1).len() == 0);
            assert(a.skip(n).len() == 0);
            assert(now.since(a[n - 1].0) > window.nanos);
        } else {
            lemma_recent_is_left(b, now, window, n);
            assert(a.skip(n).drop_last() =~= b.skip(n));
            assert(a.skip(n).last() == a.last());
            assert(now.since(a[a.len() - 1].0) <= window.nanos);
        }
    }
}

/// The first time that is kept is no older than the window.
proof fn lemma_first_kept(times: Seq<Instant>, now: Instant, window: Duration)
    ensures
        limits::stale(times, now, window) <= times.len(),
        limits::stale(times, now, window) < times.len() ==> now.since(
            times[limits::stale(times, now, window) as int],
        ) <= window.nanos,
    decreases times.len(),
{
    if times.len() > 0 && now.since(times.first()) > window.nanos {
        lemma_first_kept(times.drop_first(), now, window);
    }
}

/// Whether bytes were carried in the order of time.
pub open spec fn in_order(bytes: Seq<(Instant, u64)>) -> bool {
    forall|i: int, j: int|
        0 <= i <= j < bytes.len() ==> (#[trigger] bytes[i]).0.nanos <= (
        #[trigger] bytes[j]).0.nanos
}

proof fn lemma_carried_in_order(h: History, key: u128, n: nat)
    requires
        h.valid(),
        n <= h.ops.len(),
    ensures
        in_order(h.carried_bytes(key, n)),
        forall|i: int|
            0 <= i < h.carried_bytes(key, n).len() ==> n > 0 && (#[trigger] h.carried_bytes(
                key,
                n,
            )[i]).0.nanos <= h.times[n - 1].nanos,
    decreases n,
{
    if n > 0 {
        let before = h.carried_bytes(key, (n - 1) as nat);
        let all = h.carried_bytes(key, n);
        lemma_carried_in_order(h, key, (n - 1) as nat);
        assert forall|i: int| 0 <= i < all.len() implies (#[trigger] all[i]).0.nanos
            <= h.times[n - 1].nanos by {
            if i < before.len() {
                assert(all[i] == before[i]);
                assert(h.times[n - 2].nanos <= h.times[n - 1].nanos);
            }
        }
        assert forall|i: int, j: int| 0 <= i <= j < all.len() implies (#[trigger] all[i]).0.nanos
            <= (#[trigger] all[j]).0.nanos by {
            assert(all[i].0.nanos <= h.times[n - 1].nanos);
            if j < before.len() {
                assert(all[i] == before[i] && all[j] == before[j]);
            }
        }
    }
}

/// What is kept of all that was carried is what is recent, and within the cap.
proof fn lemma_kept_is_recent(
    all: Seq<(Instant, u64)>,
    held: Seq<(Instant, u64)>,
    now: Instant,
    window: Duration,
    cap: int,
)
    requires
        in_order(all),
        forgets(
            all,
            held.skip(limits::stale(limits::byte_times(held), now, window) as int),
            of_bytes(),
            now,
            window,
        ),
        few_bytes(all, cap, window),
        forall|i: int| 0 <= i < all.len() ==> (#[trigger] all[i]).0.nanos <= now.nanos,
        cap >= 0,
    ensures
        limits::total(held.skip(limits::stale(limits::byte_times(held), now, window) as int))
            == recent_bytes(all, now, window),
        recent_bytes(all, now, window) <= cap,
{
    let b = limits::stale(limits::byte_times(held), now, window) as int;
    let kept = held.skip(b);
    let k = choose|k: int| #[trigger] is_left(all, kept, of_bytes(), now, window, k);
    lemma_first_kept(limits::byte_times(held), now, window);
    assert forall|i: int| 0 <= i < k implies now.since((#[trigger] all[i]).0) > window.nanos by {
        assert(now.since(of_bytes()(all[i])) > window.nanos);
    }
    if k < all.len() {
        assert(kept.len() == all.len() - k);
        assert(limits::byte_times(held).len() == held.len());
        assert(kept.len() == held.len() - b);
        assert(kept[0] == all[k]);
        assert(limits::byte_times(held)[b] == held[b].0);
        assert(now.since(all[k].0) <= window.nanos);
    }
    assert forall|i: int| k <= i < all.len() implies now.since((#[trigger] all[i]).0)
        <= window.nanos by {
        assert(all[k].0.nanos <= all[i].0.nanos);
    }
    lemma_recent_is_left(all, now, window, k);
    assert(limits::total(all.skip(k)) <= cap) by {
        if k < all.len() {
            let last = all.len() - 1;
            assert(all[last].0.since(all[k].0) <= window.nanos);
            assert(all.subrange(k, last + 1) =~= all.skip(k));
        } else {
            assert(all.skip(k).len() == 0);
        }
    }
}

/// The sum that bytes are held against is what was carried in the last window.
proof fn lemma_sum_is_recent(h: History, key: u128, now: Instant)
    requires
        h.valid(),
        0 < h.cfg.max_bytes_per_ip < u64::MAX,
        h.times.len() > 0 ==> h.times.last().nanos <= now.nanos,
    ensures
        ({
            let used = recent_bytes(h.carried_bytes(key, h.ops.len()), now, h.cfg.bytes_window);
            &&& h.states.last().maybe_swept(h.cfg, now).row(key).pruned(now, h.cfg).bytes_sum
                == used
            &&& used <= h.cfg.max_bytes_per_ip
        }),
{
    let cfg = h.cfg;
    let window = cfg.bytes_window;
    let v = h.states.last();
    let count = h.ops.len();
    let all = h.carried_bytes(key, count);
    let before = v.row(key);
    let row = v.maybe_swept(cfg, now).row(key);
    lemma_bytes(h, key, count);
    lemma_carried_in_order(h, key, count);
    lemma_maybe_swept_forgets(v, cfg, now, key);
    lemma_pruned_forgets(row, now, cfg);
    let early = if count > 0 {
        h.times[count - 1]
    } else {
        now
    };
    if count == 0 {
        lemma_forgets_nothing(all, of_bytes(), now, window);
    }
    assert forall|i: int| 0 <= i < all.len() implies (#[trigger] all[i]).0.nanos
        <= now.nanos by {
        assert(all[i].0.nanos <= h.times[count - 1].nanos);
    }
    lemma_forgets_twice(all, before.bytes, row.bytes, of_bytes(), early, now, window);
    lemma_forgets_twice(
        all,
        row.bytes,
        row.pruned(now, cfg).bytes,
        of_bytes(),
        now,
        now,
        window,
    );
    lemma_kept_is_recent(all, row.bytes, now, window, cfg.max_bytes_per_ip as int);
    lemma_pruned_sums(before, now, cfg);
    assert(sums(row));
    lemma_pruned_sums(row, now, cfg);
}

/// Bytes are refused exactly if what was carried for the client network in the last
/// window, and they, are together more than the cap. What was carried in the last
/// window is never more than the cap. With the largest number as the cap the count
/// could not grow past it, so that one is left out.
pub proof fn law_bytes_refused_over_cap(h: History, key: u128, now: Instant, n: u64)
    requires
        h.valid(),
        h.cfg.max_bytes_per_ip < u64::MAX,
        h.times.len() > 0 ==> h.times.last().nanos <= now.nanos,
    ensures
        ({
            let used = recent_bytes(h.carried_bytes(key, h.ops.len()), now, h.cfg.bytes_window);
            let cap = h.cfg.max_bytes_per_ip;
            &&& h.states.last().carried(h.cfg, now, key, n).1 == if cap != 0 && n != 0 && used + n
                > cap {
                Err::<(), LimitError>(LimitError::ByteCap)
            } else {
                Ok::<(), LimitError>(())
            }
            &&& cap != 0 ==> used <= cap
        }),
{
    if h.cfg.max_bytes_per_ip != 0 {
        lemma_sum_is_recent(h, key, now);
    }
}

/// How many of `times` lie no longer ago than the window.
pub open spec fn recent_times(times: Seq<Instant>, now: Instant, window: Duration) -> nat
    decreases times.len(),
{
    if times.len() == 0 {
        0
    } else {
        recent_times(times.drop_last(), now, window) + if now.since(times.last())
            <= window.nanos {
            1nat
        } else {
            0nat
        }
    }
}

/// The destinations in `dests` that lie no longer ago than the window.
pub open spec fn names_lately(
    dests: Seq<(Instant, Seq<char>)>,
    now: Instant,
    window: Duration,
) -> Set<Seq<char>> {
    Set::new(
        |name: Seq<char>|
            exists|i: int|
                0 <= i < dests.len() && (#[trigger] dests[i]).1 == name && now.since(dests[i].0)
                    <= window.nanos,
    )
}

/// Whether items come in the order of time, and none after `until`.
pub open spec fn ordered<T>(s: Seq<T>, time: spec_fn(T) -> Instant, until: Instant) -> bool {
    &&& forall|i: int, j: int|
        0 <= i <= j < s.len() ==> time(#[trigger] s[i]).nanos <= time(#[trigger] s[j]).nanos
    &&& forall|i: int| 0 <= i < s.len() ==> time(#[trigger] s[i]).nanos <= until.nanos
}

proof fn lemma_ordered_push<T>(
    s: Seq<T>,
    item: T,
    time: spec_fn(T) -> Instant,
    early: Instant,
    now: Instant,
)
    requires
        ordered(s, time, early),
        early.nanos <= now.nanos,
        time(item) == now,
    ensures
        ordered(s, time, now),
        ordered(s.push(item), time, now),
{
    let p = s.push(item);
    assert forall|i: int| 0 <= i < p.len() implies time(#[trigger] p[i]).nanos <= now.nanos by {
        if i < s.len() {
            assert(p[i] == s[i]);
        }
    }
    assert forall|i: int, j: int| 0 <= i <= j < p.len() implies time(#[trigger] p[i]).nanos <= time(
        #[trigger] p[j],
    ).nanos by {
        assert(time(p[i]).nanos <= now.nanos);
        if j < s.len() {
            assert(p[i] == s[i] && p[j] == s[j]);
        }
    }
}

/// What was let through came in the order of time.
proof fn lemma_let_through_in_order(h: History, key: u128, n: nat, until: Instant)
    requires
        h.valid(),
        n <= h.ops.len(),
        n > 0 ==> h.times[n - 1].nanos <= until.nanos,
    ensures
        ordered(h.accepted(key, n), of_time(), until),
        ordered(h.accepted_from_all(n), of_time(), until),
        ordered(h.accepted_dests(key, n), of_dest(), until),
    decreases n,
{
    if n > 0 {
        let i = n - 1;
        let now = h.times[i];
        let op = h.ops[i];
        if i > 0 {
            assert(h.times[i - 1].nanos <= now.nanos);
        }
        lemma_let_through_in_order(h, key, i as nat, now);
        lemma_ordered_push(h.accepted(key, i as nat), now, of_time(), now, now);
        lemma_ordered_push(h.accepted_from_all(i as nat), now, of_time(), now, now);
        lemma_ordered_push(
            h.accepted_dests(key, i as nat),
            (now, op->Attempt_dest),
            of_dest(),
            now,
            now,
        );
    }
}

/// Where what is left begins with something recent, all that is left is recent.
proof fn lemma_left_is_recent<T>(
    all: Seq<T>,
    kept: Seq<T>,
    time: spec_fn(T) -> Instant,
    now: Instant,
    window: Duration,
) -> (k: int)
    requires
        ordered(all, time, now),
        forgets(all, kept, time, now, window),
        kept.len() > 0 ==> now.since(time(kept[0])) <= window.nanos,
    ensures
        is_left(all, kept, time, now, window, k),
        forall|i: int|
            k <= i < all.len() ==> now.since(time(#[trigger] all[i])) <= window.nanos,
{
    let k = choose|k: int| #[trigger] is_left(all, kept, time, now, window, k);
    if k < all.len() {
        assert(kept[0] == all[k]);
    }
    assert forall|i: int| k <= i < all.len() implies now.since(time(#[trigger] all[i]))
        <= window.nanos by {
        assert(time(all[k]).nanos <= time(all[i]).nanos);
    }
    k
}

proof fn lemma_recent_count(all: Seq<Instant>, now: Instant, window: Duration, k: int)
    requires
        0 <= k <= all.len(),
        forall|i: int| 0 <= i < k ==> now.since(#[trigger] all[i]) > window.nanos,
        forall|i: int| k <= i < all.len() ==> now.since(#[trigger] all[i]) <= window.nanos,
    ensures
        recent_times(all, now, window) == all.len() - k,
    decreases all.len(),
{
    if all.len() > 0 {
        let n = all.len() - 1;
        if k == all.len() {
            assert(now.since(all[n]) > window.nanos);
            lemma_recent_count(all.drop_last(), now, window, k - 1);
        } else {
            assert(now.since(all[n]) <= window.nanos);
            lemma_recent_count(all.drop_last(), now, window, k);
        }
    }
}

/// What is kept of attempts is what is recent.
proof fn lemma_kept_times(
    all: Seq<Instant>,
    held: Seq<Instant>,
    now: Instant,
    window: Duration,
)
    requires
        ordered(all, of_time(), now),
        forgets(all, held.skip(limits::stale(held, now, window) as int), of_time(), now, window),
    ensures
        held.skip(limits::stale(held, now, window) as int).len() == recent_times(all, now, window),
{
    lemma_first_kept(held, now, window);
    let kept = held.skip(limits::stale(held, now, window) as int);
    let k = lemma_left_is_recent(all, kept, of_time(), now, window);
    assert forall|i: int| 0 <= i < k implies now.since(#[trigger] all[i]) > window.nanos by {
        assert(now.since(of_time()(all[i])) > window.nanos);
    }
    assert forall|i: int| k <= i < all.len() implies now.since(#[trigger] all[i])
        <= window.nanos by {
        assert(now.since(of_time()(all[i])) <= window.nanos);
    }
    lemma_recent_count(all, now, window, k);
}

/// What is kept of destinations is what is recent.
proof fn lemma_kept_names(
    all: Seq<(Instant, Seq<char>)>,
    held: Seq<(Instant, Seq<char>)>,
    now: Instant,
    window: Duration,
)
    requires
        ordered(all, of_dest(), now),
        forgets(
            all,
            held.skip(limits::stale(limits::dest_times(held), now, window) as int),
            of_dest(),
            now,
            window,
        ),
    ensures
        names_in(held.skip(limits::stale(limits::dest_times(held), now, window) as int))
            == names_lately(all, now, window),
{
    let times = limits::dest_times(held);
    lemma_first_kept(times, now, window);
    let b = limits::stale(times, now, window) as int;
    let kept = held.skip(b);
    assert(times.len() == held.len());
    if kept.len() > 0 {
        assert(times[b] == held[b].0);
    }
    let k = lemma_left_is_recent(all, kept, of_dest(), now, window);
    lemma_names_of(kept);
    let lately = names_lately(all, now, window);
    assert forall|name: Seq<char>| names_in(kept).contains(name) == lately.contains(name) by {
        if names_in(kept).contains(name) {
            let i = choose|i: int| 0 <= i < kept.len() && #[trigger] kept[i].1 == name;
            assert(all[i + k] == kept[i]);
            assert(now.since(of_dest()(all[i + k])) <= window.nanos);
            assert(all[i + k].1 == name);
        }
        if lately.contains(name) {
            let i = choose|i: int|
                0 <= i < all.len() && (#[trigger] all[i]).1 == name && now.since(all[i].0)
                    <= window.nanos;
            if i < k {
                assert(now.since(of_dest()(all[i])) > window.nanos);
            }
            assert(kept[i - k].1 == name);
        }
    }
    assert(names_in(kept) =~= lately);
}

/// What an attempt finds of everyone is what is recent of all.
proof fn lemma_found_of_all(h: History, key: u128, now: Instant)
    requires
        h.valid(),
        h.times.len() > 0 ==> h.times.last().nanos <= now.nanos,
    ensures
        made_room(h.states.last(), h.cfg, now, key).global_connects.len() == recent_times(
            h.accepted_from_all(h.ops.len()),
            now,
            h.cfg.global_connects_window,
        ),
{
    let cfg = h.cfg;
    let window = cfg.global_connects_window;
    let v = h.states.last();
    let n = h.ops.len();
    let all = h.accepted_from_all(n);
    let before = v.global_connects;
    let swept = v.maybe_swept(cfg, now);
    let a = swept.pruned(cfg, now);
    let b = made_room(v, cfg, now, key);
    lemma_rate_of_all(h, n);
    lemma_let_through_in_order(h, key, n, now);
    let early = if n > 0 {
        h.times[n - 1]
    } else {
        now
    };
    if n == 0 {
        lemma_forgets_nothing(all, of_time(), now, window);
    }
    lemma_maybe_swept_forgets(v, cfg, now, key);
    lemma_forgets_twice(all, before, swept.global_connects, of_time(), early, now, window);
    lemma_stale_forgets(swept.global_connects, swept.global_connects, of_time(), now, window);
    lemma_forgets_twice(
        all,
        swept.global_connects,
        a.global_connects,
        of_time(),
        now,
        now,
        window,
    );
    lemma_stale_forgets(a.global_connects, a.global_connects, of_time(), now, window);
    let twice = a.global_connects.skip(
        limits::stale(a.global_connects, now, window) as int,
    );
    lemma_forgets_twice(all, a.global_connects, twice, of_time(), now, now, window);
    lemma_kept_times(all, swept.global_connects, now, window);
    lemma_kept_times(all, a.global_connects, now, window);
    assert(b.global_connects == a.global_connects || b.global_connects == twice);
}

/// What an attempt finds of its client is what is recent of it.
proof fn lemma_found_of_client(h: History, key: u128, now: Instant)
    requires
        h.valid(),
        h.times.len() > 0 ==> h.times.last().nanos <= now.nanos,
    ensures
        ({
            let row = made_room(h.states.last(), h.cfg, now, key).row(key).pruned(now, h.cfg);
            &&& row.connects.len() == recent_times(
                h.accepted(key, h.ops.len()),
                now,
                h.cfg.connects_per_ip_window,
            )
            &&& h.cfg.distinct_dests_per_ip != 0 ==> row.names() == names_lately(
                h.accepted_dests(key, h.ops.len()),
                now,
                h.cfg.distinct_dests_window,
            )
        }),
{
    let cfg = h.cfg;
    let v = h.states.last();
    let n = h.ops.len();
    let held = made_room(v, cfg, now, key).row(key);
    let row = held.pruned(now, cfg);
    lemma_made_room_forgets(v, cfg, now, key, key);
    lemma_pruned_forgets(held, now, cfg);
    lemma_let_through_in_order(h, key, n, now);
    let early = if n > 0 {
        h.times[n - 1]
    } else {
        now
    };
    let all = h.accepted(key, n);
    let window = cfg.connects_per_ip_window;
    lemma_rate_per_ip(h, key, n);
    if n == 0 {
        lemma_forgets_nothing(all, of_time(), now, window);
    }
    lemma_forgets_twice(all, v.row(key).connects, held.connects, of_time(), early, now, window);
    lemma_forgets_twice(all, held.connects, row.connects, of_time(), now, now, window);
    lemma_kept_times(all, held.connects, now, window);
    if cfg.distinct_dests_per_ip != 0 {
        let to = h.accepted_dests(key, n);
        let span = cfg.distinct_dests_window;
        lemma_dests(h, key, n);
        if n == 0 {
            lemma_forgets_nothing(to, of_dest(), now, span);
        }
        lemma_forgets_twice(to, v.row(key).dests, held.dests, of_dest(), early, now, span);
        lemma_forgets_twice(to, held.dests, row.dests, of_dest(), now, now, span);
        lemma_kept_names(to, held.dests, now, span);
        assert(row.names() == names_in(row.dests));
    }
}

/// An attempt goes by what was let through before, wherever the table has room for
/// the client once it is swept. It is refused for the rate of all exactly if as many
/// attempts as the cap were let through in the last window, then likewise for the
/// rate of its client, then for its destination exactly if the client has reached as
/// many others as the cap in the last window. Otherwise it is let through.
pub proof fn law_attempt_goes_by_history(h: History, key: u128, now: Instant, dest: Seq<char>)
    requires
        h.valid(),
        h.times.len() > 0 ==> h.times.last().nanos <= now.nanos,
        ({
            let rows = h.states.last().swept(h.cfg, now).rows;
            h.cfg.max_tracked_ips == 0 || rows.len() < h.cfg.max_tracked_ips || rows.contains_key(
                key,
            )
        }),
    ensures
        ({
            let cfg = h.cfg;
            let of_all = recent_times(
                h.accepted_from_all(h.ops.len()),
                now,
                cfg.global_connects_window,
            );
            let of_client = recent_times(
                h.accepted(key, h.ops.len()),
                now,
                cfg.connects_per_ip_window,
            );
            let names = names_lately(
                h.accepted_dests(key, h.ops.len()),
                now,
                cfg.distinct_dests_window,
            );
            h.states.last().attempt(cfg, now, key, dest).1 == if cfg.global_connects != 0 && of_all
                >= cfg.global_connects {
                Err::<(), LimitError>(LimitError::GlobalConnectRate)
            } else if cfg.connects_per_ip != 0 && of_client >= cfg.connects_per_ip {
                Err::<(), LimitError>(LimitError::ConnectRate)
            } else if cfg.distinct_dests_per_ip != 0 && !names.contains(dest) && names.len()
                >= cfg.distinct_dests_per_ip {
                Err::<(), LimitError>(LimitError::DistinctDests)
            } else {
                Ok::<(), LimitError>(())
            }
        }),
{
    let v = h.states.last();
    let cfg = h.cfg;
    let a = v.maybe_swept(cfg, now).pruned(cfg, now);
    let b = made_room(v, cfg, now, key);
    lemma_found_of_all(h, key, now);
    lemma_found_of_client(h, key, now);
    assert(a.rows == v.rows || a.rows == v.swept(cfg, now).rows);
    assert(!b.no_room(cfg, key)) by {
        if a.no_room(cfg, key) {
            assert(a.rows == v.rows);
            assert(b.rows == v.swept(cfg, now).rows);
        }
    }
}

}
