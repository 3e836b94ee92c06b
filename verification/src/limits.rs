//! In-process concurrency, connect-rate, destination-diversity, and byte caps.
//!
//! There is no per-token identity on the public proxy; these limits are keyed
//! by client IP and destination. A [`ConnectionLease`] is held for the life of
//! an accepted session and handed back when it ends.
use std::collections::{HashMap, VecDeque};

use vstd::arithmetic::power2::pow2;
use vstd::hash_map::StringHashMap;
use vstd::hash_set::StringHashSet;
use vstd::multiset::Multiset;
use vstd::prelude::*;

use crate::ip;
use crate::ip::{IpAddr, Ipv4Addr, Ipv6Addr};
use crate::time::{Clock, Duration, Instant};

verus! {

broadcast use {vstd::std_specs::hash::group_hash_axioms, vstd::hash_map::group_hash_map_axioms};

#[derive(Debug, Clone, Copy, PartialEq, Eq, Structural)]
pub enum LimitError {
    GlobalFull,
    PerIpFull,
    PerDestFull,
    ConnectRate,
    GlobalConnectRate,
    DistinctDests,
    ByteCap,
}

/// `0` on a cap means unlimited.
#[derive(Debug, Clone, Copy)]
pub struct LimitsConfig {
    pub max_global_connections: usize,
    pub max_conns_per_ip: usize,
    pub max_conns_per_dest: usize,
    pub connects_per_ip: usize,
    pub connects_per_ip_window: Duration,
    pub distinct_dests_per_ip: usize,
    pub distinct_dests_window: Duration,
    pub global_connects: usize,
    pub global_connects_window: Duration,
    /// Combined up+down bytes per source IP over [`Self::bytes_window`].
    pub max_bytes_per_ip: u64,
    pub bytes_window: Duration,
    /// IPv4 prefix length used as the limit key (`32` = one address).
    pub ipv4_prefix: u8,
    /// IPv6 prefix length used as the limit key (`64` so a /64 cannot
    /// mint a fresh budget per address).
    pub ipv6_prefix: u8,
    /// Drop idle per-IP rows after this many tracked prefixes (`0` = no cap).
    pub max_tracked_ips: usize,
}

/// The windows that both built-in configurations have: a minute for connects and
/// destinations, a second for connects altogether, an hour for bytes; one IPv4
/// address or one IPv6 /64 to a budget.
pub open spec fn standard_windows(c: LimitsConfig) -> bool {
    &&& c.connects_per_ip_window.nanos == 60_000_000_000
    &&& c.distinct_dests_window.nanos == 60_000_000_000
    &&& c.global_connects_window.nanos == 1_000_000_000
    &&& c.bytes_window.nanos == 3_600_000_000_000
    &&& c.ipv4_prefix == 32
    &&& c.ipv6_prefix == 64
}

/// The caps of a proxy that nothing was set for.
pub open spec fn is_default(c: LimitsConfig) -> bool {
    &&& c.max_global_connections == 5000
    &&& c.max_conns_per_ip == 16
    &&& c.max_conns_per_dest == 200
    &&& c.connects_per_ip == 10
    &&& c.distinct_dests_per_ip == 10
    &&& c.global_connects == 20
    &&& c.max_bytes_per_ip == 1_073_741_824
    &&& c.max_tracked_ips == 50_000
    &&& standard_windows(c)
}

/// No cap at all.
pub open spec fn is_unlimited(c: LimitsConfig) -> bool {
    &&& c.max_global_connections == 0
    &&& c.max_conns_per_ip == 0
    &&& c.max_conns_per_dest == 0
    &&& c.connects_per_ip == 0
    &&& c.distinct_dests_per_ip == 0
    &&& c.global_connects == 0
    &&& c.max_bytes_per_ip == 0
    &&& c.max_tracked_ips == 0
    &&& standard_windows(c)
}

impl Default for LimitsConfig {
    fn default() -> (r: Self)
        ensures
            is_default(r),
    {
        LimitsConfig {
            max_global_connections: 5000,
            max_conns_per_ip: 16,
            max_conns_per_dest: 200,
            connects_per_ip: 10,
            connects_per_ip_window: Duration::from_secs(60),
            distinct_dests_per_ip: 10,
            distinct_dests_window: Duration::from_secs(60),
            global_connects: 20,
            global_connects_window: Duration::from_secs(1),
            max_bytes_per_ip: 1024 * 1024 * 1024,
            bytes_window: Duration::from_secs(3600),
            ipv4_prefix: 32,
            ipv6_prefix: 64,
            max_tracked_ips: 50_000,
        }
    }
}

impl LimitsConfig {
    /// No cap at all.
    pub fn unlimited() -> (r: Self)
        ensures
            is_unlimited(r),
    {
        LimitsConfig {
            max_global_connections: 0,
            max_conns_per_ip: 0,
            max_conns_per_dest: 0,
            connects_per_ip: 0,
            connects_per_ip_window: Duration::from_secs(60),
            distinct_dests_per_ip: 0,
            distinct_dests_window: Duration::from_secs(60),
            global_connects: 0,
            global_connects_window: Duration::from_secs(1),
            max_bytes_per_ip: 0,
            bytes_window: Duration::from_secs(3600),
            ipv4_prefix: 32,
            ipv6_prefix: 64,
            max_tracked_ips: 0,
        }
    }
}

pub open spec fn min(a: int, b: int) -> int {
    if a <= b {
        a
    } else {
        b
    }
}

/// The IPv4 network that an IPv4 address shares its budget with.
pub open spec fn key_v4(ip: Ipv4Addr, v4_bits: u8) -> IpAddr {
    IpAddr::V4(
        Ipv4Addr { bits: ip::keep_prefix(ip.bits as int, 32, min(v4_bits as int, 32) as nat) as u32 },
    )
}

/// The network that an address shares its budget with: the address with all but
/// its leading bits cleared. IPv4-mapped IPv6 is treated as IPv4.
pub open spec fn key_of(ip: IpAddr, v4_bits: u8, v6_bits: u8) -> IpAddr {
    match ip {
        IpAddr::V4(v4) => key_v4(v4, v4_bits),
        IpAddr::V6(v6) => match v6.mapped() {
            Some(v4) => key_v4(v4, v4_bits),
            None => IpAddr::V6(
                Ipv6Addr {
                    bits: ip::keep_prefix(
                        v6.bits as int,
                        128,
                        min(v6_bits as int, 128) as nat,
                    ) as u128,
                },
            ),
        },
    }
}

fn limit_key_v4(v4: Ipv4Addr, v4_bits: u8) -> (r: IpAddr)
    ensures
        r == key_v4(v4, v4_bits),
{
    let bits: u32 = if v4_bits < 32 {
        v4_bits as u32
    } else {
        32
    };
    proof {
        ip::lemma_pow2_widths();
    }
    IpAddr::V4(Ipv4Addr { bits: ip::clear_after(v4.bits as u128, 32, bits) as u32 })
}

/// Mask `ip` to the configured prefix so many addresses in one network
/// share a single budget. IPv4-mapped IPv6 is treated as IPv4.
pub fn limit_key(ip: IpAddr, v4_bits: u8, v6_bits: u8) -> (r: IpAddr)
    ensures
        r == key_of(ip, v4_bits, v6_bits),
{
    match ip {
        IpAddr::V4(v4) => limit_key_v4(v4, v4_bits),
        IpAddr::V6(v6) => match v6.to_ipv4_mapped() {
            Some(v4) => limit_key_v4(v4, v4_bits),
            None => {
                let bits: u32 = if v6_bits < 128 {
                    v6_bits as u32
                } else {
                    128
                };
                proof {
                    ip::lemma_pow2_widths();
                }
                IpAddr::V6(Ipv6Addr { bits: ip::clear_after(v6.bits, 128, bits) })
            },
        },
    }
}

/// Whether `used` has reached a cap, where 0 is no cap.
pub open spec fn reached(limit: int, used: int) -> bool {
    limit != 0 && used >= limit
}

fn capped(limit: usize, used: usize) -> (r: bool)
    ensures
        r == reached(limit as int, used as int),
{
    limit != 0 && used >= limit
}

/// How many of `times`, from the front, are older than `window` before the first
/// one that is not.
pub open spec fn stale(times: Seq<Instant>, now: Instant, window: Duration) -> nat
    decreases times.len(),
{
    if times.len() > 0 && now.since(times.first()) > window.nanos {
        1 + stale(times.drop_first(), now, window)
    } else {
        0
    }
}

/// What is known of one client network.
pub struct IpView {
    pub connections: int,
    pub connects: Seq<Instant>,
    pub dests: Seq<(Instant, Seq<char>)>,
    pub bytes: Seq<(Instant, u64)>,
    pub bytes_sum: int,
}

/// The sum of the counts in `bytes`.
pub open spec fn total(bytes: Seq<(Instant, u64)>) -> int
    decreases bytes.len(),
{
    if bytes.len() == 0 {
        0
    } else {
        total(bytes.drop_last()) + bytes.last().1
    }
}

pub open spec fn dest_times(dests: Seq<(Instant, Seq<char>)>) -> Seq<Instant> {
    dests.map_values(|d: (Instant, Seq<char>)| d.0)
}

pub open spec fn byte_times(bytes: Seq<(Instant, u64)>) -> Seq<Instant> {
    bytes.map_values(|b: (Instant, u64)| b.0)
}

impl IpView {
    /// Nothing is known.
    pub open spec fn empty() -> IpView {
        IpView {
            connections: 0,
            connects: Seq::empty(),
            dests: Seq::empty(),
            bytes: Seq::empty(),
            bytes_sum: 0,
        }
    }

    /// The destinations in the window.
    pub open spec fn names(self) -> Set<Seq<char>> {
        self.dests.map_values(|d: (Instant, Seq<char>)| d.1).to_set()
    }

    /// The row without what has left the windows.
    pub open spec fn pruned(self, now: Instant, cfg: LimitsConfig) -> IpView {
        let c = stale(self.connects, now, cfg.connects_per_ip_window) as int;
        let d = stale(dest_times(self.dests), now, cfg.distinct_dests_window) as int;
        let b = stale(byte_times(self.bytes), now, cfg.bytes_window) as int;
        let left = self.bytes_sum - total(self.bytes.take(b));
        IpView {
            connections: self.connections,
            connects: self.connects.skip(c),
            dests: self.dests.skip(d),
            bytes: self.bytes.skip(b),
            bytes_sum: if left >= 0 {
                left
            } else {
                0
            },
        }
    }

    /// No connection is open and every window is empty.
    pub open spec fn idle(self) -> bool {
        &&& self.connections == 0
        &&& self.connects.len() == 0
        &&& self.dests.len() == 0
        &&& self.bytes.len() == 0
    }
}

struct IpState {
    connections: usize,
    connects: VecDeque<Instant>,
    dests: VecDeque<(Instant, String)>,
    bytes: VecDeque<(Instant, u64)>,
    bytes_sum: u64,
}

impl View for IpState {
    type V = IpView;

    closed spec fn view(&self) -> IpView {
        IpView {
            connections: self.connections as int,
            connects: self.connects@,
            dests: self.dests@.map_values(|d: (Instant, String)| (d.0, d.1@)),
            bytes: self.bytes@,
            bytes_sum: self.bytes_sum as int,
        }
    }
}

/// Drops what is older than `window` from the front of `q`.
fn prune_instants(q: &mut VecDeque<Instant>, now: Instant, window: Duration)
    ensures
        final(q)@ == old(q)@.skip(stale(old(q)@, now, window) as int),
{
    let ghost start = q@;
    let ghost mut k: int = 0;
    assert(start.skip(0) =~= start);
    while q.len() > 0 && now.duration_since(q[0]).nanos > window.nanos
        invariant
            0 <= k <= start.len(),
            q@ == start.skip(k),
            stale(start, now, window) == k + stale(q@, now, window),
        decreases q@.len(),
    {
        let ghost before = q@;
        let _ = q.pop_front();
        proof {
            assert(q@ =~= before.drop_first());
            assert(before.drop_first() =~= start.skip(k + 1));
            k = k + 1;
        }
    }
}

impl IpState {
    fn empty() -> (r: Self)
        ensures
            r@ == IpView::empty(),
    {
        let r = IpState {
            connections: 0,
            connects: VecDeque::new(),
            dests: VecDeque::new(),
            bytes: VecDeque::new(),
            bytes_sum: 0,
        };
        assert(r@.dests =~= Seq::empty());
        r
    }

    fn prune(&mut self, now: Instant, cfg: &LimitsConfig)
        ensures
            final(self)@ == old(self)@.pruned(now, *cfg),
    {
        let ghost start = self@;
        prune_instants(&mut self.connects, now, cfg.connects_per_ip_window);
        let ghost d0 = self.dests@;
        let ghost mut d: int = 0;
        assert(d0.skip(0) =~= d0);
        let ghost times = dest_times(start.dests);
        assert(times.skip(0) =~= times);
        while self.dests.len() > 0 && now.duration_since(self.dests[0].0).nanos
            > cfg.distinct_dests_window.nanos
            invariant
                0 <= d <= d0.len(),
                self.dests@ == d0.skip(d),
                times == dest_times(start.dests),
                start.dests == d0.map_values(|d: (Instant, String)| (d.0, d.1@)),
                stale(times, now, cfg.distinct_dests_window) == d + stale(
                    times.skip(d),
                    now,
                    cfg.distinct_dests_window,
                ),
                self.connections == start.connections,
                self.connects@ == start.connects.skip(
                    stale(start.connects, now, cfg.connects_per_ip_window) as int,
                ),
                self.bytes@ == start.bytes,
                self.bytes_sum == start.bytes_sum,
            decreases self.dests@.len(),
        {
            let ghost before = self.dests@;
            let _ = self.dests.pop_front();
            proof {
                assert(self.dests@ =~= d0.skip(d + 1));
                assert(times.skip(d).drop_first() =~= times.skip(d + 1));
                d = d + 1;
            }
        }
        let ghost b0 = self.bytes@;
        let ghost mut b: int = 0;
        assert(b0.skip(0) =~= b0);
        let ghost btimes = byte_times(b0);
        assert(btimes.skip(0) =~= btimes);
        while self.bytes.len() > 0 && now.duration_since(self.bytes[0].0).nanos
            > cfg.bytes_window.nanos
            invariant
                0 <= b <= b0.len(),
                b0 == start.bytes,
                btimes == byte_times(b0),
                self.bytes@ == b0.skip(b),
                stale(btimes, now, cfg.bytes_window) == b + stale(
                    btimes.skip(b),
                    now,
                    cfg.bytes_window,
                ),
                self.bytes_sum == if start.bytes_sum - total(b0.take(b)) >= 0 {
                    start.bytes_sum - total(b0.take(b))
                } else {
                    0
                },
                0 <= d <= d0.len(),
                self.dests@ == d0.skip(d),
                d == stale(dest_times(start.dests), now, cfg.distinct_dests_window),
                start.dests == d0.map_values(|d: (Instant, String)| (d.0, d.1@)),
                self.connections == start.connections,
                self.connects@ == start.connects.skip(
                    stale(start.connects, now, cfg.connects_per_ip_window) as int,
                ),
            decreases self.bytes@.len(),
        {
            let ghost before = self.bytes@;
            if let Some((_, n)) = self.bytes.pop_front() {
                self.bytes_sum = self.bytes_sum.saturating_sub(n);
            }
            proof {
                assert(self.bytes@ =~= b0.skip(b + 1));
                assert(btimes.skip(b).drop_first() =~= btimes.skip(b + 1));
                assert(b0.take(b + 1).drop_last() =~= b0.take(b));
                b = b + 1;
            }
        }
        assert(self@ == start.pruned(now, *cfg)) by {
            assert(self@.dests =~= start.pruned(now, *cfg).dests);
        }
    }

    fn is_idle(&self) -> (r: bool)
        ensures
            r == self@.idle(),
    {
        self.connections == 0 && self.connects.len() == 0 && self.dests.len() == 0
            && self.bytes.len() == 0
    }
}


/// How long idle rows may stay before they are looked for.
pub open spec fn gc_interval() -> int {
    30_000_000_000
}

/// The number of rows from which on idle ones are looked for every time.
pub const GC_ROWS: usize = 10_000;

/// What the limiter knows.
pub struct LimitView {
    /// Open connections.
    pub global_connections: int,
    /// When the latest attempts were let through, oldest first.
    pub global_connects: Seq<Instant>,
    /// What is known of each client network, by [`row_key`].
    pub rows: Map<u128, IpView>,
    /// Open connections to each destination.
    pub per_dest: Map<Seq<char>, int>,
    /// When idle rows were last dropped.
    pub last_gc: Instant,
}

/// The number under which the row of a client network is kept: its 128 bits, an
/// IPv4 network in the IPv4-mapped form.
pub open spec fn row_key(network: IpAddr) -> u128 {
    match network {
        IpAddr::V4(v4) => (0xffff_0000_0000 + v4.bits) as u128,
        IpAddr::V6(v6) => v6.bits,
    }
}

/// The row of the network that `ip` belongs to.
pub open spec fn row_of(ip: IpAddr, cfg: LimitsConfig) -> u128 {
    row_key(key_of(ip, cfg.ipv4_prefix, cfg.ipv6_prefix))
}

fn row_key_of(network: IpAddr) -> (r: u128)
    ensures
        r == row_key(network),
{
    match network {
        IpAddr::V4(v4) => 0xffff_0000_0000 + v4.bits as u128,
        IpAddr::V6(v6) => v6.bits,
    }
}

impl LimitView {
    /// Nothing has happened yet.
    pub open spec fn start(now: Instant) -> LimitView {
        LimitView {
            global_connections: 0,
            global_connects: Seq::empty(),
            rows: Map::empty(),
            per_dest: Map::empty(),
            last_gc: now,
        }
    }

    /// The row under `key`, empty if there is none.
    pub open spec fn row(self, key: u128) -> IpView {
        if self.rows.contains_key(key) {
            self.rows[key]
        } else {
            IpView::empty()
        }
    }

    /// The open connections to `dest`.
    pub open spec fn to_dest(self, dest: Seq<char>) -> int {
        if self.per_dest.contains_key(dest) {
            self.per_dest[dest]
        } else {
            0
        }
    }

    pub open spec fn with_row(self, key: u128, row: IpView) -> LimitView {
        LimitView { rows: self.rows.insert(key, row), ..self }
    }

    /// Without the attempts that have left the global window.
    pub open spec fn pruned(self, cfg: LimitsConfig, now: Instant) -> LimitView {
        LimitView {
            global_connects: self.global_connects.skip(
                stale(self.global_connects, now, cfg.global_connects_window) as int,
            ),
            ..self
        }
    }

    /// With every row pruned, and without the rows that are idle then.
    pub open spec fn swept(self, cfg: LimitsConfig, now: Instant) -> LimitView {
        LimitView {
            rows: Map::new(
                |k: u128| self.rows.contains_key(k) && !self.rows[k].pruned(now, cfg).idle(),
                |k: u128| self.rows[k].pruned(now, cfg),
            ),
            last_gc: now,
            ..self.pruned(cfg, now)
        }
    }

    /// Swept, if that is due: it was not done for a while, or there are many rows.
    pub open spec fn maybe_swept(self, cfg: LimitsConfig, now: Instant) -> LimitView {
        if now.since(self.last_gc) >= gc_interval() || self.rows.len() >= GC_ROWS {
            self.swept(cfg, now)
        } else {
            self
        }
    }

    /// Whether `key` has no row and none may be added.
    pub open spec fn no_room(self, cfg: LimitsConfig, key: u128) -> bool {
        reached(cfg.max_tracked_ips as int, self.rows.len() as int) && !self.rows.contains_key(key)
    }

    /// Whether `row` may not be used for one more destination `dest`.
    pub open spec fn too_many_dests(row: IpView, cfg: LimitsConfig, dest: Seq<char>) -> bool {
        &&& cfg.distinct_dests_per_ip != 0
        &&& !row.names().contains(dest)
        &&& row.names().len() >= cfg.distinct_dests_per_ip
    }

    /// A connect attempt of the network `key` to `dest`.
    pub open spec fn attempt(
        self,
        cfg: LimitsConfig,
        now: Instant,
        key: u128,
        dest: Seq<char>,
    ) -> (LimitView, Result<(), LimitError>) {
        let a = self.maybe_swept(cfg, now).pruned(cfg, now);
        let b = if a.no_room(cfg, key) {
            a.swept(cfg, now)
        } else {
            a
        };
        if b.no_room(cfg, key) || reached(
            cfg.global_connects as int,
            b.global_connects.len() as int,
        ) {
            (b, Err(LimitError::GlobalConnectRate))
        } else {
            let row = b.row(key).pruned(now, cfg);
            if reached(cfg.connects_per_ip as int, row.connects.len() as int) {
                (b.with_row(key, row), Err(LimitError::ConnectRate))
            } else if Self::too_many_dests(row, cfg, dest) {
                (b.with_row(key, row), Err(LimitError::DistinctDests))
            } else {
                let counted = IpView {
                    connects: row.connects.push(now),
                    dests: row.dests.push((now, dest)),
                    ..row
                };
                (
                    LimitView {
                        global_connects: b.global_connects.push(now),
                        ..b.with_row(key, counted)
                    },
                    Ok(()),
                )
            }
        }
    }

    /// A connection slot for the network `key` and `dest`.
    pub open spec fn acquired(
        self,
        cfg: LimitsConfig,
        now: Instant,
        key: u128,
        dest: Seq<char>,
    ) -> (LimitView, Result<(), LimitError>) {
        let a = self.maybe_swept(cfg, now);
        let row = a.row(key);
        if reached(cfg.max_global_connections as int, a.global_connections) {
            (a, Err(LimitError::GlobalFull))
        } else if reached(cfg.max_conns_per_ip as int, row.connections) {
            (a.with_row(key, row), Err(LimitError::PerIpFull))
        } else if reached(cfg.max_conns_per_dest as int, a.to_dest(dest)) {
            (a.with_row(key, row), Err(LimitError::PerDestFull))
        } else {
            (
                LimitView {
                    global_connections: a.global_connections + 1,
                    per_dest: a.per_dest.insert(dest, a.to_dest(dest) + 1),
                    ..a.with_row(key, IpView { connections: row.connections + 1, ..row })
                },
                Ok(()),
            )
        }
    }

    /// A connection slot handed back.
    pub open spec fn released(
        self,
        cfg: LimitsConfig,
        now: Instant,
        key: u128,
        dest: Seq<char>,
    ) -> LimitView {
        let row = self.row(key);
        let left = IpView { connections: row.connections - 1, ..row }.pruned(now, cfg);
        LimitView {
            global_connections: self.global_connections - 1,
            rows: if left.idle() {
                self.rows.remove(key)
            } else {
                self.rows.insert(key, left)
            },
            per_dest: if self.to_dest(dest) == 1 {
                self.per_dest.remove(dest)
            } else {
                self.per_dest.insert(dest, self.to_dest(dest) - 1)
            },
            ..self
        }
    }

    /// `n` bytes carried for the network `key`.
    pub open spec fn carried(
        self,
        cfg: LimitsConfig,
        now: Instant,
        key: u128,
        n: u64,
    ) -> (LimitView, Result<(), LimitError>) {
        if n == 0 {
            (self, Ok(()))
        } else {
            let a = self.maybe_swept(cfg, now);
            let row = a.row(key).pruned(now, cfg);
            let sum = min(row.bytes_sum + n, u64::MAX as int);
            if cfg.max_bytes_per_ip == 0 {
                (a, Ok(()))
            } else if sum > cfg.max_bytes_per_ip {
                (a.with_row(key, row), Err(LimitError::ByteCap))
            } else {
                let counted = IpView { bytes: row.bytes.push((now, n)), bytes_sum: sum, ..row };
                (a.with_row(key, counted), Ok(()))
            }
        }
    }
}

/// A reserved connection slot: the client network and the destination it counts for.
#[derive(Debug)]
pub struct ConnectionLease {
    ip: IpAddr,
    dest: String,
}

impl View for ConnectionLease {
    type V = (u128, Seq<char>);

    closed spec fn view(&self) -> (u128, Seq<char>) {
        (row_key(self.ip), self.dest@)
    }
}

/// The limiter.
pub struct LimitState {
    cfg: LimitsConfig,
    global_connections: usize,
    global_connects: VecDeque<Instant>,
    per_ip: HashMap<u128, IpState>,
    per_dest: StringHashMap<usize>,
    last_gc: Instant,
    clock: Clock,
    leases: Ghost<Multiset<(u128, Seq<char>)>>,
}

impl View for LimitState {
    type V = LimitView;

    closed spec fn view(&self) -> LimitView {
        LimitView {
            global_connections: self.global_connections as int,
            global_connects: self.global_connects@,
            rows: self.per_ip@.map_values(|st: IpState| st@),
            per_dest: self.per_dest@.map_values(|n: usize| n as int),
            last_gc: self.last_gc,
        }
    }
}

/// The leases of the network `key`.
pub open spec fn of_key(key: u128) -> spec_fn((u128, Seq<char>)) -> bool {
    |l: (u128, Seq<char>)| l.0 == key
}

/// The leases for the destination `dest`.
pub open spec fn of_dest(dest: Seq<char>) -> spec_fn((u128, Seq<char>)) -> bool {
    |l: (u128, Seq<char>)| l.1 == dest
}

/// How many of `leases` are held by the network `key`.
pub open spec fn held_by(leases: Multiset<(u128, Seq<char>)>, key: u128) -> nat {
    leases.filter(of_key(key)).len()
}

/// How many of `leases` are held for the destination `dest`.
pub open spec fn held_for(leases: Multiset<(u128, Seq<char>)>, dest: Seq<char>) -> nat {
    leases.filter(of_dest(dest)).len()
}

/// Whether the counters are those of the leases that are out.
pub open spec fn counts(v: LimitView, leases: Multiset<(u128, Seq<char>)>) -> bool {
    &&& v.global_connections == leases.len()
    &&& forall|k: u128| (#[trigger] v.row(k)).connections == held_by(leases, k)
    &&& forall|d: Seq<char>| #[trigger] v.to_dest(d) == held_for(leases, d)
    &&& forall|d: Seq<char>| #[trigger] v.per_dest.contains_key(d) ==> v.per_dest[d] > 0
}

impl LimitState {
    pub closed spec fn config(&self) -> LimitsConfig {
        self.cfg
    }

    /// The clock that the limiter goes by.
    pub closed spec fn clock(&self) -> Clock {
        self.clock
    }

    /// The leases that are out.
    pub closed spec fn leases(&self) -> Multiset<(u128, Seq<char>)> {
        self.leases@
    }

    /// The counters agree with the leases that are out, and every cap is kept.
    pub open spec fn inv(&self) -> bool {
        &&& counts(self@, self.leases())
        &&& within(self@, self.config())
    }

    /// The row under which a client's budget is kept.
    pub open spec fn row_for(&self, ip: IpAddr) -> u128 {
        row_of(ip, self.config())
    }

    /// A limiter that has seen nothing.
    pub fn new(cfg: LimitsConfig) -> (r: Self)
        ensures
            r.inv(),
            r.config() == cfg,
            r.leases() == Multiset::<(u128, Seq<char>)>::empty(),
            r.clock().is_started(),
            r@ == LimitView::start(Instant { nanos: 0 }),
    {
        let r = LimitState {
            cfg,
            global_connections: 0,
            global_connects: VecDeque::new(),
            per_ip: HashMap::new(),
            per_dest: StringHashMap::new(),
            last_gc: Instant { nanos: 0 },
            clock: Clock::start(),
            leases: Ghost(Multiset::empty()),
        };
        assert(r@.rows =~= Map::empty());
        assert(r@.per_dest =~= Map::empty());
        proof {
            let none = Multiset::<(u128, Seq<char>)>::empty();
            assert forall|k: u128| held_by(none, k) == 0 by {
                assert(none.filter(of_key(k)) =~= none);
            }
            assert forall|d: Seq<char>| held_for(none, d) == 0 by {
                assert(none.filter(of_dest(d)) =~= none);
            }
            lemma_empty_within(cfg);
        }
        r
    }

    fn prune_global(&mut self, now: Instant)
        ensures
            final(self)@ == old(self)@.pruned(old(self).config(), now),
            final(self).config() == old(self).config(),
            final(self).clock() == old(self).clock(),
            final(self).leases() == old(self).leases(),
            final(self).per_ip@ == old(self).per_ip@,
    {
        prune_instants(&mut self.global_connects, now, self.cfg.global_connects_window);
    }

    /// Drop per-IP rows whose windows have expired and that hold no lease.
    fn gc_rows(&mut self, now: Instant)
        ensures
            final(self)@ == old(self)@.swept(old(self).config(), now),
            final(self).config() == old(self).config(),
            final(self).clock() == old(self).clock(),
            final(self).leases() == old(self).leases(),
    {
        let ghost start = self@;
        let ghost m0 = self.per_ip@;
        self.prune_global(now);
        let keys = row_keys(&self.per_ip);
        let cfg = self.cfg;
        let mut i: usize = 0;
        while i < keys.len()
            invariant
                i <= keys@.len(),
                keys@.no_duplicates(),
                keys@.to_set() == m0.dom(),
                cfg == old(self).config(),
                self.cfg == cfg,
                self.clock == old(self).clock(),
                self.leases@ == old(self).leases(),
                self.global_connections == start.global_connections,
                self.global_connects@ == start.pruned(cfg, now).global_connects,
                self@.per_dest == start.per_dest,
                start == old(self)@,
                start.rows == m0.map_values(|st: IpState| st@),
                forall|k: u128|
                    keys@.take(i as int).contains(k) ==> (#[trigger] self.per_ip@.contains_key(k)
                        == !m0[k]@.pruned(now, cfg).idle()),
                forall|k: u128|
                    keys@.take(i as int).contains(k) && self.per_ip@.contains_key(k) ==> (
                    #[trigger] self.per_ip@[k])@ == m0[k]@.pruned(now, cfg),
                forall|k: u128|
                    !keys@.take(i as int).contains(k) ==> (#[trigger] self.per_ip@.contains_key(k)
                        == m0.contains_key(k)),
                forall|k: u128|
                    !keys@.take(i as int).contains(k) && m0.contains_key(k) ==> #[trigger] self.per_ip@[k]
                        == m0[k],
            decreases keys@.len() - i,
        {
            let k = keys[i];
            let ghost done = keys@.take(i as int);
            let ghost next = keys@.take(i + 1);
            proof {
                assert(keys@.to_set().contains(k)) by {
                    assert(keys@.contains(k));
                }
                assert(!done.contains(k));
                assert(next =~= done.push(k));
                assert forall|x: u128| next.contains(x) == (done.contains(x) || x == k) by {
                    if done.contains(x) {
                        let j = choose|j: int| 0 <= j < done.len() && done[j] == x;
                        assert(next[j] == x);
                    }
                    if x == k {
                        assert(next[i as int] == k);
                    }
                }
            }
            let ghost before = self.per_ip@;
            if let Some(mut st) = self.per_ip.remove(&k) {
                st.prune(now, &cfg);
                if !st.is_idle() {
                    self.per_ip.insert(k, st);
                }
            }
            assert forall|x: u128| x != k implies self.per_ip@.contains_key(x)
                == before.contains_key(x) && (before.contains_key(x) ==> self.per_ip@[x]
                == before[x]) by {}
            i += 1;
        }
        self.last_gc = now;
        proof {
            let goal = start.swept(cfg, now);
            assert(keys@.take(i as int) =~= keys@);
            assert forall|k: u128| self@.rows.contains_key(k) == goal.rows.contains_key(k) by {
                assert(keys@.contains(k) == keys@.to_set().contains(k));
                assert(self.per_ip@.contains_key(k) == self@.rows.contains_key(k));
            }
            assert forall|k: u128| self@.rows.contains_key(k) implies self@.rows[k]
                == goal.rows[k] by {
                assert(keys@.contains(k) == keys@.to_set().contains(k));
                assert(self.per_ip@.contains_key(k));
                assert(self@.rows[k] == self.per_ip@[k]@);
            }
            assert(self@.rows =~= goal.rows);
        }
    }
}

fn row_keys(m: &HashMap<u128, IpState>) -> (r: Vec<u128>)
    ensures
        r@.no_duplicates(),
        r@.to_set() == m@.dom(),
{
    let mut out: Vec<u128> = Vec::new();
    let ghost all = vstd::std_specs::iter::IteratorSpec::remaining(
        &vstd::std_specs::hash::spec_keys_iter(m),
    ).unref();
    for k in it: m.keys()
        invariant
            it.seq().unref() == all,
            out@ == all.take(it.index() as int),
    {
        out.push(*k);
    }
    assert(out@ =~= all);
    out
}


/// Whether a row keeps to the caps, and its byte count is that of its window.
pub open spec fn row_within(row: IpView, cfg: LimitsConfig) -> bool {
    &&& cfg.max_conns_per_ip != 0 ==> row.connections <= cfg.max_conns_per_ip
    &&& cfg.connects_per_ip != 0 ==> row.connects.len() <= cfg.connects_per_ip
    &&& cfg.distinct_dests_per_ip != 0 ==> row.names().len() <= cfg.distinct_dests_per_ip
    &&& cfg.max_bytes_per_ip != 0 ==> row.bytes_sum <= cfg.max_bytes_per_ip
    &&& cfg.max_bytes_per_ip < u64::MAX ==> row.bytes_sum == total(row.bytes)
    &&& row.bytes_sum >= 0
}

/// Whether every cap is kept.
pub open spec fn within(v: LimitView, cfg: LimitsConfig) -> bool {
    &&& cfg.max_global_connections != 0 ==> v.global_connections <= cfg.max_global_connections
    &&& cfg.global_connects != 0 ==> v.global_connects.len() <= cfg.global_connects
    &&& forall|d: Seq<char>|
        cfg.max_conns_per_dest != 0 ==> #[trigger] v.to_dest(d) <= cfg.max_conns_per_dest
    &&& forall|k: u128| row_within(#[trigger] v.row(k), cfg)
}

proof fn lemma_stale_bound(times: Seq<Instant>, now: Instant, window: Duration)
    ensures
        stale(times, now, window) <= times.len(),
    decreases times.len(),
{
    if times.len() > 0 && now.since(times.first()) > window.nanos {
        lemma_stale_bound(times.drop_first(), now, window);
    }
}

/// A sum of counts is the sum of its two parts.
pub proof fn lemma_total_split(bytes: Seq<(Instant, u64)>, b: int)
    requires
        0 <= b <= bytes.len(),
    ensures
        total(bytes) == total(bytes.take(b)) + total(bytes.skip(b)),
        total(bytes.take(b)) >= 0,
        total(bytes.skip(b)) >= 0,
    decreases bytes.len(),
{
    if bytes.len() == 0 {
        assert(bytes.take(b) =~= bytes);
        assert(bytes.skip(b) =~= bytes);
    } else if b == bytes.len() {
        assert(bytes.take(b) =~= bytes);
        assert(bytes.skip(b).len() == 0);
        lemma_total_split(bytes.drop_last(), b - 1);
        assert(bytes.drop_last().take(b - 1) =~= bytes.drop_last());
    } else {
        lemma_total_split(bytes.drop_last(), b);
        assert(bytes.drop_last().take(b) =~= bytes.take(b));
        assert(bytes.drop_last().skip(b) =~= bytes.skip(b).drop_last());
        assert(bytes.skip(b).last() == bytes.last());
    }
}

/// There are only so many destinations in a window.
pub proof fn lemma_names_finite(row: IpView)
    ensures
        row.names().finite(),
{
    broadcast use vstd::seq_lib::seq_to_set_is_finite;

}

/// What has left the windows makes room: a pruned row keeps to the caps.
proof fn lemma_pruned_within(row: IpView, now: Instant, cfg: LimitsConfig)
    requires
        row_within(row, cfg),
    ensures
        row_within(row.pruned(now, cfg), cfg),
        row.pruned(now, cfg).connections == row.connections,
{
    let p = row.pruned(now, cfg);
    let d = stale(dest_times(row.dests), now, cfg.distinct_dests_window) as int;
    let b = stale(byte_times(row.bytes), now, cfg.bytes_window) as int;
    lemma_stale_bound(row.connects, now, cfg.connects_per_ip_window);
    lemma_stale_bound(dest_times(row.dests), now, cfg.distinct_dests_window);
    lemma_stale_bound(byte_times(row.bytes), now, cfg.bytes_window);
    lemma_total_split(row.bytes, b);
    assert(p.names().subset_of(row.names())) by {
        let all = row.dests.map_values(|d: (Instant, Seq<char>)| d.1);
        let some = p.dests.map_values(|d: (Instant, Seq<char>)| d.1);
        assert forall|n: Seq<char>| some.contains(n) implies all.contains(n) by {
            let i = choose|i: int| 0 <= i < some.len() && some[i] == n;
            assert(all[i + d] == n);
        }
    }
    lemma_names_finite(row);
    vstd::set_lib::lemma_len_subset(p.names(), row.names());
}

proof fn lemma_empty_within(cfg: LimitsConfig)
    ensures
        row_within(IpView::empty(), cfg),
{
    let row = IpView::empty();
    assert(row.names() =~= Set::empty());
}

/// Sweeping changes no count of open connections and keeps the caps.
proof fn lemma_swept(v: LimitView, cfg: LimitsConfig, now: Instant)
    requires
        within(v, cfg),
        forall|k: u128| (#[trigger] v.row(k)).connections >= 0,
    ensures
        within(v.swept(cfg, now), cfg),
        forall|k: u128| (#[trigger] v.swept(cfg, now).row(k)).connections == v.row(k).connections,
        v.swept(cfg, now).per_dest == v.per_dest,
        v.swept(cfg, now).global_connections == v.global_connections,
{
    let s = v.swept(cfg, now);
    lemma_stale_bound(v.global_connects, now, cfg.global_connects_window);
    lemma_empty_within(cfg);
    assert forall|k: u128|
        row_within(#[trigger] s.row(k), cfg) && s.row(k).connections == v.row(k).connections by {
        lemma_pruned_within(v.row(k), now, cfg);
    }
    assert forall|d: Seq<char>| #[trigger] s.to_dest(d) == v.to_dest(d) by {}
}

proof fn lemma_maybe_swept(v: LimitView, cfg: LimitsConfig, now: Instant)
    requires
        within(v, cfg),
        forall|k: u128| (#[trigger] v.row(k)).connections >= 0,
    ensures
        within(v.maybe_swept(cfg, now), cfg),
        forall|k: u128|
            (#[trigger] v.maybe_swept(cfg, now).row(k)).connections == v.row(k).connections,
        v.maybe_swept(cfg, now).per_dest == v.per_dest,
        v.maybe_swept(cfg, now).global_connections == v.global_connections,
{
    lemma_swept(v, cfg, now);
}

/// A connect attempt keeps every cap, whatever comes of it, and leaves the counts
/// of open connections as they are.
pub proof fn law_attempt_keeps_caps(
    v: LimitView,
    cfg: LimitsConfig,
    now: Instant,
    key: u128,
    dest: Seq<char>,
    leases: Multiset<(u128, Seq<char>)>,
)
    requires
        within(v, cfg),
        counts(v, leases),
    ensures
        within(v.attempt(cfg, now, key, dest).0, cfg),
        counts(v.attempt(cfg, now, key, dest).0, leases),
{
    let m = v.maybe_swept(cfg, now);
    lemma_maybe_swept(v, cfg, now);
    let a = m.pruned(cfg, now);
    lemma_stale_bound(m.global_connects, now, cfg.global_connects_window);
    assert forall|k: u128| #[trigger] a.row(k) == m.row(k) by {}
    assert forall|d: Seq<char>| #[trigger] a.to_dest(d) == v.to_dest(d) by {
        assert(m.to_dest(d) == v.to_dest(d));
    }
    let b = if a.no_room(cfg, key) {
        a.swept(cfg, now)
    } else {
        a
    };
    lemma_swept(a, cfg, now);
    assert forall|d: Seq<char>| #[trigger] b.to_dest(d) == v.to_dest(d) by {
        assert(a.to_dest(d) == v.to_dest(d));
    }
    assert(within(b, cfg));
    let row = b.row(key).pruned(now, cfg);
    lemma_pruned_within(b.row(key), now, cfg);
    let r = v.attempt(cfg, now, key, dest).0;
    let counted = IpView {
        connects: row.connects.push(now),
        dests: row.dests.push((now, dest)),
        ..row
    };
    if v.attempt(cfg, now, key, dest).1 is Ok {
        assert(counted.names() =~= row.names().insert(dest)) by {
            let all = counted.dests.map_values(|d: (Instant, Seq<char>)| d.1);
            let some = row.dests.map_values(|d: (Instant, Seq<char>)| d.1);
            assert(all =~= some.push(dest));
            assert forall|n: Seq<char>| all.contains(n) == (some.contains(n) || n == dest) by {
                if some.contains(n) {
                    let i = choose|i: int| 0 <= i < some.len() && some[i] == n;
                    assert(all[i] == n);
                }
                if n == dest {
                    assert(all[some.len() as int] == n);
                }
            }
        }
        lemma_names_finite(row);
        assert(row_within(counted, cfg));
        assert(r.row(key) == counted);
    }
    assert forall|k: u128|
        row_within(#[trigger] r.row(k), cfg) && r.row(k).connections == v.row(k).connections by {
        assert(b.row(k).connections == a.row(k).connections);
        assert(a.row(k).connections == v.row(k).connections);
    }
    assert forall|d: Seq<char>| #[trigger] r.to_dest(d) == v.to_dest(d) by {
        assert(b.to_dest(d) == v.to_dest(d));
    }
}


proof fn lemma_held_insert(
    leases: Multiset<(u128, Seq<char>)>,
    l: (u128, Seq<char>),
    key: u128,
    dest: Seq<char>,
)
    ensures
        held_by(leases.insert(l), key) == held_by(leases, key) + if l.0 == key {
            1nat
        } else {
            0
        },
        held_for(leases.insert(l), dest) == held_for(leases, dest) + if l.1 == dest {
            1nat
        } else {
            0
        },
{
    broadcast use vstd::multiset::group_multiset_axioms;

    let f = of_key(key);
    let g = of_dest(dest);
    if l.0 == key {
        assert(leases.insert(l).filter(f) =~= leases.filter(f).insert(l));
    } else {
        assert(leases.insert(l).filter(f) =~= leases.filter(f));
    }
    if l.1 == dest {
        assert(leases.insert(l).filter(g) =~= leases.filter(g).insert(l));
    } else {
        assert(leases.insert(l).filter(g) =~= leases.filter(g));
    }
}

/// Reserving a connection slot keeps every cap, whatever comes of it, and counts
/// the new lease exactly when it is granted.
pub proof fn law_acquire_keeps_caps(
    v: LimitView,
    cfg: LimitsConfig,
    now: Instant,
    key: u128,
    dest: Seq<char>,
    leases: Multiset<(u128, Seq<char>)>,
)
    requires
        within(v, cfg),
        counts(v, leases),
    ensures
        within(v.acquired(cfg, now, key, dest).0, cfg),
        counts(
            v.acquired(cfg, now, key, dest).0,
            if v.acquired(cfg, now, key, dest).1 is Ok {
                leases.insert((key, dest))
            } else {
                leases
            },
        ),
{
    broadcast use vstd::multiset::group_multiset_axioms;

    let a = v.maybe_swept(cfg, now);
    lemma_maybe_swept(v, cfg, now);
    lemma_empty_within(cfg);
    let (r, out) = v.acquired(cfg, now, key, dest);
    assert forall|d: Seq<char>| #[trigger] a.to_dest(d) == v.to_dest(d) by {}
    if out is Ok {
        let more = leases.insert((key, dest));
        assert forall|k: u128|
            (#[trigger] r.row(k)).connections == held_by(more, k) && row_within(r.row(k), cfg) by {
            lemma_held_insert(leases, (key, dest), k, dest);
            assert(a.row(k).connections == v.row(k).connections);
            assert(row_within(a.row(k), cfg));
            if k == key {
                assert(r.row(k).names() =~= a.row(k).names());
            }
        }
        assert forall|d: Seq<char>|
            #[trigger] r.to_dest(d) == held_for(more, d) && (cfg.max_conns_per_dest != 0
                ==> r.to_dest(d) <= cfg.max_conns_per_dest) by {
            lemma_held_insert(leases, (key, dest), key, d);
            assert(a.to_dest(d) == v.to_dest(d));
        }
        assert forall|d: Seq<char>| #[trigger] r.per_dest.contains_key(d) implies r.per_dest[d]
            > 0 by {
            assert(a.to_dest(d) == v.to_dest(d));
            if a.per_dest.contains_key(d) {
                assert(v.per_dest.contains_key(d));
            }
        }
    } else {
        assert forall|k: u128|
            (#[trigger] r.row(k)).connections == held_by(leases, k) && row_within(
                r.row(k),
                cfg,
            ) by {
            assert(a.row(k).connections == v.row(k).connections);
            assert(r.row(k) == a.row(k));
        }
        assert forall|d: Seq<char>|
            #[trigger] r.to_dest(d) == held_for(leases, d) && (cfg.max_conns_per_dest != 0
                ==> r.to_dest(d) <= cfg.max_conns_per_dest) by {
            assert(a.to_dest(d) == v.to_dest(d));
        }
        assert forall|d: Seq<char>| #[trigger] r.per_dest.contains_key(d) implies r.per_dest[d]
            > 0 by {
            assert(v.per_dest.contains_key(d));
        }
    }
}

/// Slots are granted by the leases that are out: refused where there are too many
/// in all, of the network or for the destination, in this order, and otherwise
/// granted, which counts one more lease in all, of the network and for the
/// destination. The leases that are out never exceed a cap.
pub proof fn law_slots_go_by_leases(
    v: LimitView,
    cfg: LimitsConfig,
    now: Instant,
    key: u128,
    dest: Seq<char>,
    leases: Multiset<(u128, Seq<char>)>,
)
    requires
        within(v, cfg),
        counts(v, leases),
    ensures
        v.acquired(cfg, now, key, dest).1 == if cfg.max_global_connections != 0 && leases.len()
            >= cfg.max_global_connections {
            Err::<(), LimitError>(LimitError::GlobalFull)
        } else if cfg.max_conns_per_ip != 0 && held_by(leases, key) >= cfg.max_conns_per_ip {
            Err::<(), LimitError>(LimitError::PerIpFull)
        } else if cfg.max_conns_per_dest != 0 && held_for(leases, dest)
            >= cfg.max_conns_per_dest {
            Err::<(), LimitError>(LimitError::PerDestFull)
        } else {
            Ok::<(), LimitError>(())
        },
        ({
            let more = leases.insert((key, dest));
            &&& more.len() == leases.len() + 1
            &&& forall|k: u128| #[trigger]
                held_by(more, k) == held_by(leases, k) + if k == key {
                    1int
                } else {
                    0int
                }
            &&& forall|d: Seq<char>| #[trigger]
                held_for(more, d) == held_for(leases, d) + if d == dest {
                    1int
                } else {
                    0int
                }
        }),
        cfg.max_global_connections != 0 ==> leases.len() <= cfg.max_global_connections,
        cfg.max_conns_per_ip != 0 ==> held_by(leases, key) <= cfg.max_conns_per_ip,
        cfg.max_conns_per_dest != 0 ==> held_for(leases, dest) <= cfg.max_conns_per_dest,
{
    broadcast use vstd::multiset::group_multiset_axioms;

    let a = v.maybe_swept(cfg, now);
    lemma_maybe_swept(v, cfg, now);
    assert(a.row(key).connections == v.row(key).connections);
    assert(a.to_dest(dest) == v.to_dest(dest));
    assert(row_within(v.row(key), cfg));
    let more = leases.insert((key, dest));
    assert forall|k: u128| #[trigger] held_by(more, k) == held_by(leases, k) + if k == key {
        1int
    } else {
        0int
    } by {
        lemma_held_insert(leases, (key, dest), k, dest);
    }
    assert forall|d: Seq<char>| #[trigger] held_for(more, d) == held_for(leases, d) + if d == dest {
        1int
    } else {
        0int
    } by {
        lemma_held_insert(leases, (key, dest), key, d);
    }
}

/// Handing back a lease that is out keeps every cap and takes exactly that lease
/// out of the counts.
pub proof fn law_release_keeps_caps(
    v: LimitView,
    cfg: LimitsConfig,
    now: Instant,
    key: u128,
    dest: Seq<char>,
    leases: Multiset<(u128, Seq<char>)>,
)
    requires
        within(v, cfg),
        counts(v, leases),
        leases.contains((key, dest)),
    ensures
        within(v.released(cfg, now, key, dest), cfg),
        counts(v.released(cfg, now, key, dest), leases.remove((key, dest))),
{
    broadcast use vstd::multiset::group_multiset_axioms;

    let l = (key, dest);
    let less = leases.remove(l);
    let r = v.released(cfg, now, key, dest);
    assert(less.insert(l) =~= leases);
    lemma_empty_within(cfg);
    let row = v.row(key);
    let one_less = IpView { connections: row.connections - 1, ..row };
    assert(one_less.names() =~= row.names());
    lemma_pruned_within(one_less, now, cfg);
    let left = one_less.pruned(now, cfg);
    assert forall|k: u128|
        (#[trigger] r.row(k)).connections == held_by(less, k) && row_within(r.row(k), cfg) by {
        lemma_held_insert(less, l, k, dest);
        assert(v.row(k).connections == held_by(leases, k));
        assert(row_within(v.row(k), cfg));
        if k == key {
            assert(r.row(k) == if left.idle() {
                IpView::empty()
            } else {
                left
            });
        } else {
            assert(r.row(k) == v.row(k));
        }
    }
    lemma_held_insert(less, l, key, dest);
    assert(v.to_dest(dest) == held_for(leases, dest));
    assert forall|d: Seq<char>|
        #[trigger] r.to_dest(d) == held_for(less, d) && (cfg.max_conns_per_dest != 0 ==> r.to_dest(
            d,
        ) <= cfg.max_conns_per_dest) by {
        lemma_held_insert(less, l, key, d);
        assert(v.to_dest(d) == held_for(leases, d));
    }
    assert forall|d: Seq<char>| #[trigger] r.per_dest.contains_key(d) implies r.per_dest[d] > 0 by {
        if d != dest {
            assert(v.per_dest.contains_key(d));
        }
    }
}

/// Counting carried bytes keeps every cap, whatever comes of it, and leaves the
/// counts of open connections as they are.
pub proof fn law_carry_keeps_caps(
    v: LimitView,
    cfg: LimitsConfig,
    now: Instant,
    key: u128,
    n: u64,
    leases: Multiset<(u128, Seq<char>)>,
)
    requires
        within(v, cfg),
        counts(v, leases),
    ensures
        within(v.carried(cfg, now, key, n).0, cfg),
        counts(v.carried(cfg, now, key, n).0, leases),
{
    let a = v.maybe_swept(cfg, now);
    lemma_maybe_swept(v, cfg, now);
    let row = a.row(key).pruned(now, cfg);
    lemma_pruned_within(a.row(key), now, cfg);
    let (r, out) = v.carried(cfg, now, key, n);
    let sum = min(row.bytes_sum + n, u64::MAX as int);
    let counted = IpView { bytes: row.bytes.push((now, n)), bytes_sum: sum, ..row };
    assert(counted.bytes.drop_last() =~= row.bytes);
    assert(counted.names() =~= row.names());
    assert forall|d: Seq<char>| #[trigger] r.to_dest(d) == v.to_dest(d) by {
        assert(a.to_dest(d) == v.to_dest(d));
    }
    assert forall|k: u128|
        (#[trigger] r.row(k)).connections == v.row(k).connections && row_within(r.row(k), cfg) by {
        assert(a.row(k).connections == v.row(k).connections);
        assert(row_within(a.row(k), cfg));
    }
}

impl LimitState {
    fn maybe_gc(&mut self, now: Instant)
        ensures
            final(self)@ == old(self)@.maybe_swept(old(self).config(), now),
            final(self).config() == old(self).config(),
            final(self).clock() == old(self).clock(),
            final(self).leases() == old(self).leases(),
    {
        assert(self@.rows.dom() =~= self.per_ip@.dom());
        let overdue = now.duration_since(self.last_gc).nanos >= 30_000_000_000;
        let large = self.per_ip.len() >= GC_ROWS;
        if overdue || large {
            self.gc_rows(now);
        }
    }

    /// [`Self::record_attempt`] at a given time.
    pub fn record_attempt_at(&mut self, now: Instant, ip: IpAddr, dest: &str) -> (r: Result<
        (),
        LimitError,
    >)
        requires
            old(self).inv(),
        ensures
            (final(self)@, r) == old(self)@.attempt(
                old(self).config(),
                now,
                old(self).row_for(ip),
                dest@,
            ),
            final(self).inv(),
            final(self).config() == old(self).config(),
            final(self).clock() == old(self).clock(),
            final(self).leases() == old(self).leases(),
    {
        let cfg = self.cfg;
        let key = row_key_of(limit_key(ip, cfg.ipv4_prefix, cfg.ipv6_prefix));
        let ghost start = self@;
        proof {
            law_attempt_keeps_caps(start, cfg, now, key, dest@, self.leases());
        }
        self.maybe_gc(now);
        self.prune_global(now);
        let ghost a = self@;
        assert(self@.rows.dom() =~= self.per_ip@.dom());
        if capped(cfg.max_tracked_ips, self.per_ip.len()) && !self.per_ip.contains_key(&key) {
            self.gc_rows(now);
            assert(self@.rows.dom() =~= self.per_ip@.dom());
            if capped(cfg.max_tracked_ips, self.per_ip.len()) && !self.per_ip.contains_key(&key) {
                return Err(LimitError::GlobalConnectRate);
            }
        }
        let ghost b = self@;
        if capped(cfg.global_connects, self.global_connects.len()) {
            return Err(LimitError::GlobalConnectRate);
        }
        let mut st = match self.per_ip.remove(&key) {
            Some(st) => st,
            None => IpState::empty(),
        };
        assert(st@ == b.row(key));
        st.prune(now, &cfg);
        let ghost row = st@;
        if capped(cfg.connects_per_ip, st.connects.len()) {
            self.per_ip.insert(key, st);
            assert(self@.rows =~= b.rows.insert(key, row));
            return Err(LimitError::ConnectRate);
        }
        if cfg.distinct_dests_per_ip != 0 && st.too_many(dest, cfg.distinct_dests_per_ip) {
            self.per_ip.insert(key, st);
            assert(self@.rows =~= b.rows.insert(key, row));
            return Err(LimitError::DistinctDests);
        }
        st.connects.push_back(now);
        st.dests.push_back((now, dest.to_owned()));
        assert(st@.dests =~= row.dests.push((now, dest@)));
        let ghost counted = st@;
        self.per_ip.insert(key, st);
        assert(self@.rows =~= b.rows.insert(key, counted));
        self.global_connects.push_back(now);
        Ok(())
    }
}

impl IpState {
    /// Whether `dest` is new to a row that already has `limit` destinations.
    fn too_many(&self, dest: &str, limit: usize) -> (r: bool)
        ensures
            r == (!self@.names().contains(dest@) && self@.names().len() >= limit),
    {
        broadcast use vstd::hash_set::group_hash_set_axioms;

        let mut unique = StringHashSet::new();
        let mut i: usize = 0;
        let ghost all = self@.dests.map_values(|d: (Instant, Seq<char>)| d.1);
        assert(all.take(0).to_set() =~= Set::empty());
        while i < self.dests.len()
            invariant
                i <= self.dests@.len(),
                all == self@.dests.map_values(|d: (Instant, Seq<char>)| d.1),
                unique@ == all.take(i as int).to_set(),
            decreases self.dests@.len() - i,
        {
            let name = self.dests[i].1.clone();
            assert(name@ == all[i as int]);
            let _ = unique.insert(name);
            assert(all.take(i + 1).to_set() =~= all.take(i as int).to_set().insert(all[i as int])) by {
                let next = all.take(i + 1);
                let prev = all.take(i as int);
                assert(next =~= prev.push(all[i as int]));
                assert forall|n: Seq<char>| next.contains(n) == (prev.contains(n) || n
                    == all[i as int]) by {
                    if prev.contains(n) {
                        let j = choose|j: int| 0 <= j < prev.len() && prev[j] == n;
                        assert(next[j] == n);
                    }
                    if n == all[i as int] {
                        assert(next[i as int] == n);
                    }
                }
            }
            i += 1;
        }
        assert(all.take(i as int) =~= all);
        !unique.contains(dest) && unique.len() >= limit
    }
}


proof fn lemma_held_bound(leases: Multiset<(u128, Seq<char>)>, key: u128, dest: Seq<char>)
    ensures
        held_by(leases, key) <= leases.len(),
        held_for(leases, dest) <= leases.len(),
{
    broadcast use vstd::multiset::group_multiset_axioms;

    let not_key = |l: (u128, Seq<char>)| l.0 != key;
    let not_dest = |l: (u128, Seq<char>)| l.1 != dest;
    assert(leases =~= leases.filter(of_key(key)).add(leases.filter(not_key)));
    assert(leases =~= leases.filter(of_dest(dest)).add(leases.filter(not_dest)));
}

impl LimitState {
    /// [`Self::acquire`] at a given time.
    pub fn acquire_at(&mut self, now: Instant, ip: IpAddr, dest: &str) -> (r: Result<
        ConnectionLease,
        LimitError,
    >)
        requires
            old(self).inv(),
            old(self).config().max_global_connections != 0 || old(self)@.global_connections
                < usize::MAX,
        ensures
            ({
                let key = old(self).row_for(ip);
                let (after, out) = old(self)@.acquired(old(self).config(), now, key, dest@);
                &&& final(self)@ == after
                &&& match r {
                    Ok(lease) => {
                        &&& out is Ok
                        &&& lease@ == (key, dest@)
                        &&& final(self).leases() == old(self).leases().insert(lease@)
                    },
                    Err(e) => {
                        &&& out == Err::<(), LimitError>(e)
                        &&& final(self).leases() == old(self).leases()
                    },
                }
            }),
            final(self).inv(),
            final(self).config() == old(self).config(),
            final(self).clock() == old(self).clock(),
    {
        let cfg = self.cfg;
        let network = limit_key(ip, cfg.ipv4_prefix, cfg.ipv6_prefix);
        let key = row_key_of(network);
        let ghost start = self@;
        proof {
            law_acquire_keeps_caps(start, cfg, now, key, dest@, self.leases());
            lemma_maybe_swept(start, cfg, now);
            lemma_held_bound(self.leases(), key, dest@);
        }
        self.maybe_gc(now);
        let ghost a = self@;
        if capped(cfg.max_global_connections, self.global_connections) {
            return Err(LimitError::GlobalFull);
        }
        let mut st = match self.per_ip.remove(&key) {
            Some(st) => st,
            None => IpState::empty(),
        };
        let ghost row = st@;
        assert(row == a.row(key));
        if capped(cfg.max_conns_per_ip, st.connections) {
            self.per_ip.insert(key, st);
            assert(self@.rows =~= a.rows.insert(key, row));
            return Err(LimitError::PerIpFull);
        }
        let count: usize = match self.per_dest.get(dest) {
            Some(n) => *n,
            None => 0,
        };
        assert(count == a.to_dest(dest@));
        if capped(cfg.max_conns_per_dest, count) {
            self.per_ip.insert(key, st);
            assert(self@.rows =~= a.rows.insert(key, row));
            return Err(LimitError::PerDestFull);
        }
        assert(a.row(key).connections == start.row(key).connections);
        assert(a.to_dest(dest@) == start.to_dest(dest@));
        self.global_connections = self.global_connections + 1;
        st.connections = st.connections + 1;
        let ghost counted = st@;
        self.per_ip.insert(key, st);
        self.per_dest.insert(dest.to_owned(), count + 1);
        assert(self@.rows =~= a.rows.insert(key, counted));
        assert(self@.per_dest =~= a.per_dest.insert(dest@, a.to_dest(dest@) + 1));
        let lease = ConnectionLease { ip: network, dest: dest.to_owned() };
        self.leases = Ghost(self.leases@.insert((key, dest@)));
        Ok(lease)
    }

    /// [`Self::release`] at a given time.
    pub fn release_at(&mut self, now: Instant, lease: ConnectionLease)
        requires
            old(self).inv(),
            old(self).leases().contains(lease@),
        ensures
            final(self)@ == old(self)@.released(old(self).config(), now, lease@.0, lease@.1),
            final(self).leases() == old(self).leases().remove(lease@),
            final(self).inv(),
            final(self).config() == old(self).config(),
            final(self).clock() == old(self).clock(),
    {
        let cfg = self.cfg;
        let key = row_key_of(lease.ip);
        let ghost start = self@;
        let ghost dest = lease@.1;
        proof {
            broadcast use vstd::multiset::group_multiset_axioms;

            law_release_keeps_caps(start, cfg, now, key, dest, self.leases());
            let less = self.leases().remove(lease@);
            assert(less.insert(lease@) =~= self.leases());
            lemma_held_insert(less, lease@, key, dest);
            lemma_empty_within(cfg);
            assert(start.row(key).connections == held_by(self.leases(), key));
            assert(start.to_dest(dest) == held_for(self.leases(), dest));
        }
        self.global_connections = self.global_connections - 1;
        if let Some(mut st) = self.per_ip.remove(&key) {
            assert(st@ == start.row(key));
            st.connections = st.connections - 1;
            st.prune(now, &cfg);
            let ghost left = st@;
            if !st.is_idle() {
                self.per_ip.insert(key, st);
                assert(self@.rows =~= start.rows.insert(key, left));
            } else {
                assert(self@.rows =~= start.rows.remove(key));
            }
        }
        let count: usize = match self.per_dest.get(lease.dest.as_str()) {
            Some(n) => *n,
            None => 0,
        };
        assert(count == start.to_dest(dest));
        if count == 1 {
            self.per_dest.remove(lease.dest.as_str());
            assert(self@.per_dest =~= start.per_dest.remove(dest));
        } else {
            self.per_dest.insert(lease.dest.clone(), count - 1);
            assert(self@.per_dest =~= start.per_dest.insert(dest, start.to_dest(dest) - 1));
        }
        self.leases = Ghost(self.leases@.remove(lease@));
    }

    /// [`Self::add_bytes`] at a given time.
    pub fn add_bytes_at(&mut self, now: Instant, ip: IpAddr, n: u64) -> (r: Result<
        (),
        LimitError,
    >)
        requires
            old(self).inv(),
        ensures
            (final(self)@, r) == old(self)@.carried(
                old(self).config(),
                now,
                old(self).row_for(ip),
                n,
            ),
            final(self).inv(),
            final(self).config() == old(self).config(),
            final(self).clock() == old(self).clock(),
            final(self).leases() == old(self).leases(),
    {
        let cfg = self.cfg;
        let key = row_key_of(limit_key(ip, cfg.ipv4_prefix, cfg.ipv6_prefix));
        let ghost start = self@;
        proof {
            law_carry_keeps_caps(start, cfg, now, key, n, self.leases());
        }
        if n == 0 {
            return Ok(());
        }
        self.maybe_gc(now);
        if cfg.max_bytes_per_ip == 0 {
            return Ok(());
        }
        let ghost a = self@;
        let mut st = match self.per_ip.remove(&key) {
            Some(st) => st,
            None => IpState::empty(),
        };
        assert(st@ == a.row(key));
        st.prune(now, &cfg);
        let ghost row = st@;
        let sum: u64 = st.bytes_sum.saturating_add(n);
        if sum > cfg.max_bytes_per_ip {
            self.per_ip.insert(key, st);
            assert(self@.rows =~= a.rows.insert(key, row));
            return Err(LimitError::ByteCap);
        }
        st.bytes.push_back((now, n));
        st.bytes_sum = sum;
        let ghost counted = st@;
        assert(counted.dests =~= row.dests);
        self.per_ip.insert(key, st);
        assert(self@.rows =~= a.rows.insert(key, counted));
        Ok(())
    }

    /// [`Self::gc_idle`] at a given time.
    pub fn gc_idle_at(&mut self, now: Instant)
        requires
            old(self).inv(),
        ensures
            final(self)@ == old(self)@.swept(old(self).config(), now),
            final(self).inv(),
            final(self).config() == old(self).config(),
            final(self).clock() == old(self).clock(),
            final(self).leases() == old(self).leases(),
    {
        proof {
            lemma_swept(self@, self.cfg, now);
            assert forall|d: Seq<char>|
                #[trigger] self@.swept(self.cfg, now).to_dest(d) == self@.to_dest(d) by {}
        }
        self.gc_rows(now);
    }

    /// Count a connect *attempt* (after dest policy) toward rate / diversity. A
    /// refused attempt is not counted. The clock is read once.
    pub fn record_attempt(&mut self, ip: IpAddr, dest: &str) -> (r: Result<(), LimitError>)
        requires
            old(self).inv(),
        ensures
            exists|now: Instant|
                old(self).clock().gives(now) && (final(self)@, r) == #[trigger] old(self)@.attempt(
                    old(self).config(),
                    now,
                    old(self).row_for(ip),
                    dest@,
                ),
            final(self).inv(),
            final(self).config() == old(self).config(),
            final(self).clock() == old(self).clock(),
            final(self).leases() == old(self).leases(),
    {
        let now = self.clock.now();
        self.record_attempt_at(now, ip, dest)
    }

    /// Reserve a live connection slot. Hand the lease back with [`Self::release`].
    /// The clock is read once.
    pub fn acquire(&mut self, ip: IpAddr, dest: &str) -> (r: Result<ConnectionLease, LimitError>)
        requires
            old(self).inv(),
            old(self).config().max_global_connections != 0 || old(self)@.global_connections
                < usize::MAX,
        ensures
            exists|now: Instant|
                ({
                    let (after, out) = #[trigger] old(self)@.acquired(
                        old(self).config(),
                        now,
                        old(self).row_for(ip),
                        dest@,
                    );
                    &&& old(self).clock().gives(now)
                    &&& final(self)@ == after
                    &&& match r {
                        Ok(_) => out is Ok,
                        Err(e) => out == Err::<(), LimitError>(e),
                    }
                }),
            match r {
                Ok(lease) => {
                    &&& lease@ == (old(self).row_for(ip), dest@)
                    &&& final(self).leases() == old(self).leases().insert(lease@)
                },
                Err(_) => final(self).leases() == old(self).leases(),
            },
            final(self).inv(),
            final(self).config() == old(self).config(),
            final(self).clock() == old(self).clock(),
    {
        let now = self.clock.now();
        self.acquire_at(now, ip, dest)
    }

    /// Ends a connection: its slot is free again. The clock is read once.
    pub fn release(&mut self, lease: ConnectionLease)
        requires
            old(self).inv(),
            old(self).leases().contains(lease@),
        ensures
            exists|now: Instant|
                old(self).clock().gives(now) && final(self)@ == #[trigger] old(self)@.released(
                    old(self).config(),
                    now,
                    lease@.0,
                    lease@.1,
                ),
            final(self).leases() == old(self).leases().remove(lease@),
            final(self).inv(),
            final(self).config() == old(self).config(),
            final(self).clock() == old(self).clock(),
    {
        let now = self.clock.now();
        self.release_at(now, lease)
    }

    /// Counts bytes carried for a client, unless that would break the cap. The
    /// clock is read once.
    pub fn add_bytes(&mut self, ip: IpAddr, n: u64) -> (r: Result<(), LimitError>)
        requires
            old(self).inv(),
        ensures
            exists|now: Instant|
                old(self).clock().gives(now) && (final(self)@, r) == #[trigger] old(self)@.carried(
                    old(self).config(),
                    now,
                    old(self).row_for(ip),
                    n,
                ),
            final(self).inv(),
            final(self).config() == old(self).config(),
            final(self).clock() == old(self).clock(),
            final(self).leases() == old(self).leases(),
    {
        let now = self.clock.now();
        self.add_bytes_at(now, ip, n)
    }

    /// Drops the rows whose windows have expired and that hold no lease. The clock
    /// is read once.
    pub fn gc_idle(&mut self)
        requires
            old(self).inv(),
        ensures
            exists|now: Instant|
                old(self).clock().gives(now) && final(self)@ == #[trigger] old(self)@.swept(old(self).config(), now),
            final(self).inv(),
            final(self).config() == old(self).config(),
            final(self).clock() == old(self).clock(),
            final(self).leases() == old(self).leases(),
    {
        let now = self.clock.now();
        self.gc_idle_at(now)
    }

    /// The time on the clock of the limiter. Any time may be read.
    pub fn now(&self) -> (r: Instant)
        ensures
            self.clock().gives(r),
    {
        self.clock.now()
    }

    /// How many client networks have a row.
    pub fn tracked_ip_count(&self) -> (r: usize)
        ensures
            r == self@.rows.len(),
    {
        assert(self@.rows.dom() =~= self.per_ip@.dom());
        self.per_ip.len()
    }

    /// How many connections are open.
    pub fn open_connections(&self) -> (r: usize)
        ensures
            r == self@.global_connections,
    {
        self.global_connections
    }
}

/// A slot that is granted and handed back leaves every count of open connections
/// as it was.
pub proof fn law_lease_round_trip(
    v: LimitView,
    cfg: LimitsConfig,
    taken: Instant,
    back: Instant,
    key: u128,
    dest: Seq<char>,
    leases: Multiset<(u128, Seq<char>)>,
)
    requires
        within(v, cfg),
        counts(v, leases),
        v.acquired(cfg, taken, key, dest).1 is Ok,
    ensures
        ({
            let w = v.acquired(cfg, taken, key, dest).0.released(cfg, back, key, dest);
            &&& w.global_connections == v.global_connections
            &&& forall|d: Seq<char>| #[trigger] w.to_dest(d) == v.to_dest(d)
            &&& forall|k: u128| (#[trigger] w.row(k)).connections == v.row(k).connections
        }),
{
    let a = v.maybe_swept(cfg, taken);
    lemma_maybe_swept(v, cfg, taken);
    let m = v.acquired(cfg, taken, key, dest).0;
    let w = m.released(cfg, back, key, dest);
    assert forall|d: Seq<char>| #[trigger] w.to_dest(d) == v.to_dest(d) by {
        assert(a.to_dest(d) == v.to_dest(d));
    }
    assert forall|k: u128| (#[trigger] w.row(k)).connections == v.row(k).connections by {
        assert(a.row(k).connections == v.row(k).connections);
    }
}

/// Where every attempt in `times` is older than the window, none is left.
proof fn lemma_all_stale(times: Seq<Instant>, now: Instant, window: Duration)
    requires
        forall|i: int| 0 <= i < times.len() ==> now.since(#[trigger] times[i]) > window.nanos,
    ensures
        stale(times, now, window) == times.len(),
    decreases times.len(),
{
    if times.len() > 0 {
        assert(now.since(times[0]) > window.nanos);
        let rest = times.drop_first();
        assert forall|i: int| 0 <= i < rest.len() implies now.since(#[trigger] rest[i])
            > window.nanos by {
            assert(rest[i] == times[i + 1]);
        }
        lemma_all_stale(rest, now, window);
    }
}

/// A client is not refused for its connect rate once all its attempts are older
/// than the window.
pub proof fn law_rate_window_expires(
    v: LimitView,
    cfg: LimitsConfig,
    now: Instant,
    key: u128,
    dest: Seq<char>,
)
    requires
        forall|i: int|
            0 <= i < v.row(key).connects.len() ==> now.since(#[trigger] v.row(key).connects[i])
                > cfg.connects_per_ip_window.nanos,
    ensures
        v.attempt(cfg, now, key, dest).1 != Err::<(), LimitError>(LimitError::ConnectRate),
{
    let window = cfg.connects_per_ip_window;
    let past = v.row(key).connects;
    lemma_all_stale(past, now, window);
    let none = Seq::<Instant>::empty();
    assert(past.skip(past.len() as int) =~= none);
    assert(stale(none, now, window) == 0);
    assert(none.skip(0) =~= none);
    let a = v.maybe_swept(cfg, now).pruned(cfg, now);
    assert(a.row(key).connects == past || a.row(key).connects == none);
    let b = if a.no_room(cfg, key) {
        a.swept(cfg, now)
    } else {
        a
    };
    assert(b.row(key).connects == past || b.row(key).connects == none);
    assert(b.row(key).pruned(now, cfg).connects =~= none);
}

/// An attempt is let through once all that is remembered of the client and of
/// everyone is older than its window, wherever the table has room for the client
/// once it is swept: no number of networks is the cap, or fewer are left than the
/// cap, or the client still has its row.
pub proof fn law_quiet_client_is_let_through(
    v: LimitView,
    cfg: LimitsConfig,
    now: Instant,
    key: u128,
    dest: Seq<char>,
)
    requires
        cfg.max_tracked_ips == 0 || v.swept(cfg, now).rows.len() < cfg.max_tracked_ips || v.swept(
            cfg,
            now,
        ).rows.contains_key(key),
        forall|i: int|
            0 <= i < v.row(key).connects.len() ==> now.since(#[trigger] v.row(key).connects[i])
                > cfg.connects_per_ip_window.nanos,
        forall|i: int|
            0 <= i < v.row(key).dests.len() ==> now.since((#[trigger] v.row(key).dests[i]).0)
                > cfg.distinct_dests_window.nanos,
        forall|i: int|
            0 <= i < v.global_connects.len() ==> now.since(#[trigger] v.global_connects[i])
                > cfg.global_connects_window.nanos,
    ensures
        v.attempt(cfg, now, key, dest).1 == Ok::<(), LimitError>(()),
{
    let past = v.row(key).connects;
    let dests = v.row(key).dests;
    let all = v.global_connects;
    let none = Seq::<Instant>::empty();
    let nowhere = Seq::<(Instant, Seq<char>)>::empty();
    lemma_all_stale(past, now, cfg.connects_per_ip_window);
    assert forall|i: int| 0 <= i < dest_times(dests).len() implies now.since(
        #[trigger] dest_times(dests)[i],
    ) > cfg.distinct_dests_window.nanos by {
        assert(dest_times(dests)[i] == dests[i].0);
    }
    lemma_all_stale(dest_times(dests), now, cfg.distinct_dests_window);
    lemma_all_stale(all, now, cfg.global_connects_window);
    assert(past.skip(past.len() as int) =~= none);
    assert(dests.skip(dests.len() as int) =~= nowhere);
    assert(all.skip(all.len() as int) =~= none);
    assert(none.skip(0) =~= none);
    assert(nowhere.skip(0) =~= nowhere);
    assert(dest_times(nowhere) =~= none);
    let a = v.maybe_swept(cfg, now).pruned(cfg, now);
    let b = if a.no_room(cfg, key) {
        a.swept(cfg, now)
    } else {
        a
    };
    assert(a.global_connects =~= none);
    assert(b.global_connects =~= none);
    assert(a.rows == v.rows || a.rows == v.swept(cfg, now).rows);
    assert(!b.no_room(cfg, key)) by {
        if a.no_room(cfg, key) {
            assert(a.rows == v.rows);
            assert(b.rows == v.swept(cfg, now).rows);
        }
    }
    assert(b.row(key).connects == past || b.row(key).connects == none);
    assert(b.row(key).dests == dests || b.row(key).dests == nowhere);
    let row = b.row(key).pruned(now, cfg);
    assert(row.connects =~= none);
    assert(row.dests =~= nowhere);
    assert(row.names() =~= Set::empty());
}

/// Whether nothing was added to what `before` remembers of a client: what `after`
/// remembers is the end of it.
pub open spec fn forgets_only(before: IpView, after: IpView) -> bool {
    &&& exists|n: int|
        0 <= n <= before.connects.len() && after.connects == #[trigger] before.connects.skip(n)
    &&& exists|n: int|
        0 <= n <= before.dests.len() && after.dests == #[trigger] before.dests.skip(n)
}

proof fn lemma_forgets_trans(a: IpView, b: IpView, c: IpView)
    requires
        forgets_only(a, b),
        forgets_only(b, c),
    ensures
        forgets_only(a, c),
{
    let m = choose|n: int|
        0 <= n <= a.connects.len() && b.connects == #[trigger] a.connects.skip(n);
    let n = choose|n: int|
        0 <= n <= b.connects.len() && c.connects == #[trigger] b.connects.skip(n);
    assert(c.connects =~= a.connects.skip(m + n));
    let p = choose|n: int| 0 <= n <= a.dests.len() && b.dests == #[trigger] a.dests.skip(n);
    let q = choose|n: int| 0 <= n <= b.dests.len() && c.dests == #[trigger] b.dests.skip(n);
    assert(c.dests =~= a.dests.skip(p + q));
}

proof fn lemma_pruned_forgets(row: IpView, now: Instant, cfg: LimitsConfig)
    ensures
        forgets_only(row, row),
        forgets_only(row, row.pruned(now, cfg)),
        row.pruned(now, cfg).idle() ==> forgets_only(row, IpView::empty()),
{
    assert(row.connects.skip(0) =~= row.connects);
    assert(row.dests.skip(0) =~= row.dests);
    lemma_stale_bound(row.connects, now, cfg.connects_per_ip_window);
    lemma_stale_bound(dest_times(row.dests), now, cfg.distinct_dests_window);
    let p = row.pruned(now, cfg);
    let c = stale(row.connects, now, cfg.connects_per_ip_window) as int;
    let d = stale(dest_times(row.dests), now, cfg.distinct_dests_window) as int;
    assert(p.connects == row.connects.skip(c));
    assert(p.dests == row.dests.skip(d));
    if p.idle() {
        assert(IpView::empty().connects =~= row.connects.skip(c));
        assert(IpView::empty().dests =~= row.dests.skip(d));
    }
}

proof fn lemma_swept_forgets(v: LimitView, cfg: LimitsConfig, now: Instant, k: u128)
    ensures
        forgets_only(v.row(k), v.swept(cfg, now).row(k)),
{
    lemma_pruned_forgets(v.row(k), now, cfg);
}

/// What an attempt finds once room is made was there before.
proof fn lemma_room_forgets(v: LimitView, cfg: LimitsConfig, now: Instant, key: u128, k: u128)
    ensures
        ({
            let a = v.maybe_swept(cfg, now).pruned(cfg, now);
            let b = if a.no_room(cfg, key) {
                a.swept(cfg, now)
            } else {
                a
            };
            &&& forgets_only(v.row(k), b.row(k))
            &&& forgets_only(v.row(k), b.row(k).pruned(now, cfg))
        }),
{
    let s = v.maybe_swept(cfg, now);
    lemma_pruned_forgets(v.row(k), now, cfg);
    lemma_swept_forgets(v, cfg, now, k);
    let a = s.pruned(cfg, now);
    assert(a.row(k) == s.row(k));
    assert(forgets_only(v.row(k), a.row(k)));
    lemma_swept_forgets(a, cfg, now, k);
    lemma_pruned_forgets(a.row(k), now, cfg);
    let b = if a.no_room(cfg, key) {
        a.swept(cfg, now)
    } else {
        a
    };
    lemma_forgets_trans(v.row(k), a.row(k), b.row(k));
    lemma_pruned_forgets(b.row(k), now, cfg);
    lemma_forgets_trans(v.row(k), b.row(k), b.row(k).pruned(now, cfg));
}

/// A refused attempt is not counted: no client has more attempts or destinations
/// in its windows than before, and neither has the proxy as a whole.
pub proof fn law_refused_is_not_counted(
    v: LimitView,
    cfg: LimitsConfig,
    now: Instant,
    key: u128,
    dest: Seq<char>,
    k: u128,
)
    requires
        v.attempt(cfg, now, key, dest).1 is Err,
    ensures
        forgets_only(v.row(k), v.attempt(cfg, now, key, dest).0.row(k)),
        v.attempt(cfg, now, key, dest).0.global_connects.len() <= v.global_connects.len(),
{
    let s = v.maybe_swept(cfg, now);
    let a = s.pruned(cfg, now);
    lemma_room_forgets(v, cfg, now, key, k);
    lemma_stale_bound(v.global_connects, now, cfg.global_connects_window);
    lemma_stale_bound(s.global_connects, now, cfg.global_connects_window);
    lemma_stale_bound(a.global_connects, now, cfg.global_connects_window);
}

/// With every cap at 0 nothing is ever refused.
pub proof fn law_zero_is_no_cap(
    v: LimitView,
    cfg: LimitsConfig,
    now: Instant,
    key: u128,
    dest: Seq<char>,
    n: u64,
)
    requires
        is_unlimited(cfg),
    ensures
        v.attempt(cfg, now, key, dest).1 is Ok,
        v.acquired(cfg, now, key, dest).1 is Ok,
        v.carried(cfg, now, key, n).1 is Ok,
{
}

/// Whether two addresses are in one network, of the prefix lengths that are set.
pub open spec fn same_network(a: IpAddr, b: IpAddr, cfg: LimitsConfig) -> bool {
    match (ip::unmapped(a), ip::unmapped(b)) {
        (IpAddr::V4(x), IpAddr::V4(y)) => ip::same_prefix(
            x.bits as int,
            y.bits as int,
            32,
            if cfg.ipv4_prefix < 32 {
                cfg.ipv4_prefix as nat
            } else {
                32
            },
        ),
        (IpAddr::V6(x), IpAddr::V6(y)) => ip::same_prefix(
            x.bits as int,
            y.bits as int,
            128,
            if cfg.ipv6_prefix < 128 {
                cfg.ipv6_prefix as nat
            } else {
                128
            },
        ),
        _ => false,
    }
}

proof fn lemma_kept_prefix(x: int, width: nat, bits: nat)
    requires
        bits <= width,
        x >= 0,
    ensures
        ({
            let p = pow2((width - bits) as nat) as int;
            &&& p > 0
            &&& ip::keep_prefix(x, width, bits) == (x / p) * p
            &&& ip::keep_prefix(x, width, bits) / p == x / p
            &&& 0 <= ip::keep_prefix(x, width, bits) <= x
        }),
{
    let p = pow2((width - bits) as nat) as int;
    vstd::arithmetic::power2::lemma_pow2_pos((width - bits) as nat);
    vstd::arithmetic::div_mod::lemma_fundamental_div_mod(x, p);
    vstd::arithmetic::mul::lemma_mul_is_commutative(p, x / p);
    vstd::arithmetic::div_mod::lemma_div_multiples_vanish(x / p, p);
    vstd::arithmetic::div_mod::lemma_div_pos_is_pos(x, p);
    vstd::arithmetic::mul::lemma_mul_nonnegative(x / p, p);
    vstd::arithmetic::div_mod::lemma_mod_bound(x, p);
}

/// What is kept of an address that is not IPv4-mapped is not IPv4-mapped.
proof fn lemma_kept_not_mapped(x: int, bits: nat)
    requires
        bits <= 128,
        0 <= x,
        x / 0x1_0000_0000 != 0xffff,
    ensures
        ip::keep_prefix(x, 128, bits) / 0x1_0000_0000 != 0xffff,
{
    let n = (128 - bits) as nat;
    let p = pow2(n) as int;
    let kept = ip::keep_prefix(x, 128, bits);
    lemma_kept_prefix(x, 128, bits);
    ip::lemma_pow2_widths();
    if n <= 32 {
        let q = pow2((32 - n) as nat) as int;
        vstd::arithmetic::power2::lemma_pow2_pos((32 - n) as nat);
        vstd::arithmetic::power2::lemma_pow2_adds(n, (32 - n) as nat);
        assert(p * q == 0x1_0000_0000);
        vstd::arithmetic::div_mod::lemma_div_denominator(kept, p, q);
        vstd::arithmetic::div_mod::lemma_div_denominator(x, p, q);
    } else {
        let h = pow2((n - 33) as nat) as int;
        vstd::arithmetic::power2::lemma_pow2_adds((n - 33) as nat, 33);
        vstd::arithmetic::power2::lemma_pow2_adds(1, 32);
        vstd::arithmetic::power2::lemma2_to64();
        assert(p == h * 0x2_0000_0000);
        let y = x / p;
        assert(kept == (2 * (y * h)) * 0x1_0000_0000) by (nonlinear_arith)
            requires
                kept == y * p,
                p == h * 0x2_0000_0000,
        ;
        vstd::arithmetic::div_mod::lemma_div_multiples_vanish(2 * (y * h), 0x1_0000_0000);
    }
}

proof fn lemma_same_prefix_kept(x: int, y: int, width: nat, bits: nat)
    requires
        bits <= width,
        x >= 0,
        y >= 0,
    ensures
        ip::same_prefix(x, y, width, bits) <==> ip::keep_prefix(x, width, bits) == ip::keep_prefix(
            y,
            width,
            bits,
        ),
{
    lemma_kept_prefix(x, width, bits);
    lemma_kept_prefix(y, width, bits);
}

/// Clients share a budget exactly if they are in one network.
pub proof fn law_budget_is_of_network(a: IpAddr, b: IpAddr, cfg: LimitsConfig)
    ensures
        row_of(a, cfg) == row_of(b, cfg) <==> same_network(a, b, cfg),
{
    let n4 = min(cfg.ipv4_prefix as int, 32) as nat;
    let n6 = min(cfg.ipv6_prefix as int, 128) as nat;
    match (ip::unmapped(a), ip::unmapped(b)) {
        (IpAddr::V4(x), IpAddr::V4(y)) => {
            lemma_same_prefix_kept(x.bits as int, y.bits as int, 32, n4);
            lemma_kept_prefix(x.bits as int, 32, n4);
            lemma_kept_prefix(y.bits as int, 32, n4);
        },
        (IpAddr::V6(x), IpAddr::V6(y)) => {
            lemma_same_prefix_kept(x.bits as int, y.bits as int, 128, n6);
            lemma_kept_prefix(x.bits as int, 128, n6);
            lemma_kept_prefix(y.bits as int, 128, n6);
        },
        (IpAddr::V4(x), IpAddr::V6(y)) => {
            lemma_kept_prefix(x.bits as int, 32, n4);
            lemma_kept_prefix(y.bits as int, 128, n6);
            lemma_kept_not_mapped(y.bits as int, n6);
        },
        (IpAddr::V6(x), IpAddr::V4(y)) => {
            lemma_kept_prefix(y.bits as int, 32, n4);
            lemma_kept_prefix(x.bits as int, 128, n6);
            lemma_kept_not_mapped(x.bits as int, n6);
        },
    }
}

/// Idle rows are looked for when that was not done for 30 seconds, or when there are
/// 10000 rows, and at no other time. A row is dropped then exactly if it has no open
/// connection and all that it remembers has left its window.
pub proof fn law_sweep_is_due(v: LimitView, cfg: LimitsConfig, now: Instant, key: u128)
    ensures
        ({
            let due = now.since(v.last_gc) >= 30 * 1_000_000_000 || v.rows.len() >= 10_000;
            let after = v.maybe_swept(cfg, now);
            let row = v.rows[key].pruned(now, cfg);
            &&& !due ==> after == v
            &&& due ==> after.last_gc == now
            &&& due && v.rows.contains_key(key) ==> (after.rows.contains_key(key) <==> (
            row.connections != 0 || row.connects.len() != 0 || row.dests.len() != 0
                || row.bytes.len() != 0))
            &&& due && after.rows.contains_key(key) ==> v.rows.contains_key(key)
                && after.rows[key] == row
        }),
{
}

proof fn lemma_sweep_shrinks(v: LimitView, cfg: LimitsConfig, now: Instant)
    requires
        v.rows.dom().finite(),
    ensures
        v.swept(cfg, now).rows.dom().finite(),
        v.swept(cfg, now).rows.len() <= v.rows.len(),
        v.swept(cfg, now).rows.dom().subset_of(v.rows.dom()),
{
    vstd::set_lib::lemma_len_subset(v.swept(cfg, now).rows.dom(), v.rows.dom());
}

proof fn lemma_all_kept(v: LimitView, cfg: LimitsConfig, now: Instant)
    requires
        forall|k: u128| #[trigger]
            v.rows.contains_key(k) ==> !v.rows[k].pruned(now, cfg).idle(),
    ensures
        v.swept(cfg, now).rows.dom() == v.rows.dom(),
{
    assert(v.swept(cfg, now).rows.dom() =~= v.rows.dom());
}

proof fn lemma_stale_once(times: Seq<Instant>, now: Instant, window: Duration)
    ensures
        stale(times, now, window) <= times.len(),
        stale(times.skip(stale(times, now, window) as int), now, window) == 0,
    decreases times.len(),
{
    if times.len() > 0 && now.since(times.first()) > window.nanos {
        let rest = times.drop_first();
        lemma_stale_once(rest, now, window);
        let n = stale(rest, now, window) as int;
        assert(times.skip(n + 1) =~= rest.skip(n));
    } else {
        assert(times.skip(0) =~= times);
    }
}

/// A row that is pruned again at the same time keeps what it has.
proof fn lemma_pruned_once(row: IpView, now: Instant, cfg: LimitsConfig)
    ensures
        row.pruned(now, cfg).pruned(now, cfg).idle() == row.pruned(now, cfg).idle(),
{
    let p = row.pruned(now, cfg);
    let d = stale(dest_times(row.dests), now, cfg.distinct_dests_window) as int;
    let b = stale(byte_times(row.bytes), now, cfg.bytes_window) as int;
    lemma_stale_once(row.connects, now, cfg.connects_per_ip_window);
    lemma_stale_once(dest_times(row.dests), now, cfg.distinct_dests_window);
    lemma_stale_once(byte_times(row.bytes), now, cfg.bytes_window);
    assert(dest_times(p.dests) =~= dest_times(row.dests).skip(d));
    assert(byte_times(p.bytes) =~= byte_times(row.bytes).skip(b));
}

/// A table of networks that is full, and whose rows are all in use, takes no one new:
/// a client that it does not know is refused as if the rate of all were reached. No
/// attempt makes the table larger than it may be.
pub proof fn law_full_table_takes_no_one_new(
    v: LimitView,
    cfg: LimitsConfig,
    now: Instant,
    key: u128,
    dest: Seq<char>,
)
    requires
        cfg.max_tracked_ips != 0,
        v.rows.dom().finite(),
    ensures
        ({
            let (after, r) = v.attempt(cfg, now, key, dest);
            let in_use = |row: IpView|
                row.connections != 0 || row.connects.len() != 0 || row.dests.len() != 0
                    || row.bytes.len() != 0;
            let all_in_use = forall|k: u128| #[trigger]
                v.rows.contains_key(k) ==> in_use(v.rows[k].pruned(now, cfg));
            &&& all_in_use && v.rows.len() >= cfg.max_tracked_ips && !v.rows.contains_key(key) ==> r
                == Err::<(), LimitError>(LimitError::GlobalConnectRate)
            &&& v.rows.len() <= cfg.max_tracked_ips ==> after.rows.len() <= cfg.max_tracked_ips
        }),
{
    let a = v.maybe_swept(cfg, now).pruned(cfg, now);
    let b = if a.no_room(cfg, key) {
        a.swept(cfg, now)
    } else {
        a
    };
    lemma_sweep_shrinks(v, cfg, now);
    assert(a.rows.dom().finite() && a.rows.len() <= v.rows.len());
    lemma_sweep_shrinks(a, cfg, now);
    assert(b.rows.dom().finite() && b.rows.len() <= v.rows.len());
    if (forall|k: u128| #[trigger]
        v.rows.contains_key(k) ==> !v.rows[k].pruned(now, cfg).idle()) && v.rows.len()
        >= cfg.max_tracked_ips && !v.rows.contains_key(key) {
        lemma_all_kept(v, cfg, now);
        assert forall|k: u128| #[trigger] a.rows.contains_key(k) implies !a.rows[k].pruned(
            now,
            cfg,
        ).idle() by {
            assert(v.rows.contains_key(k));
            lemma_pruned_once(v.rows[k], now, cfg);
        }
        lemma_all_kept(a, cfg, now);
        assert(b.rows.dom() =~= v.rows.dom());
        assert(b.no_room(cfg, key));
    }
}

}
