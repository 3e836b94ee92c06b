//! IP addresses as plain numbers, with their textual forms.
use vstd::arithmetic::power2::pow2;
use vstd::prelude::*;
use vstd::slice::slice_subrange;

use crate::text;

verus! {

/// An IPv4 address: 32 bits, most significant octet first.
#[derive(Debug, Clone, Copy, PartialEq, Eq, Structural, Hash)]
pub struct Ipv4Addr {
    pub bits: u32,
}

/// An IPv6 address: 128 bits, most significant segment first.
#[derive(Debug, Clone, Copy, PartialEq, Eq, Structural, Hash)]
pub struct Ipv6Addr {
    pub bits: u128,
}

#[derive(Debug, Clone, Copy, PartialEq, Eq, Structural, Hash)]
pub enum IpAddr {
    V4(Ipv4Addr),
    V6(Ipv6Addr),
}

/// An address and a TCP port.
#[derive(Debug, Clone, Copy, PartialEq, Eq, Structural, Hash)]
pub struct SocketAddr {
    pub ip: IpAddr,
    pub port: u16,
}

/// The digit at place `k`, counted from the right and from 0, of `x` in base
/// `base`.
pub open spec fn place(x: int, base: int, k: nat) -> int
    decreases k,
{
    if k == 0 {
        x % base
    } else {
        place(x / base, base, (k - 1) as nat)
    }
}

/// The number whose digits in base `base` are `g`, from the left.
pub open spec fn join_places(g: Seq<int>, base: int) -> int
    decreases g.len(),
{
    if g.len() == 0 {
        0
    } else {
        join_places(g.drop_last(), base) * base + g.last()
    }
}

/// Whether `x` and `y`, numbers of `width` bits, agree in their leading `bits` bits.
pub open spec fn same_prefix(x: int, y: int, width: nat, bits: nat) -> bool {
    x / pow2((width - bits) as nat) as int == y / pow2((width - bits) as nat) as int
}

/// `x`, a number of `width` bits, with all but its leading `bits` bits cleared.
pub open spec fn keep_prefix(x: int, width: nat, bits: nat) -> int {
    x - x % pow2((width - bits) as nat) as int
}

/// The last digit of `x * base + d` is `d`, and `x` stands before it.
proof fn lemma_last_place(x: int, d: int, base: int)
    requires
        0 <= d < base,
    ensures
        (x * base + d) % base == d,
        (x * base + d) / base == x,
{
    vstd::arithmetic::div_mod::lemma_fundamental_div_mod_converse(x * base + d, base, x, d);
}

impl Ipv4Addr {
    /// Octet `i`, counted from the left.
    pub open spec fn octet(self, i: int) -> int {
        place(self.bits as int, 256, (3 - i) as nat)
    }

    /// The address `a.b.c.d`.
    pub fn new(a: u8, b: u8, c: u8, d: u8) -> (r: Self)
        ensures
            r.octet(0) == a,
            r.octet(1) == b,
            r.octet(2) == c,
            r.octet(3) == d,
            r.bits == ((a * 256 + b) * 256 + c) * 256 + d,
    {
        proof {
            reveal_with_fuel(place, 4);
        }
        Ipv4Addr { bits: ((a as u32 * 256 + b as u32) * 256 + c as u32) * 256 + d as u32 }
    }

    /// The four octets, from the left.
    pub fn octets(&self) -> (r: [u8; 4])
        ensures
            forall|i: int| 0 <= i < 4 ==> #[trigger] r@[i] == self.octet(i),
    {
        proof {
            reveal_with_fuel(place, 4);
        }
        let x: u32 = self.bits;
        [(x / 0x100_0000) as u8, (x / 0x1_0000 % 256) as u8, (x / 256 % 256) as u8, (x % 256) as u8]
    }
}

impl Ipv6Addr {
    /// Segment `i`, counted from the left.
    pub open spec fn segment(self, i: int) -> int {
        place(self.bits as int, 0x1_0000, (7 - i) as nat)
    }

    /// The address of the eight segments, from the left.
    pub fn from_segments(s: [u16; 8]) -> (r: Self)
        ensures
            forall|i: int| 0 <= i < 8 ==> #[trigger] r.segment(i) == s@[i],
            r.bits == join_places(ints(s@), 0x1_0000),
    {
        proof {
            lemma_join_eight(ints(s@));
        }
        let a: u128 = s[0] as u128 * 0x1_0000 + s[1] as u128;
        let b: u128 = a * 0x1_0000 + s[2] as u128;
        let c: u128 = b * 0x1_0000 + s[3] as u128;
        let d: u128 = c * 0x1_0000 + s[4] as u128;
        let e: u128 = d * 0x1_0000 + s[5] as u128;
        let f: u128 = e * 0x1_0000 + s[6] as u128;
        let g: u128 = f * 0x1_0000 + s[7] as u128;
        proof {
            lemma_last_place(s[0] as int, s[1] as int, 0x1_0000);
            lemma_last_place(a as int, s[2] as int, 0x1_0000);
            lemma_last_place(b as int, s[3] as int, 0x1_0000);
            lemma_last_place(c as int, s[4] as int, 0x1_0000);
            lemma_last_place(d as int, s[5] as int, 0x1_0000);
            lemma_last_place(e as int, s[6] as int, 0x1_0000);
            lemma_last_place(f as int, s[7] as int, 0x1_0000);
            lemma_last_place(0, s[0] as int, 0x1_0000);
            reveal_with_fuel(place, 8);
        }
        Ipv6Addr { bits: g }
    }

    /// The address `s0:s1:s2:s3:s4:s5:s6:s7`.
    pub fn new(
        s0: u16,
        s1: u16,
        s2: u16,
        s3: u16,
        s4: u16,
        s5: u16,
        s6: u16,
        s7: u16,
    ) -> (r: Self)
        ensures
            forall|i: int|
                0 <= i < 8 ==> #[trigger] r.segment(i) == seq![s0, s1, s2, s3, s4, s5, s6, s7][i],
    {
        let all: [u16; 8] = [s0, s1, s2, s3, s4, s5, s6, s7];
        assert(all@ =~= seq![s0, s1, s2, s3, s4, s5, s6, s7]);
        Self::from_segments(all)
    }

    /// The eight segments, from the left.
    pub fn segments(&self) -> (r: [u16; 8])
        ensures
            forall|i: int| 0 <= i < 8 ==> #[trigger] r@[i] == self.segment(i),
    {
        proof {
            reveal_with_fuel(place, 8);
        }
        let g: u128 = self.bits;
        let f: u128 = g / 0x1_0000;
        let e: u128 = f / 0x1_0000;
        let d: u128 = e / 0x1_0000;
        let c: u128 = d / 0x1_0000;
        let b: u128 = c / 0x1_0000;
        let a: u128 = b / 0x1_0000;
        let z: u128 = a / 0x1_0000;
        [
            (z % 0x1_0000) as u16,
            (a % 0x1_0000) as u16,
            (b % 0x1_0000) as u16,
            (c % 0x1_0000) as u16,
            (d % 0x1_0000) as u16,
            (e % 0x1_0000) as u16,
            (f % 0x1_0000) as u16,
            (g % 0x1_0000) as u16,
        ]
    }
}

/// The power of two with exponent `n`.
fn power_of_two(n: u32) -> (r: u128)
    requires
        n < 128,
    ensures
        r == pow2(n as nat),
        r > 0,
{
    let mut p: u128 = 1;
    let mut i: u32 = 0;
    proof {
        vstd::arithmetic::power2::lemma2_to64();
    }
    while i < n
        invariant
            i <= n < 128,
            p == pow2(i as nat),
            p > 0,
        decreases n - i,
    {
        proof {
            vstd::arithmetic::power2::lemma_pow2_unfold((i + 1) as nat);
            if i + 1 < 127 {
                vstd::arithmetic::power2::lemma_pow2_strictly_increases((i + 1) as nat, 127);
            }
            lemma_pow2_127();
        }
        p = p * 2;
        i += 1;
    }
    p
}

proof fn lemma_pow2_127()
    ensures
        pow2(127) == 0x8000_0000_0000_0000_0000_0000_0000_0000int,
        pow2(128) == 0x1_0000_0000_0000_0000_0000_0000_0000_0000int,
{
    vstd::arithmetic::power2::lemma2_to64();
    vstd::arithmetic::power2::lemma2_to64_rest();
    vstd::arithmetic::power2::lemma_pow2_adds(63, 64);
    vstd::arithmetic::power2::lemma_pow2_adds(64, 64);
    assert(0x8000_0000_0000_0000int * 0x1_0000_0000_0000_0000int
        == 0x8000_0000_0000_0000_0000_0000_0000_0000int) by (nonlinear_arith);
    assert(0x1_0000_0000_0000_0000int * 0x1_0000_0000_0000_0000int
        == 0x1_0000_0000_0000_0000_0000_0000_0000_0000int) by (nonlinear_arith);
}

/// The powers of two that bound the numbers of 32 and of 128 bits.
pub proof fn lemma_pow2_widths()
    ensures
        pow2(32) == 0x1_0000_0000int,
        pow2(128) == 0x1_0000_0000_0000_0000_0000_0000_0000_0000int,
{
    vstd::arithmetic::power2::lemma2_to64();
    vstd::arithmetic::power2::lemma2_to64_rest();
    lemma_pow2_127();
}

/// Whether `x` and `y`, numbers of `width` bits, agree in their leading `bits` bits.
pub fn prefixes_agree(x: u128, y: u128, width: u32, bits: u32) -> (r: bool)
    requires
        bits <= width <= 128,
        x < pow2(width as nat),
        y < pow2(width as nat),
    ensures
        r == same_prefix(x as int, y as int, width as nat, bits as nat),
{
    if bits == 0 {
        proof {
            vstd::arithmetic::div_mod::lemma_basic_div(x as int, pow2(width as nat) as int);
            vstd::arithmetic::div_mod::lemma_basic_div(y as int, pow2(width as nat) as int);
        }
        return true;
    }
    let p = power_of_two(width - bits);
    x / p == y / p
}

/// `x`, a number of `width` bits, with all but its leading `bits` bits cleared.
pub fn clear_after(x: u128, width: u32, bits: u32) -> (r: u128)
    requires
        bits <= width <= 128,
        x < pow2(width as nat),
    ensures
        r == keep_prefix(x as int, width as nat, bits as nat),
        r <= x,
{
    if bits == 0 {
        proof {
            vstd::arithmetic::div_mod::lemma_small_mod(x as nat, pow2(width as nat));
        }
        return 0;
    }
    let p = power_of_two(width - bits);
    proof {
        vstd::arithmetic::div_mod::lemma_mod_decreases(x as nat, p as nat);
    }
    x - x % p
}


/// One octet of a dotted address: one to three decimal digits, no leading zero,
/// at most 255.
pub open spec fn octet_value(s: Seq<char>) -> Option<int> {
    if s.len() <= 3 && !(s.len() > 1 && s.first() == '0') {
        text::digits_value(s, 10, 255)
    } else {
        None
    }
}

/// The IPv4 address that `s` writes as four octets with dots between them.
pub open spec fn v4_value(s: Seq<char>) -> Option<Ipv4Addr> {
    let p = text::split(s, '.');
    if p.len() == 4 && (forall|i: int| 0 <= i < 4 ==> octet_value(#[trigger] p[i]) is Some) {
        Some(
            Ipv4Addr {
                bits: join_places(
                    Seq::new(4, |i: int| octet_value(p[i])->0),
                    256,
                ) as u32,
            },
        )
    } else {
        None
    }
}

/// One segment of an IPv6 address: one to four hexadecimal digits.
pub open spec fn segment_value(s: Seq<char>) -> Option<int> {
    if s.len() <= 4 {
        text::digits_value(s, 16, 0xffff)
    } else {
        None
    }
}

pub open spec fn all_segments(p: Seq<Seq<char>>) -> bool {
    forall|i: int| 0 <= i < p.len() ==> segment_value(#[trigger] p[i]) is Some
}

pub open spec fn segment_values(p: Seq<Seq<char>>) -> Seq<int> {
    Seq::new(p.len(), |i: int| segment_value(p[i])->0)
}

/// The segments that `s` writes with colons between them. Where `v4_last`, the
/// last two may be written as a dotted IPv4 address.
pub open spec fn segments_value(s: Seq<char>, v4_last: bool) -> Option<Seq<int>> {
    let p = text::split(s, ':');
    if all_segments(p) {
        Some(segment_values(p))
    } else if v4_last && all_segments(p.drop_last()) && v4_value(p.last()) is Some {
        let low = (v4_value(p.last())->0).bits as int;
        Some(segment_values(p.drop_last()).push(low / 0x1_0000).push(low % 0x1_0000))
    } else {
        None
    }
}

/// The segments on one side of a `::`, where there may be none at all.
pub open spec fn side_value(s: Seq<char>, v4_last: bool) -> Option<Seq<int>> {
    if s.len() == 0 {
        Some(Seq::empty())
    } else {
        segments_value(s, v4_last)
    }
}

/// The `::` that stands for one or more zero segments.
pub open spec fn gap() -> Seq<char> {
    seq![':', ':']
}

pub open spec fn zeros(n: int) -> Seq<int> {
    Seq::new(n as nat, |i: int| 0int)
}

/// The eight segments that `s` writes: all of them, or those on both sides of
/// one `::`.
pub open spec fn v6_segments(s: Seq<char>) -> Option<Seq<int>> {
    let i = text::find_text(s, gap()) as int;
    if i == s.len() {
        match segments_value(s, true) {
            Some(g) => if g.len() == 8 {
                Some(g)
            } else {
                None
            },
            None => None,
        }
    } else {
        match (side_value(s.take(i), false), side_value(s.skip(i + 2), true)) {
            (Some(l), Some(r)) => if l.len() + r.len() <= 7 {
                Some(l + zeros(8 - l.len() - r.len()) + r)
            } else {
                None
            },
            _ => None,
        }
    }
}

/// The IPv6 address that `s` writes.
pub open spec fn v6_value(s: Seq<char>) -> Option<Ipv6Addr> {
    match v6_segments(s) {
        Some(g) => Some(Ipv6Addr { bits: join_places(g, 0x1_0000) as u128 }),
        None => None,
    }
}

/// The address that `s` writes, of either family.
pub open spec fn ip_value(s: Seq<char>) -> Option<IpAddr> {
    match v4_value(s) {
        Some(v4) => Some(IpAddr::V4(v4)),
        None => match v6_value(s) {
            Some(v6) => Some(IpAddr::V6(v6)),
            None => None,
        },
    }
}

fn read_octet(s: &[char]) -> (r: Option<u8>)
    ensures
        match r {
            Some(n) => octet_value(s@) == Some(n as int),
            None => octet_value(s@) is None,
        },
{
    if s.len() > 3 || (s.len() > 1 && s[0] == '0') {
        return None;
    }
    match text::read_digits(s, 10, 255) {
        Some(n) => Some(n as u8),
        None => None,
    }
}

/// Reads a dotted IPv4 address.
pub fn read_v4(s: &[char]) -> (r: Option<Ipv4Addr>)
    ensures
        r == v4_value(s@),
{
    let p = text::split_chars(s, '.');
    if p.len() != 4 {
        return None;
    }
    let ghost q = text::split(s@, '.');
    assert(p@[0]@ == q[0] && p@[1]@ == q[1] && p@[2]@ == q[2] && p@[3]@ == q[3]);
    match (read_octet(p[0]), read_octet(p[1]), read_octet(p[2]), read_octet(p[3])) {
        (Some(a), Some(b), Some(c), Some(d)) => {
            let r = Ipv4Addr::new(a, b, c, d);
            proof {
                reveal_with_fuel(join_places, 5);
                let g = Seq::new(4, |i: int| octet_value(q[i])->0);
                assert(g =~= seq![a as int, b as int, c as int, d as int]);
                assert(g.drop_last() =~= seq![a as int, b as int, c as int]);
                assert(g.drop_last().drop_last() =~= seq![a as int, b as int]);
                assert(g.drop_last().drop_last().drop_last() =~= seq![a as int]);
            }
            Some(r)
        },
        _ => None,
    }
}


/// The numbers in `v`.
pub open spec fn ints(v: Seq<u16>) -> Seq<int> {
    Seq::new(v.len(), |i: int| v[i] as int)
}

fn read_segment(s: &[char]) -> (r: Option<u16>)
    ensures
        match r {
            Some(n) => segment_value(s@) == Some(n as int),
            None => segment_value(s@) is None,
        },
{
    if s.len() > 4 {
        return None;
    }
    match text::read_digits(s, 16, 0xffff) {
        Some(n) => Some(n as u16),
        None => None,
    }
}

/// Reads segments with colons between them.
fn read_segments(s: &[char], v4_last: bool) -> (r: Option<Vec<u16>>)
    ensures
        match r {
            Some(v) => segments_value(s@, v4_last) == Some(ints(v@)),
            None => segments_value(s@, v4_last) is None,
        },
{
    let p = text::split_chars(s, ':');
    let ghost q = text::split(s@, ':');
    let mut out: Vec<u16> = Vec::new();
    let mut i: usize = 0;
    let n: usize = p.len();
    assert(q.len() > 0);
    while i < n
        invariant
            i <= n == p@.len() == q.len(),
            q == text::split(s@, ':'),
            forall|k: int| 0 <= k < n ==> (#[trigger] p@[k])@ == q[k],
            all_segments(q.take(i as int)),
            ints(out@) =~= segment_values(q.take(i as int)),
        decreases n - i,
    {
        assert(p@[i as int]@ == q[i as int]);
        match read_segment(p[i]) {
            Some(g) => {
                let ghost before = out@;
                assert(ints(before).len() == i);
                out.push(g);
                assert forall|k: int| 0 <= k < i + 1 implies segment_value(
                    #[trigger] q.take(i + 1)[k],
                ) is Some by {
                    if k < i {
                        assert(q.take(i as int)[k] == q[k]);
                    }
                }
                assert forall|k: int| 0 <= k < i + 1 implies ints(out@)[k] == segment_values(
                    q.take(i + 1),
                )[k] by {
                    if k < i {
                        assert(ints(before)[k] == segment_values(q.take(i as int))[k]);
                    }
                }
            },
            None => {
                assert(!all_segments(q)) by {
                    assert(segment_value(q[i as int]) is None);
                }
                if !v4_last || i + 1 < n {
                    if i + 1 < n {
                        assert(!all_segments(q.drop_last())) by {
                            assert(q.drop_last()[i as int] == q[i as int]);
                        }
                    }
                    return None;
                }
                assert(q.take(i as int) =~= q.drop_last());
                return match read_v4(p[i]) {
                    Some(v4) => {
                        out.push((v4.bits / 0x1_0000) as u16);
                        out.push((v4.bits % 0x1_0000) as u16);
                        assert(ints(out@) =~= segment_values(q.drop_last()).push(
                            v4.bits as int / 0x1_0000,
                        ).push(v4.bits as int % 0x1_0000));
                        Some(out)
                    },
                    None => None,
                };
            },
        }
        i += 1;
    }
    assert(q.take(i as int) =~= q);
    Some(out)
}

fn read_side(s: &[char], v4_last: bool) -> (r: Option<Vec<u16>>)
    ensures
        match r {
            Some(v) => side_value(s@, v4_last) == Some(ints(v@)),
            None => side_value(s@, v4_last) is None,
        },
{
    if s.len() == 0 {
        let v: Vec<u16> = Vec::new();
        assert(ints(v@) =~= Seq::empty());
        Some(v)
    } else {
        read_segments(s, v4_last)
    }
}

/// The address of eight segments.
fn eight(v: &Vec<u16>) -> (r: Ipv6Addr)
    requires
        v@.len() == 8,
    ensures
        r.bits == join_places(ints(v@), 0x1_0000),
{
    let all: [u16; 8] = [v[0], v[1], v[2], v[3], v[4], v[5], v[6], v[7]];
    assert(ints(all@) =~= ints(v@));
    Ipv6Addr::from_segments(all)
}

/// Reads an IPv6 address.
pub fn read_v6(s: &[char]) -> (r: Option<Ipv6Addr>)
    ensures
        r == v6_value(s@),
{
    let pat: [char; 2] = [':', ':'];
    assert(pat@ =~= gap());
    let i = text::find_text_chars(s, pat.as_slice());
    if i == s.len() {
        return match read_segments(s, true) {
            Some(v) => if v.len() == 8 {
                Some(eight(&v))
            } else {
                None
            },
            None => None,
        };
    }
    let left = slice_subrange(s, 0, i);
    let right = slice_subrange(s, i + 2, s.len());
    assert(left@ =~= s@.take(i as int));
    assert(right@ =~= s@.skip(i + 2));
    match (read_side(left, false), read_side(right, true)) {
        (Some(l), Some(r)) => {
            if l.len() > 7 || r.len() > 7 || l.len() + r.len() > 7 {
                return None;
            }
            let mut all: Vec<u16> = Vec::new();
            let mut k: usize = 0;
            while k < 8
                invariant
                    k <= 8,
                    l@.len() + r@.len() <= 7,
                    ints(all@) =~= (ints(l@) + zeros(8 - l@.len() - r@.len()) + ints(r@)).take(
                        k as int,
                    ),
                decreases 8 - k,
            {
                let x = if k < l.len() {
                    l[k]
                } else if k < 8 - r.len() {
                    0
                } else {
                    r[k - (8 - r.len())]
                };
                all.push(x);
                let ghost want = ints(l@) + zeros(8 - l@.len() - r@.len()) + ints(r@);
                assert(want[k as int] == x as int);
                assert(ints(all@) =~= ints(all@.drop_last()).push(x as int));
                assert(want.take(k + 1) =~= want.take(k as int).push(want[k as int]));
                k += 1;
            }
            proof {
                let want = ints(l@) + zeros(8 - l@.len() - r@.len()) + ints(r@);
                assert(want.take(8) =~= want);
                assert(ints(all@).len() == 8);
            }
            Some(eight(&all))
        },
        _ => None,
    }
}

impl IpAddr {
    /// Reads an address of either family: dotted IPv4, or IPv6 with at most one
    /// `::` and an optional dotted tail.
    pub fn parse(s: &str) -> (r: Option<IpAddr>)
        ensures
            r == ip_value(s@),
    {
        let chars = text::chars_of(s);
        read_ip(chars.as_slice())
    }
}

/// Reads an address of either family.
pub fn read_ip(s: &[char]) -> (r: Option<IpAddr>)
    ensures
        r == ip_value(s@),
{
    match read_v4(s) {
        Some(v4) => Some(IpAddr::V4(v4)),
        None => match read_v6(s) {
            Some(v6) => Some(IpAddr::V6(v6)),
            None => None,
        },
    }
}


impl Ipv6Addr {
    /// The IPv4 address in an IPv4-mapped one (`::ffff:a.b.c.d`).
    pub open spec fn mapped(self) -> Option<Ipv4Addr> {
        if self.bits as int / 0x1_0000_0000 == 0xffff {
            Some(Ipv4Addr { bits: (self.bits as int % 0x1_0000_0000) as u32 })
        } else {
            None
        }
    }

    /// The segments, from the left.
    pub open spec fn segs(self) -> Seq<int> {
        Seq::new(8, |i: int| self.segment(i))
    }

    /// The IPv4 address in an IPv4-mapped one (`::ffff:a.b.c.d`).
    pub fn to_ipv4_mapped(&self) -> (r: Option<Ipv4Addr>)
        ensures
            r == self.mapped(),
    {
        if self.bits / 0x1_0000_0000 == 0xffff {
            Some(Ipv4Addr { bits: (self.bits % 0x1_0000_0000) as u32 })
        } else {
            None
        }
    }
}

/// An address with an IPv4-mapped one taken as the IPv4 address in it.
pub open spec fn unmapped(ip: IpAddr) -> IpAddr {
    match ip {
        IpAddr::V4(v4) => IpAddr::V4(v4),
        IpAddr::V6(v6) => match v6.mapped() {
            Some(v4) => IpAddr::V4(v4),
            None => IpAddr::V6(v6),
        },
    }
}

/// `a.b.c.d` in decimal.
pub open spec fn v4_text(ip: Ipv4Addr) -> Seq<char> {
    text::digits(ip.octet(0) as nat, 10).push('.') + text::digits(ip.octet(1) as nat, 10).push('.')
        + text::digits(ip.octet(2) as nat, 10).push('.') + text::digits(ip.octet(3) as nat, 10)
}

/// Segments in hexadecimal with colons between them.
pub open spec fn segments_text(g: Seq<int>) -> Seq<char>
    decreases g.len(),
{
    if g.len() == 0 {
        Seq::empty()
    } else if g.len() == 1 {
        text::digits(g[0] as nat, 16)
    } else {
        segments_text(g.drop_last()).push(':') + text::digits(g.last() as nat, 16)
    }
}

/// How many zeros stand in `g` from place `i` on without a break.
pub open spec fn zero_run(g: Seq<int>, i: int) -> nat
    decreases g.len() - i,
{
    if 0 <= i < g.len() && g[i] == 0 {
        1 + zero_run(g, i + 1)
    } else {
        0
    }
}

/// Where the first longest run of zeros begins, among the first `n` places.
pub open spec fn longest_run(g: Seq<int>, n: nat) -> int
    decreases n,
{
    if n == 0 {
        0
    } else {
        let best = longest_run(g, (n - 1) as nat);
        if zero_run(g, n - 1) > zero_run(g, best) {
            n - 1
        } else {
            best
        }
    }
}

/// The text of eight segments: the first longest run of two or more zeros is
/// written `::`.
pub open spec fn eight_text(g: Seq<int>) -> Seq<char> {
    let i = longest_run(g, 8);
    let n = zero_run(g, i) as int;
    if n > 1 {
        segments_text(g.take(i)) + gap() + segments_text(g.skip(i + n))
    } else {
        segments_text(g)
    }
}

/// The canonical text of an IPv6 address.
pub open spec fn v6_text(ip: Ipv6Addr) -> Seq<char> {
    eight_text(ip.segs())
}

/// Appends an IPv4 address.
pub fn push_v4(out: &mut Vec<char>, ip: Ipv4Addr)
    ensures
        final(out)@ == old(out)@ + v4_text(ip),
{
    let o = ip.octets();
    let ghost start = out@;
    text::push_digits(out, o[0] as u64, 10);
    out.push('.');
    text::push_digits(out, o[1] as u64, 10);
    out.push('.');
    text::push_digits(out, o[2] as u64, 10);
    out.push('.');
    text::push_digits(out, o[3] as u64, 10);
    assert(out@ =~= start + v4_text(ip));
}

/// Appends the segments `from..to` of `g`.
fn push_segments(out: &mut Vec<char>, g: &[u16; 8], from: usize, to: usize)
    requires
        from <= to <= 8,
    ensures
        final(out)@ == old(out)@ + segments_text(ints(g@).subrange(from as int, to as int)),
{
    let ghost start = out@;
    let mut i: usize = from;
    assert(out@ =~= start + segments_text(ints(g@).subrange(from as int, i as int)));
    while i < to
        invariant
            from <= i <= to <= 8,
            out@ == start + segments_text(ints(g@).subrange(from as int, i as int)),
        decreases to - i,
    {
        let ghost now = ints(g@).subrange(from as int, i + 1);
        assert(now.drop_last() =~= ints(g@).subrange(from as int, i as int));
        if i > from {
            out.push(':');
        }
        text::push_digits(out, g[i] as u64, 16);
        assert(out@ =~= start + segments_text(now));
        i += 1;
    }
}

/// How many zeros stand in `g` from place `i` on without a break.
fn count_zeros(g: &[u16; 8], i: usize) -> (n: usize)
    requires
        i <= 8,
    ensures
        n == zero_run(ints(g@), i as int),
        i + n <= 8,
{
    let mut j: usize = i;
    while j < 8 && g[j] == 0
        invariant
            i <= j <= 8,
            zero_run(ints(g@), i as int) == (j - i) + zero_run(ints(g@), j as int),
        decreases 8 - j,
    {
        j += 1;
    }
    j - i
}

/// Appends the canonical text of an IPv6 address.
pub fn push_v6(out: &mut Vec<char>, ip: Ipv6Addr)
    ensures
        final(out)@ == old(out)@ + v6_text(ip),
{
    let g = ip.segments();
    assert(ints(g@) =~= ip.segs());
    let ghost start = out@;
    let mut best: usize = 0;
    let mut n: usize = 0;
    while n < 8
        invariant
            n <= 8,
            best <= 7,
            best == longest_run(ints(g@), n as nat),
        decreases 8 - n,
    {
        if count_zeros(&g, n) > count_zeros(&g, best) {
            best = n;
        }
        n += 1;
    }
    let len = count_zeros(&g, best);
    if len > 1 {
        push_segments(out, &g, 0, best);
        out.push(':');
        out.push(':');
        push_segments(out, &g, best + len, 8);
        assert(ints(g@).subrange(0, best as int) =~= ints(g@).take(best as int));
        assert(ints(g@).subrange(best + len, 8) =~= ints(g@).skip(best + len));
    } else {
        push_segments(out, &g, 0, 8);
        assert(ints(g@).subrange(0, 8) =~= ints(g@));
    }
    assert(out@ =~= start + v6_text(ip));
}

/// The digits of an octet write it.
proof fn lemma_octet_text(n: nat)
    requires
        n < 256,
    ensures
        octet_value(text::digits(n, 10)) == Some(n as int),
        !text::digits(n, 10).contains('.'),
{
    text::law_digits_read_back(n, 10);
    reveal_with_fuel(text::digits, 4);
}

/// An address is made of its octets.
proof fn lemma_octets(ip: Ipv4Addr)
    ensures
        forall|i: int| 0 <= i < 4 ==> 0 <= #[trigger] ip.octet(i) < 256,
        join_places(seq![ip.octet(0), ip.octet(1), ip.octet(2), ip.octet(3)], 256) == ip.bits,
{
    reveal_with_fuel(place, 4);
    let x = ip.bits as int;
    let a = ip.octet(0);
    let b = ip.octet(1);
    let c = ip.octet(2);
    let d = ip.octet(3);
    assert(d == x % 256);
    assert(c == x / 256 % 256);
    assert(b == x / 256 / 256 % 256);
    assert(a == x / 256 / 256 / 256 % 256);
    assert(x / 256 / 256 / 256 < 256);
    assert(((a * 256 + b) * 256 + c) * 256 + d == x);
    let g = seq![a, b, c, d];
    assert(g.drop_last() =~= seq![a, b, c]);
    assert(g.drop_last().drop_last() =~= seq![a, b]);
    assert(g.drop_last().drop_last().drop_last() =~= seq![a]);
    reveal_with_fuel(join_places, 5);
}

/// Four texts without dots, with dots between them, are four pieces.
proof fn lemma_split_four(a: Seq<char>, b: Seq<char>, c: Seq<char>, d: Seq<char>)
    requires
        !a.contains('.') && !b.contains('.') && !c.contains('.') && !d.contains('.'),
    ensures
        text::split(a.push('.') + b.push('.') + c.push('.') + d, '.') == seq![a, b, c, d],
{
    text::lemma_split_one(d, '.');
    text::lemma_split_joined(c, '.', d);
    text::lemma_split_joined(b, '.', c.push('.') + d);
    text::lemma_split_joined(a, '.', b.push('.') + (c.push('.') + d));
    assert(a.push('.') + b.push('.') + c.push('.') + d =~= a.push('.') + (b.push('.') + (c.push('.')
        + d)));
    assert(seq![a] + (seq![b] + (seq![c] + seq![d])) =~= seq![a, b, c, d]);
}

/// The dotted text of an IPv4 address is read back as that address.
pub proof fn law_v4_text_reads_back(ip: Ipv4Addr)
    ensures
        v4_value(v4_text(ip)) == Some(ip),
{
    lemma_octets(ip);
    lemma_octet_text(ip.octet(0) as nat);
    lemma_octet_text(ip.octet(1) as nat);
    lemma_octet_text(ip.octet(2) as nat);
    lemma_octet_text(ip.octet(3) as nat);
    lemma_split_four(
        text::digits(ip.octet(0) as nat, 10),
        text::digits(ip.octet(1) as nat, 10),
        text::digits(ip.octet(2) as nat, 10),
        text::digits(ip.octet(3) as nat, 10),
    );
    let p = text::split(v4_text(ip), '.');
    let g = Seq::new(4, |i: int| octet_value(p[i])->0);
    assert(g =~= seq![ip.octet(0), ip.octet(1), ip.octet(2), ip.octet(3)]);
}

/// Whether every number fits a segment.
pub open spec fn all_u16(g: Seq<int>) -> bool {
    forall|i: int| 0 <= i < g.len() ==> 0 <= #[trigger] g[i] < 0x1_0000
}

/// An IPv4 address is written with digits and dots, and a digit at either end.
pub proof fn lemma_v4_text_chars(ip: Ipv4Addr)
    ensures
        v4_text(ip).len() > 0,
        '0' <= v4_text(ip).first() <= '9',
        '0' <= v4_text(ip).last() <= '9',
        forall|i: int|
            0 <= i < v4_text(ip).len() ==> '0' <= #[trigger] v4_text(ip)[i] <= '9' || v4_text(
                ip,
            )[i] == '.',
{
    let a = text::digits(ip.octet(0) as nat, 10);
    let b = text::digits(ip.octet(1) as nat, 10);
    let c = text::digits(ip.octet(2) as nat, 10);
    let d = text::digits(ip.octet(3) as nat, 10);
    text::law_digits_read_back(ip.octet(0) as nat, 10);
    text::law_digits_read_back(ip.octet(1) as nat, 10);
    text::law_digits_read_back(ip.octet(2) as nat, 10);
    text::law_digits_read_back(ip.octet(3) as nat, 10);
    let s = v4_text(ip);
    assert(s.first() == a[0]);
    assert(s.last() == d[d.len() - 1]);
    assert(0 <= text::digit_value(a[0]) < 10 && 0 <= text::digit_value(d[d.len() - 1]) < 10);
    assert forall|i: int| 0 <= i < s.len() implies '0' <= #[trigger] s[i] <= '9' || s[i]
        == '.' by {
        let x = a.push('.');
        let y = x + b.push('.');
        let z = y + c.push('.');
        if i < a.len() {
            assert(0 <= text::digit_value(a[i]) < 10);
        } else if x.len() <= i < x.len() + b.len() {
            assert(0 <= text::digit_value(b[i - x.len()]) < 10);
        } else if y.len() <= i < y.len() + c.len() {
            assert(0 <= text::digit_value(c[i - y.len()]) < 10);
        } else if z.len() <= i {
            assert(0 <= text::digit_value(d[i - z.len()]) < 10);
        }
    }
}

/// The digits of a segment write it.
proof fn lemma_segment_text(n: nat)
    requires
        n < 0x1_0000,
    ensures
        segment_value(text::digits(n, 16)) == Some(n as int),
        text::digits(n, 16).len() > 0,
        !text::digits(n, 16).contains(':'),
{
    text::law_digits_read_back(n, 16);
    reveal_with_fuel(text::digits, 5);
}

/// Two colons stand nowhere next to each other, nor one at either end.
pub open spec fn no_gap(s: Seq<char>) -> bool {
    &&& s.len() > 0 ==> s.first() != ':' && s.last() != ':'
    &&& forall|i: int| 0 <= i < s.len() - 1 ==> !(#[trigger] s[i] == ':' && s[i + 1] == ':')
}

/// Segments in text are read back, piece by piece, and leave no gap.
proof fn lemma_segments_text(g: Seq<int>)
    requires
        all_u16(g),
        g.len() > 0,
    ensures
        segments_text(g).len() > 0,
        no_gap(segments_text(g)),
        g.len() > 1 ==> segments_text(g).contains(':'),
        all_segments(text::split(segments_text(g), ':')),
        segment_values(text::split(segments_text(g), ':')) == g,
    decreases g.len(),
{
    let s = segments_text(g);
    let d = text::digits(g.last() as nat, 16);
    assert(0 <= g[g.len() - 1] < 0x1_0000);
    lemma_segment_text(g.last() as nat);
    assert(forall|i: int| 0 <= i < d.len() ==> d[i] != ':') by {
        assert forall|i: int| 0 <= i < d.len() implies d[i] != ':' by {
            assert(d.contains(d[i]));
        }
    }
    if g.len() == 1 {
        text::lemma_split_one(d, ':');
        assert(s == d);
        assert(segment_values(text::split(s, ':')) =~= g);
    } else {
        let h = g.drop_last();
        assert(all_u16(h)) by {
            assert forall|i: int| 0 <= i < h.len() implies 0 <= #[trigger] h[i] < 0x1_0000 by {
                assert(h[i] == g[i]);
            }
        }
        lemma_segments_text(h);
        let t = segments_text(h);
        assert(s == t.push(':') + d);
        assert(s[t.len() as int] == ':');
        text::lemma_split_tail(t, ':', d);
        let p = text::split(s, ':');
        let q = text::split(t, ':');
        assert(p == q.push(d));
        assert forall|i: int| 0 <= i < p.len() implies segment_value(#[trigger] p[i]) is Some by {
            if i < q.len() {
                assert(p[i] == q[i]);
            }
        }
        assert forall|i: int| 0 <= i < g.len() implies segment_values(p)[i] == g[i] by {
            if i < q.len() {
                assert(p[i] == q[i]);
                assert(segment_values(q)[i] == h[i]);
            }
        }
        assert(q.len() == segment_values(q).len());
        assert(segment_values(p) =~= g);
        assert forall|i: int| 0 <= i < s.len() - 1 implies !(#[trigger] s[i] == ':' && s[i + 1] == ':') by {
            if i < t.len() - 1 {
                assert(s[i] == t[i] && s[i + 1] == t[i + 1]);
            }
        }
    }
}

proof fn lemma_zero_run(g: Seq<int>, i: int)
    requires
        0 <= i <= g.len(),
    ensures
        i + zero_run(g, i) <= g.len(),
        forall|k: int| i <= k < i + zero_run(g, i) ==> #[trigger] g[k] == 0,
    decreases g.len() - i,
{
    if i < g.len() && g[i] == 0 {
        lemma_zero_run(g, i + 1);
    }
}

proof fn lemma_longest_run(g: Seq<int>, n: nat)
    ensures
        0 <= longest_run(g, n),
        n > 0 ==> longest_run(g, n) < n,
    decreases n,
{
    if n > 0 {
        lemma_longest_run(g, (n - 1) as nat);
    }
}

/// The segments on one side of a gap are read back.
proof fn lemma_side_text(g: Seq<int>, v4_last: bool)
    requires
        all_u16(g),
    ensures
        side_value(segments_text(g), v4_last) == Some(g),
        no_gap(segments_text(g)),
{
    if g.len() == 0 {
        assert(g =~= Seq::empty());
    } else {
        lemma_segments_text(g);
    }
}

/// Without a gap in the text, no gap is found.
proof fn lemma_no_gap_found(s: Seq<char>)
    requires
        no_gap(s),
    ensures
        text::find_text(s, gap()) == s.len(),
{
    assert forall|i: int| 0 <= i < s.len() implies !gap().is_prefix_of(#[trigger] s.skip(i)) by {
        if gap().is_prefix_of(s.skip(i)) {
            let t = s.skip(i);
            assert(t.subrange(0, 2)[0] == t[0] && t.subrange(0, 2)[1] == t[1]);
            assert(s[i] == ':' && s[i + 1] == ':');
        }
    }
    text::lemma_find_text(s, gap(), s.len() as int);
}

/// The gap between two texts that have none is found where it is.
proof fn lemma_gap_found(l: Seq<char>, r: Seq<char>)
    requires
        no_gap(l),
    ensures
        text::find_text(l + gap() + r, gap()) == l.len(),
{
    let s = l + gap() + r;
    assert forall|i: int| 0 <= i < l.len() implies !gap().is_prefix_of(#[trigger] s.skip(i)) by {
        if gap().is_prefix_of(s.skip(i)) {
            let t = s.skip(i);
            assert(t.subrange(0, 2)[0] == t[0] && t.subrange(0, 2)[1] == t[1]);
            assert(s[i] == ':' && s[i + 1] == ':');
            assert(l[i] == ':');
            if i + 1 < l.len() {
                assert(l[i + 1] == ':');
            }
        }
    }
    let t = s.skip(l.len() as int);
    assert(t.subrange(0, 2) =~= gap());
    text::lemma_find_text(s, gap(), l.len() as int);
}

/// Eight segments in text are read back.
proof fn lemma_eight_text(g: Seq<int>)
    requires
        g.len() == 8,
        all_u16(g),
    ensures
        v6_segments(eight_text(g)) == Some(g),
        eight_text(g).contains(':'),
{
    let i = longest_run(g, 8);
    let n = zero_run(g, i) as int;
    lemma_longest_run(g, 8);
    lemma_zero_run(g, i);
    let s = eight_text(g);
    if n > 1 {
        let a = g.take(i);
        let b = g.skip(i + n);
        assert(all_u16(a)) by {
            assert forall|k: int| 0 <= k < a.len() implies 0 <= #[trigger] a[k] < 0x1_0000 by {
                assert(a[k] == g[k]);
            }
        }
        assert(all_u16(b)) by {
            assert forall|k: int| 0 <= k < b.len() implies 0 <= #[trigger] b[k] < 0x1_0000 by {
                assert(b[k] == g[k + i + n]);
            }
        }
        lemma_side_text(a, false);
        lemma_side_text(b, true);
        let l = segments_text(a);
        let r = segments_text(b);
        lemma_gap_found(l, r);
        assert(s == l + gap() + r);
        assert(s[l.len() as int] == ':');
        assert(s.take(l.len() as int) =~= l);
        assert(s.skip(l.len() as int + 2) =~= r);
        assert(a + zeros(8 - a.len() - b.len()) + b =~= g);
    } else {
        lemma_segments_text(g);
        lemma_no_gap_found(s);
    }
}

/// An address is made of its segments.
proof fn lemma_segs(ip: Ipv6Addr)
    ensures
        all_u16(ip.segs()),
        join_places(ip.segs(), 0x1_0000) == ip.bits,
{
    reveal_with_fuel(place, 8);
    let g = ip.segs();
    let x0 = ip.bits as int;
    let x1 = x0 / 0x1_0000;
    let x2 = x1 / 0x1_0000;
    let x3 = x2 / 0x1_0000;
    let x4 = x3 / 0x1_0000;
    let x5 = x4 / 0x1_0000;
    let x6 = x5 / 0x1_0000;
    let x7 = x6 / 0x1_0000;
    assert(x7 < 0x1_0000);
    assert(g[0] == x7 % 0x1_0000 && g[1] == x6 % 0x1_0000 && g[2] == x5 % 0x1_0000 && g[3] == x4
        % 0x1_0000 && g[4] == x3 % 0x1_0000 && g[5] == x2 % 0x1_0000 && g[6] == x1 % 0x1_0000
        && g[7] == x0 % 0x1_0000);
    assert forall|i: int| 0 <= i < g.len() implies 0 <= #[trigger] g[i] < 0x1_0000 by {}
    lemma_join_eight(g);
}

proof fn lemma_join_eight(g: Seq<int>)
    requires
        g.len() == 8,
    ensures
        join_places(g, 0x1_0000) == ((((((g[0] * 0x1_0000 + g[1]) * 0x1_0000 + g[2]) * 0x1_0000
            + g[3]) * 0x1_0000 + g[4]) * 0x1_0000 + g[5]) * 0x1_0000 + g[6]) * 0x1_0000 + g[7],
{
    reveal_with_fuel(join_places, 9);
    let g7 = g.drop_last();
    let g6 = g7.drop_last();
    let g5 = g6.drop_last();
    let g4 = g5.drop_last();
    let g3 = g4.drop_last();
    let g2 = g3.drop_last();
    let g1 = g2.drop_last();
    let g0 = g1.drop_last();
    assert(g0.len() == 0);
}

/// A text with a colon is no dotted address.
proof fn lemma_colon_is_no_v4(s: Seq<char>)
    requires
        s.contains(':'),
    ensures
        v4_value(s) is None,
{
    if v4_value(s) is Some {
        let p = text::split(s, '.');
        let digit = |c: char| 0 <= text::digit_value(c) < 10;
        assert forall|i: int, k: int| 0 <= i < p.len() && 0 <= k < p[i].len() implies digit(
            #[trigger] p[i][k],
        ) by {
            assert(octet_value(p[i]) is Some);
        }
        text::lemma_split_chars(s, '.', digit);
        let j = choose|j: int| 0 <= j < s.len() && s[j] == ':';
        assert(s[j] == '.' || digit(s[j]));
    }
}

/// The canonical text of an IPv6 address is read back as that address.
pub proof fn law_v6_text_reads_back(ip: Ipv6Addr)
    ensures
        ip_value(v6_text(ip)) == Some(IpAddr::V6(ip)),
{
    lemma_segs(ip);
    lemma_eight_text(ip.segs());
    lemma_colon_is_no_v4(v6_text(ip));
}

/// Whether each of `groups` is one to four hexadecimal digits, of either case.
pub open spec fn are_hex_groups(groups: Seq<Seq<char>>) -> bool {
    forall|i: int|
        0 <= i < groups.len() ==> {
            &&& 1 <= (#[trigger] groups[i]).len() <= 4
            &&& forall|j: int|
                0 <= j < groups[i].len() ==> ('0' <= #[trigger] groups[i][j] <= '9' || 'a'
                    <= groups[i][j] <= 'f' || 'A' <= groups[i][j] <= 'F')
        }
}

/// The numbers that hexadecimal groups write.
pub open spec fn hex_values(groups: Seq<Seq<char>>) -> Seq<int> {
    groups.map_values(|g: Seq<char>| text::number(g, 16))
}

proof fn lemma_hex_number(g: Seq<char>)
    requires
        text::all_digits(g, 16),
        g.len() <= 4,
    ensures
        0 <= text::number(g, 16) <= 0xffff,
{
    reveal_with_fuel(text::number, 5);
    if g.len() > 0 {
        let a = g.drop_last();
        assert(0 <= text::digit_value(g[g.len() - 1]) < 16);
        if a.len() > 0 {
            let b = a.drop_last();
            assert(0 <= text::digit_value(g[a.len() - 1]) < 16);
            if b.len() > 0 {
                let c = b.drop_last();
                assert(0 <= text::digit_value(g[b.len() - 1]) < 16);
                if c.len() > 0 {
                    assert(0 <= text::digit_value(g[c.len() - 1]) < 16);
                }
            }
        }
    }
}

/// Groups with colons between them are read group by group, and leave no gap.
proof fn lemma_hex_groups(groups: Seq<Seq<char>>)
    requires
        groups.len() > 0,
        are_hex_groups(groups),
    ensures
        text::free_of(groups, ':'),
        all_segments(groups),
        segment_values(groups) == hex_values(groups),
        no_gap(text::join(groups, ':')),
        text::join(groups, ':').len() > 0,
        groups.len() > 1 ==> text::join(groups, ':').contains(':'),
    decreases groups.len(),
{
    assert forall|i: int| 0 <= i < groups.len() implies !(#[trigger] groups[i]).contains(':')
        && segment_value(groups[i]) == Some(text::number(groups[i], 16)) by {
        let g = groups[i];
        assert(1 <= g.len() <= 4);
        assert forall|j: int| 0 <= j < g.len() implies 0 <= text::digit_value(#[trigger] g[j])
            < 16 && g[j] != ':' by {
            assert('0' <= groups[i][j] <= '9' || 'a' <= groups[i][j] <= 'f' || 'A' <= groups[i][j]
                <= 'F');
        }
        lemma_hex_number(g);
    }
    assert(segment_values(groups) =~= hex_values(groups));
    let s = text::join(groups, ':');
    let d = groups[groups.len() - 1];
    assert(1 <= d.len() <= 4);
    assert forall|j: int| 0 <= j < d.len() implies d[j] != ':' by {
        assert(!d.contains(':'));
        assert(d.contains(d[j]));
    }
    if groups.len() > 1 {
        let init = groups.drop_last();
        assert(are_hex_groups(init)) by {
            assert forall|i: int| 0 <= i < init.len() implies {
                &&& 1 <= (#[trigger] init[i]).len() <= 4
                &&& forall|j: int|
                    0 <= j < init[i].len() ==> ('0' <= #[trigger] init[i][j] <= '9' || 'a'
                        <= init[i][j] <= 'f' || 'A' <= init[i][j] <= 'F')
            } by {
                assert(init[i] == groups[i]);
            }
        }
        lemma_hex_groups(init);
        let t = text::join(init, ':');
        assert(s == t.push(':') + d);
        assert(s[t.len() as int] == ':');
        assert forall|i: int| 0 <= i < s.len() - 1 implies !(#[trigger] s[i] == ':' && s[i + 1]
            == ':') by {
            if i < t.len() - 1 {
                assert(s[i] == t[i] && s[i + 1] == t[i + 1]);
            }
        }
    }
}

/// Eight hexadecimal groups with colons between them are read as the address that
/// they write, whatever the case of their letters and with leading zeros or without.
pub proof fn law_eight_groups_are_read(groups: Seq<Seq<char>>)
    requires
        groups.len() == 8,
        are_hex_groups(groups),
    ensures
        ({
            let g = hex_values(groups);
            let upper = ((g[0] * 0x1_0000 + g[1]) * 0x1_0000 + g[2]) * 0x1_0000 + g[3];
            let lower = ((g[4] * 0x1_0000 + g[5]) * 0x1_0000 + g[6]) * 0x1_0000 + g[7];
            ip_value(text::join(groups, ':')) == Some(
                IpAddr::V6(Ipv6Addr { bits: (upper * 0x1_0000_0000_0000_0000 + lower) as u128 }),
            )
        }),
{
    let s = text::join(groups, ':');
    lemma_hex_groups(groups);
    text::law_split_undoes_join(groups, ':');
    lemma_no_gap_found(s);
    lemma_colon_is_no_v4(s);
    lemma_join_eight(hex_values(groups));
}

/// A double colon between hexadecimal groups stands for as many zeros as are missing,
/// one at least.
pub proof fn law_gap_is_filled(left: Seq<Seq<char>>, right: Seq<Seq<char>>)
    requires
        are_hex_groups(left),
        are_hex_groups(right),
    ensures
        v6_segments(text::join(left, ':') + seq![':', ':'] + text::join(right, ':'))
            == if left.len() + right.len() <= 7 {
            Some(
                hex_values(left) + Seq::new(
                    (8 - left.len() - right.len()) as nat,
                    |i: int| 0int,
                ) + hex_values(right),
            )
        } else {
            None
        },
{
    let l = text::join(left, ':');
    let r = text::join(right, ':');
    let s = l + gap() + r;
    lemma_side_of_groups(left, false);
    lemma_side_of_groups(right, true);
    lemma_gap_found(l, r);
    assert(s.take(l.len() as int) =~= l);
    assert(s.skip(l.len() as int + 2) =~= r);
    if left.len() + right.len() <= 7 {
        assert(zeros(8 - left.len() - right.len()) =~= Seq::new(
            (8 - left.len() - right.len()) as nat,
            |i: int| 0int,
        ));
    }
}

proof fn lemma_side_of_groups(groups: Seq<Seq<char>>, v4_last: bool)
    requires
        are_hex_groups(groups),
    ensures
        side_value(text::join(groups, ':'), v4_last) == Some(hex_values(groups)),
        no_gap(text::join(groups, ':')),
{
    if groups.len() == 0 {
        assert(hex_values(groups) =~= Seq::empty());
    } else {
        lemma_hex_groups(groups);
        text::law_split_undoes_join(groups, ':');
    }
}

/// The last two groups may be written as an IPv4 address.
pub proof fn law_v4_tail_is_read(groups: Seq<Seq<char>>, v4: Ipv4Addr)
    requires
        groups.len() == 6,
        are_hex_groups(groups),
    ensures
        v6_segments(text::join(groups, ':').push(':') + v4_text(v4)) == Some(
            hex_values(groups).push(v4.bits as int / 0x1_0000).push(v4.bits as int % 0x1_0000),
        ),
{
    let t = text::join(groups, ':');
    let d = v4_text(v4);
    let s = t.push(':') + d;
    lemma_hex_groups(groups);
    lemma_v4_text_chars(v4);
    law_v4_text_reads_back(v4);
    assert(!d.contains(':'));
    text::law_split_undoes_join(groups, ':');
    text::lemma_split_tail(t, ':', d);
    let p = text::split(s, ':');
    assert(p.drop_last() =~= groups);
    assert(p.last() == d);
    assert(segment_value(d) is None) by {
        assert(d.contains('.')) by {
            let a = text::digits(v4.octet(0) as nat, 10);
            assert(d[a.len() as int] == '.');
        }
        let i = choose|i: int| 0 <= i < d.len() && d[i] == '.';
        assert(text::digit_value(d[i]) < 0);
    }
    assert(!all_segments(p)) by {
        assert(p[6] == d);
    }
    assert forall|i: int| 0 <= i < s.len() - 1 implies !(#[trigger] s[i] == ':' && s[i + 1]
        == ':') by {
        if i < t.len() - 1 {
            assert(s[i] == t[i] && s[i + 1] == t[i + 1]);
        } else {
            assert(s[i + 1] == ':' ==> i + 1 == t.len());
        }
    }
    lemma_no_gap_found(s);
}

/// The octets of a number that is made of four.
#[verifier::spinoff_prover]
proof fn lemma_octets_of(ip: Ipv4Addr, a: int, b: int, c: int, d: int)
    requires
        0 <= a < 256,
        0 <= b < 256,
        0 <= c < 256,
        0 <= d < 256,
        ip.bits == ((a * 256 + b) * 256 + c) * 256 + d,
    ensures
        ip.octet(0) == a,
        ip.octet(1) == b,
        ip.octet(2) == c,
        ip.octet(3) == d,
{
    reveal_with_fuel(place, 4);
    let x = ip.bits as int;
    assert(x / 256 == (a * 256 + b) * 256 + c && x % 256 == d);
    assert(x / 256 / 256 == a * 256 + b && x / 256 % 256 == c);
    assert(x / 256 / 256 / 256 == a && x / 256 / 256 % 256 == b && a % 256 == a);
}

/// Octets in decimal with dots between them are the address with these octets.
#[verifier::spinoff_prover]
pub proof fn law_octets_are_read(a: u8, b: u8, c: u8, d: u8)
    ensures
        ip_value(
            text::digits(a as nat, 10).push('.') + text::digits(b as nat, 10).push('.')
                + text::digits(c as nat, 10).push('.') + text::digits(d as nat, 10),
        ) == Some(
            IpAddr::V4(Ipv4Addr { bits: (((a * 256 + b) * 256 + c) * 256 + d) as u32 }),
        ),
{
    let v4 = Ipv4Addr { bits: (((a * 256 + b) * 256 + c) * 256 + d) as u32 };
    lemma_octets_of(v4, a as int, b as int, c as int, d as int);
    law_v4_text_reads_back(v4);
}

proof fn lemma_run_is_whole(g: Seq<int>, i: int, m: nat)
    requires
        0 <= i,
        i + m <= g.len(),
        forall|k: int| i <= k < i + m ==> #[trigger] g[k] == 0,
    ensures
        zero_run(g, i) >= m,
    decreases m,
{
    if m > 0 {
        assert(g[i] == 0);
        lemma_run_is_whole(g, i + 1, (m - 1) as nat);
    }
}

proof fn lemma_longest_is_longest(g: Seq<int>, n: nat, j: int)
    requires
        0 <= j < n,
    ensures
        zero_run(g, j) <= zero_run(g, longest_run(g, n)),
        zero_run(g, j) == zero_run(g, longest_run(g, n)) ==> longest_run(g, n) <= j,
    decreases n,
{
    lemma_longest_run(g, n);
    if j < n - 1 {
        lemma_longest_is_longest(g, (n - 1) as nat, j);
    } else if n > 1 {
        lemma_longest_run(g, (n - 1) as nat);
    }
}

/// The first longest run of two or more zero segments, and no other, is written as a
/// double colon: where `i` and `n` are a run of zeros that is longer than every run
/// before it and as long as every run behind it, it is this one that is left out.
pub proof fn law_longest_run_is_left_out(ip: Ipv6Addr, i: int, n: nat)
    requires
        0 <= i,
        2 <= n,
        i + n <= 8,
        forall|k: int| i <= k < i + n ==> #[trigger] ip.segs()[k] == 0,
        forall|j: int, m: nat|
            #![trigger zeros_at(ip.segs(), j, m)]
            zeros_at(ip.segs(), j, m) ==> m < n || (m == n && i <= j),
    ensures
        v6_text(ip) == segments_text(ip.segs().take(i)) + seq![':', ':'] + segments_text(
            ip.segs().skip(i + n),
        ),
{
    let g = ip.segs();
    let best = longest_run(g, 8);
    let b = zero_run(g, best);
    lemma_longest_run(g, 8);
    lemma_zero_run(g, best);
    lemma_zero_run(g, i);
    lemma_run_is_whole(g, i, n);
    lemma_longest_is_longest(g, 8, i);
    assert(zeros_at(g, best, b));
    assert(zeros_at(g, i, zero_run(g, i)));
    assert(b == n && best == i);
}

/// Whether `m` zeros stand in `g` from place `j` on.
pub open spec fn zeros_at(g: Seq<int>, j: int, m: nat) -> bool {
    0 <= j && j + m <= g.len() && forall|k: int| j <= k < j + m ==> #[trigger] g[k] == 0
}

/// Where no two zero segments stand side by side, all eight are written.
pub proof fn law_all_segments_are_written(ip: Ipv6Addr)
    requires
        forall|k: int| 0 <= k < 7 ==> !(#[trigger] ip.segs()[k] == 0 && ip.segs()[k + 1] == 0),
    ensures
        v6_text(ip) == segments_text(ip.segs()),
{
    let g = ip.segs();
    let best = longest_run(g, 8);
    lemma_longest_run(g, 8);
    lemma_zero_run(g, best);
    if zero_run(g, best) > 1 {
        assert(g[best] == 0 && g[best + 1] == 0);
    }
}

/// An octet is read only from the decimal digits that write it, without leading
/// zeros.
pub proof fn law_octet_has_one_text(s: Seq<char>)
    ensures
        octet_value(s) matches Some(n) ==> 0 <= n < 256 && s == text::digits(n as nat, 10),
{
    reveal_with_fuel(text::digits, 4);
    reveal_with_fuel(text::number, 4);
    if octet_value(s) is Some {
        let n = octet_value(s)->0;
        assert forall|i: int| 0 <= i < s.len() implies '0' <= #[trigger] s[i] <= '9' && s[i]
            == text::digit_char(text::digit_value(s[i]) as nat) by {
            assert(0 <= text::digit_value(s[i]) < 10);
        }
        if s.len() == 1 {
            assert(s =~= seq![s[0]]);
            assert(n == text::digit_value(s[0]));
            assert(s =~= text::digits(n as nat, 10));
        } else if s.len() == 2 {
            assert(s.drop_last() =~= seq![s[0]]);
            assert(n == text::digit_value(s[0]) * 10 + text::digit_value(s[1]));
            assert(text::digit_value(s[0]) > 0);
            assert(n / 10 == text::digit_value(s[0]) && n % 10 == text::digit_value(s[1]));
            assert(s =~= text::digits(n as nat, 10));
        } else {
            assert(s.len() == 3);
            let t = s.drop_last();
            assert(t.drop_last() =~= seq![s[0]]);
            assert(t.last() == s[1]);
            assert(n == (text::digit_value(s[0]) * 10 + text::digit_value(s[1])) * 10
                + text::digit_value(s[2]));
            assert(text::digit_value(s[0]) > 0);
            assert(n / 10 == text::digit_value(s[0]) * 10 + text::digit_value(s[1]));
            assert(n / 10 / 10 == text::digit_value(s[0]) && n / 10 % 10 == text::digit_value(
                s[1],
            ) && n % 10 == text::digit_value(s[2]));
            assert(s =~= text::digits(n as nat, 10));
        }
    }
}

/// An IPv4 address is read only from the text that writes it: four octets in decimal
/// with dots between them, and nothing else.
#[verifier::spinoff_prover]
pub proof fn law_v4_has_one_text(s: Seq<char>)
    ensures
        v4_value(s) matches Some(v4) ==> s == v4_text(v4),
{
    if v4_value(s) is Some {
        let v4 = v4_value(s)->0;
        let p = text::split(s, '.');
        text::law_join_undoes_split(s, '.');
        law_octet_has_one_text(p[0]);
        law_octet_has_one_text(p[1]);
        law_octet_has_one_text(p[2]);
        law_octet_has_one_text(p[3]);
        let a = octet_value(p[0])->0;
        let b = octet_value(p[1])->0;
        let c = octet_value(p[2])->0;
        let d = octet_value(p[3])->0;
        assert(octet_value(p[0]) is Some && octet_value(p[1]) is Some && octet_value(p[2]) is Some
            && octet_value(p[3]) is Some);
        let g = Seq::new(4, |i: int| octet_value(p[i])->0);
        assert(g =~= seq![a, b, c, d]);
        reveal_with_fuel(join_places, 5);
        assert(g.drop_last() =~= seq![a, b, c]);
        assert(g.drop_last().drop_last() =~= seq![a, b]);
        assert(g.drop_last().drop_last().drop_last() =~= seq![a]);
        assert(join_places(g, 256) == ((a * 256 + b) * 256 + c) * 256 + d);
        lemma_octets_of(v4, a, b, c, d);
        reveal_with_fuel(text::join, 4);
        assert(p.drop_last().drop_last().drop_last() =~= seq![p[0]]);
        assert(p.drop_last().drop_last().last() == p[1]);
        assert(p.drop_last().last() == p[2]);
        assert(s =~= v4_text(v4));
    }
}

/// A segment of an IPv6 address is read only from one to four hexadecimal digits.
pub proof fn law_segment_texts(s: Seq<char>)
    ensures
        segment_value(s) is Some ==> 1 <= s.len() <= 4 && forall|i: int|
            0 <= i < s.len() ==> ('0' <= #[trigger] s[i] <= '9' || 'a' <= s[i] <= 'f' || 'A' <= s[i]
                <= 'F'),
{
}

}
