//! IP addresses: their textual forms and the preference among them.
use vstd::prelude::*;

use crate::text;

verus! {

/// An IPv4 address as a number, most significant octet first.
#[derive(Clone, Copy, Debug, PartialEq, Eq, Structural)]
pub struct Ipv4Addr {
    pub bits: u32,
}

/// An IPv6 address as a number, most significant octet first.
#[derive(Clone, Copy, Debug, PartialEq, Eq, Structural)]
pub struct Ipv6Addr {
    pub bits: u128,
}

#[derive(Clone, Copy, Debug, PartialEq, Eq, Structural)]
pub enum IpAddr {
    V4(Ipv4Addr),
    V6(Ipv6Addr),
}

/// The number whose big-endian base-256 digits are `s`.
pub open spec fn be_value(s: Seq<u8>) -> nat
    decreases s.len(),
{
    if s.len() == 0 {
        0
    } else {
        be_value(s.drop_last()) * 256 + s.last() as nat
    }
}

/// The last `n` base-65536 digits of `value`, most significant first.
pub open spec fn low_groups(value: nat, n: nat) -> Seq<nat>
    decreases n,
{
    if n == 0 {
        Seq::empty()
    } else {
        low_groups(value / 65536, (n - 1) as nat).push(value % 65536)
    }
}

/// The number whose base-65536 digits are `g`, most significant first.
pub open spec fn groups_value(g: Seq<nat>) -> nat
    decreases g.len(),
{
    if g.len() == 0 {
        0
    } else {
        groups_value(g.drop_last()) * 65536 + g.last()
    }
}

/// The eight 16-bit groups of an IPv6 address.
pub open spec fn segments(ip: Ipv6Addr) -> Seq<nat> {
    low_groups(ip.bits as nat, 8)
}

/// Whether the address lies in `fe80::/10`.
pub open spec fn link_local(ip: Ipv6Addr) -> bool {
    0xfe80_0000_0000_0000_0000_0000_0000_0000 <= ip.bits
        <= 0xfebf_ffff_ffff_ffff_ffff_ffff_ffff_ffff
}

/// Connect preference: IPv4 first, then global IPv6, then link-local IPv6.
pub open spec fn priority(ip: IpAddr) -> int {
    match ip {
        IpAddr::V4(_) => 0,
        IpAddr::V6(v6) => if link_local(v6) {
            2
        } else {
            1
        },
    }
}

/// The value of one octet of a dotted IPv4 address: one to three decimal digits, no leading
/// zero in front of another digit, at most 255.
pub open spec fn octet(s: Seq<char>) -> Option<nat> {
    if 1 <= s.len() <= 3 && text::all_digits(s, 10) && (s.len() > 1 ==> s[0] != '0') && text::number(s, 10)
        <= 255 {
        Some(text::number(s, 10))
    } else {
        None
    }
}

/// The IPv4 address that `s` spells: four octets separated by dots.
pub open spec fn ipv4_value(s: Seq<char>) -> Option<nat> {
    let p = text::split_on(s, '.');
    if p.len() == 4 && octet(p[0]) is Some && octet(p[1]) is Some && octet(p[2]) is Some && octet(
        p[3],
    ) is Some {
        Some(
            ((octet(p[0])->0 * 256 + octet(p[1])->0) * 256 + octet(p[2])->0) * 256 + octet(
                p[3],
            )->0,
        )
    } else {
        None
    }
}

/// The value of one group of an IPv6 address: one to four hexadecimal digits.
pub open spec fn hex_group(s: Seq<char>) -> Option<nat> {
    if 1 <= s.len() <= 4 && text::all_digits(s, 16) {
        Some(text::number(s, 16))
    } else {
        None
    }
}

/// The groups that the pieces `p` spell, where the last piece may be a dotted IPv4 address
/// standing for two groups if `dotted` allows it.
pub open spec fn group_list(p: Seq<Seq<char>>, dotted: bool) -> Option<Seq<nat>>
    decreases p.len(),
{
    if p.len() == 0 {
        Some(Seq::empty())
    } else if hex_group(p.last()) is Some {
        match group_list(p.drop_last(), false) {
            Some(g) => Some(g.push(hex_group(p.last())->0)),
            None => None,
        }
    } else if dotted && ipv4_value(p.last()) is Some {
        match group_list(p.drop_last(), false) {
            Some(g) => Some(
                g.push(ipv4_value(p.last())->0 / 65536).push(ipv4_value(p.last())->0 % 65536),
            ),
            None => None,
        }
    } else {
        None
    }
}

/// The groups of one side of an IPv6 address: none, or pieces separated by colons.
pub open spec fn side(s: Seq<char>, dotted: bool) -> Option<Seq<nat>> {
    if s.len() == 0 {
        Some(Seq::empty())
    } else {
        group_list(text::split_on(s, ':'), dotted)
    }
}

/// The position of the first `::` in `s`, or the length of `s` when there is none.
pub open spec fn double_colon(s: Seq<char>) -> int
    decreases s.len(),
{
    if s.len() < 2 {
        s.len() as int
    } else if s[0] == ':' && s[1] == ':' {
        0
    } else {
        1 + double_colon(s.drop_first())
    }
}

pub open spec fn zeros(n: nat) -> Seq<nat> {
    Seq::new(n, |i: int| 0nat)
}

/// The eight groups of the IPv6 address that `s` spells: all eight written out, or at most
/// seven with one `::` for the missing zeros.
pub open spec fn ipv6_groups(s: Seq<char>) -> Option<Seq<nat>> {
    let p = double_colon(s);
    if p == s.len() {
        match side(s, true) {
            Some(g) => if g.len() == 8 {
                Some(g)
            } else {
                None
            },
            None => None,
        }
    } else {
        match (side(s.take(p), false), side(s.skip(p + 2), true)) {
            (Some(head), Some(tail)) => if head.len() + tail.len() <= 7 {
                Some(head + zeros((8 - head.len() - tail.len()) as nat) + tail)
            } else {
                None
            },
            _ => None,
        }
    }
}

/// The IP address that `s` spells.
pub open spec fn ip_value(s: Seq<char>) -> Option<IpAddr> {
    if ipv4_value(s) is Some {
        Some(IpAddr::V4(Ipv4Addr { bits: ipv4_value(s)->0 as u32 }))
    } else if ipv6_groups(s) is Some {
        Some(IpAddr::V6(ipv6_of(ipv6_groups(s)->0)))
    } else {
        None
    }
}

/// The IPv6 address with the groups `g`.
pub open spec fn ipv6_of(g: Seq<nat>) -> Ipv6Addr {
    Ipv6Addr { bits: groups_value(g) as u128 }
}

impl Ipv4Addr {
    /// The address `a.b.c.d`.
    pub fn new(a: u8, b: u8, c: u8, d: u8) -> (r: Ipv4Addr)
        ensures
            r.bits == ((a * 256 + b) * 256 + c) * 256 + d,
    {
        Ipv4Addr { bits: ((a as u32 * 256 + b as u32) * 256 + c as u32) * 256 + d as u32 }
    }
}

impl Ipv6Addr {
    /// The address whose octets are `bytes`, most significant first.
    pub fn from_bytes(bytes: &[u8]) -> (r: Ipv6Addr)
        requires
            bytes@.len() == 16,
        ensures
            r.bits == be_value(bytes@),
    {
        let mut bits: u128 = 0;
        let mut i: usize = 0;
        assert(bytes@.take(0) == Seq::<u8>::empty());
        let ghost mut cap: int = 1;
        while i < 16
            invariant
                i <= 16 == bytes@.len(),
                bits == be_value(bytes@.take(i as int)),
                bits < cap,
                cap == pow256(i as nat),
            decreases 16 - i,
        {
            assert(bytes@.take(i + 1).drop_last() == bytes@.take(i as int));
            proof {
                lemma_pow256(i as nat);
                cap = cap * 256;
            }
            bits = bits * 256 + bytes[i] as u128;
            i = i + 1;
        }
        assert(bytes@.take(16) == bytes@);
        Ipv6Addr { bits }
    }
}

spec fn pow256(k: nat) -> int
    decreases k,
{
    if k == 0 {
        1
    } else {
        pow256((k - 1) as nat) * 256
    }
}

proof fn lemma_pow256(k: nat)
    requires
        k < 16,
    ensures
        pow256(k) * 256 == pow256(k + 1),
        1 <= pow256(k) <= 0x1_0000_0000_0000_0000_0000_0000_0000_00,
{
    reveal_with_fuel(pow256, 18);
}

/// Whether the address lies in `fe80::/10`.
pub fn is_link_local(v6: Ipv6Addr) -> (r: bool)
    ensures
        r == link_local(v6),
{
    0xfe80_0000_0000_0000_0000_0000_0000_0000 <= v6.bits && v6.bits
        <= 0xfebf_ffff_ffff_ffff_ffff_ffff_ffff_ffff
}

/// Connect preference: IPv4 (0), then global IPv6 (1), then link-local IPv6 (2), which is
/// not routable without a zone id.
pub fn addr_priority(ip: &IpAddr) -> (r: u8)
    ensures
        r == priority(*ip),
{
    match ip {
        IpAddr::V4(_) => 0,
        IpAddr::V6(v6) => if is_link_local(*v6) {
            2
        } else {
            1
        },
    }
}

fn parse_octet(v: &Vec<char>) -> (r: Option<u32>)
    ensures
        match r {
            Some(n) => octet(v@) == Some(n as nat) && n <= 255,
            None => octet(v@) is None,
        },
{
    assert(v@.skip(0) == v@);
    if v.len() == 0 || v.len() > 3 || (v.len() > 1 && v[0] == '0') {
        return None;
    }
    match text::parse_digits(v, 0, 10, 255) {
        Some(n) => Some(n as u32),
        None => None,
    }
}

fn parse_v4_chars(v: &Vec<char>) -> (r: Option<u32>)
    ensures
        match r {
            Some(n) => ipv4_value(v@) == Some(n as nat),
            None => ipv4_value(v@) is None,
        },
{
    let p: Vec<Vec<char>> = text::split(v, '.');
    if p.len() != 4 {
        return None;
    }
    let ghost q = text::split_on(v@, '.');
    assert(p@[0]@ == q[0] && p@[1]@ == q[1] && p@[2]@ == q[2] && p@[3]@ == q[3]);
    match (parse_octet(&p[0]), parse_octet(&p[1]), parse_octet(&p[2]), parse_octet(&p[3])) {
        (Some(a), Some(b), Some(c), Some(d)) => Some(((a * 256 + b) * 256 + c) * 256 + d),
        _ => None,
    }
}

fn parse_hex_group(v: &Vec<char>) -> (r: Option<u16>)
    ensures
        match r {
            Some(n) => hex_group(v@) == Some(n as nat),
            None => hex_group(v@) is None,
        },
{
    assert(v@.skip(0) == v@);
    if v.len() == 0 || v.len() > 4 {
        return None;
    }
    proof {
        if text::all_digits(v@, 16) {
            lemma_hex_bound(v@);
        }
    }
    match text::parse_digits(v, 0, 16, 65535) {
        Some(n) => Some(n as u16),
        None => None,
    }
}

/// Up to four hexadecimal digits spell a number below 65536.
proof fn lemma_hex_bound(s: Seq<char>)
    requires
        s.len() <= 4,
        text::all_digits(s, 16),
    ensures
        text::number(s, 16) < 65536,
{
    reveal_with_fuel(text::number, 5);
    let s1 = s.drop_last();
    let s2 = s1.drop_last();
    let s3 = s2.drop_last();
    if s.len() > 0 {
        assert(text::digit_value(s.last()) < 16);
    }
    if s.len() > 1 {
        assert(s1.last() == s[s.len() - 2]);
    }
    if s.len() > 2 {
        assert(s2.last() == s[s.len() - 3]);
    }
    if s.len() > 3 {
        assert(s3.last() == s[s.len() - 4]);
    }
}

/// Whether `g` holds the groups `m`.
spec fn holds(g: Seq<u16>, m: Seq<nat>) -> bool {
    g.len() == m.len() && forall|i: int| 0 <= i < g.len() ==> #[trigger] g[i] == m[i]
}

fn parse_side(v: &Vec<char>, dotted: bool) -> (r: Option<Vec<u16>>)
    ensures
        match r {
            Some(g) => side(v@, dotted) is Some && holds(g@, side(v@, dotted)->0),
            None => side(v@, dotted) is None,
        },
{
    let mut g: Vec<u16> = Vec::new();
    if v.len() == 0 {
        return Some(g);
    }
    let p: Vec<Vec<char>> = text::split(v, ':');
    let ghost q = text::split_on(v@, ':');
    let n: usize = p.len();
    assert(n > 0);
    let mut i: usize = 0;
    assert(q.take(0) == Seq::<Seq<char>>::empty());
    while i < n - 1
        invariant
            0 < n == p@.len() == q.len(),
            i <= n - 1,
            q == text::split_on(v@, ':'),
            v@.len() > 0,
            forall|k: int| 0 <= k < n ==> (#[trigger] p@[k])@ == q[k],
            group_list(q.take(i as int), false) is Some,
            holds(g@, group_list(q.take(i as int), false)->0),
        decreases n - i,
    {
        assert(q.take(i + 1).drop_last() == q.take(i as int));
        assert(p@[i as int]@ == q[i as int]);
        match parse_hex_group(&p[i]) {
            Some(x) => {
                g.push(x);
            },
            None => {
                proof {
                    lemma_bad_group(q, i + 1, dotted);
                }
                return None;
            },
        }
        i = i + 1;
    }
    assert(q.drop_last() == q.take(n - 1));
    assert(p@[n - 1]@ == q.last());
    match parse_hex_group(&p[n - 1]) {
        Some(x) => {
            g.push(x);
            Some(g)
        },
        None => {
            if dotted {
                match parse_v4_chars(&p[n - 1]) {
                    Some(x) => {
                        g.push((x / 65536) as u16);
                        g.push((x % 65536) as u16);
                        Some(g)
                    },
                    None => None,
                }
            } else {
                None
            }
        },
    }
}

/// Pieces that begin with pieces that spell no groups spell none themselves.
proof fn lemma_bad_group(q: Seq<Seq<char>>, i: int, dotted: bool)
    requires
        0 < i < q.len(),
        group_list(q.take(i), false) is None,
    ensures
        group_list(q, dotted) is None,
    decreases q.len(),
{
    let t = q.drop_last();
    if i < t.len() {
        assert(t.take(i) == q.take(i));
        lemma_bad_group(t, i, false);
    } else {
        assert(t == q.take(i));
    }
}

fn find_double_colon(v: &Vec<char>) -> (r: usize)
    ensures
        r == double_colon(v@),
        r == v@.len() || r + 2 <= v@.len(),
{
    let mut i: usize = 0;
    assert(v@.skip(0) == v@);
    while i < v.len()
        invariant
            i <= v@.len(),
            double_colon(v@) == i + double_colon(v@.skip(i as int)),
        decreases v@.len() - i,
    {
        if v.len() - i < 2 {
            return v.len();
        }
        if v[i] == ':' && v[i + 1] == ':' {
            return i;
        }
        assert(v@.skip(i as int).drop_first() == v@.skip(i + 1));
        i = i + 1;
    }
    i
}

fn value_of(g: &Vec<u16>, m: Ghost<Seq<nat>>) -> (r: u128)
    requires
        g@.len() == 8,
        holds(g@, m@),
    ensures
        r == groups_value(m@),
{
    let mut bits: u128 = 0;
    let mut i: usize = 0;
    assert(m@.take(0) == Seq::<nat>::empty());
    while i < 8
        invariant
            i <= 8 == g@.len(),
            holds(g@, m@),
            bits == groups_value(m@.take(i as int)),
            bits < pow256((2 * i) as nat),
        decreases 8 - i,
    {
        assert(m@.take(i + 1).drop_last() == m@.take(i as int));
        assert(g@[i as int] == m@[i as int]);
        proof {
            lemma_pow256((2 * i) as nat);
            lemma_pow256((2 * i + 1) as nat);
        }
        bits = bits * 65536 + g[i] as u128;
        i = i + 1;
    }
    let ghost all = m@;
    assert(all.len() == 8);
    assert(all.take(8) == all);
    bits
}

fn parse_v6_chars(v: &Vec<char>) -> (r: Option<Ipv6Addr>)
    ensures
        match r {
            Some(ip) => ipv6_groups(v@) is Some && ip == ipv6_of(ipv6_groups(v@)->0),
            None => ipv6_groups(v@) is None,
        },
{
    let p: usize = find_double_colon(v);
    if p == v.len() {
        match parse_side(v, true) {
            Some(g) => {
                if g.len() == 8 {
                    let bits: u128 = value_of(&g, Ghost(side(v@, true)->0));
                    Some(Ipv6Addr { bits })
                } else {
                    None
                }
            },
            None => None,
        }
    } else {
        let left: Vec<char> = text::slice_of(v, 0, p);
        let right: Vec<char> = text::slice_of(v, p + 2, v.len());
        assert(left@ == v@.take(p as int));
        assert(right@ == v@.skip(p + 2));
        let mut head: Vec<u16> = match parse_side(&left, false) {
            Some(g) => g,
            None => {
                return None;
            },
        };
        let tail: Vec<u16> = match parse_side(&right, true) {
            Some(g) => g,
            None => {
                return None;
            },
        };
        let n: usize = head.len();
        let m: usize = tail.len();
        if n > 7 || m > 7 - n {
            return None;
        }
        let ghost h = side(v@.take(p as int), false)->0;
        let ghost t = side(v@.skip(p + 2), true)->0;
        let ghost all = h + zeros((8 - n - m) as nat) + t;
        while head.len() < 8 - m
            invariant
                n + m <= 7,
                n <= head@.len() <= 8 - m,
                h.len() == n,
                t.len() == m,
                all == h + zeros((8 - n - m) as nat) + t,
                forall|k: int| 0 <= k < head@.len() ==> #[trigger] head@[k] == all[k],
            decreases 8 - head@.len(),
        {
            head.push(0);
        }
        let mut i: usize = 0;
        while i < m
            invariant
                n + m <= 7,
                i <= m == tail@.len(),
                head@.len() == 8 - m + i,
                h.len() == n,
                holds(tail@, t),
                all == h + zeros((8 - n - m) as nat) + t,
                forall|k: int| 0 <= k < head@.len() ==> #[trigger] head@[k] == all[k],
            decreases m - i,
        {
            assert(tail@[i as int] == t[i as int]);
            assert(all[8 - m + i] == t[i as int]);
            head.push(tail[i]);
            i = i + 1;
        }
        let bits: u128 = value_of(&head, Ghost(all));
        Some(Ipv6Addr { bits })
    }
}

/// Reads an IPv6 address.
pub fn parse_ipv6(s: &str) -> (r: Option<Ipv6Addr>)
    ensures
        match r {
            Some(ip) => ipv6_groups(s@) is Some && ip == ipv6_of(ipv6_groups(s@)->0),
            None => ipv6_groups(s@) is None,
        },
{
    let v: Vec<char> = text::to_chars(s);
    parse_v6_chars(&v)
}

/// Reads an IPv4 or an IPv6 address.
pub fn parse_ip(s: &str) -> (r: Option<IpAddr>)
    ensures
        r == ip_value(s@),
{
    let v: Vec<char> = text::to_chars(s);
    match parse_v4_chars(&v) {
        Some(bits) => Some(IpAddr::V4(Ipv4Addr { bits })),
        None => match parse_v6_chars(&v) {
            Some(ip) => Some(IpAddr::V6(ip)),
            None => None,
        },
    }
}

/// The dotted form of an IPv4 address.
pub open spec fn v4_text(bits: nat) -> Seq<char> {
    text::decimal_text(bits / 16777216) + seq!['.'] + text::decimal_text(bits / 65536 % 256)
        + seq!['.'] + text::decimal_text(bits / 256 % 256) + seq!['.'] + text::decimal_text(
        bits % 256,
    )
}

/// The groups `g` in hexadecimal, separated by colons.
pub open spec fn hex_list(g: Seq<nat>) -> Seq<char>
    decreases g.len(),
{
    if g.len() == 0 {
        Seq::empty()
    } else if g.len() == 1 {
        text::digits_of(g[0], 16)
    } else {
        hex_list(g.drop_last()) + seq![':'] + text::digits_of(g.last(), 16)
    }
}

/// The number of consecutive zeros in `g` from position `i` on.
pub open spec fn zero_run(g: Seq<nat>, i: int) -> int
    decreases g.len() - i,
{
    if 0 <= i < g.len() && g[i] == 0 {
        1 + zero_run(g, i + 1)
    } else {
        0
    }
}

/// The start and the length of the longest run of zeros in `g` from position `i` on; the
/// first of several equally long ones.
pub open spec fn longest_run(g: Seq<nat>, i: int) -> (int, int)
    decreases g.len() - i,
{
    if 0 <= i < g.len() {
        let rest = longest_run(g, i + 1);
        if zero_run(g, i) > 0 && zero_run(g, i) >= rest.1 {
            (i, zero_run(g, i))
        } else {
            rest
        }
    } else {
        (0, 0)
    }
}

/// The canonical form of an IPv6 address: an IPv4-mapped address with its IPv4 part
/// dotted, any other with its longest run of at least two zero groups written `::`.
pub open spec fn v6_text(ip: Ipv6Addr) -> Seq<char> {
    let g = segments(ip);
    let z = longest_run(g, 0);
    if ip.bits / 0x1_0000_0000 == 0xffff {
        "::ffff:"@ + v4_text((ip.bits % 0x1_0000_0000) as nat)
    } else if z.1 > 1 {
        hex_list(g.take(z.0)) + "::"@ + hex_list(g.skip(z.0 + z.1))
    } else {
        hex_list(g)
    }
}

/// The textual form of an IP address.
pub open spec fn ip_text(ip: IpAddr) -> Seq<char> {
    match ip {
        IpAddr::V4(v4) => v4_text(v4.bits as nat),
        IpAddr::V6(v6) => v6_text(v6),
    }
}

fn format_v4(bits: u32) -> (r: String)
    ensures
        r@ == v4_text(bits as nat),
{
    let mut r: String = text::decimal((bits / 16777216) as u64);
    r.push('.');
    r.append(&text::decimal((bits / 65536 % 256) as u64));
    r.push('.');
    r.append(&text::decimal((bits / 256 % 256) as u64));
    r.push('.');
    r.append(&text::decimal((bits % 256) as u64));
    assert(r@ =~= v4_text(bits as nat));
    r
}

fn segment_list(ip: Ipv6Addr) -> (r: Vec<u16>)
    ensures
        r@.len() == 8,
        holds(r@, segments(ip)),
{
    let mut r: Vec<u16> = Vec::new();
    let mut i: usize = 0;
    while i < 8
        invariant
            i <= 8,
            r@.len() == i,
        decreases 8 - i,
    {
        r.push(0);
        i = i + 1;
    }
    let mut rest: u128 = ip.bits;
    let mut n: usize = 8;
    let ghost all = segments(ip);
    proof {
        lemma_low_groups_len(ip.bits as nat, 8);
    }
    while n > 0
        invariant
            n <= 8,
            r@.len() == 8 == all.len(),
            all.take(n as int) == low_groups(rest as nat, n as nat),
            forall|k: int| n <= k < 8 ==> #[trigger] r@[k] == all[k],
        decreases n,
    {
        let ghost before = rest;
        r.set(n - 1, (rest % 65536) as u16);
        rest = rest / 65536;
        proof {
            let lg = low_groups(before as nat, n as nat);
            let tail = low_groups(rest as nat, (n - 1) as nat);
            assert(lg == tail.push((before % 65536) as nat));
            lemma_low_groups_len(rest as nat, (n - 1) as nat);
            assert(all.take(n as int)[n - 1] == lg[n - 1]);
            assert(all.take(n - 1) =~= tail) by {
                assert forall|k: int| 0 <= k < n - 1 implies all[k] == tail[k] by {
                    assert(all.take(n as int)[k] == lg[k]);
                }
            }
        }
        n = n - 1;
    }
    r
}

pub proof fn lemma_low_groups_len(value: nat, n: nat)
    ensures
        low_groups(value, n).len() == n,
        forall|i: int| 0 <= i < n ==> #[trigger] low_groups(value, n)[i] < 65536,
    decreases n,
{
    if n > 0 {
        lemma_low_groups_len(value / 65536, (n - 1) as nat);
    }
}

fn format_groups(g: &Vec<u16>, from: usize, to: usize, m: Ghost<Seq<nat>>) -> (r: String)
    requires
        from <= to <= g@.len(),
        holds(g@, m@),
    ensures
        r@ == hex_list(m@.subrange(from as int, to as int)),
{
    let mut r = String::new();
    let mut i: usize = from;
    let ghost all = m@;
    while i < to
        invariant
            from <= i <= to <= g@.len(),
            holds(g@, all),
            r@ == hex_list(all.subrange(from as int, i as int)),
        decreases to - i,
    {
        let ghost part = all.subrange(from as int, i + 1);
        assert(part.drop_last() == all.subrange(from as int, i as int));
        if i > from {
            r.push(':');
        }
        r.append(&text::digits(g[i] as u64, 16));
        assert(g@[i as int] == all[i as int]);
        assert(r@ =~= hex_list(part));
        i = i + 1;
    }
    r
}

fn format_v6(ip: Ipv6Addr) -> (r: String)
    ensures
        r@ == v6_text(ip),
{
    if ip.bits / 0x1_0000_0000 == 0xffff {
        return text::join2("::ffff:", &format_v4((ip.bits % 0x1_0000_0000) as u32));
    }
    let g: Vec<u16> = segment_list(ip);
    let ghost m = segments(ip);
    let mut start: usize = 0;
    let mut len: usize = 0;
    let mut run: usize = 0;
    let mut i: usize = 8;
    while i > 0
        invariant
            i <= 8 == g@.len(),
            m == segments(ip),
            holds(g@, m),
            run == zero_run(m, i as int),
            run <= 8 - i,
            (start as int, len as int) == longest_run(m, i as int),
            start + len <= 8,
        decreases i,
    {
        assert(g@[i - 1] == m[i - 1]);
        if g[i - 1] == 0 {
            run = run + 1;
            if run >= len {
                start = i - 1;
                len = run;
            }
        } else {
            run = 0;
        }
        i = i - 1;
    }
    if len > 1 {
        let head: String = format_groups(&g, 0, start, Ghost(m));
        let tail: String = format_groups(&g, start + len, 8, Ghost(m));
        assert(m.subrange(0, start as int) == m.take(start as int));
        assert(m.subrange(start + len, 8) == m.skip(start + len));
        text::join3(&head, "::", &tail)
    } else {
        assert(m.subrange(0, 8) == m);
        format_groups(&g, 0, 8, Ghost(m))
    }
}

impl IpAddr {
    /// The textual form of the address.
    pub fn to_text(&self) -> (r: String)
        ensures
            r@ == ip_text(*self),
    {
        match self {
            IpAddr::V4(v4) => format_v4(v4.bits),
            IpAddr::V6(v6) => format_v6(*v6),
        }
    }
}

proof fn lemma_octet_reads_back(n: nat)
    requires
        n <= 255,
    ensures
        octet(text::decimal_text(n)) == Some(n),
        text::lacks(text::decimal_text(n), '.'),
        text::lacks(text::decimal_text(n), ':'),
{
    text::lemma_digits_spell(n, 10);
    text::lemma_short_digits(n);
    text::lemma_digits_lack(text::decimal_text(n), 10, '.');
    text::lemma_digits_lack(text::decimal_text(n), 10, ':');
}

/// Four texts without dots, joined by dots, split into those four.
proof fn lemma_dotted_splits(a: Seq<char>, b: Seq<char>, c: Seq<char>, d: Seq<char>)
    requires
        text::lacks(a, '.'),
        text::lacks(b, '.'),
        text::lacks(c, '.'),
        text::lacks(d, '.'),
    ensures
        text::split_on(a + seq!['.'] + b + seq!['.'] + c + seq!['.'] + d, '.') == seq![a, b, c, d],
{
    let cd = c + seq!['.'] + d;
    let bcd = b + seq!['.'] + cd;
    assert(a + seq!['.'] + b + seq!['.'] + c + seq!['.'] + d =~= a + seq!['.'] + bcd);
    text::lemma_split_front(a, '.', bcd);
    text::lemma_split_front(b, '.', cd);
    text::lemma_split_front(c, '.', d);
    text::lemma_split_front(d, '.', d);
    assert(seq![a] + (seq![b] + (seq![c] + seq![d])) =~= seq![a, b, c, d]);
}

proof fn lemma_octets_make_value(bits: nat)
    requires
        bits <= u32::MAX,
    ensures
        bits / 16777216 <= 255,
        ((bits / 16777216 * 256 + bits / 65536 % 256) * 256 + bits / 256 % 256) * 256 + bits % 256
            == bits,
{
    let x = bits / 256;
    let y = bits / 65536;
    assert(x / 256 == y);
    assert(y / 256 == bits / 16777216);
    assert(y == y / 256 * 256 + y % 256);
    assert(x == x / 256 * 256 + x % 256);
}

proof fn lemma_v4_reads_back(bits: nat)
    requires
        bits <= u32::MAX,
    ensures
        ipv4_value(v4_text(bits)) == Some(bits),
        text::lacks(v4_text(bits), ':'),
        v4_text(bits).len() >= 1,
        v4_text(bits).contains('.'),
{
    let (a, b, c, d) = (bits / 16777216, bits / 65536 % 256, bits / 256 % 256, bits % 256);
    let (ta, tb, tc, td) = (
        text::decimal_text(a),
        text::decimal_text(b),
        text::decimal_text(c),
        text::decimal_text(d),
    );
    let s = v4_text(bits);
    assert(s == ta + seq!['.'] + tb + seq!['.'] + tc + seq!['.'] + td);
    lemma_octets_make_value(bits);
    lemma_octet_reads_back(a);
    lemma_octet_reads_back(b);
    lemma_octet_reads_back(c);
    lemma_octet_reads_back(d);
    lemma_dotted_splits(ta, tb, tc, td);
    let p = text::split_on(s, '.');
    assert(p[0] == ta && p[1] == tb && p[2] == tc && p[3] == td);
    assert(s[ta.len() as int] == '.');
    assert(text::lacks(s, ':')) by {
        assert forall|k: int| 0 <= k < p.len() implies text::lacks(#[trigger] p[k], ':') by {}
        text::lemma_pieces_lack(s, '.', ':');
    }
}

/// A text with a colon is no IPv4 address.
proof fn lemma_colon_is_not_v4(s: Seq<char>, i: int)
    requires
        0 <= i < s.len(),
        s[i] == ':',
    ensures
        ipv4_value(s) is None,
{
    if ipv4_value(s) is Some {
        let p = text::split_on(s, '.');
        assert forall|k: int| 0 <= k < p.len() implies text::lacks(#[trigger] p[k], ':') by {
            assert(octet(p[k]) is Some);
            text::lemma_digits_lack(p[k], 10, ':');
        }
        text::lemma_pieces_lack(s, '.', ':');
    }
}

/// Whether every group fits in 16 bits.
spec fn group_sized(g: Seq<nat>) -> bool {
    forall|i: int| 0 <= i < g.len() ==> #[trigger] g[i] < 65536
}

/// Whether the colons of `s` stand alone and not at either end.
spec fn single_colons(s: Seq<char>) -> bool {
    forall|i: int|
        0 <= i < s.len() && #[trigger] s[i] == ':' ==> 0 < i < s.len() - 1 && s[i + 1] != ':'
}

proof fn lemma_group_reads_back(n: nat)
    requires
        n < 65536,
    ensures
        hex_group(text::digits_of(n, 16)) == Some(n),
        text::lacks(text::digits_of(n, 16), ':'),
        text::digits_of(n, 16).len() >= 1,
{
    text::lemma_digits_spell(n, 16);
    text::lemma_short_digits(n);
    text::lemma_digits_lack(text::digits_of(n, 16), 16, ':');
}

proof fn lemma_list_reads_back(g: Seq<nat>, dotted: bool)
    requires
        group_sized(g),
    ensures
        side(hex_list(g), dotted) == Some(g),
        single_colons(hex_list(g)),
        g.len() == 0 <==> hex_list(g).len() == 0,
        g.len() > 0 ==> group_list(text::split_on(hex_list(g), ':'), dotted) == Some(g),
    decreases g.len(),
{
    let s = hex_list(g);
    if g.len() == 0 {
        assert(g =~= Seq::<nat>::empty());
    } else {
        let t = text::digits_of(g.last(), 16);
        lemma_group_reads_back(g.last());
        if g.len() == 1 {
            assert(s == t);
            text::lemma_split_front(t, ':', t);
            let p = text::split_on(s, ':');
            assert(p =~= seq![t]);
            assert(p.drop_last() =~= Seq::<Seq<char>>::empty());
            assert(group_list(p.drop_last(), false) == Some(Seq::<nat>::empty()));
            assert(Seq::<nat>::empty().push(g.last()) =~= g);
        } else {
            let front = g.drop_last();
            assert(group_sized(front)) by {
                assert forall|i: int| 0 <= i < front.len() implies #[trigger] front[i] < 65536 by {
                    assert(front[i] == g[i]);
                }
            }
            lemma_list_reads_back(front, false);
            let h = hex_list(front);
            assert(s == h + seq![':'] + t);
            text::lemma_split_back(h, ':', t);
            let p = text::split_on(s, ':');
            assert(p.drop_last() =~= text::split_on(h, ':'));
            assert(p.last() == t);
            assert(front.push(g.last()) =~= g);
            assert forall|i: int| 0 <= i < s.len() && #[trigger] s[i] == ':' implies 0 < i < s.len()
                - 1 && s[i + 1] != ':' by {
                if i < h.len() {
                    assert(h[i] == ':');
                    assert(s[i + 1] == h[i + 1]);
                } else if i == h.len() {
                    assert(s[i + 1] == t[0]);
                } else {
                    assert(s[i] == t[i - h.len() - 1]);
                }
            }
        }
    }
}

proof fn lemma_double_colon_is(s: Seq<char>, p: int)
    requires
        0 <= p <= s.len(),
        p < s.len() ==> p + 2 <= s.len() && s[p] == ':' && s[p + 1] == ':',
        forall|i: int| 0 <= i < p && i + 1 < s.len() && #[trigger] s[i] == ':' ==> s[i + 1] != ':',
    ensures
        double_colon(s) == p,
    decreases s.len(),
{
    if s.len() >= 2 && p > 0 {
        let t = s.drop_first();
        assert(!(s[0] == ':' && s[1] == ':'));
        assert forall|i: int| 0 <= i < p - 1 && i + 1 < t.len() && #[trigger] t[i] == ':' implies t[i
            + 1] != ':' by {
            assert(s[i + 1] == t[i]);
            assert(s[i + 2] == t[i + 1]);
        }
        if p < s.len() {
            assert(t[p - 1] == s[p] && t[p] == s[p + 1]);
        }
        lemma_double_colon_is(t, p - 1);
    }
}

proof fn lemma_zero_run(g: Seq<nat>, i: int)
    requires
        0 <= i <= g.len(),
    ensures
        0 <= zero_run(g, i) <= g.len() - i,
        forall|k: int| i <= k < i + zero_run(g, i) ==> #[trigger] g[k] == 0,
    decreases g.len() - i,
{
    if i < g.len() && g[i] == 0 {
        lemma_zero_run(g, i + 1);
    }
}

proof fn lemma_longest_run(g: Seq<nat>, i: int)
    requires
        0 <= i <= g.len(),
    ensures
        ({
            let z = longest_run(g, i);
            &&& 0 <= z.0 && 0 <= z.1 && z.0 + z.1 <= g.len()
            &&& forall|k: int| z.0 <= k < z.0 + z.1 ==> #[trigger] g[k] == 0
        }),
    decreases g.len() - i,
{
    if i < g.len() {
        lemma_longest_run(g, i + 1);
        lemma_zero_run(g, i);
    }
}

spec fn pow65536(n: nat) -> nat
    decreases n,
{
    if n == 0 {
        1
    } else {
        65536 * pow65536((n - 1) as nat)
    }
}

proof fn lemma_groups_make_value(v: nat, n: nat)
    requires
        v < pow65536(n),
    ensures
        low_groups(v, n).len() == n,
        group_sized(low_groups(v, n)),
        groups_value(low_groups(v, n)) == v,
    decreases n,
{
    let g = low_groups(v, n);
    if n > 0 {
        let front = low_groups(v / 65536, (n - 1) as nat);
        assert(v / 65536 < pow65536((n - 1) as nat));
        lemma_groups_make_value(v / 65536, (n - 1) as nat);
        assert(g =~= front.push(v % 65536));
        assert(g.drop_last() =~= front);
        assert forall|i: int| 0 <= i < g.len() implies #[trigger] g[i] < 65536 by {
            if i < front.len() {
                assert(g[i] == front[i]);
            }
        }
    }
}

proof fn lemma_mapped_segments(ip: Ipv6Addr)
    requires
        ip.bits / 0x1_0000_0000 == 0xffff,
    ensures
        segments(ip) == zeros(5) + seq![
            0xffffnat,
            ((ip.bits % 0x1_0000_0000) / 65536) as nat,
            ((ip.bits % 0x1_0000_0000) % 65536) as nat,
        ],
{
    reveal_with_fuel(low_groups, 9);
    let v = ip.bits as nat;
    let low = v % 0x1_0000_0000;
    assert(v == 0xffff * 0x1_0000_0000 + low);
    let v1 = v / 65536;
    let v2 = v1 / 65536;
    assert(v2 == 0xffff);
    assert(v1 % 65536 == low / 65536);
    assert(v % 65536 == low % 65536);
    let v3 = v2 / 65536;
    assert(v3 == 0);
    assert(segments(ip) =~= zeros(5) + seq![0xffffnat, low / 65536, low % 65536]);
}

/// `::ffff:` and a dotted address read as a mapped address.
proof fn lemma_mapped_reads_back(low: nat)
    requires
        low <= u32::MAX,
    ensures
        ipv6_groups("::ffff:"@ + v4_text(low)) == Some(
            zeros(5) + seq![0xffffnat, low / 65536, low % 65536],
        ),
        ipv4_value("::ffff:"@ + v4_text(low)) is None,
{
    reveal_strlit("::ffff:");
    let t = v4_text(low);
    let s = "::ffff:"@ + t;
    lemma_v4_reads_back(low);
    assert(s =~= seq![':', ':', 'f', 'f', 'f', 'f', ':'] + t);
    assert(s[0] == ':' && s[1] == ':');
    assert(double_colon(s) == 0);
    let tail = s.skip(2);
    let f = seq!['f', 'f', 'f', 'f'];
    assert(tail =~= f + seq![':'] + t);
    lemma_mapped_tail(low);
    let tg = seq![0xffffnat, low / 65536, low % 65536];
    assert(side(s.take(0), false) == Some(Seq::<nat>::empty()));
    assert(Seq::<nat>::empty() + zeros(5) + tg =~= zeros(5) + tg);
    lemma_colon_is_not_v4(s, 0);
}

proof fn lemma_mapped_tail(low: nat)
    requires
        low <= u32::MAX,
    ensures
        side(seq!['f', 'f', 'f', 'f'] + seq![':'] + v4_text(low), true) == Some(
            seq![0xffffnat, low / 65536, low % 65536],
        ),
{
    let t = v4_text(low);
    let f = seq!['f', 'f', 'f', 'f'];
    let tail = f + seq![':'] + t;
    lemma_v4_reads_back(low);
    assert(text::lacks(f, ':'));
    text::lemma_split_front(f, ':', t);
    text::lemma_split_front(t, ':', t);
    let p = text::split_on(tail, ':');
    assert(p =~= seq![f, t]);
    assert(hex_group(t) is None) by {
        let i = choose|i: int| 0 <= i < t.len() && t[i] == '.';
        assert(text::digit_value(t[i]) == 16);
    }
    let q = p.drop_last();
    assert(q =~= seq![f]);
    lemma_ffff(f);
    assert(q.drop_last() =~= Seq::<Seq<char>>::empty());
    assert(group_list(q.drop_last(), false) == Some(Seq::<nat>::empty()));
    assert(group_list(q, false) == Some(Seq::<nat>::empty().push(0xffffnat)));
    assert(Seq::<nat>::empty().push(0xffffnat).push(low / 65536).push(low % 65536) =~= seq![
        0xffffnat,
        low / 65536,
        low % 65536,
    ]);
}

/// Groups with a run of zeros written `::` read back.
proof fn lemma_short_form_reads_back(g: Seq<nat>, start: int, len: int)
    requires
        g.len() == 8,
        group_sized(g),
        0 <= start,
        1 < len,
        start + len <= 8,
        forall|k: int| start <= k < start + len ==> #[trigger] g[k] == 0,
    ensures
        ({
            let s = hex_list(g.take(start)) + "::"@ + hex_list(g.skip(start + len));
            ipv6_groups(s) == Some(g) && ipv4_value(s) is None
        }),
{
    reveal_strlit("::");
    let hg = g.take(start);
    let tg = g.skip(start + len);
    assert(group_sized(hg)) by {
        assert forall|i: int| 0 <= i < hg.len() implies #[trigger] hg[i] < 65536 by {
            assert(hg[i] == g[i]);
        }
    }
    assert(group_sized(tg)) by {
        assert forall|i: int| 0 <= i < tg.len() implies #[trigger] tg[i] < 65536 by {
            assert(tg[i] == g[start + len + i]);
        }
    }
    lemma_list_reads_back(hg, false);
    lemma_list_reads_back(tg, true);
    let h = hex_list(hg);
    let t = hex_list(tg);
    let s = h + "::"@ + t;
    let p = h.len() as int;
    assert(s[p] == ':' && s[p + 1] == ':');
    assert forall|i: int| 0 <= i < p && i + 1 < s.len() && #[trigger] s[i] == ':' implies s[i + 1]
        != ':' by {
        assert(h[i] == ':');
        assert(s[i + 1] == h[i + 1]);
    }
    lemma_double_colon_is(s, p);
    assert(s.take(p) =~= h);
    assert(s.skip(p + 2) =~= t);
    assert(hg + zeros((8 - hg.len() - tg.len()) as nat) + tg =~= g);
    lemma_colon_is_not_v4(s, p);
}

/// Eight groups written out read back.
proof fn lemma_long_form_reads_back(g: Seq<nat>)
    requires
        g.len() == 8,
        group_sized(g),
    ensures
        ipv6_groups(hex_list(g)) == Some(g),
        ipv4_value(hex_list(g)) is None,
{
    let s = hex_list(g);
    lemma_list_reads_back(g, true);
    lemma_double_colon_is(s, s.len() as int);
    let h = hex_list(g.drop_last());
    assert(s[h.len() as int] == ':');
    lemma_colon_is_not_v4(s, h.len() as int);
}

pub proof fn lemma_v6_reads_back(ip: Ipv6Addr)
    ensures
        ipv6_groups(v6_text(ip)) == Some(segments(ip)),
        ipv4_value(v6_text(ip)) is None,
        ipv6_of(segments(ip)) == ip,
{
    let g = segments(ip);
    let z = longest_run(g, 0);
    assert(ip.bits < pow65536(8)) by {
        reveal_with_fuel(pow65536, 9);
    }
    lemma_groups_make_value(ip.bits as nat, 8);
    lemma_longest_run(g, 0);
    if ip.bits / 0x1_0000_0000 == 0xffff {
        lemma_mapped_segments(ip);
        lemma_mapped_reads_back((ip.bits % 0x1_0000_0000) as nat);
    } else if z.1 > 1 {
        lemma_short_form_reads_back(g, z.0, z.1);
    } else {
        lemma_long_form_reads_back(g);
    }
}

proof fn lemma_ffff(f: Seq<char>)
    requires
        f == seq!['f', 'f', 'f', 'f'],
    ensures
        hex_group(f) == Some(0xffffnat),
{
    reveal_with_fuel(text::number, 5);
    assert(f.drop_last() =~= seq!['f', 'f', 'f']);
    assert(f.drop_last().drop_last() =~= seq!['f', 'f']);
    assert(f.drop_last().drop_last().drop_last() =~= seq!['f']);
    assert(f.drop_last().drop_last().drop_last().drop_last() =~= Seq::<char>::empty());
}

/// The textual form of an address reads back as that address.
pub proof fn law_address_text_reads_back(ip: IpAddr)
    ensures
        ip_value(ip_text(ip)) == Some(ip),
{
    match ip {
        IpAddr::V4(v4) => {
            lemma_v4_reads_back(v4.bits as nat);
        },
        IpAddr::V6(v6) => {
            lemma_v6_reads_back(v6);
        },
    }
}

/// Whether `s` holds nothing but digits, dots and colons.
pub open spec fn address_chars(s: Seq<char>) -> bool {
    forall|i: int|
        0 <= i < s.len() ==> text::digit_value(#[trigger] s[i]) < 16 || s[i] == '.' || s[i] == ':'
}

proof fn lemma_digits_are_address_chars(n: nat, radix: nat)
    requires
        2 <= radix <= 16,
    ensures
        address_chars(text::digits_of(n, radix)),
{
    text::lemma_digits_spell(n, radix);
    let d = text::digits_of(n, radix);
    assert forall|i: int| 0 <= i < d.len() implies text::digit_value(#[trigger] d[i]) < 16
        || d[i] == '.' || d[i] == ':' by {
        assert(text::digit_value(d[i]) < radix);
    }
}

proof fn lemma_address_chars_concat(a: Seq<char>, b: Seq<char>)
    requires
        address_chars(a),
        address_chars(b),
    ensures
        address_chars(a + b),
{
    let s = a + b;
    assert forall|i: int| 0 <= i < s.len() implies text::digit_value(#[trigger] s[i]) < 16
        || s[i] == '.' || s[i] == ':' by {
        if i < a.len() {
            assert(s[i] == a[i]);
        } else {
            assert(s[i] == b[i - a.len()]);
        }
    }
}

proof fn lemma_v4_chars(bits: nat)
    ensures
        address_chars(v4_text(bits)),
{
    let dot = seq!['.'];
    let (a, b, c, d) = (
        text::decimal_text(bits / 16777216),
        text::decimal_text(bits / 65536 % 256),
        text::decimal_text(bits / 256 % 256),
        text::decimal_text(bits % 256),
    );
    lemma_digits_are_address_chars(bits / 16777216, 10);
    lemma_digits_are_address_chars(bits / 65536 % 256, 10);
    lemma_digits_are_address_chars(bits / 256 % 256, 10);
    lemma_digits_are_address_chars(bits % 256, 10);
    assert(address_chars(dot));
    lemma_address_chars_concat(a, dot);
    lemma_address_chars_concat(a + dot, b);
    lemma_address_chars_concat(a + dot + b, dot);
    lemma_address_chars_concat(a + dot + b + dot, c);
    lemma_address_chars_concat(a + dot + b + dot + c, dot);
    lemma_address_chars_concat(a + dot + b + dot + c + dot, d);
}

proof fn lemma_list_chars(g: Seq<nat>)
    ensures
        address_chars(hex_list(g)),
    decreases g.len(),
{
    if g.len() > 0 {
        lemma_digits_are_address_chars(g.last(), 16);
        if g.len() > 1 {
            lemma_list_chars(g.drop_last());
            assert(address_chars(seq![':']));
            lemma_address_chars_concat(hex_list(g.drop_last()), seq![':']);
            lemma_address_chars_concat(
                hex_list(g.drop_last()) + seq![':'],
                text::digits_of(g.last(), 16),
            );
        }
    }
}

/// The textual form of an address has at least one character, and only digits, dots and
/// colons.
pub proof fn lemma_address_text_chars(ip: IpAddr)
    ensures
        address_chars(ip_text(ip)),
        ip_text(ip).len() >= 1,
{
    match ip {
        IpAddr::V4(v4) => {
            lemma_v4_chars(v4.bits as nat);
            lemma_v4_reads_back(v4.bits as nat);
        },
        IpAddr::V6(v6) => {
            let g = segments(v6);
            let z = longest_run(g, 0);
            let low = (v6.bits % 0x1_0000_0000) as nat;
            reveal_strlit("::ffff:");
            reveal_strlit("::");
            assert(address_chars("::ffff:"@));
            assert(address_chars("::"@));
            lemma_v4_chars(low);
            lemma_address_chars_concat("::ffff:"@, v4_text(low));
            lemma_list_chars(g.take(z.0));
            lemma_list_chars(g.skip(z.0 + z.1));
            lemma_list_chars(g);
            lemma_address_chars_concat(hex_list(g.take(z.0)), "::"@);
            lemma_address_chars_concat(
                hex_list(g.take(z.0)) + "::"@,
                hex_list(g.skip(z.0 + z.1)),
            );
            lemma_low_groups_len(v6.bits as nat, 8);
            lemma_list_reads_back(g, true);
        },
    }
}

/// An IPv4 address is written as its four octets in decimal, the highest first, with dots
/// between them, and is read from that.
pub proof fn law_dotted_form(a: u8, b: u8, c: u8, d: u8)
    ensures
        ({
            let bits = a * 16777216 + b * 65536 + c * 256 + d;
            let dot = seq!['.'];
            let s = text::decimal_text(a as nat) + dot + text::decimal_text(b as nat) + dot
                + text::decimal_text(c as nat) + dot + text::decimal_text(d as nat);
            &&& ip_text(IpAddr::V4(Ipv4Addr { bits: bits as u32 })) == s
            &&& ip_value(s) == Some(IpAddr::V4(Ipv4Addr { bits: bits as u32 }))
            &&& 0 <= bits <= u32::MAX
        }),
{
    let bits = a * 16777216 + b * 65536 + c * 256 + d;
    let ip = IpAddr::V4(Ipv4Addr { bits: bits as u32 });
    assert(bits / 16777216 == a);
    assert(bits / 65536 == a * 256 + b);
    assert(bits / 256 == a * 65536 + b * 256 + c);
    assert(bits / 65536 % 256 == b);
    assert(bits / 256 % 256 == c);
    assert(bits % 256 == d);
    law_address_text_reads_back(ip);
}

/// Digits without a needless zero in front are how their number is written.
proof fn lemma_digits_unique(s: Seq<char>)
    requires
        s.len() >= 1,
        text::all_digits(s, 10),
        s.len() > 1 ==> s[0] != '0',
    ensures
        s == text::decimal_text(text::number(s, 10)),
        s[0] != '0' ==> text::number(s, 10) > 0,
    decreases s.len(),
{
    let t = s.drop_last();
    let c = s.last();
    let d = text::digit_value(c);
    assert(text::digit_value(s[s.len() - 1]) < 10);
    assert(text::digit_char(d) == c);
    if s.len() == 1 {
        assert(t =~= Seq::<char>::empty());
        assert(text::number(t, 10) == 0);
        assert(text::number(s, 10) == d);
        assert(s =~= seq![c]);
    } else {
        assert forall|i: int| 0 <= i < t.len() implies text::digit_value(#[trigger] t[i]) < 10 by {
            assert(t[i] == s[i]);
        }
        assert(t[0] == s[0]);
        lemma_digits_unique(t);
        let q = text::number(t, 10);
        let n = text::number(s, 10);
        assert(n == q * 10 + d);
        assert(n / 10 == q && n % 10 == d);
        assert(s =~= t.push(c));
    }
}

proof fn lemma_piece_in_front(s: Seq<char>, c: char)
    requires
        text::split_on(s, c).len() > 1,
    ensures
        ({
            let p = text::first_pos(s, c);
            &&& 0 <= p < s.len()
            &&& s == text::split_on(s, c)[0] + seq![c] + s.skip(p + 1)
            &&& text::split_on(s, c).skip(1) == text::split_on(s.skip(p + 1), c)
        }),
{
    text::lemma_first_pos(s, c);
    let p = text::first_pos(s, c);
    let rest = text::split_on(s.skip(p + 1), c);
    assert(text::split_on(s, c) == seq![s.take(p)] + rest);
    assert((seq![s.take(p)] + rest).skip(1) =~= rest);
    assert(s =~= s.take(p) + seq![c] + s.skip(p + 1));
}

proof fn lemma_one_piece(s: Seq<char>, c: char)
    requires
        text::split_on(s, c).len() == 1,
    ensures
        text::split_on(s, c)[0] == s,
{
    text::lemma_first_pos(s, c);
    let p = text::first_pos(s, c);
    if p < s.len() {
        let rest = text::split_on(s.skip(p + 1), c);
        assert(text::split_on(s, c) == seq![s.take(p)] + rest);
        text::lemma_first_pos(s.skip(p + 1), c);
        assert(rest.len() >= 1);
    }
}

proof fn lemma_two_pieces(s: Seq<char>)
    requires
        text::split_on(s, '.').len() == 2,
    ensures
        s == text::split_on(s, '.')[0] + seq!['.'] + text::split_on(s, '.')[1],
{
    let p = text::split_on(s, '.');
    lemma_piece_in_front(s, '.');
    let rest = s.skip(text::first_pos(s, '.') + 1);
    assert(p.skip(1)[0] == p[1]);
    lemma_one_piece(rest, '.');
}

proof fn lemma_three_pieces(s: Seq<char>)
    requires
        text::split_on(s, '.').len() == 3,
    ensures
        ({
            let p = text::split_on(s, '.');
            s == p[0] + seq!['.'] + (p[1] + seq!['.'] + p[2])
        }),
{
    let p = text::split_on(s, '.');
    lemma_piece_in_front(s, '.');
    let rest = s.skip(text::first_pos(s, '.') + 1);
    assert(p.skip(1)[0] == p[1] && p.skip(1)[1] == p[2]);
    lemma_two_pieces(rest);
}

proof fn lemma_four_pieces(s: Seq<char>)
    requires
        text::split_on(s, '.').len() == 4,
    ensures
        ({
            let p = text::split_on(s, '.');
            let dot = seq!['.'];
            s == p[0] + dot + p[1] + dot + p[2] + dot + p[3]
        }),
{
    let p = text::split_on(s, '.');
    let dot = seq!['.'];
    lemma_piece_in_front(s, '.');
    let rest = s.skip(text::first_pos(s, '.') + 1);
    assert(p.skip(1)[0] == p[1] && p.skip(1)[1] == p[2] && p.skip(1)[2] == p[3]);
    lemma_three_pieces(rest);
    lemma_joined(p[0], p[1], p[2], p[3], dot);
}

proof fn lemma_joined(a: Seq<char>, b: Seq<char>, c: Seq<char>, d: Seq<char>, dot: Seq<char>)
    ensures
        a + dot + (b + dot + (c + dot + d)) == a + dot + b + dot + c + dot + d,
{
    assert(a + dot + (b + dot + (c + dot + d)) =~= a + dot + b + dot + c + dot + d);
}

proof fn lemma_octet_unique(s: Seq<char>)
    requires
        octet(s) is Some,
    ensures
        octet(s)->0 <= 255,
        s == text::decimal_text(octet(s)->0),
{
    lemma_digits_unique(s);
}

/// There is one way to write an IPv4 address: what is read as one is its textual form.
pub proof fn law_dotted_form_unique(s: Seq<char>, ip: Ipv4Addr)
    ensures
        ip_value(s) == Some(IpAddr::V4(ip)) <==> s == ip_text(IpAddr::V4(ip)),
{
    law_address_text_reads_back(IpAddr::V4(ip));
    if ip_value(s) == Some(IpAddr::V4(ip)) {
        let p = text::split_on(s, '.');
        lemma_four_pieces(s);
        lemma_octet_unique(p[0]);
        lemma_octet_unique(p[1]);
        lemma_octet_unique(p[2]);
        lemma_octet_unique(p[3]);
        let (a, b, c, d) = (
            octet(p[0])->0 as u8,
            octet(p[1])->0 as u8,
            octet(p[2])->0 as u8,
            octet(p[3])->0 as u8,
        );
        law_dotted_form(a, b, c, d);
        assert(ip.bits == a * 16777216 + b * 65536 + c * 256 + d);
    }
}

/// Preference: an IPv4 address before any IPv6 address, and one whose first group is from
/// fe80 to febf last.
pub proof fn law_preference(ip: IpAddr)
    ensures
        ip is V4 ==> priority(ip) == 0,
        ip is V6 ==> priority(ip) == (if 0xfe80 <= segments(ip->V6_0)[0] <= 0xfebf {
            2int
        } else {
            1int
        }),
{
    if ip is V6 {
        let v = ip->V6_0.bits as nat;
        lemma_first_group(v);
    }
}

proof fn lemma_first_group(v: nat)
    requires
        v <= u128::MAX,
    ensures
        low_groups(v, 8).len() == 8,
        low_groups(v, 8)[0] == v / 0x1_0000_0000_0000_0000_0000_0000_0000,
{
    let v1 = v / 65536;
    let v2 = v1 / 65536;
    let v3 = v2 / 65536;
    let v4 = v3 / 65536;
    let v5 = v4 / 65536;
    let v6 = v5 / 65536;
    let v7 = v6 / 65536;
    assert(v7 == v / 0x1_0000_0000_0000_0000_0000_0000_0000);
    assert(v7 < 65536);
    lemma_low_groups_len(v, 8);
    reveal_with_fuel(low_groups, 9);
    assert(low_groups(v7, 1)[0] == v7);
    assert(low_groups(v6, 2)[0] == v7);
    assert(low_groups(v5, 3)[0] == v7);
    assert(low_groups(v4, 4)[0] == v7);
    assert(low_groups(v3, 5)[0] == v7);
    assert(low_groups(v2, 6)[0] == v7);
    assert(low_groups(v1, 7)[0] == v7);
}

/// The bytes of a number, the highest first.
pub proof fn law_big_endian(s: Seq<u8>, b: u8)
    ensures
        be_value(Seq::empty()) == 0,
        be_value(s.push(b)) == 256 * be_value(s) + b,
{
    assert(s.push(b).drop_last() =~= s);
}

/// The groups of an IPv6 address are eight numbers of sixteen bits, the highest first, and
/// make it up.
pub proof fn law_groups_make_address(ip: Ipv6Addr, g: Seq<nat>, x: nat)
    ensures
        segments(ip).len() == 8,
        forall|i: int| 0 <= i < 8 ==> #[trigger] segments(ip)[i] < 65536,
        groups_value(segments(ip)) == ip.bits,
        ipv6_of(segments(ip)) == ip,
        groups_value(Seq::empty()) == 0,
        groups_value(g.push(x)) == 65536 * groups_value(g) + x,
{
    lemma_v6_reads_back(ip);
    assert(ip.bits < pow65536(8)) by {
        reveal_with_fuel(pow65536, 9);
    }
    lemma_groups_make_value(ip.bits as nat, 8);
    assert(g.push(x).drop_last() =~= g);
}

proof fn lemma_groups_of_value(g: Seq<nat>)
    requires
        group_sized(g),
    ensures
        groups_value(g) < pow65536(g.len()),
        low_groups(groups_value(g), g.len()) == g,
    decreases g.len(),
{
    if g.len() > 0 {
        let front = g.drop_last();
        assert forall|i: int| 0 <= i < front.len() implies #[trigger] front[i] < 65536 by {
            assert(front[i] == g[i]);
        }
        lemma_groups_of_value(front);
        let (q, d) = (groups_value(front), g.last());
        assert(d < 65536) by {
            assert(g[g.len() - 1] < 65536);
        }
        let v = groups_value(g);
        assert(v == q * 65536 + d);
        assert(v / 65536 == q && v % 65536 == d);
        assert(front.push(d) =~= g);
    } else {
        assert(low_groups(groups_value(g), 0) =~= g);
    }
}

proof fn lemma_v4_value_bound(s: Seq<char>)
    ensures
        ipv4_value(s) is Some ==> ipv4_value(s)->0 <= u32::MAX,
{
}

proof fn lemma_group_list_sized(p: Seq<Seq<char>>, dotted: bool)
    ensures
        group_list(p, dotted) is Some ==> group_sized(group_list(p, dotted)->0)
            && group_list(p, dotted)->0.len() <= p.len() + 1 && (!dotted ==> group_list(
            p,
            dotted,
        )->0.len() == p.len()),
    decreases p.len(),
{
    if p.len() > 0 && group_list(p, dotted) is Some {
        lemma_group_list_sized(p.drop_last(), false);
        lemma_v4_value_bound(p.last());
        if hex_group(p.last()) is Some {
            lemma_hex_bound(p.last());
        }
        let f = group_list(p.drop_last(), false)->0;
        let g = group_list(p, dotted)->0;
        assert forall|i: int| 0 <= i < g.len() implies #[trigger] g[i] < 65536 by {
            if i < f.len() {
                assert(g[i] == f[i]);
            }
        }
    }
}

proof fn lemma_ipv6_sized(s: Seq<char>)
    ensures
        ipv6_groups(s) is Some ==> group_sized(ipv6_groups(s)->0) && ipv6_groups(s)->0.len() == 8,
{
    let p = double_colon(s);
    lemma_group_list_sized(text::split_on(s, ':'), true);
    lemma_group_list_sized(text::split_on(s.take(p), ':'), false);
    lemma_group_list_sized(text::split_on(s.skip(p + 2), ':'), true);
    if ipv6_groups(s) is Some {
        let g = ipv6_groups(s)->0;
        if p != s.len() {
            let (h, t) = (side(s.take(p), false)->0, side(s.skip(p + 2), true)->0);
            assert forall|i: int| 0 <= i < g.len() implies #[trigger] g[i] < 65536 by {
                if i < h.len() {
                    assert(g[i] == h[i]);
                } else if i >= 8 - t.len() {
                    assert(g[i] == t[i - (8 - t.len())]);
                }
            }
        }
    }
}

proof fn lemma_double_colon(s: Seq<char>)
    ensures
        0 <= double_colon(s) <= s.len(),
        double_colon(s) < s.len() ==> double_colon(s) + 2 <= s.len() && s[double_colon(s)] == ':'
            && s[double_colon(s) + 1] == ':',
    decreases s.len(),
{
    if s.len() >= 2 && !(s[0] == ':' && s[1] == ':') {
        lemma_double_colon(s.drop_first());
    }
}

/// An IPv6 address is what its groups are read as: no two texts of the same groups mean
/// different addresses, and none with other groups means the same.
pub proof fn law_groups_are_the_address(s: Seq<char>, ip: Ipv6Addr)
    ensures
        ip_value(s) == Some(IpAddr::V6(ip)) <==> ipv6_groups(s) == Some(segments(ip)),
{
    lemma_v6_reads_back(ip);
    lemma_ipv6_sized(s);
    if ipv6_groups(s) is Some {
        let g = ipv6_groups(s)->0;
        lemma_groups_of_value(g);
        assert(pow65536(8) == u128::MAX + 1) by {
            reveal_with_fuel(pow65536, 9);
        }
        if ipv4_value(s) is Some {
            lemma_v6_has_colon(s);
            let i = choose|i: int| 0 <= i < s.len() && s[i] == ':';
            lemma_colon_is_not_v4(s, i);
        }
    }
}

proof fn lemma_v6_has_colon(s: Seq<char>)
    requires
        ipv6_groups(s) is Some,
    ensures
        s.contains(':'),
{
    lemma_double_colon(s);
    let p = double_colon(s);
    if p == s.len() && !s.contains(':') {
        text::law_split(s, ':', s);
        lemma_group_list_sized(text::split_on(s, ':'), true);
    }
}

/// Whether `s` is one to four hexadecimal digits.
pub open spec fn short_hex(s: Seq<char>) -> bool {
    1 <= s.len() <= 4 && forall|i: int|
        0 <= i < s.len() ==> {
            ||| '0' <= #[trigger] s[i] <= '9'
            ||| 'a' <= s[i] <= 'f'
            ||| 'A' <= s[i] <= 'F'
        }
}

proof fn lemma_short_hex(s: Seq<char>)
    ensures
        hex_group(s) == if short_hex(s) {
            Some(text::number(s, 16))
        } else {
            None
        },
{
    if short_hex(s) {
        assert forall|i: int| 0 <= i < s.len() implies text::digit_value(#[trigger] s[i]) < 16 by {
            assert('0' <= s[i] <= '9' || 'a' <= s[i] <= 'f' || 'A' <= s[i] <= 'F');
        }
    } else if 1 <= s.len() <= 4 {
        let i = choose|i: int|
            0 <= i < s.len() && !({
                ||| '0' <= #[trigger] s[i] <= '9'
                ||| 'a' <= s[i] <= 'f'
                ||| 'A' <= s[i] <= 'F'
            });
        assert(text::digit_value(s[i]) == 16);
    }
}

proof fn lemma_hex_pieces(p: Seq<Seq<char>>, dotted: bool)
    requires
        forall|i: int| 0 <= i < p.len() ==> short_hex(#[trigger] p[i]),
    ensures
        group_list(p, dotted) == Some(Seq::new(p.len(), |i: int| text::number(p[i], 16))),
    decreases p.len(),
{
    let want = Seq::new(p.len(), |i: int| text::number(p[i], 16));
    if p.len() > 0 {
        let q = p.drop_last();
        assert forall|i: int| 0 <= i < q.len() implies short_hex(#[trigger] q[i]) by {
            assert(q[i] == p[i]);
        }
        lemma_hex_pieces(q, false);
        assert(short_hex(p[p.len() - 1]));
        lemma_short_hex(p.last());
        assert(Seq::new(q.len(), |i: int| text::number(q[i], 16)).push(
            text::number(p.last(), 16),
        ) =~= want);
    } else {
        assert(want =~= Seq::<nat>::empty());
    }
}

proof fn lemma_bad_piece(p: Seq<Seq<char>>, k: int, dotted: bool)
    requires
        0 <= k < p.len(),
        !short_hex(p[k]),
        k < p.len() - 1 || !dotted || ipv4_value(p[k]) is None,
    ensures
        group_list(p, dotted) is None,
    decreases p.len(),
{
    if k < p.len() - 1 {
        assert(p.drop_last()[k] == p[k]);
        lemma_bad_piece(p.drop_last(), k, false);
    } else {
        lemma_short_hex(p.last());
    }
}

/// How the groups on one side of an IPv6 address are read: the pieces between the colons are
/// each one to four hexadecimal digits, capital or small; the last may be an IPv4 address in
/// place of two groups, if it ends the address. Any other piece spoils the address.
pub proof fn law_groups_of_a_side(s: Seq<char>, dotted: bool, k: int, v4: Ipv4Addr)
    ensures
        ({
            let p = text::split_on(s, ':');
            let n = p.len() - 1;
            let numbers = Seq::new(p.len(), |i: int| text::number(p[i], 16));
            &&& s.len() == 0 ==> side(s, dotted) == Some(Seq::<nat>::empty())
            &&& s.len() > 0 && (forall|i: int| 0 <= i <= n ==> short_hex(#[trigger] p[i]))
                ==> side(s, dotted) == Some(numbers)
            &&& s.len() > 0 && dotted && (forall|i: int| 0 <= i < n ==> short_hex(#[trigger] p[i]))
                && p[n] == ip_text(IpAddr::V4(v4)) ==> side(s, dotted) == Some(
                numbers.take(n) + seq![(v4.bits / 65536) as nat, (v4.bits % 65536) as nat],
            )
            &&& s.len() > 0 && 0 <= k < n && !short_hex(p[k]) ==> side(s, dotted) is None
            &&& s.len() > 0 && !short_hex(p[n]) && (!dotted || forall|a: Ipv4Addr|
                p[n] != #[trigger] ip_text(IpAddr::V4(a))) ==> side(s, dotted) is None
        }),
{
    let p = text::split_on(s, ':');
    text::lemma_first_pos(s, ':');
    assert(p.len() >= 1);
    let n = p.len() - 1;
    let numbers = Seq::new(p.len(), |i: int| text::number(p[i], 16));
    if s.len() > 0 && (forall|i: int| 0 <= i <= n ==> short_hex(#[trigger] p[i])) {
        lemma_hex_pieces(p, dotted);
    }
    if s.len() > 0 && dotted && (forall|i: int| 0 <= i < n ==> short_hex(#[trigger] p[i])) && p[n]
        == ip_text(IpAddr::V4(v4)) {
        let q = p.drop_last();
        lemma_hex_pieces(q, false);
        assert(Seq::new(q.len(), |i: int| text::number(q[i], 16)) =~= numbers.take(n));
        let t = p.last();
        lemma_v4_reads_back(v4.bits as nat);
        assert(hex_group(t) is None) by {
            let i = choose|i: int| 0 <= i < t.len() && t[i] == '.';
            assert(text::digit_value(t[i]) == 16);
        }
        let (x, y) = ((v4.bits / 65536) as nat, (v4.bits % 65536) as nat);
        assert(numbers.take(n).push(x).push(y) =~= numbers.take(n) + seq![x, y]);
    }
    if s.len() > 0 && 0 <= k < n && !short_hex(p[k]) {
        lemma_bad_piece(p, k, dotted);
    }
    if s.len() > 0 && !short_hex(p[n]) && (!dotted || forall|a: Ipv4Addr|
        p[n] != #[trigger] ip_text(IpAddr::V4(a))) {
        if dotted && ipv4_value(p[n]) is Some {
            let a = Ipv4Addr { bits: ipv4_value(p[n])->0 as u32 };
            law_dotted_form_unique(p[n], a);
            assert(p[n] != ip_text(IpAddr::V4(a)));
        }
        lemma_bad_piece(p, n, dotted);
    }
}

/// How an IPv6 address is read from its sides: without `::` it has eight groups; the first
/// `::` stands for all the zeros that are missing, of which there is at least one.
pub proof fn law_address_of_groups(s: Seq<char>, h: Seq<char>, t: Seq<char>)
    requires
        forall|i: int| 0 <= i < h.len() - 1 && #[trigger] h[i] == ':' ==> h[i + 1] != ':',
        h.len() > 0 ==> h.last() != ':',
        forall|i: int| 0 <= i < s.len() - 1 && #[trigger] s[i] == ':' ==> s[i + 1] != ':',
    ensures
        ipv6_groups(s) is Some <==> side(s, true) is Some && side(s, true)->0.len() == 8,
        ipv6_groups(s) is Some ==> ipv6_groups(s) == side(s, true),
        ({
            let all = h + seq![':', ':'] + t;
            let (head, tail) = (side(h, false), side(t, true));
            let count = head->0.len() + tail->0.len();
            &&& ipv6_groups(all) is Some <==> head is Some && tail is Some && count <= 7
            &&& ipv6_groups(all) is Some ==> ipv6_groups(all) == Some(
                head->0 + Seq::new((8 - count) as nat, |i: int| 0nat) + tail->0,
            )
        }),
{
    lemma_double_colon_is(s, s.len() as int);
    let all = h + seq![':', ':'] + t;
    let p = h.len() as int;
    assert(all[p] == ':' && all[p + 1] == ':');
    assert forall|i: int| 0 <= i < p && i + 1 < all.len() && #[trigger] all[i] == ':' implies all[i
        + 1] != ':' by {
        assert(all[i] == h[i]);
        assert(i < p - 1);
        assert(all[i + 1] == h[i + 1]);
    }
    lemma_double_colon_is(all, p);
    assert(all.take(p) =~= h);
    assert(all.skip(p + 2) =~= t);
    if side(h, false) is Some && side(t, true) is Some {
        let count = side(h, false)->0.len() + side(t, true)->0.len();
        if count <= 7 {
            assert(zeros((8 - count) as nat) =~= Seq::new((8 - count) as nat, |i: int| 0nat));
        }
    }
}


/// The longest run is a run, none is longer, and none as long comes before it.
proof fn lemma_longest(g: Seq<nat>, i: int, start: int, len: int)
    requires
        0 <= i <= start,
        0 < len,
        start + len <= g.len(),
        forall|k: int| start <= k < start + len ==> #[trigger] g[k] == 0,
    ensures
        longest_run(g, i).1 >= len,
        longest_run(g, i).1 == len ==> longest_run(g, i).0 <= start,
        i <= longest_run(g, i).0,
    decreases g.len() - i,
{
    if i == start {
        lemma_zero_run_at_least(g, i, len);
        lemma_longest_start(g, i + 1);
    } else {
        lemma_longest(g, i + 1, start, len);
    }
}

proof fn lemma_longest_start(g: Seq<nat>, i: int)
    requires
        0 <= i <= g.len(),
    ensures
        longest_run(g, i).1 > 0 ==> i <= longest_run(g, i).0,
    decreases g.len() - i,
{
    if i < g.len() {
        lemma_longest_start(g, i + 1);
    }
}

proof fn lemma_zero_run_at_least(g: Seq<nat>, i: int, n: int)
    requires
        0 <= i,
        0 <= n,
        i + n <= g.len(),
        forall|k: int| i <= k < i + n ==> #[trigger] g[k] == 0,
    ensures
        zero_run(g, i) >= n,
    decreases n,
{
    if n > 0 {
        assert(g[i] == 0);
        lemma_zero_run_at_least(g, i + 1, n - 1);
    } else if i < g.len() {
        lemma_zero_run(g, i);
    }
}

/// How an IPv6 address is written: groups in hexadecimal with colons between them; the longest
/// run of zero groups, the first of equally long ones, as `::` if it has more than one group;
/// an IPv4-mapped address as `::ffff:` and the IPv4 address.
pub proof fn law_v6_form(ip: Ipv6Addr, low: u32, start: int, len: int)
    ensures
        ip.bits == 0xffff_0000_0000 + low ==> ip_text(IpAddr::V6(ip)) == "::ffff:"@ + ip_text(
            IpAddr::V4(Ipv4Addr { bits: low }),
        ),
        ({
            let g = segments(ip);
            let mapped = 0xffff_0000_0000 <= ip.bits <= 0xffff_ffff_ffff;
            &&& !mapped && (forall|k: int| 0 <= k < 7 && #[trigger] g[k] == 0 ==> g[k + 1] != 0)
                ==> ip_text(IpAddr::V6(ip)) == hex_list(g)
            &&& !mapped && 0 <= start && 2 <= len && start + len <= 8 && (forall|k: int|
                start <= k < start + len ==> #[trigger] g[k] == 0) && (forall|a: int, n: int|
                0 <= a && len <= n && a + n <= 8 && #[trigger] all_zero(g, a, n) ==> n == len
                    && start <= a) ==> ip_text(IpAddr::V6(ip)) == hex_list(g.take(start)) + "::"@
                + hex_list(g.skip(start + len))
        }),
{
    let g = segments(ip);
    let z = longest_run(g, 0);
    lemma_low_groups_len(ip.bits as nat, 8);
    lemma_longest_run(g, 0);
    if ip.bits == 0xffff_0000_0000 + low {
        assert(ip.bits / 0x1_0000_0000 == 0xffff);
        assert(ip.bits % 0x1_0000_0000 == low);
    }
    let mapped = 0xffff_0000_0000 <= ip.bits <= 0xffff_ffff_ffff;
    assert(mapped <==> ip.bits / 0x1_0000_0000 == 0xffff);
    if !mapped && (forall|k: int| 0 <= k < 7 && #[trigger] g[k] == 0 ==> g[k + 1] != 0) {
        if z.1 > 1 {
            assert(g[z.0] == 0);
            assert(g[z.0 + 1] == 0);
        }
    }
    if !mapped && 0 <= start && 2 <= len && start + len <= 8 && (forall|k: int|
        start <= k < start + len ==> #[trigger] g[k] == 0) && (forall|a: int, n: int|
        0 <= a && len <= n && a + n <= 8 && #[trigger] all_zero(g, a, n) ==> n == len && start
            <= a) {
        lemma_longest(g, 0, start, len);
        assert(all_zero(g, z.0, z.1));
        assert(z == (start, len));
    }
}

/// Whether the `n` groups from position `a` on are zero.
pub open spec fn all_zero(g: Seq<nat>, a: int, n: int) -> bool {
    forall|k: int| a <= k < a + n ==> #[trigger] g[k] == 0
}

/// A list of groups is written group by group, with a colon between two.
pub proof fn law_group_list_form(g: Seq<nat>, x: nat)
    ensures
        hex_list(Seq::empty()) == Seq::<char>::empty(),
        hex_list(seq![x]) == text::digits_of(x, 16),
        g.len() > 0 ==> hex_list(g.push(x)) == hex_list(g) + seq![':'] + text::digits_of(x, 16),
{
    assert(g.push(x).drop_last() =~= g);
}

/// The address with the groups that were read has those groups.
pub proof fn law_groups_of_address(s: Seq<char>)
    ensures
        ipv6_groups(s) is Some ==> segments(ipv6_of(ipv6_groups(s)->0)) == ipv6_groups(s)->0,
{
    lemma_ipv6_sized(s);
    if ipv6_groups(s) is Some {
        lemma_groups_of_value(ipv6_groups(s)->0);
        assert(pow65536(8) == u128::MAX + 1) by {
            reveal_with_fuel(pow65536, 9);
        }
    }
}

proof fn lemma_group_list_no_slash(p: Seq<Seq<char>>, dotted: bool)
    requires
        group_list(p, dotted) is Some,
    ensures
        forall|i: int| 0 <= i < p.len() ==> text::lacks(#[trigger] p[i], '/'),
    decreases p.len(),
{
    if p.len() > 0 {
        lemma_group_list_no_slash(p.drop_last(), false);
        let t = p.last();
        if hex_group(t) is Some {
            text::lemma_digits_lack(t, 16, '/');
        } else {
            lemma_v4_no_slash(t);
        }
        assert forall|i: int| 0 <= i < p.len() implies text::lacks(#[trigger] p[i], '/') by {
            if i < p.len() - 1 {
                assert(p.drop_last()[i] == p[i]);
            }
        }
    }
}

proof fn lemma_v4_no_slash(s: Seq<char>)
    requires
        ipv4_value(s) is Some,
    ensures
        text::lacks(s, '/'),
{
    let p = text::split_on(s, '.');
    assert forall|k: int| 0 <= k < p.len() implies text::lacks(#[trigger] p[k], '/') by {
        assert(octet(p[k]) is Some);
        text::lemma_digits_lack(p[k], 10, '/');
    }
    text::lemma_pieces_lack(s, '.', '/');
}

proof fn lemma_side_no_slash(s: Seq<char>, dotted: bool)
    requires
        side(s, dotted) is Some,
    ensures
        text::lacks(s, '/'),
{
    if s.len() > 0 {
        lemma_group_list_no_slash(text::split_on(s, ':'), dotted);
        text::lemma_pieces_lack(s, ':', '/');
    }
}

/// What has a slash in it is no address.
pub proof fn law_address_has_no_slash(s: Seq<char>)
    requires
        ip_value(s) is Some,
    ensures
        !s.contains('/'),
{
    if ipv4_value(s) is Some {
        lemma_v4_no_slash(s);
    } else {
        lemma_double_colon(s);
        let p = double_colon(s);
        if p == s.len() {
            lemma_side_no_slash(s, true);
        } else {
            let (h, t) = (s.take(p), s.skip(p + 2));
            lemma_side_no_slash(h, false);
            lemma_side_no_slash(t, true);
            assert forall|i: int| 0 <= i < s.len() implies s[i] != '/' by {
                if i < p {
                    assert(h[i] == s[i]);
                } else if i >= p + 2 {
                    assert(t[i - p - 2] == s[i]);
                }
            }
        }
    }
}

} // verus!
