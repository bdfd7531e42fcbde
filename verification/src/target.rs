//! What to scan: IPv4, IPv6 with an optional zone, host names and IPv4 subnets.
use vstd::prelude::*;

use crate::addr;
use crate::addr::{IpAddr, Ipv4Addr, Ipv6Addr};
use crate::text;

verus! {

/// The largest number of addresses a subnet may have.
pub const CIDR_MAX_ADDRESSES: u64 = 65536;

/// One host to scan.
#[derive(Debug)]
pub struct Target {
    pub ip: IpAddr,
    /// The zone (scope id) of a link-local IPv6 address.
    pub zone: Option<u32>,
    pub display: String,
}

/// The model of a `Target`.
#[verifier::ext_equal]
pub struct TargetModel {
    pub ip: IpAddr,
    pub zone: Option<u32>,
    pub display: Seq<char>,
}

impl View for Target {
    type V = TargetModel;

    open spec fn view(&self) -> TargetModel {
        TargetModel { ip: self.ip, zone: self.zone, display: self.display@ }
    }
}

impl Clone for Target {
    fn clone(&self) -> (r: Target)
        ensures
            r == *self,
    {
        Target { ip: self.ip, zone: self.zone, display: self.display.clone() }
    }
}

/// The models of a list of targets.
pub open spec fn target_models(v: Seq<Target>) -> Seq<TargetModel> {
    v.map_values(|t: Target| t@)
}

/// An IPv4 endpoint.
#[derive(Debug, Clone, Copy, PartialEq, Eq, Structural)]
pub struct SocketAddrV4 {
    pub ip: Ipv4Addr,
    pub port: u16,
}

/// An IPv6 endpoint.
#[derive(Debug, Clone, Copy, PartialEq, Eq, Structural)]
pub struct SocketAddrV6 {
    pub ip: Ipv6Addr,
    pub port: u16,
    pub flowinfo: u32,
    pub scope_id: u32,
}

#[derive(Debug, Clone, Copy, PartialEq, Eq, Structural)]
pub enum SocketAddr {
    V4(SocketAddrV4),
    V6(SocketAddrV6),
}

/// The endpoint at `port` of `ip`; the zone of an IPv6 address is its scope id, 0 without one.
pub open spec fn endpoint(ip: IpAddr, zone: Option<u32>, port: u16) -> SocketAddr {
    match ip {
        IpAddr::V4(ip) => SocketAddr::V4(SocketAddrV4 { ip, port }),
        IpAddr::V6(ip) => SocketAddr::V6(
            SocketAddrV6 {
                ip,
                port,
                flowinfo: 0,
                scope_id: match zone {
                    Some(z) => z,
                    None => 0,
                },
            },
        ),
    }
}

impl Target {
    /// The endpoint at `port` of the target.
    pub fn socket(&self, port: u16) -> (r: SocketAddr)
        ensures
            r == endpoint(self.ip, self.zone, port),
    {
        match self.ip {
            IpAddr::V4(ip) => SocketAddr::V4(SocketAddrV4 { ip, port }),
            IpAddr::V6(ip) => SocketAddr::V6(
                SocketAddrV6 {
                    ip,
                    port,
                    flowinfo: 0,
                    scope_id: match self.zone {
                        Some(z) => z,
                        None => 0,
                    },
                },
            ),
        }
    }
}

/// The targets that an input stands for.
#[derive(Debug)]
pub enum Targets {
    Ready(Vec<Target>),
    /// A host name to look up; `host_targets` takes the answer.
    Lookup(String),
}

/// The model of `Targets`.
#[verifier::ext_equal]
pub enum TargetsModel {
    Ready(Seq<TargetModel>),
    Lookup(Seq<char>),
}

impl View for Targets {
    type V = TargetsModel;

    open spec fn view(&self) -> TargetsModel {
        match self {
            Targets::Ready(v) => TargetsModel::Ready(target_models(v@)),
            Targets::Lookup(s) => TargetsModel::Lookup(s@),
        }
    }
}

/// The `k`-th power of two.
pub open spec fn power2(k: nat) -> nat
    decreases k,
{
    if k == 0 {
        1
    } else {
        2 * power2((k - 1) as nat)
    }
}

/// The number of addresses in an IPv4 subnet with a mask of `mask` bits.
pub open spec fn block_size(mask: int) -> int {
    power2((32 - mask) as nat) as int
}

/// The first address of the subnet that `bits` lies in.
pub open spec fn block_start(bits: int, mask: int) -> int {
    bits - bits % block_size(mask)
}

/// The target of a bare IPv4 address.
pub open spec fn v4_target(bits: int) -> TargetModel {
    TargetModel {
        ip: IpAddr::V4(Ipv4Addr { bits: bits as u32 }),
        zone: None,
        display: addr::v4_text(bits as nat),
    }
}

/// The targets of a subnet: all its addresses in ascending order, or what is wrong with it.
pub open spec fn cidr_targets(host: Seq<char>, mask: int) -> Result<Seq<TargetModel>, Seq<char>> {
    match addr::ip_value(host) {
        None => Err("CIDR 主机部分 "@ + host + " 非法"@),
        Some(IpAddr::V6(_)) => Err("暂不支持 IPv6 CIDR"@),
        Some(IpAddr::V4(v4)) => if mask > 32 {
            Err("IPv4 CIDR 掩码不能超过 32"@)
        } else if block_size(mask) > CIDR_MAX_ADDRESSES {
            Err(
                "CIDR /"@ + text::decimal_text(mask as nat) + " 包含 "@ + text::decimal_text(
                    block_size(mask) as nat,
                ) + " 个 IP，过大；请使用 /16 或更小"@,
            )
        } else {
            Ok(
                Seq::new(
                    block_size(mask) as nat,
                    |i: int| v4_target(block_start(v4.bits as int, mask) + i),
                ),
            )
        },
    }
}

/// The host and the mask of a subnet: what stands before and after the last slash, if the
/// latter is a number of one byte.
pub open spec fn cidr_parts(s: Seq<char>) -> Option<(Seq<char>, nat)> {
    match text::cut_last(s, '/') {
        Some((host, mask)) => match text::unsigned(mask, 255) {
            Some(m) => Some((host, m)),
            None => None,
        },
        None => None,
    }
}

/// The target of the address `addr` with the zone `zone`, written `s` as a whole.
pub open spec fn zoned_target(s: Seq<char>, addr: Seq<char>, zone: Seq<char>) -> Result<
    TargetModel,
    Seq<char>,
> {
    match addr::ipv6_groups(addr) {
        None => Err("IPv6 地址 "@ + addr + " 非法"@),
        Some(g) => match text::unsigned(zone, u32::MAX as nat) {
            None => Err("zone 必须是数字接口索引: %"@ + zone),
            Some(z) => Ok(
                TargetModel {
                    ip: IpAddr::V6(addr::ipv6_of(g)),
                    zone: Some(z as u32),
                    display: s,
                },
            ),
        },
    }
}

/// What the input `input` stands for, or what is wrong with it. White space around it is
/// ignored. It is a subnet if it ends in a slash and a number; else an IPv6 address with a
/// zone if it has a percent sign; else an address if it is one; else a host name.
pub open spec fn targets_of(input: Seq<char>) -> Result<TargetsModel, Seq<char>> {
    let s = text::trimmed(input);
    if s.len() == 0 {
        Err("空输入"@)
    } else {
        match cidr_parts(s) {
            Some((host, mask)) => match cidr_targets(host, mask as int) {
                Ok(t) => Ok(TargetsModel::Ready(t)),
                Err(e) => Err(e),
            },
            None => match text::cut_first(s, '%') {
                Some((addr, zone)) => match zoned_target(s, addr, zone) {
                    Ok(t) => Ok(TargetsModel::Ready(seq![t])),
                    Err(e) => Err(e),
                },
                None => match addr::ip_value(s) {
                    Some(ip) => Ok(
                        TargetsModel::Ready(seq![TargetModel { ip, zone: None, display: s }]),
                    ),
                    None => Ok(TargetsModel::Lookup(s)),
                },
            },
        }
    }
}

/// The targets of the host name `host`, given what the lookup answered.
pub open spec fn looked_up(host: Seq<char>, answer: Result<Seq<IpAddr>, Seq<char>>) -> Result<
    Seq<TargetModel>,
    Seq<char>,
> {
    match answer {
        Err(e) => Err("无法解析主机名 "@ + host + ": "@ + e),
        Ok(ips) => if ips.len() == 0 {
            Err("主机名 "@ + host + " 没有解析结果"@)
        } else {
            Ok(ips.map_values(|ip: IpAddr| host_target(host, ip)))
        },
    }
}

/// The target of one address of a host name.
pub open spec fn host_target(host: Seq<char>, ip: IpAddr) -> TargetModel {
    TargetModel { ip, zone: None, display: host + " ("@ + addr::ip_text(ip) + ")"@ }
}

/// The model of a result whose value has a model and whose error is a text.
pub open spec fn result_model(r: Result<Vec<Target>, String>) -> Result<Seq<TargetModel>, Seq<char>> {
    match r {
        Ok(v) => Ok(target_models(v@)),
        Err(e) => Err(e@),
    }
}

fn pow2(k: u32) -> (r: u64)
    requires
        k <= 32,
    ensures
        r == power2(k as nat),
        r * power2((32 - k) as nat) == 0x1_0000_0000,
        1 <= r <= 0x1_0000_0000,
{
    let mut r: u64 = 1;
    let mut i: u32 = 0;
    proof {
        reveal_with_fuel(power2, 34);
        assert(power2(32) == 0x1_0000_0000);
    }
    while i < k
        invariant
            i <= k <= 32,
            r == power2(i as nat),
            r * power2((32 - i) as nat) == 0x1_0000_0000,
            1 <= r <= 0x1_0000_0000,
        decreases k - i,
    {
        proof {
            let a = r as int;
            let b = power2((32 - i - 1) as nat) as int;
            assert(power2((32 - i) as nat) == 2 * b);
            assert(a * (2 * b) == (2 * a) * b) by (nonlinear_arith);
            assert(1 <= b) by {
                lemma_power2_positive((32 - i - 1) as nat);
            }
            assert(2 * a <= (2 * a) * b) by (nonlinear_arith)
                requires
                    1 <= b,
                    0 <= a,
            ;
        }
        r = r * 2;
        i = i + 1;
    }
    r
}

proof fn lemma_power2_positive(k: nat)
    ensures
        power2(k) >= 1,
    decreases k,
{
    if k > 0 {
        lemma_power2_positive((k - 1) as nat);
    }
}

/// A block of addresses ends within the address space.
proof fn lemma_block_fits(bits: int, size: int, other: int)
    requires
        0 <= bits < 0x1_0000_0000,
        size >= 1,
        size * other == 0x1_0000_0000,
    ensures
        0 <= bits - bits % size,
        bits - bits % size + size <= 0x1_0000_0000,
{
    vstd::arithmetic::div_mod::lemma_fundamental_div_mod(bits, size);
    let q = bits / size;
    assert(q < other) by (nonlinear_arith)
        requires
            bits < size * other,
            q * size <= bits,
            size >= 1,
            bits == size * q + bits % size,
            0 <= bits % size,
    ;
    assert(size * q + size <= size * other) by (nonlinear_arith)
        requires
            q + 1 <= other,
            size >= 1,
    ;
    assert(0 <= q) by (nonlinear_arith)
        requires
            q == bits / size,
            0 <= bits,
            size >= 1,
    ;
    assert(0 <= size * q) by (nonlinear_arith)
        requires
            0 <= q,
            size >= 1,
    ;
}

/// The targets of the subnet `host`/`mask`.
pub fn parse_cidr(host: &str, mask: u8) -> (r: Result<Vec<Target>, String>)
    ensures
        result_model(r) == cidr_targets(host@, mask as int),
{
    let v4: Ipv4Addr = match addr::parse_ip(host) {
        None => {
            return Err(text::join3("CIDR 主机部分 ", host, " 非法"));
        },
        Some(IpAddr::V6(_)) => {
            return Err("暂不支持 IPv6 CIDR".to_owned());
        },
        Some(IpAddr::V4(v4)) => v4,
    };
    if mask > 32 {
        return Err("IPv4 CIDR 掩码不能超过 32".to_owned());
    }
    let count: u64 = pow2(32 - mask as u32);
    if count > CIDR_MAX_ADDRESSES {
        let mut e: String = text::join2("CIDR /", &text::decimal(mask as u64));
        e.append(" 包含 ");
        e.append(&text::decimal(count));
        e.append(" 个 IP，过大；请使用 /16 或更小");
        return Err(e);
    }
    proof {
        lemma_block_fits(v4.bits as int, count as int, power2(mask as nat) as int);
    }
    let base: u64 = v4.bits as u64 - v4.bits as u64 % count;
    let mut out: Vec<Target> = Vec::with_capacity(count as usize);
    let mut i: u64 = 0;
    let ghost want = cidr_targets(host@, mask as int)->Ok_0;
    assert(target_models(out@) =~= want.take(0));
    while i < count
        invariant
            i <= count <= 65536,
            base + count <= 0x1_0000_0000,
            want.len() == count,
            forall|k: int| 0 <= k < count ==> #[trigger] want[k] == v4_target(base + k),
            target_models(out@) == want.take(i as int),
        decreases count - i,
    {
        let ip: IpAddr = IpAddr::V4(Ipv4Addr { bits: (base + i) as u32 });
        let ghost before = out@;
        out.push(Target { ip, zone: None, display: ip.to_text() });
        assert(out@.last()@ == want[i as int]);
        assert(target_models(out@) =~= target_models(before).push(out@.last()@));
        assert(want.take(i + 1) =~= want.take(i as int).push(want[i as int]));
        i = i + 1;
    }
    assert(want.take(count as int) =~= want);
    Ok(out)
}

/// Reads an input: the targets it stands for, or the host name to look up.
pub fn parse_targets(input: &str) -> (r: Result<Targets, String>)
    ensures
        match r {
            Ok(t) => targets_of(input@) == Ok::<TargetsModel, Seq<char>>(t@),
            Err(e) => targets_of(input@) == Err::<TargetsModel, Seq<char>>(e@),
        },
{
    let s: String = text::trim(input);
    if s.as_str().is_empty() {
        return Err("空输入".to_owned());
    }
    if let Some((host, mask)) = text::rsplit_once(&s, '/') {
        if let Some(mask) = text::parse_unsigned(&mask, 255) {
            return match parse_cidr(&host, mask as u8) {
                Ok(v) => Ok(Targets::Ready(v)),
                Err(e) => Err(e),
            };
        }
    }
    if let Some((addr_part, zone_part)) = text::split_once(&s, '%') {
        let v6: Ipv6Addr = match addr::parse_ipv6(&addr_part) {
            Some(v6) => v6,
            None => {
                return Err(text::join3("IPv6 地址 ", &addr_part, " 非法"));
            },
        };
        let zone: u32 = match text::parse_unsigned(&zone_part, u32::MAX as u64) {
            Some(z) => z as u32,
            None => {
                return Err(text::join2("zone 必须是数字接口索引: %", &zone_part));
            },
        };
        let v: Vec<Target> = vec![Target { ip: IpAddr::V6(v6), zone: Some(zone), display: s }];
        assert(target_models(v@) =~= seq![v@[0]@]);
        return Ok(Targets::Ready(v));
    }
    if let Some(ip) = addr::parse_ip(&s) {
        let v: Vec<Target> = vec![Target { ip, zone: None, display: s }];
        assert(target_models(v@) =~= seq![v@[0]@]);
        return Ok(Targets::Ready(v));
    }
    Ok(Targets::Lookup(s))
}

/// The targets of a host name from the answer of the lookup: its addresses, or why there
/// are none.
pub fn host_targets(host: &str, answer: Result<Vec<IpAddr>, String>) -> (r: Result<
    Vec<Target>,
    String,
>)
    ensures
        result_model(r) == looked_up(
            host@,
            match answer {
                Ok(v) => Ok(v@),
                Err(e) => Err(e@),
            },
        ),
{
    let ips: Vec<IpAddr> = match answer {
        Ok(v) => v,
        Err(e) => {
            let mut m: String = text::join3("无法解析主机名 ", host, ": ");
            m.append(&e);
            return Err(m);
        },
    };
    if ips.len() == 0 {
        return Err(text::join3("主机名 ", host, " 没有解析结果"));
    }
    let ghost want = ips@.map_values(|ip: IpAddr| host_target(host@, ip));
    let mut out: Vec<Target> = Vec::new();
    let mut i: usize = 0;
    assert(target_models(out@) =~= want.take(0));
    while i < ips.len()
        invariant
            i <= ips@.len() == want.len(),
            forall|k: int| 0 <= k < ips@.len() ==> #[trigger] want[k] == host_target(host@, ips@[k]),
            target_models(out@) == want.take(i as int),
        decreases ips@.len() - i,
    {
        let mut display: String = text::join3(host, " (", &ips[i].to_text());
        display.append(")");
        let ghost before = out@;
        out.push(Target { ip: ips[i], zone: None, display });
        assert(out@.last()@ == want[i as int]);
        assert(target_models(out@) =~= target_models(before).push(out@.last()@));
        assert(want.take(i + 1) =~= want.take(i as int).push(want[i as int]));
        i = i + 1;
    }
    assert(want.take(ips@.len() as int) =~= want);
    Ok(out)
}

proof fn lemma_power2_grows(i: nat, j: nat)
    requires
        i <= j,
    ensures
        power2(i) <= power2(j),
    decreases j,
{
    if i < j {
        lemma_power2_grows(i, (j - 1) as nat);
    }
}

proof fn lemma_power2_adds(i: nat, j: nat)
    ensures
        power2(i) * power2(j) == power2(i + j),
    decreases i,
{
    if i > 0 {
        lemma_power2_adds((i - 1) as nat, j);
        let (a, b, c) = (power2((i - 1) as nat), power2(j), power2(i));
        assert(c * b == 2 * (a * b)) by (nonlinear_arith)
            requires
                c == 2 * a,
        ;
        assert((i + j - 1) as nat == (i - 1) as nat + j);
    } else {
        assert(power2(0) == 1);
        assert(0 + j == j);
    }
}

/// An IPv4 subnet is accepted exactly when its mask has 16 to 32 bits, and never has more
/// than `CIDR_MAX_ADDRESSES` targets.
pub proof fn law_subnet_limit(host: Seq<char>, mask: int)
    requires
        0 <= mask <= 255,
        addr::ip_value(host) is Some,
        addr::ip_value(host)->0 is V4,
    ensures
        cidr_targets(host, mask) is Ok <==> 16 <= mask <= 32,
        cidr_targets(host, mask) is Ok ==> cidr_targets(host, mask)->Ok_0.len()
            <= CIDR_MAX_ADDRESSES,
{
    reveal_with_fuel(power2, 18);
    assert(power2(16) == 65536 && power2(17) == 131072);
    if mask <= 32 {
        if mask < 16 {
            lemma_power2_grows(17, (32 - mask) as nat);
        } else {
            lemma_power2_grows((32 - mask) as nat, 16);
        }
    }
}

proof fn lemma_block_in_space(bits: int, mask: int)
    requires
        0 <= bits <= u32::MAX,
        0 <= mask <= 32,
    ensures
        1 <= block_size(mask),
        0 <= block_start(bits, mask),
        block_start(bits, mask) + block_size(mask) <= 0x1_0000_0000,
{
    lemma_power2_positive((32 - mask) as nat);
    lemma_power2_adds((32 - mask) as nat, mask as nat);
    assert(power2(32) == 0x1_0000_0000) by {
        reveal_with_fuel(power2, 34);
    }
    lemma_block_fits(bits, block_size(mask), power2(mask as nat) as int);
}

/// A number lies in the block of `bits` exactly when it is less than a block's size above its
/// start.
proof fn lemma_same_block(a: int, bits: int, size: int)
    requires
        0 <= a,
        0 <= bits,
        1 <= size,
    ensures
        a / size == bits / size <==> bits - bits % size <= a < bits - bits % size + size,
{
    vstd::arithmetic::div_mod::lemma_fundamental_div_mod(a, size);
    vstd::arithmetic::div_mod::lemma_fundamental_div_mod(bits, size);
    vstd::arithmetic::div_mod::lemma_mod_bound(a, size);
    let q = bits / size;
    let r = a - size * q;
    if 0 <= r < size {
        assert(a == q * size + r) by (nonlinear_arith)
            requires
                r == a - size * q,
        ;
        vstd::arithmetic::div_mod::lemma_fundamental_div_mod_converse(a, size, q, r);
    }
}

/// A subnet holds exactly the addresses that agree with its host on the masked bits, each of
/// them once, in ascending order; its host is one of them.
pub proof fn law_subnet_addresses(host: Seq<char>, mask: int)
    requires
        0 <= mask <= 255,
        cidr_targets(host, mask) is Ok,
    ensures
        ({
            let t = cidr_targets(host, mask)->Ok_0;
            let bits = addr::ip_value(host)->0->V4_0.bits as int;
            let size = block_size(mask);
            &&& forall|a: u32|
                (exists|i: int|
                    0 <= i < t.len() && #[trigger] t[i].ip == IpAddr::V4(Ipv4Addr { bits: a }))
                    <==> #[trigger] (a as int / size) == bits / size
            &&& forall|i: int|
                0 <= i < t.len() ==> (#[trigger] t[i]).ip is V4 && t[i].zone is None
            &&& forall|i: int, j: int|
                0 <= i < j < t.len() ==> (#[trigger] t[i]).ip->V4_0.bits < (
                #[trigger] t[j]).ip->V4_0.bits
        }),
{
    let t = cidr_targets(host, mask)->Ok_0;
    let bits = addr::ip_value(host)->0->V4_0.bits as int;
    let size = block_size(mask);
    let base = block_start(bits, mask);
    lemma_block_in_space(bits, mask);
    assert forall|a: u32|
        (exists|i: int|
            0 <= i < t.len() && #[trigger] t[i].ip == IpAddr::V4(Ipv4Addr { bits: a }))
            <==> #[trigger] (a as int / size) == bits / size by {
        lemma_same_block(a as int, bits, size);
        if exists|i: int|
            0 <= i < t.len() && #[trigger] t[i].ip == IpAddr::V4(Ipv4Addr { bits: a }) {
            let i = choose|i: int|
                0 <= i < t.len() && #[trigger] t[i].ip == IpAddr::V4(Ipv4Addr { bits: a });
            assert(t[i] == v4_target(base + i));
        }
        if a as int / size == bits / size {
            let i = a - base;
            assert(t[i] == v4_target(base + i));
            assert(t[i].ip == IpAddr::V4(Ipv4Addr { bits: a }));
        }
    }
    assert forall|i: int| 0 <= i < t.len() implies (#[trigger] t[i]).ip is V4
        && t[i].zone is None by {
        assert(t[i] == v4_target(base + i));
    }
    assert forall|i: int, j: int| 0 <= i < j < t.len() implies (#[trigger] t[i]).ip->V4_0.bits < (
    #[trigger] t[j]).ip->V4_0.bits by {
        assert(t[i] == v4_target(base + i));
        assert(t[j] == v4_target(base + j));
    }
}

/// An address in its textual form is a target: that address, without a zone, shown as it was
/// written. So the display of each target of a subnet, given as an input, means that target.
pub proof fn law_address_is_a_target(ip: IpAddr)
    ensures
        targets_of(addr::ip_text(ip)) == Ok::<TargetsModel, Seq<char>>(
            TargetsModel::Ready(
                seq![TargetModel { ip, zone: None, display: addr::ip_text(ip) }],
            ),
        ),
{
    let s = addr::ip_text(ip);
    addr::lemma_address_text_chars(ip);
    addr::law_address_text_reads_back(ip);
    assert forall|i: int| 0 <= i < s.len() implies !text::is_space(#[trigger] s[i]) && s[i] != '/'
        && s[i] != '%' by {
        assert(text::digit_value(s[i]) < 16 || s[i] == '.' || s[i] == ':');
    }
    assert(!text::is_space(s[0]) && !text::is_space(s[s.len() - 1]));
    assert(text::trimmed(s) == s);
    text::lemma_last_pos(s, '/');
    text::lemma_first_pos(s, '%');
    assert(cidr_parts(s) is None);
    assert(text::cut_first(s, '%') is None);
}

/// Whether `s` has something in it, and no white space at either end.
pub open spec fn bare(s: Seq<char>) -> bool {
    s.len() > 0 && !text::is_space(s[0]) && !text::is_space(s.last())
}

proof fn lemma_bare(s: Seq<char>)
    requires
        bare(s),
    ensures
        text::trimmed(s) == s,
{
    let none = Seq::<char>::empty();
    text::law_trim(none, s, none);
}

/// White space around an input changes nothing, and an input of white space alone is empty.
pub proof fn law_input_is_trimmed(pre: Seq<char>, s: Seq<char>, post: Seq<char>)
    requires
        forall|i: int| 0 <= i < pre.len() ==> text::is_space(#[trigger] pre[i]),
        forall|i: int| 0 <= i < post.len() ==> text::is_space(#[trigger] post[i]),
        s.len() == 0 || bare(s),
    ensures
        targets_of(pre + s + post) == targets_of(s),
        s.len() == 0 ==> targets_of(s) == Err::<TargetsModel, Seq<char>>("空输入"@),
{
    text::law_trim(pre, s, post);
}

/// An address and a zone: an IPv6 address, a percent sign and a number are one target, that
/// very address in that zone, shown as written; with anything else in place of the address, or
/// of the number, the input is refused and the part that is wrong is told. A slash with no
/// number of one byte behind it is as good as none.
pub proof fn law_zoned_input(
    addr: Seq<char>,
    zone: Seq<char>,
    ip: Ipv6Addr,
    front: Seq<char>,
    back: Seq<char>,
)
    requires
        !addr.contains('%'),
        bare(addr + seq!['%'] + zone),
        !(addr + seq!['%'] + zone).contains('/') || {
            &&& addr + seq!['%'] + zone == front + seq!['/'] + back
            &&& !back.contains('/')
            &&& text::unsigned(back, 255) is None
        },
    ensures
        ({
            let s = addr + seq!['%'] + zone;
            let z = text::unsigned(zone, 0xFFFF_FFFF);
            &&& addr::ip_value(addr) == Some(IpAddr::V6(ip)) && z is Some ==> targets_of(s)
                == Ok::<TargetsModel, Seq<char>>(
                TargetsModel::Ready(
                    seq![
                        TargetModel { ip: IpAddr::V6(ip), zone: Some(z->0 as u32), display: s },
                    ],
                ),
            )
            &&& addr::ip_value(addr) == Some(IpAddr::V6(ip)) && z is None ==> targets_of(s)
                == Err::<TargetsModel, Seq<char>>("zone 必须是数字接口索引: %"@ + zone)
            &&& (addr::ip_value(addr) is None || addr::ip_value(addr)->0 is V4) ==> targets_of(s)
                == Err::<TargetsModel, Seq<char>>("IPv6 地址 "@ + addr + " 非法"@)
        }),
{
    let s = addr + seq!['%'] + zone;
    lemma_bare(s);
    text::law_cut(addr, '%', zone);
    if s.contains('/') {
        text::law_cut(front, '/', back);
    } else {
        text::law_cut(s, '/', s);
    }
    assert(cidr_parts(s) is None);
    addr::law_groups_are_the_address(addr, ip);
    addr::lemma_v6_reads_back(ip);
    if addr::ip_value(addr) is None || addr::ip_value(addr)->0 is V4 {
        if addr::ipv6_groups(addr) is Some {
            let other = addr::ipv6_of(addr::ipv6_groups(addr)->0);
            addr::law_groups_of_address(addr);
            addr::law_groups_are_the_address(addr, other);
        }
    }
}

/// The textual form of an IPv6 address, a percent sign and the number of a zone are one target:
/// that very address, in that zone, shown as written.
pub proof fn law_zoned_address_is_a_target(ip: Ipv6Addr, zone: u32)
    ensures
        ({
            let s = addr::ip_text(IpAddr::V6(ip)) + seq!['%'] + text::decimal_text(zone as nat);
            targets_of(s) == Ok::<TargetsModel, Seq<char>>(
                TargetsModel::Ready(
                    seq![TargetModel { ip: IpAddr::V6(ip), zone: Some(zone), display: s }],
                ),
            )
        }),
{
    let a = addr::ip_text(IpAddr::V6(ip));
    let z = text::decimal_text(zone as nat);
    lemma_address_is_bare(IpAddr::V6(ip));
    lemma_decimal_is_bare(zone as nat);
    let s = a + seq!['%'] + z;
    assert(s[0] == a[0] && s.last() == z.last());
    addr::law_address_text_reads_back(IpAddr::V6(ip));
    text::lemma_decimal_reads_back(zone as nat, 0xFFFF_FFFF);
    assert(!s.contains('/')) by {
        assert forall|i: int| 0 <= i < s.len() implies s[i] != '/' by {
            if i < a.len() {
                assert(s[i] == a[i]);
                assert(a.contains(a[i]));
            } else if i > a.len() {
                assert(s[i] == z[i - a.len() - 1]);
                assert(z.contains(z[i - a.len() - 1]));
            }
        }
    }
    law_zoned_input(a, z, ip, a, z);
}

proof fn lemma_address_is_bare(ip: IpAddr)
    ensures
        bare(addr::ip_text(ip)),
        !addr::ip_text(ip).contains('/'),
        !addr::ip_text(ip).contains('%'),
{
    let s = addr::ip_text(ip);
    addr::lemma_address_text_chars(ip);
    assert forall|i: int| 0 <= i < s.len() implies !text::is_space(#[trigger] s[i]) && s[i] != '/'
        && s[i] != '%' by {
        assert(text::digit_value(s[i]) < 16 || s[i] == '.' || s[i] == ':');
    }
    assert(!text::is_space(s[0]) && !text::is_space(s[s.len() - 1]));
}

proof fn lemma_decimal_is_bare(n: nat)
    ensures
        bare(text::decimal_text(n)),
        !text::decimal_text(n).contains('/'),
        !text::decimal_text(n).contains('%'),
{
    let s = text::decimal_text(n);
    text::lemma_digits_spell(n, 10);
    assert forall|i: int| 0 <= i < s.len() implies !text::is_space(#[trigger] s[i]) && s[i] != '/'
        && s[i] != '%' by {
        assert(text::digit_value(s[i]) < 10);
    }
    assert(!text::is_space(s[0]) && !text::is_space(s[s.len() - 1]));
}

/// A host, a slash and a number of one byte are read as a subnet of that host; a slash with
/// anything else behind it makes no subnet.
pub proof fn law_subnet_input(host: Seq<char>, mask: Seq<char>)
    requires
        !mask.contains('/'),
        bare(host + seq!['/'] + mask),
    ensures
        ({
            let s = host + seq!['/'] + mask;
            let m = text::unsigned(mask, 255);
            &&& m is Some && cidr_targets(host, m->0 as int) is Ok ==> targets_of(s) == Ok::<
                TargetsModel,
                Seq<char>,
            >(TargetsModel::Ready(cidr_targets(host, m->0 as int)->Ok_0))
            &&& m is Some && cidr_targets(host, m->0 as int) is Err ==> targets_of(s) == Err::<
                TargetsModel,
                Seq<char>,
            >(cidr_targets(host, m->0 as int)->Err_0)
            &&& m is None && !s.contains('%') ==> targets_of(s) == Ok::<TargetsModel, Seq<char>>(
                TargetsModel::Lookup(s),
            )
        }),
{
    let s = host + seq!['/'] + mask;
    lemma_bare(s);
    text::law_cut(host, '/', mask);
    if text::unsigned(mask, 255) is None && !s.contains('%') {
        text::law_cut(s, '%', s);
        if addr::ip_value(s) is Some {
            let ip = addr::ip_value(s)->0;
            assert(s[host.len() as int] == '/');
            addr::law_address_has_no_slash(s);
            assert(s.contains('/'));
        }
    }
}

proof fn lemma_power2_is(k: nat)
    ensures
        power2(k) == vstd::arithmetic::power2::pow2(k),
    decreases k,
{
    if k > 0 {
        lemma_power2_is((k - 1) as nat);
        vstd::arithmetic::power2::lemma_pow2_unfold(k);
    } else {
        vstd::arithmetic::power2::lemma2_to64();
    }
}

/// The targets of a subnet of an IPv4 address: as many as two to the power of the bits that
/// the mask leaves; the first is the address with those bits cleared, each next one is one
/// higher; each is shown as its own textual form.
pub proof fn law_subnet_targets(ip: Ipv4Addr, mask: int, i: int)
    requires
        16 <= mask <= 32,
        0 <= i < vstd::arithmetic::power2::pow2((32 - mask) as nat),
    ensures
        ({
            let host = addr::ip_text(IpAddr::V4(ip));
            let t = cidr_targets(host, mask)->Ok_0;
            let count = vstd::arithmetic::power2::pow2((32 - mask) as nat) as int;
            let bits = ip.bits - ip.bits as int % count + i;
            &&& cidr_targets(host, mask) is Ok
            &&& t.len() == count
            &&& 0 <= bits <= u32::MAX
            &&& t[i].ip == IpAddr::V4(Ipv4Addr { bits: bits as u32 })
            &&& t[i].zone is None
            &&& t[i].display == addr::ip_text(t[i].ip)
        }),
{
    let host = addr::ip_text(IpAddr::V4(ip));
    addr::law_address_text_reads_back(IpAddr::V4(ip));
    law_subnet_limit(host, mask);
    lemma_power2_is((32 - mask) as nat);
    lemma_block_in_space(ip.bits as int, mask);
    let t = cidr_targets(host, mask)->Ok_0;
    assert(t[i] == v4_target(block_start(ip.bits as int, mask) + i));
}

/// A mask of more than 32 bits and a subnet of more than 65536 addresses are refused; the
/// number of addresses is told.
pub proof fn law_subnet_refused(ip: Ipv4Addr, mask: int)
    requires
        0 <= mask <= 255,
    ensures
        ({
            let host = addr::ip_text(IpAddr::V4(ip));
            let count = vstd::arithmetic::power2::pow2((32 - mask) as nat);
            &&& mask < 16 ==> cidr_targets(host, mask) == Err::<Seq<TargetModel>, Seq<char>>(
                "CIDR /"@ + text::decimal_text(mask as nat) + " 包含 "@ + text::decimal_text(count)
                    + " 个 IP，过大；请使用 /16 或更小"@,
            )
            &&& mask > 32 ==> cidr_targets(host, mask) == Err::<Seq<TargetModel>, Seq<char>>(
                "IPv4 CIDR 掩码不能超过 32"@,
            )
        }),
{
    let host = addr::ip_text(IpAddr::V4(ip));
    addr::law_address_text_reads_back(IpAddr::V4(ip));
    law_subnet_limit(host, mask);
    if mask < 16 {
        lemma_power2_is((32 - mask) as nat);
    }
}

/// A subnet of what is no IPv4 address is refused.
pub proof fn law_subnet_needs_ipv4(host: Seq<char>, mask: int)
    ensures
        addr::ip_value(host) is None ==> cidr_targets(host, mask) == Err::<
            Seq<TargetModel>,
            Seq<char>,
        >("CIDR 主机部分 "@ + host + " 非法"@),
        addr::ip_value(host) is Some && addr::ip_value(host)->0 is V6 ==> cidr_targets(host, mask)
            == Err::<Seq<TargetModel>, Seq<char>>("暂不支持 IPv6 CIDR"@),
{
}

/// What has neither a slash nor a percent sign is the address that it spells, shown as it is
/// written, or a host name, to be looked up as it is written.
pub proof fn law_plain_input(s: Seq<char>)
    requires
        bare(s),
        !s.contains('/'),
        !s.contains('%'),
    ensures
        addr::ip_value(s) is Some ==> targets_of(s) == Ok::<TargetsModel, Seq<char>>(
            TargetsModel::Ready(
                seq![TargetModel { ip: addr::ip_value(s)->0, zone: None, display: s }],
            ),
        ),
        addr::ip_value(s) is None ==> targets_of(s) == Ok::<TargetsModel, Seq<char>>(
            TargetsModel::Lookup(s),
        ),
{
    lemma_bare(s);
    text::law_cut(s, '/', s);
    text::law_cut(s, '%', s);
}

/// A host name has one target for each address that it was found to have, in that order: that
/// address, without a zone, shown as the name and the address in brackets. A lookup that
/// failed or found nothing gives no targets and says so.
pub proof fn law_host_targets(host: Seq<char>, ips: Seq<IpAddr>, e: Seq<char>, i: int)
    ensures
        0 <= i < ips.len() ==> {
            let t = looked_up(host, Ok(ips))->Ok_0;
            &&& looked_up(host, Ok(ips)) is Ok
            &&& t.len() == ips.len()
            &&& t[i].ip == ips[i]
            &&& t[i].zone is None
            &&& t[i].display == host + " ("@ + addr::ip_text(ips[i]) + ")"@
        },
        ips.len() == 0 ==> looked_up(host, Ok(ips)) == Err::<Seq<TargetModel>, Seq<char>>(
            "主机名 "@ + host + " 没有解析结果"@,
        ),
        looked_up(host, Err(e)) == Err::<Seq<TargetModel>, Seq<char>>(
            "无法解析主机名 "@ + host + ": "@ + e,
        ),
{
}

/// The endpoint of a target has its address and the port; an IPv6 one has the zone as its
/// scope and no flow label.
pub proof fn law_endpoint(a: Ipv4Addr, b: Ipv6Addr, zone: Option<u32>, z: u32, port: u16)
    ensures
        endpoint(IpAddr::V4(a), zone, port) == SocketAddr::V4(SocketAddrV4 { ip: a, port }),
        endpoint(IpAddr::V6(b), Some(z), port) == SocketAddr::V6(
            SocketAddrV6 { ip: b, port, flowinfo: 0, scope_id: z },
        ),
        endpoint(IpAddr::V6(b), None, port) == SocketAddr::V6(
            SocketAddrV6 { ip: b, port, flowinfo: 0, scope_id: 0 },
        ),
{
}

} // verus!
