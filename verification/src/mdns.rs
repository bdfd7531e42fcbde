//! Discovery of ADB services through multicast DNS: queries, messages and the services that
//! the collected records describe.
use vstd::hash_map::StringHashMap;
use vstd::prelude::*;
use vstd::slice::slice_subrange;

use crate::addr;
use crate::addr::{addr_priority, IpAddr, Ipv4Addr, Ipv6Addr};
use crate::text;

verus! {

/// `std::str::from_utf8` followed by a copy of the text: the decoded characters when the
/// bytes are valid UTF-8, and nothing otherwise.
#[verifier::external_body]
fn utf8_text(bytes: &[u8]) -> (r: Option<String>)
    ensures
        match r {
            Some(s) => vstd::utf8::valid_utf8(bytes@) && s@ == vstd::utf8::decode_utf8(bytes@),
            None => !vstd::utf8::valid_utf8(bytes@),
        },
{
    match std::str::from_utf8(bytes) {
        Ok(s) => Some(s.to_owned()),
        Err(_) => None,
    }
}

/// The ADB service types that devices advertise.
#[derive(Debug, Clone, Copy, PartialEq, Eq, Hash, Structural)]
pub enum AdbServiceKind {
    /// `_adb-tls-connect._tcp.local`: the connect port of a paired Android 11+ device.
    Connect,
    /// `_adb-tls-pairing._tcp.local`: the pairing port of an Android 11+ device.
    Pairing,
    /// `_adb._tcp.local`: `adb tcpip` mode.
    Legacy,
}

impl AdbServiceKind {
    pub open spec fn label_text(self) -> Seq<char> {
        match self {
            AdbServiceKind::Connect => "TLS-Connect"@,
            AdbServiceKind::Pairing => "TLS-Pairing"@,
            AdbServiceKind::Legacy => "Legacy"@,
        }
    }

    /// The name of the service type.
    pub open spec fn service_text(self) -> Seq<char> {
        match self {
            AdbServiceKind::Connect => "_adb-tls-connect._tcp.local"@,
            AdbServiceKind::Pairing => "_adb-tls-pairing._tcp.local"@,
            AdbServiceKind::Legacy => "_adb._tcp.local"@,
        }
    }

    pub fn label(&self) -> (r: &'static str)
        ensures
            r@ == self.label_text(),
    {
        match self {
            AdbServiceKind::Connect => "TLS-Connect",
            AdbServiceKind::Pairing => "TLS-Pairing",
            AdbServiceKind::Legacy => "Legacy",
        }
    }

    /// The name of the service type.
    pub fn service(&self) -> (r: &'static str)
        ensures
            r@ == self.service_text(),
    {
        match self {
            AdbServiceKind::Connect => "_adb-tls-connect._tcp.local",
            AdbServiceKind::Pairing => "_adb-tls-pairing._tcp.local",
            AdbServiceKind::Legacy => "_adb._tcp.local",
        }
    }
}

/// The service type whose name is `name` but for the case of its letters.
pub open spec fn kind_named(name: Seq<char>) -> Option<AdbServiceKind> {
    if text::same_ignoring_case(name, AdbServiceKind::Connect.service_text()) {
        Some(AdbServiceKind::Connect)
    } else if text::same_ignoring_case(name, AdbServiceKind::Pairing.service_text()) {
        Some(AdbServiceKind::Pairing)
    } else if text::same_ignoring_case(name, AdbServiceKind::Legacy.service_text()) {
        Some(AdbServiceKind::Legacy)
    } else {
        None
    }
}

fn kind_of(name: &str) -> (r: Option<AdbServiceKind>)
    ensures
        r == kind_named(name@),
{
    if text::eq_ignore_case(name, AdbServiceKind::Connect.service()) {
        Some(AdbServiceKind::Connect)
    } else if text::eq_ignore_case(name, AdbServiceKind::Pairing.service()) {
        Some(AdbServiceKind::Pairing)
    } else if text::eq_ignore_case(name, AdbServiceKind::Legacy.service()) {
        Some(AdbServiceKind::Legacy)
    } else {
        None
    }
}

/// One label of a name on the wire: the length of its UTF-8 form in one byte, then that form.
pub open spec fn label_bytes(label: Seq<char>) -> Seq<u8> {
    let b = vstd::utf8::encode_utf8(label);
    seq![(b.len() % 256) as u8] + b
}

/// The non-empty labels of `labels` on the wire.
pub open spec fn labels_bytes(labels: Seq<Seq<char>>) -> Seq<u8>
    decreases labels.len(),
{
    if labels.len() == 0 {
        Seq::empty()
    } else if labels.last().len() == 0 {
        labels_bytes(labels.drop_last())
    } else {
        labels_bytes(labels.drop_last()) + label_bytes(labels.last())
    }
}

/// The header of a query with one question: id 0, standard query.
pub open spec fn query_header() -> Seq<u8> {
    seq![0u8, 0u8, 0u8, 0u8, 0u8, 1u8, 0u8, 0u8, 0u8, 0u8, 0u8, 0u8]
}

/// The end of a question: the end of its name, type PTR, class IN with the
/// unicast-response bit.
pub open spec fn query_trailer() -> Seq<u8> {
    seq![0u8, 0u8, 12u8, 0x80u8, 1u8]
}

/// A PTR query for `service`.
pub open spec fn query_bytes(service: Seq<char>) -> Seq<u8> {
    query_header() + labels_bytes(text::split_on(service, '.')) + query_trailer()
}

/// A PTR query for `service`.
pub fn build_query(service: &str) -> (r: Vec<u8>)
    ensures
        r@ == query_bytes(service@),
{
    let mut m: Vec<u8> = vec![0, 0, 0, 0, 0, 1, 0, 0, 0, 0, 0, 0];
    assert(m@ =~= query_header());
    let chars: Vec<char> = text::to_chars(service);
    let labels: Vec<Vec<char>> = text::split(&chars, '.');
    let ghost all = text::split_on(service@, '.');
    let mut i: usize = 0;
    assert(all.take(0) == Seq::<Seq<char>>::empty());
    while i < labels.len()
        invariant
            i <= labels@.len() == all.len(),
            forall|k: int| 0 <= k < labels@.len() ==> (#[trigger] labels@[k])@ == all[k],
            m@ == query_header() + labels_bytes(all.take(i as int)),
        decreases labels@.len() - i,
    {
        assert(all.take(i + 1).drop_last() == all.take(i as int));
        assert(labels@[i as int]@ == all[i as int]);
        if labels[i].len() > 0 {
            let label: String = text::text_of(&labels[i], 0, labels[i].len());
            assert(label@ == all[i as int]);
            let bytes: &[u8] = label.as_str().as_bytes();
            let ghost before = m@;
            m.push((bytes.len() % 256) as u8);
            m.extend_from_slice(bytes);
            assert(m@ =~= before + label_bytes(all[i as int]));
        }
        assert(m@ =~= query_header() + labels_bytes(all.take(i + 1)));
        i = i + 1;
    }
    assert(all.take(all.len() as int) == all);
    m.push(0);
    m.push(0);
    m.push(12);
    m.push(0x80);
    m.push(1);
    assert(m@ =~= query_bytes(service@));
    m
}

/// The big-endian 16-bit number at `pos`.
pub open spec fn u16_at(buf: Seq<u8>, pos: int) -> int {
    buf[pos] * 256 + buf[pos + 1]
}

/// How many labels and pointers of a name are followed at most.
pub open spec fn name_budget() -> nat {
    100
}

/// `text` with the label `label` added after a dot, or alone when it is the first.
pub open spec fn with_label(text: Seq<char>, label: Seq<char>) -> Seq<char> {
    if text.len() == 0 {
        label
    } else {
        text.push('.') + label
    }
}

/// The name read from `pos` on, continuing `text`: labels up to the empty label, where a
/// pointer continues the name elsewhere in the message. There is none when the message ends
/// first, a label is not UTF-8, or more than `budget` labels and pointers come together.
pub open spec fn name_text(buf: Seq<u8>, pos: int, budget: nat, text: Seq<char>) -> Option<Seq<char>>
    decreases budget,
{
    if budget == 0 || !(0 <= pos < buf.len()) {
        None
    } else if buf[pos] == 0 {
        Some(text)
    } else if buf[pos] >= 0xC0 {
        if pos + 1 >= buf.len() {
            None
        } else {
            name_text(buf, (buf[pos] - 0xC0) * 256 + buf[pos + 1], (budget - 1) as nat, text)
        }
    } else {
        let end = pos + 1 + buf[pos];
        let label = buf.subrange(pos + 1, end);
        if end > buf.len() || !vstd::utf8::valid_utf8(label) {
            None
        } else {
            name_text(
                buf,
                end,
                (budget - 1) as nat,
                with_label(text, vstd::utf8::decode_utf8(label)),
            )
        }
    }
}

/// The position just after the name at `pos`: after its empty label, or after its first
/// pointer. There is none when neither is reached.
pub open spec fn name_end(buf: Seq<u8>, pos: int, budget: nat) -> Option<int>
    decreases budget,
{
    if budget == 0 || !(0 <= pos < buf.len()) {
        None
    } else if buf[pos] == 0 {
        Some(pos + 1)
    } else if buf[pos] >= 0xC0 {
        if pos + 1 >= buf.len() {
            None
        } else {
            Some(pos + 2)
        }
    } else {
        let end = pos + 1 + buf[pos];
        if end > buf.len() || !vstd::utf8::valid_utf8(buf.subrange(pos + 1, end)) {
            None
        } else {
            name_end(buf, end, (budget - 1) as nat)
        }
    }
}

/// The name at `pos` of the message.
pub open spec fn name_at(buf: Seq<u8>, pos: int) -> Option<Seq<char>> {
    name_text(buf, pos, name_budget(), Seq::empty())
}

/// The position just after the name at `pos` of the message.
pub open spec fn after_name(buf: Seq<u8>, pos: int) -> Option<int> {
    name_end(buf, pos, name_budget())
}

/// A reader of a DNS message.
#[derive(Debug)]
pub struct Cursor<'a> {
    pub buf: &'a [u8],
    pub pos: usize,
}

impl<'a> Cursor<'a> {
    /// The next `n` bytes; nothing, and no move, when the message is shorter.
    pub fn slice(&mut self, n: usize) -> (r: Option<&'a [u8]>)
        ensures
            final(self).buf == old(self).buf,
            match r {
                Some(s) => old(self).pos + n <= old(self).buf@.len() && s@
                    == old(self).buf@.subrange(old(self).pos as int, old(self).pos + n)
                    && final(self).pos == old(self).pos + n,
                None => old(self).pos + n > old(self).buf@.len() && final(self).pos
                    == old(self).pos,
            },
    {
        if self.pos > self.buf.len() || n > self.buf.len() - self.pos {
            return None;
        }
        let s: &'a [u8] = slice_subrange(self.buf, self.pos, self.pos + n);
        self.pos = self.pos + n;
        Some(s)
    }

    /// Moves past the next `n` bytes; nothing, and no move, when the message is shorter.
    pub fn skip(&mut self, n: usize) -> (r: Option<()>)
        ensures
            final(self).buf == old(self).buf,
            r is Some <==> old(self).pos + n <= old(self).buf@.len(),
            final(self).pos == if r is Some {
                old(self).pos + n
            } else {
                old(self).pos as int
            },
    {
        if self.pos > self.buf.len() || n > self.buf.len() - self.pos {
            return None;
        }
        self.pos = self.pos + n;
        Some(())
    }

    /// The next big-endian 16-bit number.
    pub fn u16(&mut self) -> (r: Option<u16>)
        ensures
            final(self).buf == old(self).buf,
            match r {
                Some(v) => old(self).pos + 2 <= old(self).buf@.len() && v == u16_at(
                    old(self).buf@,
                    old(self).pos as int,
                ) && final(self).pos == old(self).pos + 2,
                None => old(self).pos + 2 > old(self).buf@.len() && final(self).pos
                    == old(self).pos,
            },
    {
        match self.slice(2) {
            Some(s) => Some(s[0] as u16 * 256 + s[1] as u16),
            None => None,
        }
    }

    /// Reads a name, following compression pointers, and moves past it.
    pub fn read_name(&mut self) -> (r: Option<String>)
        ensures
            final(self).buf == old(self).buf,
            match r {
                Some(s) => name_at(old(self).buf@, old(self).pos as int) == Some(s@),
                None => name_at(old(self).buf@, old(self).pos as int) is None,
            },
            final(self).pos == match after_name(old(self).buf@, old(self).pos as int) {
                Some(end) => end,
                None => old(self).pos as int,
            },
            r is Some ==> after_name(old(self).buf@, old(self).pos as int) is Some,
    {
        let ghost start = self.pos as int;
        let ghost buf = self.buf@;
        let mut out = String::new();
        let mut jumped: bool = false;
        let mut pos: usize = self.pos;
        let mut budget: usize = 100;
        loop
            invariant
                self.buf@ == buf,
                self.buf == old(self).buf,
                old(self).pos == start,
                budget <= 100,
                name_at(buf, start) == name_text(buf, pos as int, budget as nat, out@),
                jumped ==> after_name(buf, start) == Some(self.pos as int),
                !jumped ==> self.pos == start && after_name(buf, start) == name_end(
                    buf,
                    pos as int,
                    budget as nat,
                ),
            decreases budget,
        {
            if budget == 0 || pos >= self.buf.len() {
                return None;
            }
            budget = budget - 1;
            let len: u8 = self.buf[pos];
            if len == 0 {
                if !jumped {
                    self.pos = pos + 1;
                }
                return Some(out);
            }
            if len >= 0xC0 {
                if self.buf.len() - pos < 2 {
                    return None;
                }
                let ptr: usize = (len - 0xC0) as usize * 256 + self.buf[pos + 1] as usize;
                if !jumped {
                    self.pos = pos + 2;
                    jumped = true;
                }
                pos = ptr;
            } else {
                if self.buf.len() - pos - 1 < len as usize {
                    return None;
                }
                let end: usize = pos + 1 + len as usize;
                let label: String = match utf8_text(slice_subrange(self.buf, pos + 1, end)) {
                    Some(s) => s,
                    None => {
                        return None;
                    },
                };
                let ghost before = out@;
                if out.as_str().is_empty() {
                    out = label;
                } else {
                    out.push('.');
                    out.append(&label);
                }
                assert(out@ == with_label(
                    before,
                    vstd::utf8::decode_utf8(buf.subrange(pos + 1, end as int)),
                ));
                pos = end;
            }
        }
    }
}

/// The host and the port that a service instance is reached at.
#[derive(Debug)]
pub struct SrvRecord {
    pub target: String,
    pub port: u16,
}

impl Clone for SrvRecord {
    fn clone(&self) -> (r: SrvRecord)
        ensures
            r == *self,
    {
        SrvRecord { target: self.target.clone(), port: self.port }
    }
}

/// What the messages received so far say: where each service instance is, the addresses of
/// each host, and the instances of each service type in the order they were named.
#[verifier::ext_equal]
pub struct Records {
    pub srvs: Map<Seq<char>, (Seq<char>, u16)>,
    pub addrs: Map<Seq<char>, Seq<IpAddr>>,
    pub ptrs: Seq<(AdbServiceKind, Seq<char>)>,
}

/// The model of a table of service locations.
pub open spec fn srv_model(m: Map<Seq<char>, SrvRecord>) -> Map<Seq<char>, (Seq<char>, u16)> {
    m.map_values(|r: SrvRecord| (r.target@, r.port))
}

/// The model of a table of host addresses.
pub open spec fn addr_model(m: Map<Seq<char>, Vec<IpAddr>>) -> Map<Seq<char>, Seq<IpAddr>> {
    m.map_values(|v: Vec<IpAddr>| v@)
}

/// The model of a list of named instances.
pub open spec fn ptr_model(v: Seq<(AdbServiceKind, String)>) -> Seq<(AdbServiceKind, Seq<char>)> {
    v.map_values(|p: (AdbServiceKind, String)| (p.0, p.1@))
}

/// The addresses of `list` with preference `p`, in order.
pub open spec fn ranked(list: Seq<IpAddr>, p: int) -> Seq<IpAddr>
    decreases list.len(),
{
    if list.len() == 0 {
        Seq::empty()
    } else if addr::priority(list.last()) == p {
        ranked(list.drop_last(), p).push(list.last())
    } else {
        ranked(list.drop_last(), p)
    }
}

/// `list` in the order of connect preference, addresses of equal preference as they came.
pub open spec fn by_priority(list: Seq<IpAddr>) -> Seq<IpAddr> {
    ranked(list, 0) + ranked(list, 1) + ranked(list, 2)
}

/// `list` with `ip` added in its place, unless it is there already.
pub open spec fn with_addr(list: Seq<IpAddr>, ip: IpAddr) -> Seq<IpAddr> {
    if list.contains(ip) {
        list
    } else {
        by_priority(list.push(ip))
    }
}

/// The addresses that `addrs` has for `name`, none when it has no entry.
pub open spec fn addrs_of(addrs: Map<Seq<char>, Seq<IpAddr>>, name: Seq<char>) -> Seq<IpAddr> {
    if addrs.contains_key(name) {
        addrs[name]
    } else {
        Seq::empty()
    }
}

/// A resource record: its owner, its type, and where its data begins and how long it is.
pub struct RecordHead {
    pub name: Seq<char>,
    pub rtype: int,
    pub data: int,
    pub len: int,
}

/// The resource record at `pos`, when it is complete.
pub open spec fn record_at(buf: Seq<u8>, pos: int) -> Option<RecordHead> {
    match (name_at(buf, pos), after_name(buf, pos)) {
        (Some(name), Some(end)) => if end + 10 <= buf.len() && end + 10 + u16_at(buf, end + 8)
            <= buf.len() {
            Some(
                RecordHead {
                    name,
                    rtype: u16_at(buf, end),
                    data: end + 10,
                    len: u16_at(buf, end + 8),
                },
            )
        } else {
            None
        },
        _ => None,
    }
}

/// `r` after the record `h`: a PTR of an ADB service type names an instance, an SRV places
/// one, an A or AAAA adds an address of a host; anything else changes nothing.
pub open spec fn absorb(buf: Seq<u8>, h: RecordHead, r: Records) -> Records {
    if h.rtype == 12 {
        match (name_at(buf, h.data), kind_named(h.name)) {
            (Some(target), Some(kind)) => Records { ptrs: r.ptrs.push((kind, target)), ..r },
            _ => r,
        }
    } else if h.rtype == 33 {
        match name_at(buf, h.data + 6) {
            Some(target) => if h.len >= 6 {
                Records {
                    srvs: r.srvs.insert(h.name, (target, u16_at(buf, h.data + 4) as u16)),
                    ..r
                }
            } else {
                r
            },
            None => r,
        }
    } else if h.rtype == 1 && h.len == 4 {
        with_address(
            r,
            h.name,
            IpAddr::V4(
                Ipv4Addr { bits: addr::be_value(buf.subrange(h.data, h.data + 4)) as u32 },
            ),
        )
    } else if h.rtype == 28 && h.len == 16 {
        with_address(
            r,
            h.name,
            IpAddr::V6(
                Ipv6Addr { bits: addr::be_value(buf.subrange(h.data, h.data + 16)) as u128 },
            ),
        )
    } else {
        r
    }
}

/// `r` with `ip` added to the addresses of the host `name`.
pub open spec fn with_address(r: Records, name: Seq<char>, ip: IpAddr) -> Records {
    Records { addrs: r.addrs.insert(name, with_addr(addrs_of(r.addrs, name), ip)), ..r }
}

/// `r` after the `n` records from `pos` on, and whether all of them were complete; the
/// records before the first incomplete one count.
pub open spec fn absorb_all(buf: Seq<u8>, pos: int, n: nat, r: Records) -> (Records, bool)
    decreases n,
{
    if n == 0 {
        (r, true)
    } else {
        match record_at(buf, pos) {
            Some(h) => absorb_all(buf, h.data + h.len, (n - 1) as nat, absorb(buf, h, r)),
            None => (r, false),
        }
    }
}

/// The position after the `n` questions from `pos` on, when they are complete.
pub open spec fn after_questions(buf: Seq<u8>, pos: int, n: nat) -> Option<int>
    decreases n,
{
    if n == 0 {
        Some(pos)
    } else {
        match (name_at(buf, pos), after_name(buf, pos)) {
            (Some(_), Some(end)) => if end + 4 <= buf.len() {
                after_questions(buf, end + 4, (n - 1) as nat)
            } else {
                None
            },
            _ => None,
        }
    }
}

/// `r` after the message `buf`, and whether the message was complete.
pub open spec fn after_message(buf: Seq<u8>, r: Records) -> (Records, bool) {
    if buf.len() < 12 {
        (r, false)
    } else {
        match after_questions(buf, 12, u16_at(buf, 4) as nat) {
            Some(pos) => absorb_all(
                buf,
                pos,
                (u16_at(buf, 6) + u16_at(buf, 8) + u16_at(buf, 10)) as nat,
                r,
            ),
            None => (r, false),
        }
    }
}

fn push_ranked(list: &Vec<IpAddr>, p: u8, out: &mut Vec<IpAddr>)
    ensures
        final(out)@ == old(out)@ + ranked(list@, p as int),
{
    let ghost start = out@;
    let mut i: usize = 0;
    assert(list@.take(0) == Seq::<IpAddr>::empty());
    assert(out@ =~= start + ranked(list@.take(0), p as int));
    while i < list.len()
        invariant
            i <= list@.len(),
            out@ == start + ranked(list@.take(i as int), p as int),
        decreases list@.len() - i,
    {
        assert(list@.take(i + 1).drop_last() == list@.take(i as int));
        if addr_priority(&list[i]) == p {
            out.push(list[i]);
        }
        assert(out@ =~= start + ranked(list@.take(i + 1), p as int));
        i = i + 1;
    }
    assert(list@.take(list@.len() as int) == list@);
}

fn contains_addr(list: &Vec<IpAddr>, ip: IpAddr) -> (r: bool)
    ensures
        r == list@.contains(ip),
{
    let mut i: usize = 0;
    while i < list.len()
        invariant
            i <= list@.len(),
            forall|k: int| 0 <= k < i ==> list@[k] != ip,
        decreases list@.len() - i,
    {
        if list[i] == ip {
            assert(list@[i as int] == ip);
            return true;
        }
        i = i + 1;
    }
    false
}

fn copy_addrs(list: &Vec<IpAddr>) -> (r: Vec<IpAddr>)
    ensures
        r@ == list@,
{
    let mut r: Vec<IpAddr> = Vec::new();
    let mut i: usize = 0;
    while i < list.len()
        invariant
            i <= list@.len(),
            r@ == list@.take(i as int),
        decreases list@.len() - i,
    {
        r.push(list[i]);
        assert(list@.take(i + 1) == list@.take(i as int).push(list@[i as int]));
        i = i + 1;
    }
    assert(list@.take(list@.len() as int) == list@);
    r
}

/// Adds an address of the host `name`: no address twice, the preferred ones first.
pub fn push_addr(map: &mut StringHashMap<Vec<IpAddr>>, name: String, ip: IpAddr)
    ensures
        addr_model(final(map)@) == addr_model(old(map)@).insert(
            name@,
            with_addr(addrs_of(addr_model(old(map)@), name@), ip),
        ),
{
    let ghost before = map@;
    let mut list: Vec<IpAddr> = match map.get(&name) {
        Some(v) => copy_addrs(v),
        None => Vec::new(),
    };
    assert(list@ == addrs_of(addr_model(before), name@));
    if !contains_addr(&list, ip) {
        list.push(ip);
        let mut sorted: Vec<IpAddr> = Vec::new();
        push_ranked(&list, 0, &mut sorted);
        push_ranked(&list, 1, &mut sorted);
        push_ranked(&list, 2, &mut sorted);
        assert(sorted@ =~= by_priority(list@));
        list = sorted;
    }
    map.insert(name, list);
    assert(addr_model(map@) =~= addr_model(before).insert(
        name@,
        with_addr(addrs_of(addr_model(before), name@), ip),
    ));
}

/// The model of the three tables that a message is read into.
pub open spec fn records(
    srvs: Map<Seq<char>, SrvRecord>,
    addrs: Map<Seq<char>, Vec<IpAddr>>,
    ptrs: Seq<(AdbServiceKind, String)>,
) -> Records {
    Records { srvs: srv_model(srvs), addrs: addr_model(addrs), ptrs: ptr_model(ptrs) }
}

proof fn lemma_name_end(buf: Seq<u8>, pos: int, budget: nat)
    ensures
        name_end(buf, pos, budget) is Some ==> 0 <= pos < name_end(buf, pos, budget)->0
            <= buf.len(),
    decreases budget,
{
    if budget > 0 && 0 <= pos < buf.len() && 0 < buf[pos] < 0xC0 {
        lemma_name_end(buf, pos + 1 + buf[pos], (budget - 1) as nat);
    }
}

proof fn lemma_be_value_4(s: Seq<u8>)
    requires
        s.len() == 4,
    ensures
        addr::be_value(s) == ((s[0] * 256 + s[1]) * 256 + s[2]) * 256 + s[3],
{
    reveal_with_fuel(addr::be_value, 5);
    let s3 = s.drop_last();
    let s2 = s3.drop_last();
    let s1 = s2.drop_last();
    assert(s3.last() == s[2] && s2.last() == s[1] && s1.last() == s[0]);
    assert(s1.drop_last() == Seq::<u8>::empty());
}

/// The resource record at the cursor, which moves to its data.
fn read_head(c: &mut Cursor) -> (r: Option<(String, u16, usize)>)
    ensures
        final(c).buf == old(c).buf,
        match r {
            Some((name, rtype, len)) => record_at(old(c).buf@, old(c).pos as int) == Some(
                RecordHead {
                    name: name@,
                    rtype: rtype as int,
                    data: final(c).pos as int,
                    len: len as int,
                },
            ) && final(c).pos + len <= final(c).buf@.len(),
            None => record_at(old(c).buf@, old(c).pos as int) is None,
        },
{
    proof {
        lemma_name_end(c.buf@, c.pos as int, name_budget());
    }
    let name: String = c.read_name()?;
    let rtype: u16 = c.u16()?;
    c.skip(2)?;
    c.skip(4)?;
    let len: u16 = c.u16()?;
    if len as usize > c.buf.len() - c.pos {
        return None;
    }
    Some((name, rtype, len as usize))
}

/// Reads the record whose head has been read, at whose data the cursor stands.
fn read_data(
    buf: &[u8],
    pos: usize,
    name: String,
    rtype: u16,
    len: usize,
    srvs: &mut StringHashMap<SrvRecord>,
    addrs: &mut StringHashMap<Vec<IpAddr>>,
    ptrs: &mut Vec<(AdbServiceKind, String)>,
)
    requires
        pos + len <= buf@.len(),
    ensures
        records(final(srvs)@, final(addrs)@, final(ptrs)@) == absorb(
            buf@,
            (RecordHead { name: name@, rtype: rtype as int, data: pos as int, len: len as int }),
            records(old(srvs)@, old(addrs)@, old(ptrs)@),
        ),
{
    let ghost before = records(srvs@, addrs@, ptrs@);
    let ghost h = RecordHead { name: name@, rtype: rtype as int, data: pos as int, len: len as int };
    assert(buf@.len() == buf.len());
    if rtype == 12 {
        let mut sub = Cursor { buf, pos };
        if let Some(target) = sub.read_name() {
            if let Some(kind) = kind_of(&name) {
                ptrs.push((kind, target));
                assert(ptr_model(ptrs@) =~= before.ptrs.push((kind, target@)));
            }
        }
    } else if rtype == 33 {
        if len >= 6 {
            let port: u16 = buf[pos + 4] as u16 * 256 + buf[pos + 5] as u16;
            let mut sub = Cursor { buf, pos: pos + 6 };
            if let Some(target) = sub.read_name() {
                let ghost t = target@;
                srvs.insert(name, SrvRecord { target, port });
                assert(srv_model(srvs@) =~= before.srvs.insert(h.name, (t, port)));
            }
        }
    } else if rtype == 1 && len == 4 {
        let ip = Ipv4Addr::new(buf[pos], buf[pos + 1], buf[pos + 2], buf[pos + 3]);
        proof {
            lemma_be_value_4(buf@.subrange(pos as int, pos + 4));
        }
        push_addr(addrs, name, IpAddr::V4(ip));
    } else if rtype == 28 && len == 16 {
        let ip = Ipv6Addr::from_bytes(slice_subrange(buf, pos, pos + 16));
        push_addr(addrs, name, IpAddr::V6(ip));
    }
    assert(records(srvs@, addrs@, ptrs@) =~= absorb(buf@, h, before));
}

/// Reads one DNS message into the tables. The result tells whether the message was
/// complete; what came before the point where it was not is kept.
pub fn parse_message(
    buf: &[u8],
    srvs: &mut StringHashMap<SrvRecord>,
    addrs: &mut StringHashMap<Vec<IpAddr>>,
    ptrs: &mut Vec<(AdbServiceKind, String)>,
) -> (r: Option<()>)
    ensures
        after_message(buf@, records(old(srvs)@, old(addrs)@, old(ptrs)@)) == (
            records(final(srvs)@, final(addrs)@, final(ptrs)@),
            r is Some,
        ),
{
    let ghost start = records(srvs@, addrs@, ptrs@);
    if buf.len() < 12 {
        return None;
    }
    let mut c = Cursor { buf, pos: 0 };
    c.skip(2)?;
    c.skip(2)?;
    let qd: u16 = c.u16()?;
    let an: u16 = c.u16()?;
    let ns: u16 = c.u16()?;
    let ar: u16 = c.u16()?;
    let mut q: u16 = 0;
    while q < qd
        invariant
            q <= qd,
            c.buf@ == buf@,
            c.pos <= buf@.len(),
            buf@.len() >= 12,
            qd == u16_at(buf@, 4),
            records(srvs@, addrs@, ptrs@) == start,
            records(old(srvs)@, old(addrs)@, old(ptrs)@) == start,
            after_questions(buf@, 12, qd as nat) == after_questions(
                buf@,
                c.pos as int,
                (qd - q) as nat,
            ),
        decreases qd - q,
    {
        proof {
            lemma_name_end(buf@, c.pos as int, name_budget());
        }
        c.read_name()?;
        c.skip(4)?;
        q = q + 1;
    }
    let total: usize = an as usize + ns as usize + ar as usize;
    let mut i: usize = 0;
    while i < total
        invariant
            i <= total,
            c.buf@ == buf@,
            c.pos <= buf@.len(),
            records(old(srvs)@, old(addrs)@, old(ptrs)@) == start,
            after_message(buf@, start) == absorb_all(
                buf@,
                c.pos as int,
                (total - i) as nat,
                records(srvs@, addrs@, ptrs@),
            ),
        decreases total - i,
    {
        let (name, rtype, len) = read_head(&mut c)?;
        let at: usize = c.pos;
        assert(buf@.len() == buf.len());
        read_data(buf, at, name, rtype, len, srvs, addrs, ptrs);
        c.pos = at + len;
        i = i + 1;
    }
    Some(())
}

/// A discovered ADB service.
#[derive(Debug)]
pub struct AdbService {
    pub kind: AdbServiceKind,
    pub instance: String,
    /// The address to connect to: IPv4 before global IPv6 before link-local IPv6. The first
    /// of `ips`.
    pub ip: IpAddr,
    /// All addresses of the device, without duplicates, in the order of preference.
    pub ips: Vec<IpAddr>,
    pub port: u16,
}

/// The model of an `AdbService`.
#[verifier::ext_equal]
pub struct ServiceModel {
    pub kind: AdbServiceKind,
    pub instance: Seq<char>,
    pub ip: IpAddr,
    pub ips: Seq<IpAddr>,
    pub port: u16,
}

impl View for AdbService {
    type V = ServiceModel;

    open spec fn view(&self) -> ServiceModel {
        ServiceModel {
            kind: self.kind,
            instance: self.instance@,
            ip: self.ip,
            ips: self.ips@,
            port: self.port,
        }
    }
}

impl Clone for AdbService {
    fn clone(&self) -> (r: AdbService)
        ensures
            r@ == self@,
    {
        AdbService {
            kind: self.kind,
            instance: self.instance.clone(),
            ip: self.ip,
            ips: copy_addrs(&self.ips),
            port: self.port,
        }
    }
}

/// The models of a list of services.
pub open spec fn service_models(v: Seq<AdbService>) -> Seq<ServiceModel> {
    v.map_values(|s: AdbService| s@)
}

/// `ptrs` without the repetitions of earlier entries.
pub open spec fn distinct(ptrs: Seq<(AdbServiceKind, Seq<char>)>) -> Seq<(AdbServiceKind, Seq<char>)>
    decreases ptrs.len(),
{
    if ptrs.len() == 0 {
        Seq::empty()
    } else {
        let rest = distinct(ptrs.drop_last());
        if rest.contains(ptrs.last()) {
            rest
        } else {
            rest.push(ptrs.last())
        }
    }
}

/// The service that the instance `p` is, when its place and an address of its host are known.
pub open spec fn service_at(r: Records, p: (AdbServiceKind, Seq<char>)) -> Option<ServiceModel> {
    if r.srvs.contains_key(p.1) && addrs_of(r.addrs, r.srvs[p.1].0).len() > 0 {
        let ips = addrs_of(r.addrs, r.srvs[p.1].0);
        Some(ServiceModel { kind: p.0, instance: p.1, ip: ips[0], ips, port: r.srvs[p.1].1 })
    } else {
        None
    }
}

/// The services that the instances `ptrs` are, in order; those not resolved are left out.
pub open spec fn resolved(r: Records, ptrs: Seq<(AdbServiceKind, Seq<char>)>) -> Seq<ServiceModel>
    decreases ptrs.len(),
{
    if ptrs.len() == 0 {
        Seq::empty()
    } else {
        match service_at(r, ptrs.last()) {
            Some(s) => resolved(r, ptrs.drop_last()).push(s),
            None => resolved(r, ptrs.drop_last()),
        }
    }
}

/// The services that the records describe, each instance of a service type once, in the
/// order they were first named.
pub open spec fn services_of(r: Records) -> Seq<ServiceModel> {
    resolved(r, distinct(r.ptrs))
}

/// Whether the entry `p` stands among the first `n` of `v`.
fn named_before(v: &Vec<(AdbServiceKind, String)>, n: usize, kind: AdbServiceKind, name: &String) -> (r: bool)
    requires
        n <= v@.len(),
    ensures
        r == ptr_model(v@).take(n as int).contains((kind, name@)),
{
    let mut i: usize = 0;
    let ghost m = ptr_model(v@);
    while i < n
        invariant
            i <= n <= v@.len(),
            m == ptr_model(v@),
            forall|k: int| 0 <= k < i ==> m[k] != (kind, name@),
        decreases n - i,
    {
        if v[i].0 == kind && v[i].1 == *name {
            assert(m.take(n as int)[i as int] == (kind, name@));
            return true;
        }
        i = i + 1;
    }
    assert(!m.take(n as int).contains((kind, name@)));
    false
}

proof fn lemma_distinct_contains(ptrs: Seq<(AdbServiceKind, Seq<char>)>, p: (AdbServiceKind, Seq<char>))
    ensures
        distinct(ptrs).contains(p) == ptrs.contains(p),
    decreases ptrs.len(),
{
    if ptrs.len() > 0 {
        let init = ptrs.drop_last();
        lemma_distinct_contains(init, p);
        assert(ptrs == init.push(ptrs.last()));
        if ptrs.contains(p) && p != ptrs.last() {
            let k = choose|k: int| 0 <= k < ptrs.len() && ptrs[k] == p;
            assert(init[k] == p);
        }
        assert(ptrs[ptrs.len() - 1] == ptrs.last());
        if init.contains(p) {
            let k = choose|k: int| 0 <= k < init.len() && init[k] == p;
            assert(ptrs[k] == p);
        }
        let rest = distinct(init);
        if !rest.contains(ptrs.last()) {
            let d = rest.push(ptrs.last());
            assert(d[rest.len() as int] == ptrs.last());
            if rest.contains(p) {
                let k = choose|k: int| 0 <= k < rest.len() && rest[k] == p;
                assert(d[k] == p);
            }
            if d.contains(p) && p != ptrs.last() {
                let k = choose|k: int| 0 <= k < d.len() && d[k] == p;
                assert(rest[k] == p);
            }
        }
    }
}

/// The services that the tables describe.
pub fn assemble(
    srvs: &StringHashMap<SrvRecord>,
    addrs: &StringHashMap<Vec<IpAddr>>,
    ptrs: &Vec<(AdbServiceKind, String)>,
) -> (r: Vec<AdbService>)
    ensures
        service_models(r@) == services_of(records(srvs@, addrs@, ptrs@)),
{
    let ghost rec = records(srvs@, addrs@, ptrs@);
    let mut out: Vec<AdbService> = Vec::new();
    let mut i: usize = 0;
    assert(rec.ptrs.take(0) == Seq::<(AdbServiceKind, Seq<char>)>::empty());
    assert(service_models(out@) =~= Seq::<ServiceModel>::empty());
    while i < ptrs.len()
        invariant
            i <= ptrs@.len() == rec.ptrs.len(),
            rec == records(srvs@, addrs@, ptrs@),
            service_models(out@) == resolved(rec, distinct(rec.ptrs.take(i as int))),
        decreases ptrs@.len() - i,
    {
        let kind: AdbServiceKind = ptrs[i].0;
        let ghost p = (kind, ptrs@[i as int].1@);
        let ghost head = rec.ptrs.take(i + 1);
        let ghost seen = distinct(rec.ptrs.take(i as int));
        assert(head.drop_last() == rec.ptrs.take(i as int));
        assert(head.last() == p);
        proof {
            lemma_distinct_contains(rec.ptrs.take(i as int), p);
        }
        if !named_before(ptrs, i, kind, &ptrs[i].1) {
            assert(distinct(head) == seen.push(p));
            assert(seen.push(p).drop_last() == seen);
            if let Some(srv) = srvs.get(&ptrs[i].1) {
                assert(rec.srvs.contains_key(p.1) && rec.srvs[p.1] == (srv.target@, srv.port));
                if let Some(ips) = addrs.get(&srv.target) {
                    assert(rec.addrs.contains_key(srv.target@) && rec.addrs[srv.target@] == ips@);
                    if ips.len() > 0 {
                        let ghost before = out@;
                        out.push(
                            AdbService {
                                kind,
                                instance: ptrs[i].1.clone(),
                                ip: ips[0],
                                ips: copy_addrs(ips),
                                port: srv.port,
                            },
                        );
                        assert(out@.last()@ == service_at(rec, p)->0);
                        assert(service_models(out@) =~= service_models(before).push(out@.last()@));
                    }
                }
            }
        }
        i = i + 1;
    }
    assert(rec.ptrs.take(rec.ptrs.len() as int) == rec.ptrs);
    out
}

/// The queries for the three ADB service types.
pub fn queries() -> (r: Vec<Vec<u8>>)
    ensures
        r@.len() == 3,
        r@[0]@ == query_bytes("_adb-tls-connect._tcp.local"@),
        r@[1]@ == query_bytes("_adb-tls-pairing._tcp.local"@),
        r@[2]@ == query_bytes("_adb._tcp.local"@),
{
    let mut r: Vec<Vec<u8>> = Vec::new();
    r.push(build_query(AdbServiceKind::Connect.service()));
    r.push(build_query(AdbServiceKind::Pairing.service()));
    r.push(build_query(AdbServiceKind::Legacy.service()));
    r
}

/// After how many milliseconds the queries are sent once more.
pub const RESEND_AFTER_MS: u64 = 500;

/// What to do next in a discovery.
#[derive(Debug, Clone, Copy, PartialEq, Eq, Structural)]
pub enum DiscoveryStep {
    /// The time is up.
    Finish,
    /// Send the queries again, then wait for a message.
    Resend,
    /// Wait for a message.
    Listen,
}

/// A running discovery.
pub struct Discovery {
    pub total_ms: u64,
    pub resent: bool,
    pub srvs: StringHashMap<SrvRecord>,
    pub addrs: StringHashMap<Vec<IpAddr>>,
    pub ptrs: Vec<(AdbServiceKind, String)>,
}

/// The step due `elapsed_ms` after the start.
pub open spec fn step_due(total_ms: u64, resent: bool, elapsed_ms: u64) -> DiscoveryStep {
    if elapsed_ms >= total_ms {
        DiscoveryStep::Finish
    } else if !resent && elapsed_ms >= RESEND_AFTER_MS {
        DiscoveryStep::Resend
    } else {
        DiscoveryStep::Listen
    }
}

/// Whether the queries have been sent again once the step due `elapsed_ms` after the start is
/// done.
pub open spec fn resent_by(total_ms: u64, resent: bool, elapsed_ms: u64) -> bool {
    resent || step_due(total_ms, resent, elapsed_ms) == DiscoveryStep::Resend
}

impl Discovery {
    /// What the messages received so far say.
    pub open spec fn records(&self) -> Records {
        records(self.srvs@, self.addrs@, self.ptrs@)
    }

    /// A discovery that takes `total_ms` and has received nothing yet.
    pub fn new(total_ms: u64) -> (r: Discovery)
        ensures
            r.total_ms == total_ms,
            !r.resent,
            r.records() == (Records { srvs: Map::empty(), addrs: Map::empty(), ptrs: Seq::empty() }),
    {
        let r = Discovery {
            total_ms,
            resent: false,
            srvs: StringHashMap::new(),
            addrs: StringHashMap::new(),
            ptrs: Vec::new(),
        };
        assert(r.records() =~= (Records {
            srvs: Map::empty(),
            addrs: Map::empty(),
            ptrs: Seq::empty(),
        }));
        r
    }

    /// What to do `elapsed_ms` after the start. The queries are sent again at most once.
    pub fn step(&mut self, elapsed_ms: u64) -> (r: DiscoveryStep)
        ensures
            r == step_due(old(self).total_ms, old(self).resent, elapsed_ms),
            final(self).resent == resent_by(old(self).total_ms, old(self).resent, elapsed_ms),
            final(self).resent == (old(self).resent || r == DiscoveryStep::Resend),
            final(self).total_ms == old(self).total_ms,
            final(self).records() == old(self).records(),
    {
        if elapsed_ms >= self.total_ms {
            DiscoveryStep::Finish
        } else if !self.resent && elapsed_ms >= RESEND_AFTER_MS {
            self.resent = true;
            DiscoveryStep::Resend
        } else {
            DiscoveryStep::Listen
        }
    }

    /// Takes in a received message, complete or not.
    pub fn receive(&mut self, message: &[u8])
        ensures
            final(self).records() == after_message(message@, old(self).records()).0,
            final(self).total_ms == old(self).total_ms,
            final(self).resent == old(self).resent,
    {
        let _ = parse_message(message, &mut self.srvs, &mut self.addrs, &mut self.ptrs);
    }

    /// The services found.
    pub fn finish(&self) -> (r: Vec<AdbService>)
        ensures
            service_models(r@) == services_of(self.records()),
    {
        assemble(&self.srvs, &self.addrs, &self.ptrs)
    }
}

// ---------------------------------------------------------------------------------------
// Laws
// ---------------------------------------------------------------------------------------

/// Whether `list` holds no address twice and is in the order of connect preference.
pub open spec fn tidy(list: Seq<IpAddr>) -> bool {
    &&& forall|i: int, j: int| 0 <= i < j < list.len() ==> list[i] != list[j]
    &&& forall|i: int, j: int|
        0 <= i < j < list.len() ==> addr::priority(list[i]) <= addr::priority(list[j])
}

/// Whether every host of `r` has a tidy list of addresses.
pub open spec fn tidy_records(r: Records) -> bool {
    forall|name: Seq<char>| #[trigger] r.addrs.contains_key(name) ==> tidy(r.addrs[name])
}

/// Whether `after` has all that `before` has: the instances that were named, in their order
/// and in front, the places of instances, though perhaps others, and the addresses of hosts.
pub open spec fn grown(before: Records, after: Records) -> bool {
    &&& before.ptrs.is_prefix_of(after.ptrs)
    &&& before.srvs.dom().subset_of(after.srvs.dom())
    &&& before.addrs.dom().subset_of(after.addrs.dom())
    &&& forall|name: Seq<char>, ip: IpAddr|
        before.addrs.contains_key(name) && #[trigger] before.addrs[name].contains(ip)
            ==> after.addrs[name].contains(ip)
}

proof fn lemma_ranked(list: Seq<IpAddr>, p: int)
    ensures
        forall|i: int|
            0 <= i < ranked(list, p).len() ==> addr::priority(#[trigger] ranked(list, p)[i]) == p
                && list.contains(ranked(list, p)[i]),
        forall|ip: IpAddr| #[trigger]
            list.contains(ip) && addr::priority(ip) == p ==> ranked(list, p).contains(ip),
    decreases list.len(),
{
    if list.len() > 0 {
        let init = list.drop_last();
        let last = list.last();
        lemma_ranked(init, p);
        let r = ranked(list, p);
        let q = ranked(init, p);
        assert(list[list.len() - 1] == last);
        assert forall|i: int| 0 <= i < r.len() implies addr::priority(#[trigger] r[i]) == p
            && list.contains(r[i]) by {
            if i < q.len() {
                assert(r[i] == q[i]);
                let k = choose|k: int| 0 <= k < init.len() && init[k] == q[i];
                assert(list[k] == r[i]);
            }
        }
        assert forall|ip: IpAddr| #[trigger]
            list.contains(ip) && addr::priority(ip) == p implies r.contains(ip) by {
            let k = choose|k: int| 0 <= k < list.len() && list[k] == ip;
            if k < init.len() {
                assert(init[k] == ip);
                assert(init.contains(ip));
                let j = choose|j: int| 0 <= j < q.len() && q[j] == ip;
                assert(r[j] == ip);
            } else {
                assert(r[q.len() as int] == ip);
            }
        }
    }
}

proof fn lemma_ranked_distinct(list: Seq<IpAddr>, p: int)
    requires
        forall|i: int, j: int| 0 <= i < j < list.len() ==> list[i] != list[j],
    ensures
        forall|i: int, j: int|
            0 <= i < j < ranked(list, p).len() ==> ranked(list, p)[i] != ranked(list, p)[j],
    decreases list.len(),
{
    if list.len() > 0 {
        let init = list.drop_last();
        lemma_ranked_distinct(init, p);
        lemma_ranked(init, p);
        let r = ranked(list, p);
        let q = ranked(init, p);
        assert forall|i: int, j: int| 0 <= i < j < r.len() implies r[i] != r[j] by {
            if j == q.len() {
                assert(init.contains(q[i]));
                let k = choose|k: int| 0 <= k < init.len() && init[k] == q[i];
                assert(list[k] == q[i]);
            }
        }
    }
}

/// Adding an address keeps every address already there and adds the new one.
pub proof fn law_addresses_kept(list: Seq<IpAddr>, ip: IpAddr)
    ensures
        with_addr(list, ip).contains(ip),
        forall|a: IpAddr| #[trigger] list.contains(a) ==> with_addr(list, ip).contains(a),
        forall|a: IpAddr| #[trigger]
            with_addr(list, ip).contains(a) ==> a == ip || list.contains(a),
{
    if !list.contains(ip) {
        let l = list.push(ip);
        let r = by_priority(l);
        lemma_ranked(l, 0);
        lemma_ranked(l, 1);
        lemma_ranked(l, 2);
        let n0 = ranked(l, 0).len() as int;
        let n1 = ranked(l, 1).len() as int;
        assert forall|a: IpAddr| l.contains(a) implies r.contains(a) by {
            let p = addr::priority(a);
            let part = ranked(l, p);
            assert(part.contains(a));
            let k = choose|k: int| 0 <= k < part.len() && part[k] == a;
            let at = if p == 0 {
                k
            } else if p == 1 {
                n0 + k
            } else {
                n0 + n1 + k
            };
            assert(r[at] == a);
        }
        assert forall|a: IpAddr| list.contains(a) implies l.contains(a) by {
            let k = choose|k: int| 0 <= k < list.len() && list[k] == a;
            assert(l[k] == a);
        }
        assert(l[list.len() as int] == ip);
        assert forall|a: IpAddr| r.contains(a) implies a == ip || list.contains(a) by {
            let k = choose|k: int| 0 <= k < r.len() && r[k] == a;
            if k < n0 {
                assert(ranked(l, 0)[k] == a);
            } else if k < n0 + n1 {
                assert(ranked(l, 1)[k - n0] == a);
            } else {
                assert(ranked(l, 2)[k - n0 - n1] == a);
            }
            assert(l.contains(a));
            let j = choose|j: int| 0 <= j < l.len() && l[j] == a;
            if j < list.len() {
                assert(list[j] == a);
            }
        }
    }
}

/// Adding an address keeps a list of addresses without duplicates and in the order of
/// connect preference.
pub proof fn law_addresses_tidy(list: Seq<IpAddr>, ip: IpAddr)
    requires
        tidy(list),
    ensures
        tidy(with_addr(list, ip)),
        with_addr(list, ip).len() > 0,
{
    law_addresses_kept(list, ip);
    if !list.contains(ip) {
        let l = list.push(ip);
        assert forall|i: int, j: int| 0 <= i < j < l.len() implies l[i] != l[j] by {
            if j == list.len() {
                assert(list[i] != ip);
            }
        }
        lemma_ranked(l, 0);
        lemma_ranked(l, 1);
        lemma_ranked(l, 2);
        lemma_ranked_distinct(l, 0);
        lemma_ranked_distinct(l, 1);
        lemma_ranked_distinct(l, 2);
        let r = by_priority(l);
        let n0 = ranked(l, 0).len() as int;
        let n1 = ranked(l, 1).len() as int;
        assert forall|i: int| 0 <= i < r.len() implies #[trigger] addr::priority(r[i]) == (if i < n0 {
            0int
        } else if i < n0 + n1 {
            1
        } else {
            2
        }) by {
            if i < n0 {
                assert(r[i] == ranked(l, 0)[i]);
            } else if i < n0 + n1 {
                assert(r[i] == ranked(l, 1)[i - n0]);
            } else {
                assert(r[i] == ranked(l, 2)[i - n0 - n1]);
            }
        }
        assert forall|i: int, j: int| 0 <= i < j < r.len() implies r[i] != r[j]
            && addr::priority(r[i]) <= addr::priority(r[j]) by {
            if addr::priority(r[i]) == addr::priority(r[j]) {
                if i < n0 {
                    assert(r[i] == ranked(l, 0)[i] && r[j] == ranked(l, 0)[j]);
                } else if i < n0 + n1 {
                    assert(r[i] == ranked(l, 1)[i - n0] && r[j] == ranked(l, 1)[j - n0]);
                } else {
                    assert(r[i] == ranked(l, 2)[i - n0 - n1] && r[j] == ranked(l, 2)[j - n0 - n1]);
                }
            }
        }
    }
}

/// Adding the same address again changes nothing.
pub proof fn law_address_added_once(list: Seq<IpAddr>, ip: IpAddr)
    ensures
        with_addr(with_addr(list, ip), ip) == with_addr(list, ip),
{
    law_addresses_kept(list, ip);
}

proof fn lemma_absorb_tidy(buf: Seq<u8>, h: RecordHead, r: Records)
    requires
        tidy_records(r),
    ensures
        tidy_records(absorb(buf, h, r)),
{
    let out = absorb(buf, h, r);
    assert forall|name: Seq<char>| #[trigger] out.addrs.contains_key(name) implies tidy(
        out.addrs[name],
    ) by {
        if r.addrs.contains_key(name) && out.addrs[name] == r.addrs[name] {
        } else {
            let ip = if h.rtype == 1 {
                IpAddr::V4(
                    Ipv4Addr { bits: addr::be_value(buf.subrange(h.data, h.data + 4)) as u32 },
                )
            } else {
                IpAddr::V6(
                    Ipv6Addr { bits: addr::be_value(buf.subrange(h.data, h.data + 16)) as u128 },
                )
            };
            law_addresses_tidy(addrs_of(r.addrs, h.name), ip);
        }
    }
}

proof fn lemma_absorb_all_tidy(buf: Seq<u8>, pos: int, n: nat, r: Records)
    requires
        tidy_records(r),
    ensures
        tidy_records(absorb_all(buf, pos, n, r).0),
    decreases n,
{
    if n > 0 {
        if let Some(h) = record_at(buf, pos) {
            lemma_absorb_tidy(buf, h, r);
            lemma_absorb_all_tidy(buf, h.data + h.len, (n - 1) as nat, absorb(buf, h, r));
        }
    }
}

/// Whatever message arrives, no host has an address twice, and the addresses are in the order
/// of connect preference.
pub proof fn law_messages_keep_tables_tidy(buf: Seq<u8>, r: Records)
    requires
        tidy_records(r),
    ensures
        tidy_records(after_message(buf, r).0),
{
    if buf.len() >= 12 {
        if let Some(pos) = after_questions(buf, 12, u16_at(buf, 4) as nat) {
            lemma_absorb_all_tidy(
                buf,
                pos,
                (u16_at(buf, 6) + u16_at(buf, 8) + u16_at(buf, 10)) as nat,
                r,
            );
        }
    }
}

proof fn lemma_grown_transitive(a: Records, b: Records, c: Records)
    requires
        grown(a, b),
        grown(b, c),
    ensures
        grown(a, c),
{
    assert forall|name: Seq<char>, ip: IpAddr|
        a.addrs.contains_key(name) && #[trigger] a.addrs[name].contains(
            ip,
        ) implies c.addrs[name].contains(ip) by {
        assert(a.addrs.dom().contains(name));
        assert(b.addrs.contains_key(name) && b.addrs[name].contains(ip));
    }
}

proof fn lemma_absorb_grows(buf: Seq<u8>, h: RecordHead, r: Records)
    ensures
        grown(r, absorb(buf, h, r)),
        hosts_have_addresses(r, absorb(buf, h, r)),
{
    let out = absorb(buf, h, r);
    if h.rtype == 1 && h.len == 4 {
        let bits = addr::be_value(buf.subrange(h.data, h.data + 4)) as u32;
        law_addresses_kept(addrs_of(r.addrs, h.name), IpAddr::V4(Ipv4Addr { bits }));
    } else if h.rtype == 28 && h.len == 16 {
        let bits = addr::be_value(buf.subrange(h.data, h.data + 16)) as u128;
        law_addresses_kept(addrs_of(r.addrs, h.name), IpAddr::V6(Ipv6Addr { bits }));
    }
}

/// Whether every host that `after` has without an address, `before` has so too.
pub open spec fn hosts_have_addresses(before: Records, after: Records) -> bool {
    forall|name: Seq<char>| #[trigger]
        after.addrs.contains_key(name) && after.addrs[name].len() == 0
            ==> before.addrs.contains_key(name) && before.addrs[name].len() == 0
}

proof fn lemma_absorb_all_grows(buf: Seq<u8>, pos: int, n: nat, r: Records)
    ensures
        grown(r, absorb_all(buf, pos, n, r).0),
        hosts_have_addresses(r, absorb_all(buf, pos, n, r).0),
    decreases n,
{
    if n > 0 {
        if let Some(h) = record_at(buf, pos) {
            let mid = absorb(buf, h, r);
            lemma_absorb_grows(buf, h, r);
            lemma_absorb_all_grows(buf, h.data + h.len, (n - 1) as nat, mid);
            lemma_grown_transitive(r, mid, absorb_all(buf, pos, n, r).0);
        }
    }
}

/// A message only adds, whatever it holds and whether or not it is complete: the instances
/// named before stay in front, no instance loses its place, no host is lost and none loses an
/// address. A host that it adds has an address.
pub proof fn law_messages_only_add(buf: Seq<u8>, r: Records)
    ensures
        grown(r, after_message(buf, r).0),
        hosts_have_addresses(r, after_message(buf, r).0),
{
    if buf.len() >= 12 {
        if let Some(pos) = after_questions(buf, 12, u16_at(buf, 4) as nat) {
            lemma_absorb_all_grows(
                buf,
                pos,
                (u16_at(buf, 6) + u16_at(buf, 8) + u16_at(buf, 10)) as nat,
                r,
            );
        }
    }
}

/// The records of a discovery after the messages `msgs`.
pub open spec fn after_messages(msgs: Seq<Seq<u8>>, r: Records) -> Records
    decreases msgs.len(),
{
    if msgs.len() == 0 {
        r
    } else {
        after_message(msgs.last(), after_messages(msgs.drop_last(), r)).0
    }
}

pub open spec fn no_records() -> Records {
    Records { srvs: Map::empty(), addrs: Map::empty(), ptrs: Seq::empty() }
}

proof fn lemma_messages_tidy(msgs: Seq<Seq<u8>>)
    ensures
        tidy_records(after_messages(msgs, no_records())),
    decreases msgs.len(),
{
    if msgs.len() > 0 {
        lemma_messages_tidy(msgs.drop_last());
        law_messages_keep_tables_tidy(msgs.last(), after_messages(msgs.drop_last(), no_records()));
    }
}

proof fn lemma_resolved(r: Records, ptrs: Seq<(AdbServiceKind, Seq<char>)>, i: int)
    requires
        0 <= i < resolved(r, ptrs).len(),
    ensures
        exists|k: int|
            0 <= k < ptrs.len() && service_at(r, #[trigger] ptrs[k]) == Some(resolved(r, ptrs)[i]),
    decreases ptrs.len(),
{
    let init = ptrs.drop_last();
    if i < resolved(r, init).len() {
        lemma_resolved(r, init, i);
        let k = choose|k: int|
            0 <= k < init.len() && service_at(r, #[trigger] init[k]) == Some(resolved(r, init)[i]);
        assert(ptrs[k] == init[k]);
    } else {
        assert(service_at(r, ptrs[ptrs.len() - 1]) == Some(resolved(r, ptrs)[i]));
    }
}

/// Every service of a discovery, whatever messages it received: its address is the first of
/// its addresses, which hold no duplicate and are in the order of connect preference; so an
/// IPv4 address is chosen if there is one, and a link-local one only if there is no other.
pub proof fn law_services_prefer_reachable(msgs: Seq<Seq<u8>>, i: int)
    requires
        0 <= i < services_of(after_messages(msgs, no_records())).len(),
    ensures
        ({
            let s = services_of(after_messages(msgs, no_records()))[i];
            &&& s.ips.len() > 0
            &&& s.ip == s.ips[0]
            &&& tidy(s.ips)
            &&& forall|k: int| 0 <= k < s.ips.len() ==> addr::priority(s.ip) <= addr::priority(
                #[trigger] s.ips[k],
            )
        }),
{
    let r = after_messages(msgs, no_records());
    lemma_messages_tidy(msgs);
    lemma_resolved(r, distinct(r.ptrs), i);
    let d = distinct(r.ptrs);
    let k = choose|k: int|
        0 <= k < d.len() && service_at(r, #[trigger] d[k]) == Some(resolved(r, d)[i]);
    let s = resolved(r, d)[i];
    assert(r.addrs.contains_key(r.srvs[d[k].1].0));
    assert forall|k: int| 0 <= k < s.ips.len() implies addr::priority(s.ip) <= addr::priority(
        #[trigger] s.ips[k],
    ) by {
        if k > 0 {
            assert(addr::priority(s.ips[0]) <= addr::priority(s.ips[k]));
        }
    }
}

proof fn lemma_distinct_unique(ptrs: Seq<(AdbServiceKind, Seq<char>)>)
    ensures
        forall|i: int, j: int|
            0 <= i < j < distinct(ptrs).len() ==> distinct(ptrs)[i] != distinct(ptrs)[j],
    decreases ptrs.len(),
{
    if ptrs.len() > 0 {
        lemma_distinct_unique(ptrs.drop_last());
        let rest = distinct(ptrs.drop_last());
        let d = distinct(ptrs);
        assert forall|i: int, j: int| 0 <= i < j < d.len() implies d[i] != d[j] by {
            if j == rest.len() {
                assert(rest[i] == d[i]);
                assert(rest.contains(rest[i]));
            }
        }
    }
}

proof fn lemma_resolved_unique(r: Records, ptrs: Seq<(AdbServiceKind, Seq<char>)>)
    requires
        forall|i: int, j: int| 0 <= i < j < ptrs.len() ==> ptrs[i] != ptrs[j],
    ensures
        forall|i: int, j: int|
            0 <= i < j < resolved(r, ptrs).len() ==> (
            resolved(r, ptrs)[i].kind != resolved(r, ptrs)[j].kind || resolved(r, ptrs)[i].instance
                != resolved(r, ptrs)[j].instance),
    decreases ptrs.len(),
{
    if ptrs.len() > 0 {
        let init = ptrs.drop_last();
        assert forall|i: int, j: int| 0 <= i < j < init.len() implies init[i] != init[j] by {
            assert(ptrs[i] != ptrs[j]);
        }
        lemma_resolved_unique(r, init);
        let q = resolved(r, init);
        let all = resolved(r, ptrs);
        assert forall|i: int, j: int| 0 <= i < j < all.len() implies (all[i].kind != all[j].kind
            || all[i].instance != all[j].instance) by {
            if j == q.len() {
                lemma_resolved(r, init, i);
                let k = choose|k: int|
                    0 <= k < init.len() && service_at(r, #[trigger] init[k]) == Some(q[i]);
                assert(ptrs[k] == init[k]);
                assert(ptrs[k] != ptrs[ptrs.len() - 1]);
                assert(ptrs[ptrs.len() - 1] == ptrs.last());
            }
        }
    }
}

/// However often a device answers, no instance of a service type is reported twice.
pub proof fn law_services_distinct(r: Records)
    ensures
        forall|i: int, j: int|
            0 <= i < j < services_of(r).len() ==> (services_of(r)[i].kind != services_of(r)[j].kind
                || services_of(r)[i].instance != services_of(r)[j].instance),
{
    lemma_distinct_unique(r.ptrs);
    lemma_resolved_unique(r, distinct(r.ptrs));
}

proof fn lemma_resolved_complete(r: Records, ptrs: Seq<(AdbServiceKind, Seq<char>)>, k: int)
    requires
        0 <= k < ptrs.len(),
        service_at(r, ptrs[k]) is Some,
    ensures
        resolved(r, ptrs).contains(service_at(r, ptrs[k])->0),
    decreases ptrs.len(),
{
    let init = ptrs.drop_last();
    let all = resolved(r, ptrs);
    let s = service_at(r, ptrs[k])->0;
    if k < init.len() {
        assert(init[k] == ptrs[k]);
        lemma_resolved_complete(r, init, k);
        let q = resolved(r, init);
        let i = choose|i: int| 0 <= i < q.len() && q[i] == s;
        assert(all[i] == s);
    } else {
        assert(all[all.len() - 1] == s);
    }
}

/// A discovery lists exactly the services that were named, have a place, and whose host has
/// an address.
pub proof fn law_services_complete(r: Records, s: ServiceModel)
    ensures
        services_of(r).contains(s) <==> exists|k: int|
            0 <= k < r.ptrs.len() && service_at(r, #[trigger] r.ptrs[k]) == Some(s),
{
    let d = distinct(r.ptrs);
    if services_of(r).contains(s) {
        let i = choose|i: int| 0 <= i < resolved(r, d).len() && resolved(r, d)[i] == s;
        lemma_resolved(r, d, i);
        let j = choose|j: int|
            0 <= j < d.len() && service_at(r, #[trigger] d[j]) == Some(resolved(r, d)[i]);
        assert(d.contains(d[j]));
        lemma_distinct_contains(r.ptrs, d[j]);
        let k = choose|k: int| 0 <= k < r.ptrs.len() && r.ptrs[k] == d[j];
        assert(service_at(r, r.ptrs[k]) == Some(s));
    }
    if exists|k: int| 0 <= k < r.ptrs.len() && service_at(r, #[trigger] r.ptrs[k]) == Some(s) {
        let k = choose|k: int|
            0 <= k < r.ptrs.len() && service_at(r, #[trigger] r.ptrs[k]) == Some(s);
        assert(r.ptrs.contains(r.ptrs[k]));
        lemma_distinct_contains(r.ptrs, r.ptrs[k]);
        let j = choose|j: int| 0 <= j < d.len() && d[j] == r.ptrs[k];
        lemma_resolved_complete(r, d, j);
    }
}

/// A pointer reads as the name it points to, with one step less to go, and takes two bytes.
pub proof fn law_pointer_reads_as_its_target(buf: Seq<u8>, pos: int)
    requires
        0 <= pos,
        pos + 1 < buf.len(),
        buf[pos] >= 0xC0,
    ensures
        ({
            let at = (buf[pos] - 0xC0) * 256 + buf[pos + 1];
            let read = name_text(buf, at, (name_budget() - 1) as nat, Seq::empty());
            &&& name_at(buf, pos) == read
            &&& read is Some ==> after_name(buf, pos) == Some(pos + 2)
        }),
{
}

/// A pointer that leads to itself is refused.
pub proof fn law_self_pointer_refused(buf: Seq<u8>, pos: int, budget: nat, text: Seq<char>)
    requires
        0 <= pos,
        pos + 1 < buf.len(),
        buf[pos] >= 0xC0,
        (buf[pos] - 0xC0) * 256 + buf[pos + 1] == pos,
    ensures
        name_text(buf, pos, budget, text) is None,
    decreases budget,
{
    if budget > 0 {
        law_self_pointer_refused(buf, pos, (budget - 1) as nat, text);
    }
}

/// `text` with all of `labels` added one after the other.
pub open spec fn with_labels(text: Seq<char>, labels: Seq<Seq<char>>) -> Seq<char>
    decreases labels.len(),
{
    if labels.len() == 0 {
        text
    } else {
        with_labels(with_label(text, labels[0]), labels.drop_first())
    }
}

/// Whether `label` fits a name on the wire: it is not empty, and its UTF-8 form is shorter
/// than what a length byte can tell from a pointer.
pub open spec fn wire_label(label: Seq<char>) -> bool {
    label.len() > 0 && vstd::utf8::encode_utf8(label).len() < 0xC0
}

proof fn lemma_labels_bytes_front(labels: Seq<Seq<char>>)
    requires
        labels.len() > 0,
        labels[0].len() > 0,
    ensures
        labels_bytes(labels) == label_bytes(labels[0]) + labels_bytes(labels.drop_first()),
    decreases labels.len(),
{
    let rest = labels.drop_first();
    if labels.len() == 1 {
        assert(labels.drop_last() == Seq::<Seq<char>>::empty());
        assert(rest == Seq::<Seq<char>>::empty());
        assert(labels_bytes(labels) =~= label_bytes(labels[0]) + labels_bytes(rest));
    } else {
        let init = labels.drop_last();
        lemma_labels_bytes_front(init);
        assert(init.drop_first() == rest.drop_last());
        assert(rest.last() == labels.last());
        assert(labels_bytes(labels) =~= label_bytes(labels[0]) + labels_bytes(rest));
    }
}

proof fn lemma_encoded_non_empty(label: Seq<char>)
    requires
        label.len() > 0,
    ensures
        vstd::utf8::encode_utf8(label).len() > 0,
{
}

/// A name on the wire is read back label by label.
proof fn lemma_read_labels(
    pre: Seq<u8>,
    labels: Seq<Seq<char>>,
    post: Seq<u8>,
    budget: nat,
    text: Seq<char>,
)
    requires
        forall|i: int| 0 <= i < labels.len() ==> wire_label(#[trigger] labels[i]),
        post.len() > 0,
        post[0] == 0,
        budget > labels.len(),
    ensures
        name_text(pre + labels_bytes(labels) + post, pre.len() as int, budget, text) == Some(
            with_labels(text, labels),
        ),
        name_end(pre + labels_bytes(labels) + post, pre.len() as int, budget) == Some(
            pre.len() as int + labels_bytes(labels).len() + 1,
        ),
    decreases labels.len(),
{
    let buf = pre + labels_bytes(labels) + post;
    let pos = pre.len() as int;
    if labels.len() == 0 {
        assert(buf[pos] == post[0]);
    } else {
        let label = labels[0];
        let rest = labels.drop_first();
        assert(wire_label(labels[0]));
        lemma_labels_bytes_front(labels);
        lemma_encoded_non_empty(label);
        let b = vstd::utf8::encode_utf8(label);
        let head = label_bytes(label);
        assert(head.len() == b.len() + 1);
        assert(head[0] == b.len());
        assert(buf[pos] == head[0]);
        let end = pos + 1 + b.len();
        assert(buf.subrange(pos + 1, end) =~= b) by {
            assert forall|k: int| 0 <= k < b.len() implies buf[pos + 1 + k] == b[k] by {
                assert(head[1 + k] == b[k]);
            }
        }
        vstd::utf8::encode_utf8_valid_utf8(label);
        vstd::utf8::encode_utf8_decode_utf8(label);
        assert forall|i: int| 0 <= i < rest.len() implies wire_label(#[trigger] rest[i]) by {
            assert(rest[i] == labels[i + 1]);
        }
        let pre2 = pre + head;
        lemma_read_labels(pre2, rest, post, (budget - 1) as nat, with_label(text, label));
        assert(pre2 + labels_bytes(rest) + post =~= buf);
    }
}

/// The pieces of a text joined with dots are the text.
proof fn lemma_with_labels_split(text: Seq<char>, s: Seq<char>)
    requires
        forall|i: int|
            0 <= i < text::split_on(s, '.').len() ==> wire_label(
                #[trigger] text::split_on(s, '.')[i],
            ),
    ensures
        with_labels(text, text::split_on(s, '.')) == with_label(text, s),
    decreases s.len(),
{
    let p = text::first_pos(s, '.');
    let all = text::split_on(s, '.');
    text::lemma_first_pos(s, '.');
    if p < s.len() {
        let tail = s.skip(p + 1);
        let rest = text::split_on(tail, '.');
        assert(all == seq![s.take(p)] + rest);
        assert(all.drop_first() =~= rest);
        assert(all[0] == s.take(p));
        assert(wire_label(all[0]));
        assert forall|i: int| 0 <= i < rest.len() implies wire_label(#[trigger] rest[i]) by {
            assert(rest[i] == all[i + 1]);
        }
        lemma_with_labels_split(with_label(text, all[0]), tail);
        assert(s =~= s.take(p).push('.') + tail);
        assert(with_label(with_label(text, all[0]), tail) =~= with_label(text, s));
    } else {
        assert(all == seq![s]);
        assert(all.drop_first() =~= Seq::<Seq<char>>::empty());
        assert(all[0] == s);
        reveal_with_fuel(with_labels, 2);
    }
}

/// The question of a query reads back as the service it was built for, if the labels of the
/// service fit a name, and is followed by nothing but its type and class.
pub proof fn law_query_reads_back(service: Seq<char>)
    requires
        forall|i: int|
            0 <= i < text::split_on(service, '.').len() ==> wire_label(
                #[trigger] text::split_on(service, '.')[i],
            ),
        text::split_on(service, '.').len() < name_budget(),
    ensures
        name_at(query_bytes(service), 12) == Some(service),
        after_name(query_bytes(service), 12) == Some(query_bytes(service).len() - 4),
{
    let labels = text::split_on(service, '.');
    lemma_read_labels(query_header(), labels, query_trailer(), name_budget(), Seq::empty());
    lemma_with_labels_split(Seq::empty(), service);
    assert(query_header().len() == 12);
}

/// A text and what follows it in a name, joined by a dot where both are there.
spec fn dotted(front: Seq<char>, back: Seq<char>) -> Seq<char> {
    if front.len() == 0 {
        back
    } else if back.len() == 0 {
        front
    } else {
        front + seq!['.'] + back
    }
}

proof fn lemma_decoded_non_empty(b: Seq<u8>)
    requires
        b.len() > 0,
        vstd::utf8::valid_utf8(b),
    ensures
        vstd::utf8::decode_utf8(b).len() > 0,
{
    vstd::utf8::decode_utf8_encode_utf8(b);
    if vstd::utf8::decode_utf8(b).len() == 0 {
        assert(vstd::utf8::decode_utf8(b) =~= Seq::<char>::empty());
        assert(vstd::utf8::encode_utf8(Seq::<char>::empty()).len() == 0);
    }
}

/// A name goes on where it is continued: read in continuation of a text, from a label or from
/// a pointer, it is that text, a dot, and the name that is read there from scratch.
pub proof fn law_name_continues(buf: Seq<u8>, pos: int, budget: nat, text: Seq<char>)
    ensures
        name_text(buf, pos, budget, text) == match name_text(buf, pos, budget, Seq::empty()) {
            Some(back) => Some(
                if text.len() == 0 {
                    back
                } else if back.len() == 0 {
                    text
                } else {
                    text + seq!['.'] + back
                },
            ),
            None => None,
        },
    decreases budget,
{
    if budget > 0 && 0 <= pos < buf.len() && buf[pos] != 0 {
        let less = (budget - 1) as nat;
        if buf[pos] >= 0xC0 {
            if pos + 1 < buf.len() {
                law_name_continues(buf, (buf[pos] - 0xC0) * 256 + buf[pos + 1], less, text);
            }
        } else {
            let end = pos + 1 + buf[pos];
            let b = buf.subrange(pos + 1, end);
            if end <= buf.len() && vstd::utf8::valid_utf8(b) {
                let label = vstd::utf8::decode_utf8(b);
                lemma_decoded_non_empty(b);
                law_name_continues(buf, end, less, with_label(text, label));
                law_name_continues(buf, end, less, with_label(Seq::empty(), label));
                if let Some(back) = name_text(buf, end, less, Seq::empty()) {
                    assert(dotted(with_label(text, label), back) =~= dotted(
                        text,
                        dotted(label, back),
                    ));
                }
            }
        }
    }
}

/// How a name is read, whatever was read before: a zero byte ends it; a length byte takes in a
/// label and goes on behind it; a pointer goes on where it points, and the labels read so far
/// stay.
pub proof fn law_name_is_read_piece_by_piece(
    buf: Seq<u8>,
    pos: int,
    budget: nat,
    text: Seq<char>,
    label: Seq<char>,
)
    requires
        0 <= pos < buf.len(),
    ensures
        buf[pos] == 0 ==> {
            &&& name_text(buf, pos, budget + 1, text) == Some(text)
            &&& name_end(buf, pos, budget + 1) == Some(pos + 1)
        },
        ({
            let end = pos + 1 + buf[pos];
            0 < buf[pos] < 192 && end <= buf.len() && buf.subrange(pos + 1, end)
                == vstd::utf8::encode_utf8(label) ==> {
                &&& name_text(buf, pos, budget + 1, text) == name_text(
                    buf,
                    end,
                    budget,
                    if text.len() == 0 {
                        label
                    } else {
                        text + seq!['.'] + label
                    },
                )
                &&& name_end(buf, pos, budget + 1) == name_end(buf, end, budget)
            }
        }),
        buf[pos] >= 192 && pos + 1 < buf.len() ==> {
            &&& name_text(buf, pos, budget + 1, text) == name_text(
                buf,
                (buf[pos] - 192) * 256 + buf[pos + 1],
                budget,
                text,
            )
            &&& name_end(buf, pos, budget + 1) == Some(pos + 2)
        },
        name_at(buf, pos) == name_text(buf, pos, 100, Seq::empty()),
        after_name(buf, pos) == name_end(buf, pos, 100),
{
    vstd::utf8::encode_utf8_valid_utf8(label);
    vstd::utf8::encode_utf8_decode_utf8(label);
    assert(text.push('.') + label =~= text + seq!['.'] + label);
}

/// What is no name: the message ends in front of it or within it, a label is not UTF-8, or a
/// hundred labels and pointers have come together without an end.
pub proof fn law_broken_names_refused(buf: Seq<u8>, pos: int, budget: nat, text: Seq<char>)
    ensures
        name_text(buf, pos, 0, text) is None,
        pos >= buf.len() ==> name_text(buf, pos, budget, text) is None,
        pos == buf.len() - 1 && buf[pos] != 0 ==> name_text(buf, pos, budget, text) is None,
        0 <= pos < buf.len() && 0 < buf[pos] < 192 && (pos + 1 + buf[pos] > buf.len()
            || !vstd::utf8::valid_utf8(buf.subrange(pos + 1, pos + 1 + buf[pos]))) ==> name_text(
            buf,
            pos,
            budget,
            text,
        ) is None && name_end(buf, pos, budget) is None,
        name_end(buf, pos, 0) is None,
        pos >= buf.len() ==> name_end(buf, pos, budget) is None,
        pos == buf.len() - 1 && buf[pos] != 0 ==> name_end(buf, pos, budget) is None,
        name_text(buf, pos, budget, text) is Some ==> name_end(buf, pos, budget) is Some,
    decreases budget,
{
    if budget > 0 && 0 <= pos < buf.len() && 0 < buf[pos] < 192 {
        let end = pos + 1 + buf[pos];
        let more = with_label(text, vstd::utf8::decode_utf8(buf.subrange(pos + 1, end)));
        law_broken_names_refused(buf, end, (budget - 1) as nat, more);
    }
}

/// Labels in front of something else are read, and the reading goes on behind them.
proof fn lemma_read_front(
    pre: Seq<u8>,
    labels: Seq<Seq<char>>,
    post: Seq<u8>,
    budget: nat,
    text: Seq<char>,
)
    requires
        forall|i: int| 0 <= i < labels.len() ==> wire_label(#[trigger] labels[i]),
        budget >= labels.len(),
    ensures
        ({
            let buf = pre + labels_bytes(labels) + post;
            let at = pre.len() as int + labels_bytes(labels).len();
            let left = (budget - labels.len()) as nat;
            &&& name_text(buf, pre.len() as int, budget, text) == name_text(
                buf,
                at,
                left,
                with_labels(text, labels),
            )
            &&& name_end(buf, pre.len() as int, budget) == name_end(buf, at, left)
        }),
    decreases labels.len(),
{
    let buf = pre + labels_bytes(labels) + post;
    let pos = pre.len() as int;
    if labels.len() > 0 {
        let label = labels[0];
        let rest = labels.drop_first();
        assert(wire_label(labels[0]));
        lemma_labels_bytes_front(labels);
        lemma_encoded_non_empty(label);
        let b = vstd::utf8::encode_utf8(label);
        let head = label_bytes(label);
        assert(head.len() == b.len() + 1);
        assert(head[0] == b.len());
        assert(buf[pos] == head[0]);
        let end = pos + 1 + b.len();
        assert(buf.subrange(pos + 1, end) =~= b) by {
            assert forall|k: int| 0 <= k < b.len() implies buf[pos + 1 + k] == b[k] by {
                assert(head[1 + k] == b[k]);
            }
        }
        vstd::utf8::encode_utf8_valid_utf8(label);
        vstd::utf8::encode_utf8_decode_utf8(label);
        assert forall|i: int| 0 <= i < rest.len() implies wire_label(#[trigger] rest[i]) by {
            assert(rest[i] == labels[i + 1]);
        }
        let pre2 = pre + head;
        lemma_read_front(pre2, rest, post, (budget - 1) as nat, with_label(text, label));
        assert(pre2 + labels_bytes(rest) + post =~= buf);
    }
}

/// A compressed name: labels written out in front, then a pointer. It reads as those labels, a
/// dot, and the name at the place that the pointer points to; the message goes on behind the
/// pointer.
pub proof fn law_compressed_name(
    pre: Seq<u8>,
    front: Seq<char>,
    post: Seq<u8>,
    back: Seq<char>,
)
    requires
        forall|i: int|
            0 <= i < text::split_on(front, '.').len() ==> wire_label(
                #[trigger] text::split_on(front, '.')[i],
            ),
        text::split_on(front, '.').len() <= 98,
        post.len() >= 2,
        post[0] >= 192,
        name_text(
            pre + labels_bytes(text::split_on(front, '.')) + post,
            (post[0] - 192) * 256 + post[1],
            (99 - text::split_on(front, '.').len()) as nat,
            Seq::empty(),
        ) == Some(back),
    ensures
        ({
            let buf = pre + labels_bytes(text::split_on(front, '.')) + post;
            &&& name_at(buf, pre.len() as int) == Some(
                if back.len() == 0 {
                    front
                } else {
                    front + seq!['.'] + back
                },
            )
            &&& after_name(buf, pre.len() as int) == Some(buf.len() - post.len() + 2)
        }),
{
    let labels = text::split_on(front, '.');
    let buf = pre + labels_bytes(labels) + post;
    let at = pre.len() as int + labels_bytes(labels).len();
    lemma_read_front(pre, labels, post, 100, Seq::empty());
    lemma_with_labels_split(Seq::empty(), front);
    text::lemma_first_pos(front, '.');
    assert(wire_label(labels[0]));
    assert(front.len() > 0);
    assert(buf[at] == post[0] && buf[at + 1] == post[1]);
    law_name_continues(
        buf,
        (post[0] - 192) * 256 + post[1],
        (99 - labels.len()) as nat,
        front,
    );
}

/// A name reads the same whether its tail is written out or pointed to: where the same labels
/// are followed, in one message by a pointer to a name and in the other by that name itself,
/// both read alike.
pub proof fn law_pointed_to_or_written_out(
    pre: Seq<u8>,
    front: Seq<char>,
    pointer: Seq<u8>,
    other: Seq<u8>,
    back: Seq<char>,
    post: Seq<u8>,
)
    requires
        forall|i: int|
            0 <= i < text::split_on(front, '.').len() ==> wire_label(
                #[trigger] text::split_on(front, '.')[i],
            ),
        forall|i: int|
            0 <= i < text::split_on(back, '.').len() ==> wire_label(
                #[trigger] text::split_on(back, '.')[i],
            ),
        text::split_on(front, '.').len() + text::split_on(back, '.').len() <= 98,
        pointer.len() >= 2,
        pointer[0] >= 192,
        name_text(
            pre + labels_bytes(text::split_on(front, '.')) + pointer,
            (pointer[0] - 192) * 256 + pointer[1],
            (99 - text::split_on(front, '.').len()) as nat,
            Seq::empty(),
        ) == Some(back),
        post.len() > 0,
        post[0] == 0,
    ensures
        name_at(
            pre + labels_bytes(text::split_on(front, '.')) + pointer,
            pre.len() as int,
        ) == name_at(
            other + labels_bytes(text::split_on(front, '.')) + labels_bytes(
                text::split_on(back, '.'),
            ) + post,
            other.len() as int,
        ),
{
    let (a, b) = (text::split_on(front, '.'), text::split_on(back, '.'));
    law_compressed_name(pre, front, pointer, back);
    let rest = labels_bytes(b) + post;
    let buf = other + labels_bytes(a) + rest;
    assert(buf =~= other + labels_bytes(a) + labels_bytes(b) + post);
    lemma_read_front(other, a, rest, 100, Seq::empty());
    lemma_with_labels_split(Seq::empty(), front);
    let pre2 = other + labels_bytes(a);
    assert(pre2 + labels_bytes(b) + post =~= buf);
    lemma_read_labels(pre2, b, post, (100 - a.len()) as nat, front);
    lemma_with_labels_split(front, back);
    text::lemma_first_pos(front, '.');
    text::lemma_first_pos(back, '.');
    assert(wire_label(a[0]) && wire_label(b[0]));
    assert(front.len() > 0 && back.len() > 0);
    assert(front.push('.') + back =~= front + seq!['.'] + back);
}

/// How a record is understood, wherever its name is written: an A or AAAA record adds the
/// address that its bytes are to its owner, an SRV record places its owner at a host and a
/// port, a PTR record of an ADB service type names an instance; any other record, and one of
/// the wrong length, changes nothing. The next record begins behind its data.
pub proof fn law_record_is_understood(
    buf: Seq<u8>,
    pos: int,
    name: Seq<char>,
    end: int,
    n: nat,
    r: Records,
)
    requires
        name_at(buf, pos) == Some(name),
        after_name(buf, pos) == Some(end),
        0 <= end,
        end + 10 <= buf.len(),
        end + 10 + buf[end + 8] * 256 + buf[end + 9] <= buf.len(),
    ensures
        ({
            let kind = buf[end] * 256 + buf[end + 1];
            let len = buf[end + 8] * 256 + buf[end + 9];
            let at = end + 10;
            let host = name_at(buf, at + 6);
            let told = name_at(buf, at);
            let after = if kind == 1 && len == 4 {
                let bits = ((buf[at] * 256 + buf[at + 1]) * 256 + buf[at + 2]) * 256 + buf[at + 3];
                Records {
                    addrs: r.addrs.insert(
                        name,
                        with_addr(
                            addrs_of(r.addrs, name),
                            IpAddr::V4(Ipv4Addr { bits: bits as u32 }),
                        ),
                    ),
                    ..r
                }
            } else if kind == 28 && len == 16 {
                let bits = addr::be_value(buf.subrange(at, at + 16));
                Records {
                    addrs: r.addrs.insert(
                        name,
                        with_addr(
                            addrs_of(r.addrs, name),
                            IpAddr::V6(Ipv6Addr { bits: bits as u128 }),
                        ),
                    ),
                    ..r
                }
            } else if kind == 33 && len >= 6 && host is Some {
                let port = buf[at + 4] * 256 + buf[at + 5];
                Records { srvs: r.srvs.insert(name, (host->0, port as u16)), ..r }
            } else if kind == 12 && told is Some && kind_named(name) is Some {
                Records { ptrs: r.ptrs.push((kind_named(name)->0, told->0)), ..r }
            } else {
                r
            };
            &&& absorb_all(buf, pos, 1, r) == (after, true)
            &&& absorb_all(buf, pos, n + 1, r) == absorb_all(buf, at + len, n, after)
        }),
{
    reveal_with_fuel(absorb_all, 3);
    let at = end + 10;
    if buf[end] * 256 + buf[end + 1] == 1 && buf[end + 8] * 256 + buf[end + 9] == 4 {
        let s = buf.subrange(at, at + 4);
        lemma_be_value_4(s);
        assert(s[0] == buf[at] && s[1] == buf[at + 1] && s[2] == buf[at + 2] && s[3] == buf[at
            + 3]);
    }
}

/// A record that is cut short ends the reading: what came before it stays.
pub proof fn law_cut_record_ends_reading(buf: Seq<u8>, pos: int, n: nat, r: Records)
    requires
        name_at(buf, pos) is None || after_name(buf, pos) is None || after_name(buf, pos)->0 + 10
            > buf.len() || after_name(buf, pos)->0 + 10 + buf[after_name(buf, pos)->0 + 8] * 256
            + buf[after_name(buf, pos)->0 + 9] > buf.len(),
    ensures
        absorb_all(buf, pos, n + 1, r) == (r, false),
        absorb_all(buf, pos, 0, r) == (r, true),
{
}

/// How a message is understood: behind its twelve bytes of header it has as many questions as
/// its third number says, which are passed over, then as many records as the other three
/// numbers say together, which all count.
pub proof fn law_message_is_understood(buf: Seq<u8>, r: Records, pos: int, n: nat)
    ensures
        buf.len() < 12 ==> after_message(buf, r) == (r, false),
        buf.len() >= 12 ==> after_message(buf, r) == match after_questions(
            buf,
            12,
            (buf[4] * 256 + buf[5]) as nat,
        ) {
            Some(at) => absorb_all(
                buf,
                at,
                (buf[6] * 256 + buf[7] + buf[8] * 256 + buf[9] + buf[10] * 256 + buf[11]) as nat,
                r,
            ),
            None => (r, false),
        },
        after_questions(buf, pos, 0) == Some(pos),
        name_at(buf, pos) is Some && after_name(buf, pos) is Some && after_name(buf, pos)->0 + 4
            <= buf.len() ==> after_questions(buf, pos, n + 1) == after_questions(
            buf,
            after_name(buf, pos)->0 + 4,
            n,
        ),
        !(name_at(buf, pos) is Some && after_name(buf, pos) is Some && after_name(buf, pos)->0 + 4
            <= buf.len()) ==> after_questions(buf, pos, n + 1) is None,
{
}

/// The services are put together from the three tables: an instance that was named as one of
/// a type, that has a host and a port, and whose host has addresses, is a service of that type
/// with that name and port, all those addresses, and the first of them to connect to.
pub proof fn law_services_are_joined(
    r: Records,
    k: int,
    kind: AdbServiceKind,
    instance: Seq<char>,
    host: Seq<char>,
    port: u16,
    ips: Seq<IpAddr>,
)
    requires
        0 <= k < r.ptrs.len(),
        r.ptrs[k] == (kind, instance),
        r.srvs.contains_pair(instance, (host, port)),
        r.addrs.contains_pair(host, ips),
        ips.len() > 0,
    ensures
        services_of(r).contains(ServiceModel { kind, instance, ip: ips[0], ips, port }),
{
    let s = ServiceModel { kind, instance, ip: ips[0], ips, port };
    assert(service_at(r, r.ptrs[k]) == Some(s));
    law_services_complete(r, s);
}

/// And nothing else is a service.
pub proof fn law_services_have_a_source(r: Records, i: int)
    requires
        0 <= i < services_of(r).len(),
    ensures
        ({
            let s = services_of(r)[i];
            let place = r.srvs[s.instance];
            &&& r.ptrs.contains((s.kind, s.instance))
            &&& r.srvs.contains_key(s.instance)
            &&& s.port == place.1
            &&& r.addrs.contains_key(place.0)
            &&& s.ips == r.addrs[place.0]
            &&& s.ips.len() > 0
            &&& s.ip == s.ips[0]
        }),
{
    let s = services_of(r)[i];
    assert(services_of(r).contains(s));
    law_services_complete(r, s);
    let k = choose|k: int|
        0 <= k < r.ptrs.len() && service_at(r, #[trigger] r.ptrs[k]) == Some(s);
    assert(r.ptrs[k] == (s.kind, s.instance));
}

proof fn lemma_ranked_concat(a: Seq<IpAddr>, ip: IpAddr, p: int)
    ensures
        ranked(a.push(ip), p) == (if addr::priority(ip) == p {
            ranked(a, p).push(ip)
        } else {
            ranked(a, p)
        }),
{
    assert(a.push(ip).drop_last() =~= a);
}

proof fn lemma_ranked_of_tidy(list: Seq<IpAddr>, k0: int, k1: int)
    requires
        0 <= k0 <= k1 <= list.len(),
        forall|i: int| 0 <= i < k0 ==> addr::priority(#[trigger] list[i]) == 0,
        forall|i: int| k0 <= i < k1 ==> addr::priority(#[trigger] list[i]) == 1,
        forall|i: int| k1 <= i < list.len() ==> addr::priority(#[trigger] list[i]) == 2,
    ensures
        ranked(list, 0) == list.take(k0),
        ranked(list, 1) == list.subrange(k0, k1),
        ranked(list, 2) == list.skip(k1),
    decreases list.len(),
{
    if list.len() > 0 {
        let init = list.drop_last();
        let n = init.len() as int;
        let (a, b) = (
            if k0 <= n {
                k0
            } else {
                n
            },
            if k1 <= n {
                k1
            } else {
                n
            },
        );
        assert forall|i: int| 0 <= i < init.len() implies #[trigger] init[i] == list[i] by {}
        lemma_ranked_of_tidy(init, a, b);
        assert(list[n] == list.last());
        assert(ranked(list, 0) =~= list.take(k0));
        assert(ranked(list, 1) =~= list.subrange(k0, k1));
        assert(ranked(list, 2) =~= list.skip(k1));
    } else {
        assert(ranked(list, 0) =~= list.take(k0));
        assert(ranked(list, 1) =~= list.subrange(k0, k1));
        assert(ranked(list, 2) =~= list.skip(k1));
    }
}

/// The number of addresses in front whose preference is below `p`.
spec fn below(list: Seq<IpAddr>, p: int) -> int
    decreases list.len(),
{
    if list.len() == 0 {
        0
    } else if addr::priority(list.last()) < p {
        list.len() as int
    } else {
        below(list.drop_last(), p)
    }
}

proof fn lemma_below(list: Seq<IpAddr>, p: int)
    requires
        tidy(list),
    ensures
        0 <= below(list, p) <= list.len(),
        forall|i: int| 0 <= i < below(list, p) ==> addr::priority(#[trigger] list[i]) < p,
        forall|i: int| below(list, p) <= i < list.len() ==> addr::priority(#[trigger] list[i]) >= p,
    decreases list.len(),
{
    if list.len() > 0 {
        let init = list.drop_last();
        assert(tidy(init)) by {
            assert forall|i: int, j: int| 0 <= i < j < init.len() implies init[i] != init[j]
                && addr::priority(init[i]) <= addr::priority(init[j]) by {
                assert(list[i] != list[j]);
            }
        }
        lemma_below(init, p);
        assert(list[list.len() - 1] == list.last());
        if addr::priority(list.last()) < p {
            assert forall|i: int| 0 <= i < list.len() implies addr::priority(#[trigger] list[i])
                < p by {
                if i < list.len() - 1 {
                    assert(addr::priority(list[i]) <= addr::priority(list[list.len() - 1]));
                }
            }
        } else {
            assert forall|i: int| 0 <= i < init.len() implies #[trigger] list[i] == init[i] by {}
        }
    }
}

/// Where a new address goes: behind all that are as good or better, in front of all that are
/// worse; the others keep their order.
pub proof fn law_new_address_has_its_place(list: Seq<IpAddr>, ip: IpAddr)
    requires
        tidy(list),
        !list.contains(ip),
    ensures
        exists|k: int|
            {
                &&& 0 <= k <= list.len()
                &&& with_addr(list, ip) == #[trigger] list.insert(k, ip)
                &&& forall|i: int|
                    0 <= i < k ==> addr::priority(#[trigger] list[i]) <= addr::priority(ip)
                &&& forall|i: int|
                    k <= i < list.len() ==> addr::priority(ip) < addr::priority(#[trigger] list[i])
            },
{
    let p = addr::priority(ip);
    let (k0, k1, k) = (below(list, 1), below(list, 2), below(list, p + 1));
    lemma_below(list, 1);
    lemma_below(list, 2);
    lemma_below(list, 3);
    lemma_below(list, p + 1);
    assert(k0 <= k1) by {
        if k1 < k0 {
            assert(addr::priority(list[k1]) < 1);
        }
    }
    lemma_ranked_of_tidy(list, k0, k1);
    lemma_ranked_concat(list, ip, 0);
    lemma_ranked_concat(list, ip, 1);
    lemma_ranked_concat(list, ip, 2);
    assert(k == if p == 0 {
        k0
    } else if p == 1 {
        k1
    } else {
        list.len() as int
    }) by {
        if p == 2 && k < list.len() {
            assert(addr::priority(list[k]) >= 3);
        }
    }
    assert(with_addr(list, ip) =~= list.insert(k, ip));
}

/// The three service types by their names, in whatever case the letters are; any other name
/// is of none.
pub proof fn law_service_types_by_name(name: Seq<char>)
    ensures
        kind_named(name) == Some(AdbServiceKind::Connect) <==> text::same_ignoring_case(
            name,
            "_adb-tls-connect._tcp.local"@,
        ),
        kind_named(name) == Some(AdbServiceKind::Pairing) <==> text::same_ignoring_case(
            name,
            "_adb-tls-pairing._tcp.local"@,
        ),
        kind_named(name) == Some(AdbServiceKind::Legacy) <==> text::same_ignoring_case(
            name,
            "_adb._tcp.local"@,
        ),
{
    reveal_strlit("_adb-tls-connect._tcp.local");
    reveal_strlit("_adb-tls-pairing._tcp.local");
    reveal_strlit("_adb._tcp.local");
    let (c, p, l) = (
        "_adb-tls-connect._tcp.local"@,
        "_adb-tls-pairing._tcp.local"@,
        "_adb._tcp.local"@,
    );
    assert(c.len() == 27 && p.len() == 27 && l.len() == 15);
    assert(c[9] == 'c' && p[9] == 'p');
    if text::same_ignoring_case(name, c) && text::same_ignoring_case(name, p) {
        assert(text::ascii_lower(name[9]) == text::ascii_lower(c[9]));
        assert(text::ascii_lower(name[9]) == text::ascii_lower(p[9]));
    }
}

/// A query has one question and nothing else: id and flags are zero, the question is of type
/// PTR and class IN, with the bit that asks for a direct reply.
pub proof fn law_query_frame(service: Seq<char>)
    ensures
        query_bytes(service).len() >= 17,
        query_bytes(service).take(12) == seq![
            0u8,
            0u8,
            0u8,
            0u8,
            0u8,
            1u8,
            0u8,
            0u8,
            0u8,
            0u8,
            0u8,
            0u8,
        ],
        query_bytes(service).skip(query_bytes(service).len() - 4) == seq![0u8, 12u8, 0x80u8, 1u8],
{
    let q = query_bytes(service);
    assert(q.take(12) =~= query_header());
    assert(q.skip(q.len() - 4) =~= seq![0u8, 12u8, 0x80u8, 1u8]);
}

/// A discovery ends when its time is up and not before; in between the queries are sent again
/// once, half a second after the start.
pub proof fn law_discovery_course(total_ms: u64, resent: bool, elapsed_ms: u64)
    ensures
        step_due(total_ms, resent, elapsed_ms) is Finish <==> elapsed_ms >= total_ms,
        step_due(total_ms, resent, elapsed_ms) is Resend <==> !resent && 500 <= elapsed_ms
            < total_ms,
{
}

/// Services come in the order in which their instances were first named: one more name adds
/// its service at the end, if it is new and its place and an address are known, and changes
/// nothing else.
pub proof fn law_services_in_order(r: Records, kind: AdbServiceKind, instance: Seq<char>)
    ensures
        ({
            let more = Records { ptrs: r.ptrs.push((kind, instance)), ..r };
            let (host, port) = r.srvs[instance];
            let ips = r.addrs[host];
            let known = r.srvs.contains_key(instance) && r.addrs.contains_key(host) && ips.len()
                > 0;
            &&& services_of(Records { ptrs: Seq::empty(), ..r }).len() == 0
            &&& r.ptrs.contains((kind, instance)) || !known ==> services_of(more) == services_of(r)
            &&& !r.ptrs.contains((kind, instance)) && known ==> services_of(more) == services_of(
                r,
            ).push(ServiceModel { kind, instance, ip: ips[0], ips, port })
        }),
{
    let p = (kind, instance);
    let more = Records { ptrs: r.ptrs.push(p), ..r };
    let seen = distinct(r.ptrs);
    assert(more.ptrs.drop_last() =~= r.ptrs);
    lemma_distinct_contains(r.ptrs, p);
    lemma_same_tables(r, more, seen);
    if !r.ptrs.contains(p) {
        assert(distinct(more.ptrs) == seen.push(p));
        assert(seen.push(p).drop_last() =~= seen);
    }
}

proof fn lemma_same_tables(a: Records, b: Records, ptrs: Seq<(AdbServiceKind, Seq<char>)>)
    requires
        a.srvs == b.srvs,
        a.addrs == b.addrs,
    ensures
        resolved(a, ptrs) == resolved(b, ptrs),
    decreases ptrs.len(),
{
    if ptrs.len() > 0 {
        lemma_same_tables(a, b, ptrs.drop_last());
    }
}

proof fn lemma_ranked_filters(list: Seq<IpAddr>, p: int)
    ensures
        ranked(list, p) == list.filter(|ip: IpAddr| addr::priority(ip) == p),
    decreases list.len(),
{
    reveal(Seq::filter);
    if list.len() > 0 {
        lemma_ranked_filters(list.drop_last(), p);
    }
}

/// An address that is there already changes nothing; a new one comes last among those of its
/// kind, and the kinds stand in the order of preference: IPv4, global IPv6, link-local IPv6.
pub proof fn law_addresses_by_preference(list: Seq<IpAddr>, ip: IpAddr)
    ensures
        list.contains(ip) ==> with_addr(list, ip) == list,
        !list.contains(ip) ==> with_addr(list, ip) == list.push(ip).filter(
            |a: IpAddr| addr::priority(a) == 0,
        ) + list.push(ip).filter(|a: IpAddr| addr::priority(a) == 1) + list.push(ip).filter(
            |a: IpAddr| addr::priority(a) == 2,
        ),
{
    let all = list.push(ip);
    lemma_ranked_filters(all, 0);
    lemma_ranked_filters(all, 1);
    lemma_ranked_filters(all, 2);
}

/// A name goes onto the wire label by label, each as its length and its UTF-8 bytes; empty
/// labels are left out.
pub proof fn law_labels_on_the_wire(labels: Seq<Seq<char>>, label: Seq<char>)
    ensures
        ({
            let b = vstd::utf8::encode_utf8(label);
            &&& labels_bytes(Seq::empty()).len() == 0
            &&& label.len() == 0 ==> labels_bytes(labels.push(label)) == labels_bytes(labels)
            &&& label.len() > 0 && b.len() < 256 ==> labels_bytes(labels.push(label))
                == labels_bytes(labels) + seq![b.len() as u8] + b
        }),
{
    let b = vstd::utf8::encode_utf8(label);
    assert(labels.push(label).drop_last() =~= labels);
    if label.len() > 0 && b.len() < 256 {
        assert(labels_bytes(labels) + (seq![b.len() as u8] + b) =~= labels_bytes(labels) + seq![
            b.len() as u8,
        ] + b);
    }
}

/// The queries are sent again at most once: after a step that does so, and after every later
/// one, they count as sent again, and no step does so any more.
pub proof fn law_resent_once(total_ms: u64, resent: bool, elapsed_ms: u64, later_ms: u64)
    ensures
        step_due(total_ms, resent, elapsed_ms) is Resend ==> resent_by(
            total_ms,
            resent,
            elapsed_ms,
        ),
        resent ==> resent_by(total_ms, resent, elapsed_ms),
        resent_by(total_ms, resent, elapsed_ms) ==> resent || 500 <= elapsed_ms < total_ms,
        !(step_due(total_ms, true, later_ms) is Resend),
{
}

/// The service types by name, each with a label; a type is recognised by its own name.
pub proof fn law_service_type_names(kind: AdbServiceKind)
    ensures
        AdbServiceKind::Connect.service_text() == "_adb-tls-connect._tcp.local"@,
        AdbServiceKind::Pairing.service_text() == "_adb-tls-pairing._tcp.local"@,
        AdbServiceKind::Legacy.service_text() == "_adb._tcp.local"@,
        AdbServiceKind::Connect.label_text() == "TLS-Connect"@,
        AdbServiceKind::Pairing.label_text() == "TLS-Pairing"@,
        AdbServiceKind::Legacy.label_text() == "Legacy"@,
        kind_named(kind.service_text()) == Some(kind),
{
    law_service_types_by_name(kind.service_text());
}

} // verus!
