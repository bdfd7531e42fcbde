//! The two handshakes that tell an ADB port from any other open port: a plaintext ADB
//! connection request and a TLS ClientHello.
use vstd::prelude::*;

verus! {

#[derive(Debug, Clone, Copy, PartialEq, Eq, Structural)]
pub enum AdbKind {
    /// Plaintext ADB (CNXN or AUTH reply), as in `adb tcpip` mode.
    Plain,
    /// ADB over TLS (wireless debugging since Android 11).
    Tls,
    /// An open TCP port that speaks neither.
    Open,
}

/// The command "CNXN".
pub const A_CNXN: u32 = 0x4e58_4e43;

/// The command "AUTH".
pub const A_AUTH: u32 = 0x4854_5541;

pub const ADB_VERSION: u32 = 0x0100_0000;

pub const ADB_MAX_PAYLOAD: u32 = 0x0004_0000;

/// The little-endian bytes of `v`.
pub open spec fn le_bytes(v: u32) -> Seq<u8> {
    seq![
        (v % 256) as u8,
        (v / 256 % 256) as u8,
        (v / 65536 % 256) as u8,
        (v / 16777216) as u8,
    ]
}

/// The little-endian number at `pos`.
pub open spec fn le_value(buf: Seq<u8>, pos: int) -> int {
    buf[pos] + buf[pos + 1] * 256 + buf[pos + 2] * 65536 + buf[pos + 3] * 16777216
}

/// The sum of the bytes.
pub open spec fn byte_sum(s: Seq<u8>) -> int
    decreases s.len(),
{
    if s.len() == 0 {
        0
    } else {
        byte_sum(s.drop_last()) + s.last()
    }
}

/// The host banner, with its terminating zero.
pub open spec fn banner() -> Seq<u8> {
    vstd::utf8::encode_utf8("host::adb_portScan\0"@)
}

/// The connection request: command, version, largest payload, length and byte sum of the
/// banner, complement of the command, banner.
pub open spec fn cnxn_packet() -> Seq<u8> {
    le_bytes(A_CNXN) + le_bytes(ADB_VERSION) + le_bytes(ADB_MAX_PAYLOAD) + le_bytes(
        banner().len() as u32,
    ) + le_bytes(byte_sum(banner()) as u32) + le_bytes((0xFFFF_FFFF - A_CNXN) as u32) + banner()
}

/// The command of an ADB packet header: CNXN or AUTH, provided the last field is the
/// complement of the command and the payload is not longer than allowed.
pub open spec fn header_command(buf: Seq<u8>) -> Option<u32> {
    let cmd = le_value(buf, 0);
    if le_value(buf, 20) == 0xFFFF_FFFF - cmd && (cmd == A_CNXN || cmd == A_AUTH) && le_value(
        buf,
        12,
    ) <= ADB_MAX_PAYLOAD {
        Some(cmd as u32)
    } else {
        None
    }
}

proof fn lemma_banner()
    ensures
        banner().len() == 19,
        forall|i: int| 0 <= i < 19 ==> banner()[i] == "host::adb_portScan\0"@[i] as u8,
        0 <= byte_sum(banner()) <= 19 * 255,
{
    reveal_strlit("host::adb_portScan\0");
    vstd::utf8::is_ascii_chars_encode_utf8("host::adb_portScan\0"@);
    lemma_byte_sum_bound(banner());
}

proof fn lemma_byte_sum_bound(s: Seq<u8>)
    ensures
        0 <= byte_sum(s) <= s.len() * 255,
    decreases s.len(),
{
    if s.len() > 0 {
        lemma_byte_sum_bound(s.drop_last());
    }
}

fn push_le(v: &mut Vec<u8>, x: u32)
    ensures
        final(v)@ == old(v)@ + le_bytes(x),
{
    let ghost start = v@;
    v.push((x % 256) as u8);
    v.push((x / 256 % 256) as u8);
    v.push((x / 65536 % 256) as u8);
    v.push((x / 16777216) as u8);
    assert(v@ =~= start + le_bytes(x));
}

/// The connection request of the host: a 24-byte header and the banner.
pub fn build_cnxn_packet() -> (r: Vec<u8>)
    ensures
        r@ == cnxn_packet(),
{
    let payload: &[u8] = "host::adb_portScan\0".as_bytes();
    proof {
        lemma_banner();
    }
    assert(payload@ == banner());
    let mut sum: u32 = 0;
    let mut i: usize = 0;
    assert(banner().take(0) == Seq::<u8>::empty());
    while i < payload.len()
        invariant
            i <= payload@.len() == 19,
            payload@ == banner(),
            sum == byte_sum(banner().take(i as int)),
            sum <= i * 255,
        decreases payload@.len() - i,
    {
        assert(banner().take(i + 1).drop_last() == banner().take(i as int));
        sum = sum + payload[i] as u32;
        i = i + 1;
    }
    assert(banner().take(19) == banner());
    let mut pkt: Vec<u8> = Vec::with_capacity(43);
    push_le(&mut pkt, A_CNXN);
    push_le(&mut pkt, ADB_VERSION);
    push_le(&mut pkt, ADB_MAX_PAYLOAD);
    push_le(&mut pkt, payload.len() as u32);
    push_le(&mut pkt, sum);
    push_le(&mut pkt, 0xFFFF_FFFF - A_CNXN);
    pkt.extend_from_slice(payload);
    assert(pkt@ =~= cnxn_packet());
    pkt
}

fn read_le(buf: &[u8; 24], pos: usize) -> (r: u32)
    requires
        pos <= 20,
    ensures
        r == le_value(buf@, pos as int),
{
    buf[pos] as u32 + buf[pos + 1] as u32 * 256 + buf[pos + 2] as u32 * 65536 + buf[pos + 3] as u32
        * 16777216
}

/// Checks a full ADB packet header and returns its command.
pub fn verify_adb_header(buf: &[u8; 24]) -> (r: Option<u32>)
    ensures
        r == header_command(buf@),
{
    let cmd: u32 = read_le(buf, 0);
    let data_len: u32 = read_le(buf, 12);
    let magic: u32 = read_le(buf, 20);
    assert(cmd ^ 0xFFFF_FFFF == 0xFFFF_FFFF - cmd) by (bit_vector);
    if cmd ^ 0xFFFF_FFFF != magic {
        return None;
    }
    if cmd != A_CNXN && cmd != A_AUTH {
        return None;
    }
    if data_len > ADB_MAX_PAYLOAD {
        return None;
    }
    Some(cmd)
}

/// The body of the ClientHello: version 1.2, a fixed random, no session, two cipher suites,
/// no compression.
pub open spec fn hello_body() -> Seq<u8> {
    seq![3u8, 3u8] + Seq::new(32, |i: int| 0x55u8) + seq![
        0u8,
        0u8,
        4u8,
        0x00u8,
        0x2Fu8,
        0x00u8,
        0x35u8,
        1u8,
        0u8,
    ]
}

/// The handshake message: type ClientHello, the length of the body in three bytes, the body.
pub open spec fn hello_message() -> Seq<u8> {
    seq![
        1u8,
        (hello_body().len() / 65536 % 256) as u8,
        (hello_body().len() / 256 % 256) as u8,
        (hello_body().len() % 256) as u8,
    ] + hello_body()
}

/// The TLS record: type handshake, version 1.0, the length of the message in two bytes, the
/// message.
pub open spec fn hello_record() -> Seq<u8> {
    seq![
        0x16u8,
        3u8,
        1u8,
        (hello_message().len() / 256 % 256) as u8,
        (hello_message().len() % 256) as u8,
    ] + hello_message()
}

/// A minimal TLS 1.2 ClientHello without extensions.
pub fn build_tls_client_hello() -> (r: Vec<u8>)
    ensures
        r@ == hello_record(),
{
    let mut hs: Vec<u8> = vec![3, 3];
    let mut i: usize = 0;
    assert(hs@ =~= seq![3u8, 3u8] + Seq::new(0, |i: int| 0x55u8));
    while i < 32
        invariant
            i <= 32,
            hs@ == seq![3u8, 3u8] + Seq::new(i as nat, |i: int| 0x55u8),
        decreases 32 - i,
    {
        hs.push(0x55);
        assert(hs@ =~= seq![3u8, 3u8] + Seq::new((i + 1) as nat, |i: int| 0x55u8));
        i = i + 1;
    }
    hs.push(0);
    hs.push(0);
    hs.push(4);
    hs.push(0x00);
    hs.push(0x2F);
    hs.push(0x00);
    hs.push(0x35);
    hs.push(1);
    hs.push(0);
    assert(hs@ =~= hello_body());

    let n: usize = hs.len();
    let mut msg: Vec<u8> = vec![1, (n / 65536 % 256) as u8, (n / 256 % 256) as u8, (n % 256) as u8];
    msg.append(&mut hs);
    assert(msg@ =~= hello_message());

    let m: usize = msg.len();
    let mut rec: Vec<u8> = vec![0x16, 3, 1, (m / 256 % 256) as u8, (m % 256) as u8];
    rec.append(&mut msg);
    assert(rec@ =~= hello_record());
    rec
}

/// Whether a reply begins with the header of a TLS handshake record of a version from 1.0 to
/// 1.3.
pub open spec fn tls_header(buf: Seq<u8>) -> bool {
    buf[0] == 0x16 && buf[1] == 0x03 && 0x01 <= buf[2] <= 0x04
}

/// Whether a reply begins with a TLS ServerHello: a handshake record whose message is of type 2.
pub open spec fn tls_server_hello(buf: Seq<u8>) -> bool {
    tls_header(buf) && buf[5] == 0x02
}

/// Checks the first six bytes of the reply to a ClientHello: the record header and the type of
/// the handshake message.
pub fn verify_tls_reply(buf: &[u8; 6]) -> (r: bool)
    ensures
        r == tls_server_hello(buf@),
{
    buf[0] == 0x16 && buf[1] == 0x03 && 0x01 <= buf[2] && buf[2] <= 0x04 && buf[5] == 0x02
}

/// What to do after the plaintext handshake.
#[derive(Debug, Clone, Copy, PartialEq, Eq, Structural)]
pub enum ProbeStep {
    Found(AdbKind),
    /// Connect again and send the ClientHello: the first request has spoilt the connection.
    TryTls,
}

/// The outcome of probing an open port, from the header of the reply to the connection
/// request and the first six bytes of the reply to the ClientHello; what did not come in full
/// is `None`.
pub open spec fn kind_of_replies(adb: Option<Seq<u8>>, tls: Option<Seq<u8>>) -> AdbKind {
    if adb is Some && header_command(adb->0) is Some {
        AdbKind::Plain
    } else if tls is Some && tls_server_hello(tls->0) {
        AdbKind::Tls
    } else {
        AdbKind::Open
    }
}

/// Decides after the plaintext handshake whether the TLS handshake is needed.
pub fn after_adb_reply(adb: Option<[u8; 24]>) -> (r: ProbeStep)
    ensures
        r == (if adb is Some && header_command(adb->0@) is Some {
            ProbeStep::Found(AdbKind::Plain)
        } else {
            ProbeStep::TryTls
        }),
{
    match adb {
        Some(buf) => {
            if verify_adb_header(&buf).is_some() {
                ProbeStep::Found(AdbKind::Plain)
            } else {
                ProbeStep::TryTls
            }
        },
        None => ProbeStep::TryTls,
    }
}

/// Classifies an open port from the replies to the two handshakes, plaintext ADB first.
pub fn probe(adb: Option<[u8; 24]>, tls: Option<[u8; 6]>) -> (r: AdbKind)
    ensures
        r == kind_of_replies(
            match adb {
                Some(b) => Some(b@),
                None => None,
            },
            match tls {
                Some(b) => Some(b@),
                None => None,
            },
        ),
{
    match after_adb_reply(adb) {
        ProbeStep::Found(kind) => kind,
        ProbeStep::TryTls => match tls {
            Some(buf) => if verify_tls_reply(&buf) {
                AdbKind::Tls
            } else {
                AdbKind::Open
            },
            None => AdbKind::Open,
        },
    }
}

/// The number that a field in the middle of a packet holds.
proof fn lemma_field(front: Seq<u8>, v: u32, back: Seq<u8>)
    ensures
        le_value(front + le_bytes(v) + back, front.len() as int) == v,
{
    let p = front + le_bytes(v) + back;
    let n = front.len() as int;
    assert(p[n] == le_bytes(v)[0] && p[n + 1] == le_bytes(v)[1] && p[n + 2] == le_bytes(v)[2]
        && p[n + 3] == le_bytes(v)[3]);
}

/// The fields of a packet header.
proof fn lemma_header(a: u32, b: u32, c: u32, d: u32, e: u32, f: u32)
    ensures
        ({
            let h = le_bytes(a) + le_bytes(b) + le_bytes(c) + le_bytes(d) + le_bytes(e) + le_bytes(
                f,
            );
            &&& h.len() == 24
            &&& le_value(h, 0) == a
            &&& le_value(h, 12) == d
            &&& le_value(h, 16) == e
            &&& le_value(h, 20) == f
        }),
{
    let (x, y, z, u, v, w) = (
        le_bytes(a),
        le_bytes(b),
        le_bytes(c),
        le_bytes(d),
        le_bytes(e),
        le_bytes(f),
    );
    let h = x + y + z + u + v + w;
    let none = Seq::<u8>::empty();
    assert(h =~= none + x + (y + z + u + v + w));
    lemma_field(none, a, y + z + u + v + w);
    assert(h =~= (x + y + z) + u + (v + w));
    lemma_field(x + y + z, d, v + w);
    assert(h =~= (x + y + z + u) + v + w);
    lemma_field(x + y + z + u, e, w);
    assert(h =~= (x + y + z + u + v) + w + none);
    lemma_field(x + y + z + u + v, f, none);
}

/// The connection request is a packet that the header check accepts as CNXN; its length field
/// tells the length of the banner that follows the header, and its checksum field the sum of
/// the bytes of the banner.
pub proof fn law_own_request_is_valid()
    ensures
        cnxn_packet().len() == 24 + banner().len(),
        cnxn_packet().skip(24) == banner(),
        header_command(cnxn_packet().take(24)) == Some(A_CNXN),
        le_value(cnxn_packet().take(24), 12) == banner().len(),
        le_value(cnxn_packet().take(24), 16) == byte_sum(banner()),
{
    lemma_banner();
    let p = cnxn_packet();
    let h = p.take(24);
    let payload = banner();
    lemma_header(
        A_CNXN,
        ADB_VERSION,
        ADB_MAX_PAYLOAD,
        payload.len() as u32,
        byte_sum(payload) as u32,
        (0xFFFF_FFFF - A_CNXN) as u32,
    );
    let fields = le_bytes(A_CNXN) + le_bytes(ADB_VERSION) + le_bytes(ADB_MAX_PAYLOAD) + le_bytes(
        payload.len() as u32,
    ) + le_bytes(byte_sum(payload) as u32) + le_bytes((0xFFFF_FFFF - A_CNXN) as u32);
    assert(p == fields + payload);
    assert(h =~= fields);
    assert(p.skip(24) =~= payload);
}

/// An echo is no answer: the own ClientHello, sent back, is no ServerHello, and the port that
/// sends it back does not count as ADB.
pub proof fn law_echo_is_not_adb()
    ensures
        tls_header(hello_record()),
        !tls_server_hello(hello_record().take(6)),
        kind_of_replies(None, Some(hello_record().take(6))) == AdbKind::Open,
{
    assert(hello_record()[5] == hello_message()[0]);
}

/// The length fields of the ClientHello tell the lengths of what follows them.
pub proof fn law_hello_lengths()
    ensures
        hello_record().len() == 5 + hello_record()[3] * 256 + hello_record()[4],
        hello_message().len() == 4 + hello_message()[1] * 65536 + hello_message()[2] * 256
            + hello_message()[3],
        hello_record().skip(5) == hello_message(),
        hello_message().skip(4) == hello_body(),
{
    assert(hello_record().skip(5) =~= hello_message());
    assert(hello_message().skip(4) =~= hello_body());
}

/// A header is accepted as CNXN or as AUTH for every length of the payload up to the limit and
/// whatever its other fields hold, provided its last field is the complement of the command;
/// any other header is refused.
pub proof fn law_header_fields(command: u32, arg0: u32, arg1: u32, len: u32, sum: u32, magic: u32)
    ensures
        ({
            let h = le_bytes(command) + le_bytes(arg0) + le_bytes(arg1) + le_bytes(len) + le_bytes(
                sum,
            ) + le_bytes(magic);
            &&& h.len() == 24
            &&& (command == A_CNXN || command == A_AUTH) && len <= ADB_MAX_PAYLOAD && magic
                == 0xFFFF_FFFF - command ==> header_command(h) == Some(command)
            &&& (command != A_CNXN && command != A_AUTH) || len > ADB_MAX_PAYLOAD || magic
                != 0xFFFF_FFFF - command ==> header_command(h) is None
        }),
{
    lemma_header(command, arg0, arg1, len, sum, magic);
}

/// The same byte by byte: a header is accepted exactly when it begins with the letters CNXN
/// or AUTH, ends with the complements of those four bytes, and tells a payload of at most
/// 262144 bytes.
pub proof fn law_header_bytes(h: Seq<u8>)
    requires
        h.len() == 24,
    ensures
        ({
            let cnxn = h[0] == 'C' as u8 && h[1] == 'N' as u8 && h[2] == 'X' as u8 && h[3]
                == 'N' as u8;
            let auth = h[0] == 'A' as u8 && h[1] == 'U' as u8 && h[2] == 'T' as u8 && h[3]
                == 'H' as u8;
            let sealed = h[20] == 255 - h[0] && h[21] == 255 - h[1] && h[22] == 255 - h[2] && h[23]
                == 255 - h[3];
            let short = h[15] == 0 && (h[14] < 4 || h[14] == 4 && h[13] == 0 && h[12] == 0);
            &&& header_command(h) == Some(A_CNXN) <==> cnxn && sealed && short
            &&& header_command(h) == Some(A_AUTH) <==> auth && sealed && short
            &&& header_command(h) is Some <==> (cnxn || auth) && sealed && short
        }),
{
}

/// A field of four bytes holds its number with the lowest byte first, and reads back.
pub proof fn law_little_endian(v: u32)
    ensures
        le_bytes(v).len() == 4,
        le_bytes(v)[0] + 256 * le_bytes(v)[1] + 65536 * le_bytes(v)[2] + 16777216 * le_bytes(v)[3]
            == v,
        le_value(le_bytes(v), 0) == v,
{
}

/// The sum of bytes goes piece by piece.
pub proof fn law_byte_sum(s: Seq<u8>, t: Seq<u8>, b: u8)
    ensures
        byte_sum(seq![b]) == b,
        byte_sum(s + t) == byte_sum(s) + byte_sum(t),
    decreases t.len(),
{
    assert(seq![b].drop_last() =~= Seq::<u8>::empty());
    assert(byte_sum(Seq::<u8>::empty()) == 0);
    if t.len() > 0 {
        law_byte_sum(s, t.drop_last(), b);
        assert((s + t).drop_last() =~= s + t.drop_last());
    } else {
        assert(s + t =~= s);
    }
}

/// The connection request byte by byte: CNXN, version 1.0, 262144 bytes of payload at most,
/// the complement of the command, and the banner of a host.
pub proof fn law_request_bytes()
    ensures
        cnxn_packet().len() == 43,
        cnxn_packet().take(12) == seq![
            'C' as u8,
            'N' as u8,
            'X' as u8,
            'N' as u8,
            0u8,
            0u8,
            0u8,
            1u8,
            0u8,
            0u8,
            4u8,
            0u8,
        ],
        cnxn_packet().subrange(12, 16) == seq![19u8, 0u8, 0u8, 0u8],
        cnxn_packet().subrange(20, 24) == seq![0xBCu8, 0xB1u8, 0xA7u8, 0xB1u8],
        forall|i: int|
            0 <= i < 19 ==> #[trigger] cnxn_packet()[24 + i] as int
                == "host::adb_portScan\0"@[i] as int,
{
    lemma_banner();
    reveal_strlit("host::adb_portScan\0");
    let p = cnxn_packet();
    assert(p.take(12) =~= seq![
        'C' as u8,
        'N' as u8,
        'X' as u8,
        'N' as u8,
        0u8,
        0u8,
        0u8,
        1u8,
        0u8,
        0u8,
        4u8,
        0u8,
    ]);
    assert(p.subrange(12, 16) =~= seq![19u8, 0u8, 0u8, 0u8]);
    assert(p.subrange(20, 24) =~= seq![0xBCu8, 0xB1u8, 0xA7u8, 0xB1u8]);
    assert forall|i: int| 0 <= i < 19 implies #[trigger] p[24 + i] as int
        == "host::adb_portScan\0"@[i] as int by {
        assert(p[24 + i] == banner()[i]);
    }
}

/// The ClientHello byte by byte: a handshake record of version 1.0, a ClientHello of version
/// 1.2, thirty-two fixed bytes, no session, two cipher suites, no compression.
pub proof fn law_hello_bytes()
    ensures
        hello_record().len() == 52,
        hello_record().take(11) == seq![
            0x16u8,
            3u8,
            1u8,
            0u8,
            47u8,
            1u8,
            0u8,
            0u8,
            43u8,
            3u8,
            3u8,
        ],
        forall|i: int| 11 <= i < 43 ==> #[trigger] hello_record()[i] == 0x55,
        hello_record().skip(43) == seq![0u8, 0u8, 4u8, 0u8, 0x2Fu8, 0u8, 0x35u8, 1u8, 0u8],
{
    let r = hello_record();
    assert(hello_body().len() == 43);
    assert(hello_message().len() == 47);
    assert(r.take(11) =~= seq![0x16u8, 3u8, 1u8, 0u8, 47u8, 1u8, 0u8, 0u8, 43u8, 3u8, 3u8]);
    assert(r.skip(43) =~= seq![0u8, 0u8, 4u8, 0u8, 0x2Fu8, 0u8, 0x35u8, 1u8, 0u8]);
}

/// What an open port is: plaintext ADB if its reply to the connection request is an ADB
/// header, whatever came of the ClientHello; else ADB over TLS if its reply to that is a
/// ServerHello in a handshake record of version 1.0 to 1.3; else neither.
pub proof fn law_kind_of_port(adb: Option<Seq<u8>>, tls: Option<Seq<u8>>)
    ensures
        ({
            let plain = adb is Some && header_command(adb->0) is Some;
            let hello = tls is Some && tls->0[0] == 22 && tls->0[1] == 3 && 1 <= tls->0[2] <= 4
                && tls->0[5] == 2;
            &&& kind_of_replies(adb, tls) == AdbKind::Plain <==> plain
            &&& kind_of_replies(adb, tls) == AdbKind::Tls <==> !plain && hello
            &&& kind_of_replies(adb, tls) == AdbKind::Open <==> !plain && !hello
        }),
{
}

} // verus!
