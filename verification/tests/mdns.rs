//! Discovery by multicast DNS.
use adb_portscan::addr::{parse_ip, IpAddr, Ipv4Addr, Ipv6Addr};
use adb_portscan::mdns::{
    build_query, parse_message, push_addr, queries, AdbServiceKind, Cursor, Discovery,
    DiscoveryStep,
};

fn enc(name: &str, out: &mut Vec<u8>) {
    for l in name.split('.') {
        out.push(l.len() as u8);
        out.extend_from_slice(l.as_bytes());
    }
    out.push(0);
}

fn record(name: &str, rtype: u16, data: &[u8], out: &mut Vec<u8>) {
    enc(name, out);
    out.extend_from_slice(&rtype.to_be_bytes());
    out.extend_from_slice(&1u16.to_be_bytes());
    out.extend_from_slice(&120u32.to_be_bytes());
    out.extend_from_slice(&(data.len() as u16).to_be_bytes());
    out.extend_from_slice(data);
}

fn message(records: u16, body: &[u8]) -> Vec<u8> {
    let mut buf = vec![0u8; 6];
    buf.extend_from_slice(&records.to_be_bytes());
    buf.extend_from_slice(&[0u8; 4]);
    buf.extend_from_slice(body);
    buf
}

fn name_bytes(name: &str) -> Vec<u8> {
    let mut v = Vec::new();
    enc(name, &mut v);
    v
}

fn srv_data(port: u16, host: &str) -> Vec<u8> {
    let mut v = vec![0u8; 4];
    v.extend_from_slice(&port.to_be_bytes());
    enc(host, &mut v);
    v
}

#[test]
fn build_query_well_formed() {
    let q = build_query("_adb._tcp.local");
    // header 12 + name (1+4+_adb 4+_tcp 5+local 0) = roughly
    // labels: _adb (4+1), _tcp (4+1), local (5+1), terminator 1
    assert_eq!(q.len(), 12 + 17 + 4);
    assert_eq!(&q[0..2], &[0, 0]); // id
    let qd = u16::from_be_bytes([q[4], q[5]]);
    assert_eq!(qd, 1);
}

#[test]
fn parse_simple_response_with_srv_and_a() {
    // a minimal response:
    //   answer: PTR _adb._tcp.local -> myphone._adb._tcp.local
    //   additional: SRV myphone._adb._tcp.local -> phone.local:5555
    //   additional: A phone.local -> 192.168.1.42
    let mut buf = Vec::new();
    buf.extend_from_slice(&[0u8; 4]); // id + flags
    buf.extend_from_slice(&0u16.to_be_bytes()); // qd
    buf.extend_from_slice(&1u16.to_be_bytes()); // an
    buf.extend_from_slice(&0u16.to_be_bytes()); // ns
    buf.extend_from_slice(&2u16.to_be_bytes()); // ar

    // PTR answer
    enc("_adb._tcp.local", &mut buf);
    buf.extend_from_slice(&12u16.to_be_bytes());
    buf.extend_from_slice(&1u16.to_be_bytes());
    buf.extend_from_slice(&120u32.to_be_bytes());
    let mut rd = Vec::new();
    enc("myphone._adb._tcp.local", &mut rd);
    buf.extend_from_slice(&(rd.len() as u16).to_be_bytes());
    buf.extend_from_slice(&rd);

    // SRV additional
    enc("myphone._adb._tcp.local", &mut buf);
    buf.extend_from_slice(&33u16.to_be_bytes());
    buf.extend_from_slice(&1u16.to_be_bytes());
    buf.extend_from_slice(&120u32.to_be_bytes());
    let mut rd = Vec::new();
    rd.extend_from_slice(&0u16.to_be_bytes()); // priority
    rd.extend_from_slice(&0u16.to_be_bytes()); // weight
    rd.extend_from_slice(&5555u16.to_be_bytes()); // port
    enc("phone.local", &mut rd);
    buf.extend_from_slice(&(rd.len() as u16).to_be_bytes());
    buf.extend_from_slice(&rd);

    // A additional
    enc("phone.local", &mut buf);
    buf.extend_from_slice(&1u16.to_be_bytes());
    buf.extend_from_slice(&1u16.to_be_bytes());
    buf.extend_from_slice(&120u32.to_be_bytes());
    buf.extend_from_slice(&4u16.to_be_bytes());
    buf.extend_from_slice(&[192, 168, 1, 42]);

    let mut d = Discovery::new(2000);
    parse_message(&buf, &mut d.srvs, &mut d.addrs, &mut d.ptrs).expect("parse");

    assert_eq!(d.ptrs.len(), 1);
    assert_eq!(d.ptrs[0].1, "myphone._adb._tcp.local");
    let srv = d.srvs.get("myphone._adb._tcp.local").expect("srv");
    assert_eq!(srv.port, 5555);
    assert_eq!(srv.target, "phone.local");
    assert_eq!(
        d.addrs.get("phone.local"),
        Some(&vec![IpAddr::V4(Ipv4Addr::new(192, 168, 1, 42))])
    );
}

/// A host with A and AAAA records keeps them all, IPv4 first.
#[test]
fn a_and_aaaa_records_coexist_without_overwrite() {
    let mut buf = Vec::new();
    buf.extend_from_slice(&[0u8; 4]);
    buf.extend_from_slice(&0u16.to_be_bytes()); // qd
    buf.extend_from_slice(&0u16.to_be_bytes()); // an
    buf.extend_from_slice(&0u16.to_be_bytes()); // ns
    buf.extend_from_slice(&3u16.to_be_bytes()); // ar: A + AAAA + AAAA

    // A: phone.local -> 192.168.1.42
    enc("phone.local", &mut buf);
    buf.extend_from_slice(&1u16.to_be_bytes());
    buf.extend_from_slice(&1u16.to_be_bytes());
    buf.extend_from_slice(&120u32.to_be_bytes());
    buf.extend_from_slice(&4u16.to_be_bytes());
    buf.extend_from_slice(&[192, 168, 1, 42]);

    // AAAA #1 (link-local): phone.local -> fe80::1
    enc("phone.local", &mut buf);
    buf.extend_from_slice(&28u16.to_be_bytes());
    buf.extend_from_slice(&1u16.to_be_bytes());
    buf.extend_from_slice(&120u32.to_be_bytes());
    buf.extend_from_slice(&16u16.to_be_bytes());
    let mut ll = [0u8; 16];
    ll[0] = 0xfe;
    ll[1] = 0x80;
    ll[15] = 1;
    buf.extend_from_slice(&ll);

    // AAAA #2 (global): phone.local -> 240e::1
    enc("phone.local", &mut buf);
    buf.extend_from_slice(&28u16.to_be_bytes());
    buf.extend_from_slice(&1u16.to_be_bytes());
    buf.extend_from_slice(&120u32.to_be_bytes());
    buf.extend_from_slice(&16u16.to_be_bytes());
    let mut global = [0u8; 16];
    global[0] = 0x24;
    global[1] = 0x0e;
    global[15] = 1;
    buf.extend_from_slice(&global);

    let mut d = Discovery::new(2000);
    parse_message(&buf, &mut d.srvs, &mut d.addrs, &mut d.ptrs).expect("parse");

    let ips = d.addrs.get("phone.local").expect("addrs");
    assert_eq!(ips.len(), 3, "all three addresses are kept: {ips:?}");
    assert_eq!(ips[0], IpAddr::V4(Ipv4Addr::new(192, 168, 1, 42)));
    // IPv4, then global IPv6, then link-local IPv6
    assert_eq!(ips[1], IpAddr::V6(Ipv6Addr::from_bytes(&global)));
    assert_eq!(ips[2], IpAddr::V6(Ipv6Addr::from_bytes(&ll)));
}

/// With AAAA records alone, the address to connect to is IPv6.
#[test]
fn ipv6_only_service_uses_ipv6_as_primary() {
    let mut buf = Vec::new();
    buf.extend_from_slice(&[0u8; 4]);
    buf.extend_from_slice(&0u16.to_be_bytes());
    buf.extend_from_slice(&0u16.to_be_bytes());
    buf.extend_from_slice(&0u16.to_be_bytes());
    buf.extend_from_slice(&1u16.to_be_bytes()); // ar: AAAA

    enc("phone.local", &mut buf);
    buf.extend_from_slice(&28u16.to_be_bytes());
    buf.extend_from_slice(&1u16.to_be_bytes());
    buf.extend_from_slice(&120u32.to_be_bytes());
    buf.extend_from_slice(&16u16.to_be_bytes());
    let mut ll = [0u8; 16];
    ll[0] = 0xfe;
    ll[1] = 0x80;
    ll[15] = 9;
    buf.extend_from_slice(&ll);

    let mut d = Discovery::new(2000);
    parse_message(&buf, &mut d.srvs, &mut d.addrs, &mut d.ptrs).expect("parse");

    let ips = d.addrs.get("phone.local").expect("addrs");
    assert_eq!(ips.len(), 1);
    assert_eq!(ips[0], IpAddr::V6(Ipv6Addr::from_bytes(&ll)));
}

/// An A record that comes twice counts once.
#[test]
fn duplicate_addresses_are_deduplicated() {
    let mut buf = Vec::new();
    buf.extend_from_slice(&[0u8; 4]);
    buf.extend_from_slice(&0u16.to_be_bytes());
    buf.extend_from_slice(&0u16.to_be_bytes());
    buf.extend_from_slice(&0u16.to_be_bytes());
    buf.extend_from_slice(&2u16.to_be_bytes()); // ar: A + A

    for _ in 0..2 {
        enc("phone.local", &mut buf);
        buf.extend_from_slice(&1u16.to_be_bytes());
        buf.extend_from_slice(&1u16.to_be_bytes());
        buf.extend_from_slice(&120u32.to_be_bytes());
        buf.extend_from_slice(&4u16.to_be_bytes());
        buf.extend_from_slice(&[192, 168, 1, 42]);
    }

    let mut d = Discovery::new(2000);
    parse_message(&buf, &mut d.srvs, &mut d.addrs, &mut d.ptrs).expect("parse");

    let ips = d.addrs.get("phone.local").expect("addrs");
    assert_eq!(ips.len(), 1, "a repeated address counts once: {ips:?}");
}

/// IPv4 comes first, in whatever order the addresses arrive.
#[test]
fn discover_service_carries_both_ipv4_and_ipv6() {
    let mut d = Discovery::new(2000);
    let fe80 = parse_ip("fe80::1").unwrap();
    let v4 = parse_ip("192.168.1.42").unwrap();
    push_addr(&mut d.addrs, "phone.local".into(), fe80); // IPv6 arrives first
    push_addr(&mut d.addrs, "phone.local".into(), v4); // then IPv4
    let ips = d.addrs.get("phone.local").unwrap();
    assert_eq!(ips.len(), 2);
    assert_eq!(ips[0], v4, "IPv4 comes first");
    assert_eq!(ips[1], fe80);
}

#[test]
fn name_compression_pointer_resolved() {
    // the name abc.local at offset 0, and a pointer back to it
    let mut buf = Vec::new();
    buf.push(3); buf.extend_from_slice(b"abc");
    buf.push(5); buf.extend_from_slice(b"local");
    buf.push(0);
    let ptr_start = buf.len();
    buf.push(0xC0); buf.push(0); // pointer to offset 0

    let mut c = Cursor { buf: &buf, pos: ptr_start };
    assert_eq!(c.read_name(), Some("abc.local".into()));
}

/// The records of one device: AAAA, A, SRV and PTR.
fn device_message(kind: &str, instance: &str, host: &str, port: u16) -> Vec<u8> {
    let mut body = Vec::new();
    let mut ll = [0u8; 16];
    ll[0] = 0xfe;
    ll[1] = 0x80;
    ll[15] = 7;
    record(host, 28, &ll, &mut body);
    record(host, 1, &[10, 0, 0, 9], &mut body);
    record(instance, 33, &srv_data(port, host), &mut body);
    record(kind, 12, &name_bytes(instance), &mut body);
    message(4, &body)
}

#[test]
fn discovery_assembles_services() {
    let mut d = Discovery::new(2000);
    d.receive(&device_message("_adb-tls-connect._tcp.local", "a._x", "phone.local", 40001));
    d.receive(&device_message("_ADB._TCP.local", "b._x", "phone.local", 5555));
    d.receive(&device_message("_adb-tls-connect._tcp.local", "a._x", "phone.local", 40001));
    d.receive(&device_message("_http._tcp.local", "c._x", "phone.local", 80));
    let found = d.finish();
    assert_eq!(found.len(), 2);
    assert_eq!(found[0].kind, AdbServiceKind::Connect);
    assert_eq!(found[0].instance, "a._x");
    assert_eq!(found[0].port, 40001);
    assert_eq!(found[0].ip, IpAddr::V4(Ipv4Addr::new(10, 0, 0, 9)));
    assert_eq!(found[0].ips.len(), 2);
    assert_eq!(found[0].ips[1], parse_ip("fe80::7").unwrap());
    assert_eq!(found[1].kind, AdbServiceKind::Legacy);
    assert_eq!(found[1].instance, "b._x");
    assert_eq!(found[1].port, 5555);
}

#[test]
fn services_need_a_place_and_an_address() {
    let mut d = Discovery::new(2000);
    let mut body = Vec::new();
    record("_adb._tcp.local", 12, &name_bytes("x._adb"), &mut body);
    d.receive(&message(1, &body));
    assert!(d.finish().is_empty());
    let mut body = Vec::new();
    record("x._adb", 33, &srv_data(5555, "h.local"), &mut body);
    d.receive(&message(1, &body));
    assert!(d.finish().is_empty());
    let mut body = Vec::new();
    record("h.local", 1, &[1, 2, 3, 4], &mut body);
    d.receive(&message(1, &body));
    assert_eq!(d.finish().len(), 1);
}

#[test]
fn broken_messages_are_refused_but_keep_what_came_before() {
    let mut d = Discovery::new(2000);
    assert!(parse_message(&[0u8; 11], &mut d.srvs, &mut d.addrs, &mut d.ptrs).is_none());
    let mut body = Vec::new();
    record("h.local", 1, &[1, 2, 3, 4], &mut body);
    let buf = message(2, &body);
    assert!(parse_message(&buf, &mut d.srvs, &mut d.addrs, &mut d.ptrs).is_none());
    assert_eq!(d.addrs.get("h.local").unwrap().len(), 1);
    let mut cut = message(1, &body);
    cut.pop();
    assert!(parse_message(&cut, &mut d.srvs, &mut d.addrs, &mut d.ptrs).is_none());
}

#[test]
fn names_that_cannot_be_read() {
    // a pointer to itself
    let buf = [0xC0u8, 0];
    assert_eq!(Cursor { buf: &buf, pos: 0 }.read_name(), None);
    // a label that runs past the end
    let buf = [5u8, b'a'];
    assert_eq!(Cursor { buf: &buf, pos: 0 }.read_name(), None);
    // bytes that are no UTF-8
    let buf = [2u8, 0xff, 0xfe, 0];
    assert_eq!(Cursor { buf: &buf, pos: 0 }.read_name(), None);
    // no end
    let buf = [1u8, b'a'];
    assert_eq!(Cursor { buf: &buf, pos: 0 }.read_name(), None);
    // the root
    let buf = [0u8];
    assert_eq!(Cursor { buf: &buf, pos: 0 }.read_name(), Some(String::new()));
}

#[test]
fn labels_are_decoded_as_utf8() {
    let mut buf = vec![6u8];
    buf.extend_from_slice("手机".as_bytes());
    buf.extend_from_slice(&[5, b'l', b'o', b'c', b'a', b'l', 0, 99]);
    let mut c = Cursor { buf: &buf, pos: 0 };
    assert_eq!(c.read_name(), Some("手机.local".to_string()));
    assert_eq!(c.pos, buf.len() - 1);
}

#[test]
fn query_name_reads_back() {
    let qs = queries();
    assert_eq!(qs.len(), 3);
    let names = ["_adb-tls-connect._tcp.local", "_adb-tls-pairing._tcp.local", "_adb._tcp.local"];
    for i in 0..3 {
        let mut c = Cursor { buf: &qs[i], pos: 12 };
        assert_eq!(c.read_name(), Some(names[i].to_string()));
        assert_eq!(&qs[i][c.pos..], &[0, 12, 0x80, 1]);
    }
}

#[test]
fn empty_labels_are_left_out_of_a_query() {
    assert_eq!(build_query("a..b."), build_query("a.b"));
}

#[test]
fn cursor_reads_within_bounds() {
    let buf = [1u8, 2, 3];
    let mut c = Cursor { buf: &buf, pos: 0 };
    assert_eq!(c.u16(), Some(0x0102));
    assert_eq!(c.u16(), None);
    assert_eq!(c.skip(2), None);
    assert_eq!(c.skip(1), Some(()));
    assert_eq!(c.slice(1), None);
    assert_eq!(c.slice(0), Some(&[][..]));
}

#[test]
fn labels_of_service_kinds() {
    assert_eq!(AdbServiceKind::Connect.label(), "TLS-Connect");
    assert_eq!(AdbServiceKind::Pairing.label(), "TLS-Pairing");
    assert_eq!(AdbServiceKind::Legacy.label(), "Legacy");
}

#[test]
fn discovery_resends_once() {
    let mut d = Discovery::new(2000);
    assert_eq!(d.step(0), DiscoveryStep::Listen);
    assert_eq!(d.step(499), DiscoveryStep::Listen);
    assert_eq!(d.step(500), DiscoveryStep::Resend);
    assert_eq!(d.step(501), DiscoveryStep::Listen);
    assert_eq!(d.step(1999), DiscoveryStep::Listen);
    assert_eq!(d.step(2000), DiscoveryStep::Finish);
    let mut short = Discovery::new(300);
    assert_eq!(short.step(299), DiscoveryStep::Listen);
    assert_eq!(short.step(600), DiscoveryStep::Finish);
}

#[test]
fn messages_only_add() {
    let mut d = Discovery::new(2000);
    d.receive(&device_message("_adb._tcp.local", "a._x", "phone.local", 5555));
    let mut body = Vec::new();
    record("_adb._tcp.local", 12, &name_bytes("b._x"), &mut body);
    record("a._x", 33, &srv_data(6666, "other.local"), &mut body);
    record("phone.local", 1, &[10, 0, 0, 1], &mut body);
    d.receive(&message(9, &body));
    assert_eq!(d.ptrs.len(), 2);
    assert_eq!((d.ptrs[0].1.as_str(), d.ptrs[1].1.as_str()), ("a._x", "b._x"));
    let place = d.srvs.get("a._x").unwrap().clone();
    assert_eq!((place.port, place.target.as_str()), (6666, "other.local"));
    let ips: Vec<String> =
        d.addrs.get("phone.local").unwrap().iter().map(|ip| ip.to_text()).collect();
    assert_eq!(ips, vec!["10.0.0.9", "10.0.0.1", "fe80::7"]);
}
