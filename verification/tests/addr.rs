//! Addresses and their textual forms.
use adb_portscan::addr::{addr_priority, is_link_local, parse_ip, parse_ipv6, IpAddr, Ipv6Addr};

fn round(s: &str) -> String {
    parse_ip(s).unwrap_or_else(|| panic!("{s} is an address")).to_text()
}

#[test]
fn canonical_forms() {
    let cases = [
        ("0.0.0.0", "0.0.0.0"),
        ("255.255.255.255", "255.255.255.255"),
        ("192.168.1.42", "192.168.1.42"),
        ("::", "::"),
        ("::1", "::1"),
        ("1::", "1::"),
        ("0:0:0:0:0:0:0:1", "::1"),
        ("fe80::1", "fe80::1"),
        ("FE80:0000::00aB", "fe80::ab"),
        ("2001:db8:0:1:1:1:1:1", "2001:db8:0:1:1:1:1:1"),
        ("2001:0:0:1:0:0:0:1", "2001:0:0:1::1"),
        ("1:0:0:2:3:0:0:4", "1::2:3:0:0:4"),
        ("1:2:3:4:5:6:7::", "1:2:3:4:5:6:7:0"),
        ("::2:3:4:5:6:7:8", "0:2:3:4:5:6:7:8"),
        ("::ffff:1.2.3.4", "::ffff:1.2.3.4"),
        ("::ffff:102:304", "::ffff:1.2.3.4"),
        ("::1.2.3.4", "::102:304"),
        ("1:2:3:4:5:6:1.2.3.4", "1:2:3:4:5:6:102:304"),
        ("64:ff9b::10.0.0.1", "64:ff9b::a00:1"),
    ];
    for (s, text) in cases {
        assert_eq!(round(s), text);
        assert_eq!(round(text), text);
        assert_eq!(parse_ip(s), parse_ip(text));
    }
}

#[test]
fn texts_that_are_no_addresses() {
    let cases = [
        "", " 1.2.3.4", "1.2.3", "1.2.3.4.5", "1.2.3.256", "01.2.3.4", "1.2.3.04", "1..2.3", "a.b.c.d",
        "1.2.3.-4", "+1.2.3.4", ":", ":::", "1:2:3:4:5:6:7", "1:2:3:4:5:6:7:8:9", "1::2::3",
        "12345::", "g::", "::1%2", "1:2:3:4:5:6:7:1.2.3.4", "1.2.3.4::", "::1.2.3", ":1::2",
        "1:2:3:4:5:6:7:8::", "::1:2:3:4:5:6:7:8", "1:", "[::1]",
    ];
    for s in cases {
        assert_eq!(parse_ip(s), None, "{s}");
    }
    assert_eq!(parse_ipv6("1.2.3.4"), None);
}

#[test]
fn link_local_range() {
    let v6 = |s: &str| parse_ipv6(s).unwrap();
    assert!(is_link_local(v6("fe80::")));
    assert!(is_link_local(v6("febf:ffff::1")));
    assert!(!is_link_local(v6("fec0::")));
    assert!(!is_link_local(v6("fe7f:ffff::")));
    assert!(!is_link_local(v6("::1")));
}

#[test]
fn preference() {
    assert_eq!(addr_priority(&parse_ip("1.2.3.4").unwrap()), 0);
    assert_eq!(addr_priority(&parse_ip("240e::1").unwrap()), 1);
    assert_eq!(addr_priority(&parse_ip("fe80::1").unwrap()), 2);
}

#[test]
fn octets_in_network_order() {
    let mut b = [0u8; 16];
    b[0] = 0x20;
    b[1] = 0x01;
    b[15] = 0x42;
    assert_eq!(IpAddr::V6(Ipv6Addr::from_bytes(&b)).to_text(), "2001::42");
    assert_eq!(Ipv6Addr::from_bytes(&[0xff; 16]).bits, u128::MAX);
}
