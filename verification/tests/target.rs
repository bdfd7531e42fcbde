//! Targets.
use adb_portscan::addr::{parse_ip, IpAddr, Ipv4Addr};
use adb_portscan::error::{cidr_host_message, TargetError};
use adb_portscan::target::{
    host_targets, parse_targets, SocketAddr, Target, Targets, CIDR_MAX_ADDRESSES,
};

fn ready(input: &str) -> Result<Vec<Target>, String> {
    match parse_targets(input)? {
        Targets::Ready(v) => Ok(v),
        Targets::Lookup(h) => panic!("{h} is a host name"),
    }
}

#[test]
fn ipv4_literal() {
    let t = ready("192.168.1.1").unwrap();
    assert_eq!(t.len(), 1);
    assert_eq!(t[0].ip, IpAddr::V4(Ipv4Addr::new(192, 168, 1, 1)));
}

#[test]
fn ipv6_with_zone() {
    let t = ready("fe80::1%2").unwrap();
    assert_eq!(t.len(), 1);
    assert_eq!(t[0].zone, Some(2));
    assert!(matches!(t[0].ip, IpAddr::V6(_)));
}

#[test]
fn ipv6_zone_non_numeric_fails() {
    assert!(ready("fe80::1%eth0").is_err());
}

#[test]
fn cidr_slash24() {
    let t = ready("192.168.1.0/24").unwrap();
    assert_eq!(t.len(), 256);
    assert_eq!(t[0].ip, IpAddr::V4(Ipv4Addr::new(192, 168, 1, 0)));
    assert_eq!(t[255].ip, IpAddr::V4(Ipv4Addr::new(192, 168, 1, 255)));
}

#[test]
fn cidr_slash32_single() {
    let t = ready("10.0.0.5/32").unwrap();
    assert_eq!(t.len(), 1);
}

#[test]
fn cidr_too_large() {
    assert!(ready("10.0.0.0/8").is_err());
}

#[test]
fn empty_input() {
    assert!(ready("   ").is_err());
}

#[test]
fn socket_v6_carries_scope_id() {
    let t = &ready("fe80::1%5").unwrap()[0];
    let sa = t.socket(5555);
    if let SocketAddr::V6(v6) = sa {
        assert_eq!(v6.scope_id, 5);
    } else {
        panic!("expected v6");
    }
}

#[test]
fn socket_parts() {
    let t = &ready(" 10.1.2.3\t").unwrap()[0];
    assert_eq!(t.display, "10.1.2.3");
    assert_eq!(t.zone, None);
    match t.socket(80) {
        SocketAddr::V4(a) => assert_eq!((a.ip, a.port), (Ipv4Addr::new(10, 1, 2, 3), 80)),
        SocketAddr::V6(_) => panic!("expected v4"),
    }
    let t = &ready("::1").unwrap()[0];
    match t.socket(1) {
        SocketAddr::V6(a) => assert_eq!((a.port, a.flowinfo, a.scope_id), (1, 0, 0)),
        SocketAddr::V4(_) => panic!("expected v6"),
    }
}

#[test]
fn subnet_of_an_inner_address() {
    let t = ready("10.0.7.200/22").unwrap();
    assert_eq!(t.len(), 1024);
    assert_eq!(t[0].display, "10.0.4.0");
    assert_eq!(t[1023].display, "10.0.7.255");
    let t = ready("255.255.255.255/16").unwrap();
    assert_eq!(t.len() as u64, CIDR_MAX_ADDRESSES);
    assert_eq!(t[65535].display, "255.255.255.255");
    for x in ready("1.2.3.4/28").unwrap() {
        let again = ready(&x.display).unwrap();
        assert_eq!(again.len(), 1);
        assert_eq!(again[0].ip, x.ip);
    }
}

#[test]
fn errors_in_words() {
    assert_eq!(ready("").unwrap_err(), "空输入");
    assert_eq!(ready("x/24").unwrap_err(), "CIDR 主机部分 x 非法");
    assert_eq!(ready("fe80::/64").unwrap_err(), "暂不支持 IPv6 CIDR");
    assert_eq!(ready("1.2.3.4/33").unwrap_err(), "IPv4 CIDR 掩码不能超过 32");
    assert_eq!(
        ready("10.0.0.0/15").unwrap_err(),
        "CIDR /15 包含 131072 个 IP，过大；请使用 /16 或更小"
    );
    assert_eq!(
        ready("10.0.0.0/0").unwrap_err(),
        "CIDR /0 包含 4294967296 个 IP，过大；请使用 /16 或更小"
    );
    assert_eq!(ready("1.2.3.4%1").unwrap_err(), "IPv6 地址 1.2.3.4 非法");
    assert_eq!(ready("fe80::1%x").unwrap_err(), "zone 必须是数字接口索引: %x");
    assert_eq!(ready("fe80::1%4294967296").unwrap_err(), "zone 必须是数字接口索引: %4294967296");
}

#[test]
fn anything_else_is_a_host_name() {
    for s in ["phone.local", "1.2.3", "1.2.3.4/x", "1.2.3.4/256", "[::1]"] {
        match parse_targets(s).unwrap() {
            Targets::Lookup(h) => assert_eq!(h, s),
            Targets::Ready(_) => panic!("{s} is no address"),
        }
    }
}

#[test]
fn host_lookups() {
    let ips = vec![parse_ip("10.0.0.1").unwrap(), parse_ip("fe80::1").unwrap()];
    let t = host_targets("phone.local", Ok(ips)).unwrap();
    assert_eq!(t.len(), 2);
    assert_eq!(t[0].display, "phone.local (10.0.0.1)");
    assert_eq!(t[1].display, "phone.local (fe80::1)");
    assert_eq!(t[1].zone, None);
    assert_eq!(
        host_targets("h", Err("no such host".to_string())).unwrap_err(),
        "无法解析主机名 h: no such host"
    );
    assert_eq!(host_targets("h", Ok(vec![])).unwrap_err(), "主机名 h 没有解析结果");
}

#[test]
fn target_error_messages() {
    let cases = vec![
        (TargetError::Empty, "empty input"),
        (TargetError::InvalidIp("x".into()), "invalid IP literal: x"),
        (TargetError::InvalidCidrHost("a\"b\n".into()), "invalid CIDR host part: \"a\\\"b\\n\""),
        (
            TargetError::CidrMaskOutOfRange { max: 32, got: 40 },
            "CIDR mask /40 out of range (max /32)",
        ),
        (
            TargetError::CidrTooLarge { count: 131072 },
            "CIDR contains 131072 addresses, exceeds /16 limit (65536)",
        ),
        (TargetError::InvalidIpv6Zone("eth0".into()), "IPv6 zone id must be numeric: %eth0"),
        (TargetError::Ipv6CidrUnsupported, "IPv6 CIDR not supported"),
        (
            TargetError::HostResolveFailed { host: "h".into(), source: "s".into() },
            "hostname h resolve failed: s",
        ),
        (TargetError::HostNoResults("h".into()), "hostname h resolved to no addresses"),
    ];
    for (e, text) in cases {
        assert_eq!(e.message(), text);
        assert_eq!(e.clone(), e);
    }
    assert_eq!(cidr_host_message("\"q\""), "invalid CIDR host part: \"q\"");
}
