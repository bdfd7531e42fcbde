//! The ports and their order.
use std::collections::HashSet;

use adb_portscan::ports::{default_ports, port_range};

#[test]
fn covers_1_to_65535() {
    let v = default_ports();
    assert_eq!(v.len(), 65535);
    let set: HashSet<u16> = v.iter().copied().collect();
    assert_eq!(set.len(), 65535);
    for p in 1u16..=65535 {
        assert!(set.contains(&p), "missing port {p}");
    }
}

#[test]
fn five_thousand_first() {
    let v = default_ports();
    assert_eq!(v[0], 5555);
}

#[test]
fn ephemeral_segment_high_priority() {
    let v = default_ports();
    // 32768 comes right after 5555
    assert_eq!(v[1], 32768);
    // 60999 comes before 1024
    let pos_60999 = v.iter().position(|&p| p == 60999).unwrap();
    let pos_1024 = v.iter().position(|&p| p == 1024).unwrap();
    assert!(pos_60999 < pos_1024);
}

#[test]
fn segments_in_order() {
    let v = default_ports();
    assert_eq!(v[28232], 60999);
    assert_eq!(v[28233], 1024);
    assert_eq!(v[32763], 5554);
    assert_eq!(v[32764], 5556);
    assert_eq!(v[59975], 32767);
    assert_eq!(v[59976], 61000);
    assert_eq!(v[64511], 65535);
    assert_eq!(v[64512], 1);
    assert_eq!(v[65534], 1023);
}

#[test]
fn ranges() {
    assert_eq!(port_range(3, 5), vec![3, 4, 5]);
    assert_eq!(port_range(0, 0), vec![0]);
    assert_eq!(port_range(65535, 65535), vec![65535]);
    assert!(port_range(5, 3).is_empty());
    assert_eq!(port_range(0, 65535).len(), 65536);
}
