//! The two handshakes.
use adb_portscan::detect::{
    after_adb_reply, build_cnxn_packet, build_tls_client_hello, probe, verify_adb_header,
    verify_tls_reply, AdbKind, ProbeStep, ADB_MAX_PAYLOAD, A_AUTH, A_CNXN,
};

#[test]
fn cnxn_packet_layout() {
    let p = build_cnxn_packet();
    assert!(p.len() >= 24);
    // the command field is "CNXN"
    assert_eq!(&p[0..4], b"CNXN");
    // magic == cmd XOR 0xFFFFFFFF
    let cmd = u32::from_le_bytes(p[0..4].try_into().unwrap());
    let magic = u32::from_le_bytes(p[20..24].try_into().unwrap());
    assert_eq!(cmd ^ 0xFFFF_FFFF, magic);
}

#[test]
fn verify_accepts_well_formed_cnxn() {
    let p = build_cnxn_packet();
    let hdr: [u8; 24] = p[..24].try_into().unwrap();
    assert_eq!(verify_adb_header(&hdr), Some(A_CNXN));
}

#[test]
fn verify_rejects_bad_magic() {
    let mut p = build_cnxn_packet();
    p[20] ^= 0xFF; // spoil the magic
    let hdr: [u8; 24] = p[..24].try_into().unwrap();
    assert_eq!(verify_adb_header(&hdr), None);
}

#[test]
fn verify_rejects_unknown_cmd() {
    let mut hdr = [0u8; 24];
    let cmd: u32 = 0x4142_4344; // no ADB command
    hdr[0..4].copy_from_slice(&cmd.to_le_bytes());
    hdr[20..24].copy_from_slice(&(cmd ^ 0xFFFF_FFFF).to_le_bytes());
    assert_eq!(verify_adb_header(&hdr), None);
}

#[test]
fn tls_client_hello_starts_with_record_header() {
    let h = build_tls_client_hello();
    assert!(h.len() >= 5);
    assert_eq!(h[0], 0x16); // Handshake
    assert_eq!(h[1], 0x03); // major
    // record length field equals remaining bytes
    let rec_len = u16::from_be_bytes([h[3], h[4]]) as usize;
    assert_eq!(h.len(), 5 + rec_len);
}

#[test]
fn verify_accepts_well_formed_auth() {
    let mut hdr = [0u8; 24];
    hdr[0..4].copy_from_slice(&A_AUTH.to_le_bytes());
    hdr[20..24].copy_from_slice(&(A_AUTH ^ 0xFFFF_FFFF).to_le_bytes());
    assert_eq!(verify_adb_header(&hdr), Some(A_AUTH));
}

#[test]
fn verify_rejects_oversized_payload() {
    let mut hdr = [0u8; 24];
    hdr[0..4].copy_from_slice(&A_CNXN.to_le_bytes());
    let too_big = ADB_MAX_PAYLOAD + 1;
    hdr[12..16].copy_from_slice(&too_big.to_le_bytes());
    hdr[20..24].copy_from_slice(&(A_CNXN ^ 0xFFFF_FFFF).to_le_bytes());
    assert_eq!(verify_adb_header(&hdr), None);
}

#[test]
fn verify_accepts_payload_at_max() {
    let mut hdr = [0u8; 24];
    hdr[0..4].copy_from_slice(&A_CNXN.to_le_bytes());
    hdr[12..16].copy_from_slice(&ADB_MAX_PAYLOAD.to_le_bytes());
    hdr[20..24].copy_from_slice(&(A_CNXN ^ 0xFFFF_FFFF).to_le_bytes());
    assert_eq!(verify_adb_header(&hdr), Some(A_CNXN));
}

#[test]
fn cnxn_payload_carries_host_banner() {
    let p = build_cnxn_packet();
    let payload = &p[24..];
    assert!(payload.starts_with(b"host::"));
}

#[test]
fn cnxn_packet_data_length_matches_payload() {
    let p = build_cnxn_packet();
    let data_len = u32::from_le_bytes(p[12..16].try_into().unwrap()) as usize;
    assert_eq!(p.len(), 24 + data_len);
}

#[test]
fn cnxn_packet_crc_is_byte_sum() {
    let p = build_cnxn_packet();
    let stored_crc = u32::from_le_bytes(p[16..20].try_into().unwrap());
    let calc_crc: u32 = p[24..].iter().map(|&b| b as u32).sum();
    assert_eq!(stored_crc, calc_crc);
}

fn cnxn_reply() -> [u8; 24] {
    let p = build_cnxn_packet();
    p[..24].try_into().unwrap()
}

#[test]
fn cnxn_packet_bytes() {
    let p = build_cnxn_packet();
    assert_eq!(p.len(), 43);
    assert_eq!(&p[4..8], &[0, 0, 0, 1]);
    assert_eq!(&p[8..12], &[0, 0, 4, 0]);
    assert_eq!(&p[12..16], &[19, 0, 0, 0]);
    assert_eq!(&p[24..], b"host::adb_portScan\0");
}

#[test]
fn client_hello_bytes() {
    let h = build_tls_client_hello();
    assert_eq!(&h[..11], &[0x16, 0x03, 0x01, 0x00, 0x2f, 0x01, 0x00, 0x00, 0x2b, 0x03, 0x03]);
    assert_eq!(&h[11..43], &[0x55u8; 32]);
    assert_eq!(&h[43..], &[0, 0, 4, 0, 0x2f, 0, 0x35, 1, 0]);
}

#[test]
fn server_hello_versions() {
    assert!(verify_tls_reply(&[0x16, 0x03, 0x01, 0, 0, 2]));
    assert!(verify_tls_reply(&[0x16, 0x03, 0x04, 9, 9, 2]));
    assert!(!verify_tls_reply(&[0x16, 0x03, 0x05, 0, 0, 2]));
    assert!(!verify_tls_reply(&[0x16, 0x03, 0x00, 0, 0, 2]));
    assert!(!verify_tls_reply(&[0x15, 0x03, 0x01, 0, 0, 2]));
    assert!(!verify_tls_reply(&[0x16, 0x02, 0x01, 0, 0, 2]));
}

#[test]
fn only_a_server_hello_counts() {
    for kind in 0..=255u8 {
        let reply = [0x16, 0x03, 0x03, 0, 42, kind];
        assert_eq!(verify_tls_reply(&reply), kind == 2);
        let want = if kind == 2 { AdbKind::Tls } else { AdbKind::Open };
        assert_eq!(probe(None, Some(reply)), want);
    }
    let echo: [u8; 6] = build_tls_client_hello()[..6].try_into().unwrap();
    assert_eq!(echo[5], 1);
    assert_eq!(probe(None, Some(echo)), AdbKind::Open);
}

#[test]
fn replies_decide_the_kind() {
    let tls = Some([0x16, 0x03, 0x03, 0, 0, 2]);
    assert_eq!(probe(Some(cnxn_reply()), None), AdbKind::Plain);
    assert_eq!(probe(Some(cnxn_reply()), tls), AdbKind::Plain);
    assert_eq!(probe(None, tls), AdbKind::Tls);
    assert_eq!(probe(Some([0; 24]), tls), AdbKind::Tls);
    assert_eq!(probe(Some([0; 24]), Some([0; 6])), AdbKind::Open);
    assert_eq!(probe(None, None), AdbKind::Open);
    assert_eq!(after_adb_reply(Some(cnxn_reply())), ProbeStep::Found(AdbKind::Plain));
    assert_eq!(after_adb_reply(None), ProbeStep::TryTls);
}
