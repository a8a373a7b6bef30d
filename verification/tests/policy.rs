use pcap_slim::parse::parse_frame;
use pcap_slim::policy::{decide_action, port_in_set, Action, IPSEC_PORTS, TLS_PORTS};

fn build_eth_ipv4_tcp(dport: u16, sport: u16, payload: &[u8]) -> Vec<u8> {
    let ip_hdr = 20usize;
    let tcp_hdr = 20usize;
    let total = 14 + ip_hdr + tcp_hdr + payload.len();
    let ip_len = (ip_hdr + tcp_hdr + payload.len()) as u16;
    let mut v = vec![0u8; total];
    v[12] = 0x08;
    v[13] = 0x00; // IPv4
    v[14] = 0x45;
    v[16] = (ip_len >> 8) as u8;
    v[17] = (ip_len & 0xff) as u8;
    v[23] = 6; // TCP
    let ip_off = 14;
    let tcp_off = ip_off + ip_hdr;
    v[tcp_off] = (sport >> 8) as u8;
    v[tcp_off + 1] = (sport & 0xff) as u8;
    v[tcp_off + 2] = (dport >> 8) as u8;
    v[tcp_off + 3] = (dport & 0xff) as u8;
    v[tcp_off + 12] = 0x50; // data offset 5
    v[tcp_off + tcp_hdr..].copy_from_slice(payload);
    v
}

fn build_eth_ipv4_udp(dport: u16, sport: u16, payload: &[u8]) -> Vec<u8> {
    let ip_hdr = 20usize;
    let udp_hdr = 8usize;
    let total = 14 + ip_hdr + udp_hdr + payload.len();
    let ip_len = (ip_hdr + udp_hdr + payload.len()) as u16;
    let udp_len = (udp_hdr + payload.len()) as u16;
    let mut v = vec![0u8; total];
    v[12] = 0x08;
    v[13] = 0x00;
    v[14] = 0x45;
    v[16] = (ip_len >> 8) as u8;
    v[17] = (ip_len & 0xff) as u8;
    v[23] = 17; // UDP
    let udp_off = 14 + ip_hdr;
    v[udp_off] = (sport >> 8) as u8;
    v[udp_off + 1] = (sport & 0xff) as u8;
    v[udp_off + 2] = (dport >> 8) as u8;
    v[udp_off + 3] = (dport & 0xff) as u8;
    v[udp_off + 4] = (udp_len >> 8) as u8;
    v[udp_off + 5] = (udp_len & 0xff) as u8;
    v[udp_off + udp_hdr..].copy_from_slice(payload);
    v
}

#[test]
fn tcp_tls_app_data_truncates() {
    // Ethernet + IPv4(20) + TCP(20) + 30 bytes payload starting with 0x17
    let mut frame = build_eth_ipv4_tcp(443, 12345, &[0x17; 30]);
    assert_eq!(decide_action(&parse_frame(&frame).unwrap()), Action::Truncate);
    frame = build_eth_ipv4_tcp(12345, 443, &[0x17; 30]);
    assert_eq!(decide_action(&parse_frame(&frame).unwrap()), Action::Truncate);
}

#[test]
fn tcp_tls_handshake_kept() {
    let frame = build_eth_ipv4_tcp(443, 12345, &[0x16; 30]);
    assert_eq!(decide_action(&parse_frame(&frame).unwrap()), Action::Keep);
}

#[test]
fn tcp_tls_other_handshake_bytes_kept() {
    for &b0 in &[0x14u8, 0x15, 0x18] {
        let frame = build_eth_ipv4_tcp(443, 12345, &[b0; 30]);
        assert_eq!(
            decide_action(&parse_frame(&frame).unwrap()),
            Action::Keep,
            "b0=0x{b0:02x}"
        );
    }
}

#[test]
fn policy_ipv4_fragment_kept() {
    let mut frame = build_eth_ipv4_tcp(443, 12345, &[0x17; 30]);
    frame[20] |= 0x20;
    assert_eq!(decide_action(&parse_frame(&frame).unwrap()), Action::Keep);
}

#[test]
fn tcp_non_tls_port_app_data_truncates() {
    let frame = build_eth_ipv4_tcp(8080, 12345, &[0x17; 30]);
    assert_eq!(decide_action(&parse_frame(&frame).unwrap()), Action::Truncate);
}

#[test]
fn tcp_short_payload_kept() {
    let frame = build_eth_ipv4_tcp(443, 12345, &[0x17; 20]);
    assert_eq!(decide_action(&parse_frame(&frame).unwrap()), Action::Keep);
}

#[test]
fn ssh_banner_kept() {
    let mut p = b"SSH-2.0-test\r\n".to_vec();
    p.resize(30, 0);
    let frame = build_eth_ipv4_tcp(22, 12345, &p);
    assert_eq!(decide_action(&parse_frame(&frame).unwrap()), Action::Keep);
}

#[test]
fn ssh_encrypted_truncates() {
    let frame = build_eth_ipv4_tcp(22, 12345, &[0x00; 30]);
    assert_eq!(decide_action(&parse_frame(&frame).unwrap()), Action::Truncate);
}

#[test]
fn udp_quic_truncates() {
    let frame = build_eth_ipv4_udp(443, 12345, &[0; 30]);
    assert_eq!(decide_action(&parse_frame(&frame).unwrap()), Action::Truncate);
}

#[test]
fn udp_dns_kept() {
    let frame = build_eth_ipv4_udp(53, 12345, &[0; 30]);
    assert_eq!(decide_action(&parse_frame(&frame).unwrap()), Action::Keep);
}

#[test]
fn payload_of_exactly_24_bytes_kept() {
    let frame = build_eth_ipv4_tcp(443, 12345, &[0x17; 24]);
    assert_eq!(decide_action(&parse_frame(&frame).unwrap()), Action::Keep);
    let frame = build_eth_ipv4_tcp(443, 12345, &[0x17; 25]);
    assert_eq!(decide_action(&parse_frame(&frame).unwrap()), Action::Truncate);
}

#[test]
fn non_tls_port_handshake_kept() {
    let frame = build_eth_ipv4_tcp(8080, 12345, &[0x16; 30]);
    assert_eq!(decide_action(&parse_frame(&frame).unwrap()), Action::Keep);
}

#[test]
fn udp_ipsec_truncates() {
    let frame = build_eth_ipv4_udp(4500, 12345, &[0; 30]);
    assert_eq!(decide_action(&parse_frame(&frame).unwrap()), Action::Truncate);
    let frame = build_eth_ipv4_udp(12345, 500, &[0; 30]);
    assert_eq!(decide_action(&parse_frame(&frame).unwrap()), Action::Truncate);
}

#[test]
fn tcp_other_ports_kept() {
    let frame = build_eth_ipv4_tcp(80, 12345, &[0x47; 30]);
    assert_eq!(decide_action(&parse_frame(&frame).unwrap()), Action::Keep);
}

#[test]
fn port_sets() {
    assert!(port_in_set(8443, &TLS_PORTS));
    assert!(!port_in_set(80, &TLS_PORTS));
    assert!(port_in_set(4500, &IPSEC_PORTS));
    assert!(!port_in_set(443, &[]));
}

#[test]
fn ipv6_fragment_kept() {
    let mut frame = [0u8; 112];
    frame[12] = 0x86;
    frame[13] = 0xdd;
    frame[14] = 0x60;
    frame[18] = 0x00;
    frame[19] = 0x3a; // plen 58
    frame[20] = 44; // Fragment header
    frame[54] = 6; // next: TCP
    frame[57] = 0x01; // offset 0, M = 1
    frame[64] = 0x01;
    frame[65] = 0xbb; // dport 443
    frame[74] = 0x50;
    for b in frame[82..112].iter_mut() {
        *b = 0x17;
    }
    let pf = parse_frame(&frame).unwrap();
    assert!(pf.l4.is_some());
    assert_eq!(decide_action(&pf), Action::Keep);
    // the same datagram without the Fragment header is truncated
    let mut plain = vec![0u8; 104];
    plain[..54].copy_from_slice(&frame[..54]);
    plain[19] = 50;
    plain[20] = 6;
    plain[56..58].copy_from_slice(&[0x01, 0xbb]);
    plain[66] = 0x50;
    for b in plain[74..104].iter_mut() {
        *b = 0x17;
    }
    let pf = parse_frame(&plain).unwrap();
    assert_eq!(decide_action(&pf), Action::Truncate);
}
