use pcap_slim::parse::{ipv4_pseudo_dst, parse_frame, L4Proto};
use pcap_slim::testutil::eth_ipv4_tcp_frame;

#[test]
fn qinq_ipv4_tcp() {
    let ip_hdr = 20usize;
    let tcp_hdr = 20usize;
    let payload = 8usize;
    let ip_len = ip_hdr + tcp_hdr + payload;
    let total = 14 + 8 + ip_len;
    let mut frame = vec![0u8; total];
    frame[12] = 0x81;
    frame[13] = 0x00;
    frame[16] = 0x81;
    frame[17] = 0x00;
    frame[20] = 0x08;
    frame[21] = 0x00;
    let ip = 22;
    frame[ip] = 0x45;
    frame[ip + 2] = (ip_len >> 8) as u8;
    frame[ip + 3] = (ip_len & 0xff) as u8;
    frame[ip + 9] = 6;
    frame[ip + ip_hdr + 12] = 0x50;
    let parsed = parse_frame(&frame).unwrap();
    assert!(parsed.l4.is_some());
    assert_eq!(parsed.ip_start, 22);
}

#[test]
fn vlan_ipv4_tcp() {
    let ip_hdr = 20usize;
    let tcp_hdr = 20usize;
    let payload = 10usize;
    let ip_len = ip_hdr + tcp_hdr + payload;
    let total = 14 + 4 + ip_len;
    let mut frame = vec![0u8; total];
    frame[12] = 0x81;
    frame[13] = 0x00;
    frame[16] = 0x08;
    frame[17] = 0x00;
    let ip = 18;
    frame[ip] = 0x45;
    frame[ip + 2] = (ip_len >> 8) as u8;
    frame[ip + 3] = (ip_len & 0xff) as u8;
    frame[ip + 9] = 6;
    let tcp = ip + ip_hdr;
    frame[tcp + 12] = 0x50;
    let parsed = parse_frame(&frame).unwrap();
    assert!(parsed.l4.is_some());
    assert_eq!(parsed.ip_start, 18);
}

#[test]
fn ipv4_ssrr_pseudo_dst() {
    let mut frame = vec![0u8; 86];
    frame[14] = 0x47;
    frame[16] = 0x00;
    frame[17] = 0x48;
    frame[23] = 6;
    frame[26..30].copy_from_slice(&[127, 0, 0, 1]);
    frame[30..34].copy_from_slice(&[127, 0, 0, 1]);
    frame[34] = 0x89;
    frame[35] = 0x07;
    frame[36] = 0x04;
    frame[37..41].copy_from_slice(&[5, 6, 7, 8]);
    let dst = ipv4_pseudo_dst(&frame, 14, 28);
    assert_eq!(dst, [5, 6, 7, 8]);
}

#[test]
fn ipv4_lsrr_pseudo_dst() {
    // LSRR to 1.2.3.4, IP dst 127.0.0.1
    let mut frame = vec![0u8; 86];
    frame[14] = 0x47;
    frame[16] = 0x00;
    frame[17] = 0x48;
    frame[23] = 6;
    frame[26..30].copy_from_slice(&[127, 0, 0, 1]);
    frame[30..34].copy_from_slice(&[127, 0, 0, 1]);
    frame[34] = 0x83;
    frame[35] = 0x07;
    frame[36] = 0x04;
    frame[37..41].copy_from_slice(&[1, 2, 3, 4]);
    let dst = ipv4_pseudo_dst(&frame, 14, 28);
    assert_eq!(dst, [1, 2, 3, 4]);
}

#[test]
fn pseudo_dst_without_options_is_header_dst() {
    let mut frame = vec![0u8; 60];
    frame[30..34].copy_from_slice(&[9, 8, 7, 6]);
    assert_eq!(ipv4_pseudo_dst(&frame, 14, 20), [9, 8, 7, 6]);
}

#[test]
fn pseudo_dst_other_option_keeps_header_dst() {
    // a NOP-like option of length 4 (type 1) then EOL: no source route
    let mut frame = vec![0u8; 86];
    frame[30..34].copy_from_slice(&[9, 8, 7, 6]);
    frame[34] = 0x01;
    frame[35] = 0x04;
    assert_eq!(ipv4_pseudo_dst(&frame, 14, 28), [9, 8, 7, 6]);
}

#[test]
fn short_frame_is_error() {
    assert!(parse_frame(&[0u8; 13]).is_err());
    assert!(parse_frame(&[0u8; 14]).is_ok());
}

#[test]
fn plain_tcp_frame_layout_and_payload() {
    let frame = eth_ipv4_tcp_frame(443, 12345, &[0x17; 30]);
    let parsed = parse_frame(&frame).unwrap();
    assert_eq!(parsed.ip_start, 14);
    assert_eq!(parsed.ip_header_len, 20);
    assert!(!parsed.is_ipv6);
    let l4 = parsed.l4.unwrap();
    assert_eq!(l4.proto, L4Proto::Tcp);
    assert_eq!(l4.sport, 12345);
    assert_eq!(l4.dport, 443);
    assert_eq!(l4.header_start, 34);
    assert_eq!(l4.header_len, 20);
    assert_eq!(l4.payload_start, 54);
    assert_eq!(parsed.payload(), &[0x17u8; 30][..]);
}

#[test]
fn payload_bounded_by_capture() {
    // IP total length claims 40 payload bytes but only 10 are captured
    let full = eth_ipv4_tcp_frame(443, 12345, &[0x17; 40]);
    let parsed = parse_frame(&full[..64]).unwrap();
    assert_eq!(parsed.payload().len(), 10);
}

#[test]
fn ipv6_udp_with_hop_by_hop() {
    // Ethernet + IPv6 (40) + hop-by-hop (8) + UDP (8) + 30 payload
    let plen = 8 + 8 + 30;
    let mut f = vec![0u8; 14 + 40 + plen];
    f[12] = 0x86;
    f[13] = 0xdd;
    f[14] = 0x60;
    f[18] = 0;
    f[19] = plen as u8;
    f[20] = 0; // next header: hop-by-hop
    let ext = 54;
    f[ext] = 17; // next: UDP
    f[ext + 1] = 0; // (0 + 1) * 8 bytes
    let udp = ext + 8;
    f[udp] = 0x01;
    f[udp + 1] = 0xbb; // sport 443
    f[udp + 2] = 0x30;
    f[udp + 3] = 0x39; // dport 12345
    let parsed = parse_frame(&f).unwrap();
    assert!(parsed.is_ipv6);
    let l4 = parsed.l4.unwrap();
    assert_eq!(l4.proto, L4Proto::Udp);
    assert_eq!(l4.header_start, udp);
    assert_eq!(l4.sport, 443);
    assert_eq!(l4.dport, 12345);
}

#[test]
fn ipv6_esp_has_no_l4() {
    let mut f = vec![0u8; 14 + 40 + 40];
    f[12] = 0x86;
    f[13] = 0xdd;
    f[14] = 0x60;
    f[19] = 40;
    f[20] = 50; // ESP
    let parsed = parse_frame(&f).unwrap();
    assert!(parsed.is_ipv6);
    assert!(parsed.l4.is_none());
}

#[test]
fn arp_frame_has_no_ip() {
    let mut f = vec![0u8; 60];
    f[12] = 0x08;
    f[13] = 0x06;
    let parsed = parse_frame(&f).unwrap();
    assert_eq!(parsed.ip_start, 0);
    assert!(parsed.l4.is_none());
}

#[test]
fn ipv4_nop_then_lsrr_pseudo_dst() {
    let mut buf = [0u8; 46];
    buf[14] = 0x48; // IHL 8: 32-byte header
    buf[30..34].copy_from_slice(&[127, 0, 0, 1]);
    buf[34..43].copy_from_slice(&[0x01, 0x83, 0x07, 0x04, 1, 2, 3, 4, 0x00]);
    assert_eq!(ipv4_pseudo_dst(&buf, 14, 32), [1, 2, 3, 4]);
}

#[test]
fn ipv4_eol_before_lsrr_keeps_header_dst() {
    let mut buf = [0u8; 46];
    buf[14] = 0x48;
    buf[30..34].copy_from_slice(&[127, 0, 0, 1]);
    buf[34..43].copy_from_slice(&[0x00, 0x83, 0x07, 0x04, 1, 2, 3, 4, 0x00]);
    assert_eq!(ipv4_pseudo_dst(&buf, 14, 32), [127, 0, 0, 1]);
}

#[test]
fn ipv6_payload_ends_with_datagram() {
    // Ethernet + IPv6 (40) + hop-by-hop (8) + UDP (8) + 20 payload, then an 8-byte trailer
    let plen = 8 + 8 + 20;
    let mut f = vec![0u8; 14 + 40 + plen + 8];
    f[12] = 0x86;
    f[13] = 0xdd;
    f[14] = 0x60;
    f[19] = plen as u8;
    f[20] = 0; // hop-by-hop
    f[54] = 17; // next: UDP
    let parsed = parse_frame(&f).unwrap();
    let l4 = parsed.l4.unwrap();
    assert_eq!(l4.payload_start, 14 + 40 + 8 + 8);
    assert_eq!(parsed.payload().len(), 20);
}
