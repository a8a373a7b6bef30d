//! Edge cases: snaplen, fragments, TCP options, big-endian pcap.

use pcap_slim::packet::process_packet;
use pcap_slim::parse::parse_frame;
use pcap_slim::pcap_io::{analyze_pcap_bytes, slim_pcap_bytes};
use pcap_slim::policy::{decide_action, Action};
use pcap_slim::testutil::{
    eth_ipv4_tcp_frame, eth_ipv4_tcp_frame_with_tcp_opts, minimal_pcap_bytes, pcap_records_bytes,
};

#[test]
fn short_capture_keeps_tls_packet() {
    let full = eth_ipv4_tcp_frame(443, 12345, &[0x17; 40]);
    let incl = 14 + 20 + 20 + 10;
    let bytes = pcap_records_bytes(&vec![full[..incl].to_vec()], None, true);

    let stats = analyze_pcap_bytes(&bytes, "short.pcap").unwrap();
    assert_eq!(stats.truncated, 0);
    assert_eq!(stats.kept, 1);
}

#[test]
fn edge_cases_ipv4_fragment_kept() {
    let mut frame = eth_ipv4_tcp_frame(443, 12345, &[0x17; 40]);
    let ip = 14;
    let flags = u16::from_be_bytes([frame[ip + 6], frame[ip + 7]]) | 0x2000;
    frame[ip + 6] = (flags >> 8) as u8;
    frame[ip + 7] = (flags & 0xff) as u8;

    assert_eq!(decide_action(&parse_frame(&frame).unwrap()), Action::Keep);
    let (_, truncated) = process_packet(&frame);
    assert!(!truncated);
}

#[test]
fn tcp_options_tls_truncates() {
    let frame = eth_ipv4_tcp_frame_with_tcp_opts(443, 40000, &[0x17; 40]);
    let parsed = parse_frame(&frame).unwrap();
    assert!(parsed.l4.unwrap().header_len > 20);
    assert_eq!(decide_action(&parsed), Action::Truncate);

    let frames: Vec<Vec<u8>> = (0..4).map(|_| frame.clone()).collect();
    let bytes = pcap_records_bytes(&frames, None, true);
    let stats = analyze_pcap_bytes(&bytes, "synth-tcp-options-tls.pcap").unwrap();
    assert_eq!(stats.truncated, 4);
}

#[test]
fn big_endian_pcap_roundtrip() {
    let before = minimal_pcap_bytes(2, false);
    let orig_snap = before[16..20].to_vec();

    let (after, _) = slim_pcap_bytes(&before, "be_in.pcap").unwrap();

    assert_eq!(&after[0..16], &before[0..16]);
    assert_eq!(&after[16..20], &orig_snap);
    assert!(after.len() < before.len());
}

#[test]
fn fragment_offset_only_kept() {
    let mut frame = eth_ipv4_tcp_frame(443, 12345, &[0x17; 40]);
    frame[21] = 0x01; // fragment offset 1, no MF flag
    assert_eq!(decide_action(&parse_frame(&frame).unwrap()), Action::Keep);
    let mut frame = eth_ipv4_tcp_frame(443, 12345, &[0x17; 40]);
    frame[20] = 0x40; // DF only: not a fragment
    assert_eq!(decide_action(&parse_frame(&frame).unwrap()), Action::Truncate);
}

#[test]
fn ipv6_quic_slimmed_with_extension_header() {
    // Ethernet + IPv6 (40) + hop-by-hop (8) + UDP (8) + 60 payload
    let plen = 8 + 8 + 60;
    let mut f = vec![0u8; 14 + 40 + plen];
    f[12] = 0x86;
    f[13] = 0xdd;
    f[14] = 0x60;
    f[19] = plen as u8;
    f[20] = 0; // next header: hop-by-hop
    for i in 0..16 {
        f[22 + i] = 0x20 + i as u8; // source address
        f[38 + i] = 0x40 + i as u8; // destination address
    }
    let ext = 54;
    f[ext] = 17;
    let udp = ext + 8;
    f[udp] = 0x30;
    f[udp + 1] = 0x39; // sport 12345
    f[udp + 2] = 0x01;
    f[udp + 3] = 0xbb; // dport 443
    f[udp + 5] = (8 + 60) as u8;
    for i in 0..60 {
        f[udp + 8 + i] = 0xc0 + (i % 16) as u8;
    }
    let (outcome, truncated) = process_packet(&f);
    assert!(truncated);
    let out = match outcome {
        pcap_slim::packet::PacketOutcome::Truncated(b) => b,
        _ => panic!("expected a truncated frame"),
    };
    assert_eq!(out.len(), udp + 8 + 24);
    // headers kept, payload length and UDP length rewritten
    assert_eq!(&out[..18], &f[..18]);
    assert_eq!(u16::from_be_bytes([out[18], out[19]]), (8 + 8 + 24) as u16);
    assert_eq!(&out[20..udp + 4], &f[20..udp + 4]);
    assert_eq!(u16::from_be_bytes([out[udp + 4], out[udp + 5]]), 32);
    assert_eq!(&out[udp + 8..], &f[udp + 8..udp + 32]);
    let mut src = [0u8; 16];
    let mut dst = [0u8; 16];
    src.copy_from_slice(&out[22..38]);
    dst.copy_from_slice(&out[38..54]);
    assert_eq!(
        pcap_slim::checksum::transport_checksum_ipv6(src, dst, 17, &out[udp..]),
        0
    );
}
