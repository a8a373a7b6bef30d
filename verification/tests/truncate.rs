use pcap_slim::checksum::{internet_checksum, transport_checksum_ipv4};
use pcap_slim::parse::parse_frame;
use pcap_slim::policy::TRUNCATE_PAYLOAD_BYTES;
use pcap_slim::testutil::{eth_ipv4_tcp_frame, eth_ipv4_tcp_frame_with_tcp_opts};
use pcap_slim::truncate::{apply_truncate, apply_truncate_on_parsed, process_frame};

#[test]
fn truncate_tls_payload_to_24_bytes() {
    let frame = eth_ipv4_tcp_frame(443, 12345, &[0x17; 40]);
    let before = frame.len();
    let parsed = parse_frame(&frame).unwrap();
    let mut buf = frame.clone();
    assert!(apply_truncate_on_parsed(&mut buf, &parsed));
    assert_eq!(buf.len(), before - 16);
    let out_parsed = parse_frame(&buf).unwrap();
    assert_eq!(out_parsed.payload().len(), TRUNCATE_PAYLOAD_BYTES);
}

#[test]
fn truncate_updates_ipv4_total_length() {
    let frame = eth_ipv4_tcp_frame(443, 1, &[0x17; 30]);
    let parsed = parse_frame(&frame).unwrap();
    let mut buf = frame.clone();
    assert!(apply_truncate_on_parsed(&mut buf, &parsed));
    let ip_len = u16::from_be_bytes([buf[16], buf[17]]) as usize;
    assert_eq!(ip_len + 14, buf.len());
}

#[test]
fn truncate_sets_tcp_checksum() {
    let frame = eth_ipv4_tcp_frame(443, 1, &[0x17; 30]);
    let parsed = parse_frame(&frame).unwrap();
    let mut buf = frame.clone();
    assert!(apply_truncate_on_parsed(&mut buf, &parsed));
    let csum = u16::from_be_bytes([buf[50], buf[51]]);
    assert_ne!(csum, 0);
}

#[test]
fn truncated_checksums_verify() {
    let mut frame = eth_ipv4_tcp_frame(443, 40000, &[0x17; 100]);
    frame[26..30].copy_from_slice(&[10, 0, 0, 1]);
    frame[30..34].copy_from_slice(&[10, 0, 0, 2]);
    let mut buf = frame.clone();
    assert!(apply_truncate(&mut buf));
    assert_eq!(internet_checksum(&buf[14..34]), 0);
    assert_eq!(
        transport_checksum_ipv4([10, 0, 0, 1], [10, 0, 0, 2], 6, &buf[34..]),
        0
    );
    // headers and the first 24 payload bytes are kept
    assert_eq!(&buf[34..50], &frame[34..50]);
    assert_eq!(&buf[54..], &frame[54..78]);
}

#[test]
fn truncate_with_tcp_options_keeps_header() {
    let frame = eth_ipv4_tcp_frame_with_tcp_opts(443, 40000, &[0x17; 40]);
    let mut buf = frame.clone();
    assert!(apply_truncate(&mut buf));
    assert_eq!(buf.len(), 14 + 20 + 32 + 24);
}

#[test]
fn short_payload_not_truncated() {
    let frame = eth_ipv4_tcp_frame(443, 1, &[0x17; 24]);
    let mut buf = frame.clone();
    assert!(!apply_truncate(&mut buf));
    assert_eq!(buf, frame);
}

#[test]
fn process_frame_without_truncate_copies() {
    let frame = eth_ipv4_tcp_frame(443, 1, &[0x17; 40]);
    let (out, t) = process_frame(&frame, false);
    assert!(!t);
    assert_eq!(out, frame);
    let (out, t) = process_frame(&frame, true);
    assert!(t);
    assert_eq!(out.len(), frame.len() - 16);
}

#[test]
fn truncate_udp_rewrites_length_and_checksum() {
    let payload = [0xaau8; 50];
    let mut v = vec![0u8; 14 + 20 + 8 + payload.len()];
    v[12] = 0x08;
    v[14] = 0x45;
    let ip_len = 20 + 8 + payload.len();
    v[16] = (ip_len >> 8) as u8;
    v[17] = (ip_len & 0xff) as u8;
    v[23] = 17;
    v[26..30].copy_from_slice(&[10, 0, 0, 1]);
    v[30..34].copy_from_slice(&[10, 0, 0, 2]);
    v[34] = 0x01;
    v[35] = 0xbb;
    v[36] = 0x30;
    v[37] = 0x39;
    v[38] = 0;
    v[39] = (8 + payload.len()) as u8;
    v[42..].copy_from_slice(&payload);
    let mut buf = v.clone();
    assert!(apply_truncate(&mut buf));
    assert_eq!(buf.len(), 14 + 20 + 8 + 24);
    assert_eq!(u16::from_be_bytes([buf[38], buf[39]]), 32);
    assert_eq!(u16::from_be_bytes([buf[16], buf[17]]), 52);
    assert_ne!(u16::from_be_bytes([buf[40], buf[41]]), 0);
    assert_eq!(
        transport_checksum_ipv4([10, 0, 0, 1], [10, 0, 0, 2], 17, &buf[34..]),
        0
    );
    assert_eq!(internet_checksum(&buf[14..34]), 0);
}

#[test]
fn truncated_frame_is_left_alone_by_a_second_truncation() {
    let frame = eth_ipv4_tcp_frame(443, 40000, &[0x17; 100]);
    let mut buf = frame.clone();
    assert!(apply_truncate(&mut buf));
    let once = buf.clone();
    let reparsed = parse_frame(&once).unwrap();
    let first = parse_frame(&frame).unwrap();
    assert_eq!(reparsed.l4.unwrap().payload_start, first.l4.unwrap().payload_start);
    assert_eq!(reparsed.payload(), &frame[54..78]);
    assert!(!apply_truncate(&mut buf));
    assert_eq!(buf, once);
}

#[test]
fn short_ipv4_header_truncated_once_only() {
    // IPv4 with IHL 0: the TCP header starts where the IP header does
    let mut f = vec![0u8; 14 + 60];
    f[12] = 0x08;
    f[14] = 0x40;
    f[17] = 60; // total length
    f[23] = 6; // TCP
    f[26] = 0x50; // data offset 5 (also the first source address byte)
    for b in f[34..].iter_mut() {
        *b = 0x17;
    }
    let mut buf = f.clone();
    assert!(apply_truncate(&mut buf));
    assert_eq!(buf.len(), 34 + 24);
    let once = buf.clone();
    assert!(!apply_truncate(&mut buf));
    assert_eq!(buf, once);
}
