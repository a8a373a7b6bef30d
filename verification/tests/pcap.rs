use pcap_slim::packet::{process_packet, PacketOutcome};
use pcap_slim::pcap_io::{
    analyze_pcap_bytes, check_magic_bytes, count_packets_bytes, detect_endian, projected_file_size,
    read_global_header, record_incl_len, slim_pcap_bytes, slim_record, PcapError, SlimStats,
};
use pcap_slim::testutil::{eth_ipv4_tcp_frame, minimal_pcap_bytes, pcap_records_bytes};

#[test]
fn analyze_matches_slim_stats() {
    let src = minimal_pcap_bytes(10, true);

    let analyze = analyze_pcap_bytes(&src, "in.pcap").unwrap();
    let (out, slim) = slim_pcap_bytes(&src, "in.pcap").unwrap();

    assert_eq!(analyze.in_pkts, slim.in_pkts);
    assert_eq!(analyze.truncated, slim.truncated);
    assert_eq!(analyze.out_bytes, slim.out_bytes);
    assert_eq!(slim.out_bytes, out.len() as u64);
}

#[test]
fn rust_slim_truncates_tls_payload() {
    let src = minimal_pcap_bytes(3, true);
    let (_, stats) = slim_pcap_bytes(&src, "in.pcap").unwrap();
    assert_eq!(stats.in_pkts, 3);
    assert!(stats.truncated >= 1);
    assert!(stats.out_bytes < stats.in_bytes);
}

#[test]
fn rejects_pcapng_cleanly() {
    let bytes = [
        0x0A, 0x0D, 0x0D, 0x0A, 0x1C, 0x00, 0x00, 0x00, 0x4D, 0x3C, 0x2B, 0x1A, 0x01, 0x00, 0x00,
        0x00, 0xFF, 0xFF, 0xFF, 0xFF, 0xFF, 0xFF, 0xFF, 0xFF, 0x1C, 0x00, 0x00, 0x00,
    ];
    let err = slim_pcap_bytes(&bytes, "test.pcapng").unwrap_err();
    match err {
        PcapError::Pcapng { path } => assert_eq!(path, "test.pcapng"),
        other => panic!("unexpected {other:?}"),
    }
}

#[test]
fn too_short_header_is_invalid() {
    let err = count_packets_bytes(&[0xd4, 0xc3, 0xb2], "x.pcap").unwrap_err();
    assert!(matches!(err, PcapError::Invalid("file too short for pcap header")));
}

#[test]
fn unknown_magic_is_invalid() {
    let mut bytes = minimal_pcap_bytes(1, true);
    bytes[0] = 0;
    let err = analyze_pcap_bytes(&bytes, "x.pcap").unwrap_err();
    assert!(matches!(err, PcapError::Invalid("unknown pcap magic")));
}

#[test]
fn cut_short_body_is_io_error() {
    let mut bytes = minimal_pcap_bytes(2, true);
    bytes.truncate(bytes.len() - 5);
    assert!(matches!(slim_pcap_bytes(&bytes, "x").unwrap_err(), PcapError::Io(_)));
    assert!(matches!(count_packets_bytes(&bytes, "x").unwrap_err(), PcapError::Io(_)));
}

#[test]
fn trailing_partial_record_header_ignored() {
    let mut bytes = minimal_pcap_bytes(2, true);
    bytes.extend_from_slice(&[1, 2, 3, 4, 5]);
    assert_eq!(count_packets_bytes(&bytes, "x").unwrap(), 2);
    let (out, stats) = slim_pcap_bytes(&bytes, "x").unwrap();
    assert_eq!(stats.in_pkts, 2);
    assert_eq!(count_packets_bytes(&out, "x").unwrap(), 2);
}

#[test]
fn slimmed_output_counts_and_keeps_timestamps() {
    let frame = eth_ipv4_tcp_frame(443, 12345, &[0x17; 100]);
    let mut bytes = pcap_records_bytes(&vec![frame.clone(), frame.clone()], None, true);
    // set a timestamp on the first record
    bytes[24..28].copy_from_slice(&[1, 2, 3, 4]);
    bytes[28..32].copy_from_slice(&[5, 6, 7, 8]);
    let (out, stats) = slim_pcap_bytes(&bytes, "x").unwrap();
    assert_eq!(stats.truncated, 2);
    assert_eq!(stats.kept, 0);
    assert_eq!(count_packets_bytes(&out, "x").unwrap(), 2);
    assert_eq!(&out[0..24], &bytes[0..24]);
    assert_eq!(&out[24..32], &[1, 2, 3, 4, 5, 6, 7, 8]);
    // incl_len rewritten, orig_len kept
    let incl = u32::from_le_bytes(out[32..36].try_into().unwrap());
    assert_eq!(incl as usize, 14 + 20 + 20 + 24);
    assert_eq!(&out[36..40], &bytes[36..40]);
}

#[test]
fn empty_capture_has_no_packets() {
    let bytes = pcap_records_bytes(&vec![], None, true);
    let (out, stats) = slim_pcap_bytes(&bytes, "x").unwrap();
    assert_eq!(out, bytes);
    assert_eq!(stats.in_pkts, 0);
    assert_eq!(stats.out_bytes, 24);
    let a = analyze_pcap_bytes(&bytes, "x").unwrap();
    assert_eq!(a.out_bytes, 24);
}

#[test]
fn endian_detection() {
    assert!(detect_endian(&[0xd4, 0xc3, 0xb2, 0xa1]).unwrap().le);
    assert!(!detect_endian(&[0xa1, 0xb2, 0xc3, 0xd4]).unwrap().le);
    assert!(detect_endian(&[1, 2, 3, 4]).is_err());
    let ghdr = minimal_pcap_bytes(0, false);
    assert!(!read_global_header(&ghdr, "x").unwrap().le);
}

#[test]
fn streaming_record_step() {
    let frame = eth_ipv4_tcp_frame(443, 12345, &[0x17; 40]);
    let file = pcap_records_bytes(&vec![frame.clone()], None, true);
    let endian = read_global_header(&file[..24], "x").unwrap();
    let rec = &file[24..40];
    assert_eq!(record_incl_len(endian, rec), frame.len());
    let mut stats = SlimStats::default();
    let mut out = Vec::new();
    slim_record(endian, rec, &frame, &mut stats, &mut out);
    assert_eq!(stats.in_pkts, 1);
    assert_eq!(stats.truncated, 1);
    assert_eq!(out.len(), 16 + frame.len() - 16);
    match process_packet(&frame) {
        (PacketOutcome::Truncated(buf), true) => assert_eq!(&out[16..], &buf[..]),
        _ => panic!("expected truncation"),
    }
}

#[test]
fn projected_size_adds() {
    assert_eq!(projected_file_size(24, 100), 124);
}

#[test]
fn magic_check_accepts_only_libpcap() {
    assert!(check_magic_bytes(&[0xa1, 0xb2, 0xc3, 0xd4], "a.pcap").is_ok());
    assert!(check_magic_bytes(&[0xd4, 0xc3, 0xb2, 0xa1], "a.pcap").is_ok());
    assert!(matches!(
        check_magic_bytes(&[0x0a, 0x0d, 0x0d, 0x0a], "a.pcapng"),
        Err(PcapError::Pcapng { ref path }) if path == "a.pcapng"
    ));
    assert!(matches!(
        check_magic_bytes(&[0, 0, 0, 0], "z.pcap"),
        Err(PcapError::Invalid("unknown pcap magic"))
    ));
}
