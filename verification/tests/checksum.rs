use pcap_slim::checksum::{
    checksum_sum, internet_checksum, ipv4_header_checksum, transport_checksum_ipv4,
    transport_checksum_ipv6, udp_checksum_wire,
};

#[test]
fn empty_sum() {
    assert_eq!(internet_checksum(&[]), 0xffff);
}

#[test]
fn ipv4_header_checksum_roundtrip() {
    let mut hdr = [
        0x45, 0x00, 0x00, 0x3c, 0x1c, 0x46, 0x40, 0x00, 0x40, 0x06, 0x00, 0x00, 0xac, 0x10, 0x0a,
        0x63, 0xac, 0x10, 0x0a, 0x0c,
    ];
    let sum = ipv4_header_checksum(&hdr);
    hdr[10] = (sum >> 8) as u8;
    hdr[11] = (sum & 0xff) as u8;
    assert_ne!(sum, 0);
    assert_eq!(internet_checksum(&hdr), 0);
}

#[test]
fn udp_checksum_wire_zero_becomes_ffff() {
    assert_eq!(udp_checksum_wire(0), 0xffff);
    assert_eq!(udp_checksum_wire(0x1234), 0x1234);
}

#[test]
fn transport_ipv4_pseudo_nonzero() {
    let segment = [0u8; 8];
    let sum = transport_checksum_ipv4([10, 0, 0, 1], [10, 0, 0, 2], 17, &segment);
    assert_ne!(sum, 0);
}

#[test]
fn rfc1071_example_sum() {
    // RFC 1071 section 3 example: 00 01 f2 03 f4 f5 f6 f7 sums (folded) to 0xddf2.
    let data = [0x00, 0x01, 0xf2, 0x03, 0xf4, 0xf5, 0xf6, 0xf7];
    assert_eq!(checksum_sum(&data), 0xddf2);
    assert_eq!(internet_checksum(&data), !0xddf2u16);
}

#[test]
fn odd_length_pads_low_byte() {
    assert_eq!(checksum_sum(&[0x12]), 0x1200);
    assert_eq!(checksum_sum(&[0x12, 0x34, 0x56]), 0x1234 + 0x5600);
}

#[test]
fn carry_folds_around() {
    // 0xffff + 0x0001 = 0x10000 folds to 0x0001.
    assert_eq!(checksum_sum(&[0xff, 0xff, 0x00, 0x01]), 0x0001);
}

#[test]
fn transport_ipv4_checksum_verifies_after_fill() {
    let src = [192, 168, 1, 1];
    let dst = [192, 168, 1, 2];
    let mut seg = vec![0u8; 28];
    seg[0] = 0x30;
    seg[1] = 0x39;
    seg[3] = 53;
    seg[5] = 28;
    for (i, b) in seg.iter_mut().enumerate().skip(8) {
        *b = i as u8;
    }
    let c = transport_checksum_ipv4(src, dst, 17, &seg);
    seg[6] = (c >> 8) as u8;
    seg[7] = (c & 0xff) as u8;
    assert_eq!(transport_checksum_ipv4(src, dst, 17, &seg), 0);
}

#[test]
fn transport_ipv6_checksum_verifies_after_fill() {
    let mut src = [0u8; 16];
    let mut dst = [0u8; 16];
    src[15] = 1;
    dst[15] = 2;
    src[0] = 0xfe;
    dst[0] = 0xfe;
    let mut seg = vec![0xabu8; 44];
    seg[16] = 0;
    seg[17] = 0;
    let c = transport_checksum_ipv6(src, dst, 6, &seg);
    seg[16] = (c >> 8) as u8;
    seg[17] = (c & 0xff) as u8;
    assert_eq!(transport_checksum_ipv6(src, dst, 6, &seg), 0);
}
