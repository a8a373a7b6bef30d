//! In-place L4 payload truncation and header/checksum updates.
//!
//! `truncated_frame` states, step by step, the bytes that truncation produces:
//! cut the frame after the first 24 payload bytes, rewrite the IP length field
//! (IPv4: then recompute the header checksum), rewrite the UDP length, and recompute
//! the TCP/UDP checksum over the pseudo-header and the shortened segment.

use vstd::prelude::*;
use crate::checksum::{
    internet_checksum, transport_checksum_ipv4, transport_checksum_ipv6, udp_checksum_wire,
    inet_csum, transport_csum_v4, transport_csum_v6, udp_wire, put16, lemma_word_sum_bound,
    lemma_put16_index, lemma_put16_window, lemma_put16_outside, lemma_put16_read,
    law_checksum_verifies, law_transport_v4_checksum_verifies, law_transport_v6_checksum_verifies,
};
use crate::parse::{
    L4Info, L4Proto, ParsedFrame, FrameLayout, frame_layout, layout_sound, payload_spec, be16,
    pseudo_dst_spec,
    ipv4_pseudo_dst, parse_frame, lemma_frame_layout_sound, lemma_pseudo_dst_local,
    lemma_pseudo_dst_len, l2_spec, ipv4_spec, ipv6_spec, tcp_spec, udp_spec, min_int,
    payload_len_spec, lemma_vlan_walk_lower, lemma_vlan_walk_agree, lemma_ipv6_walk_agree,
};
use crate::policy::TRUNCATE_PAYLOAD_BYTES;

verus! {

/// The checksum that a transport segment gets for the addresses in `b`.
pub open spec fn transport_csum_for(b: Seq<u8>, lay: FrameLayout, proto: u8, seg: Seq<u8>) -> int {
    let ip = lay.ip_start as int;
    if lay.is_ipv6 {
        transport_csum_v6(b.subrange(ip + 8, ip + 24), b.subrange(ip + 24, ip + 40), proto, seg)
    } else {
        transport_csum_v4(
            b.subrange(ip + 12, ip + 16),
            pseudo_dst_spec(b, ip, lay.ip_header_len as int),
            proto,
            seg,
        )
    }
}

/// IPv4 header with its checksum field recomputed.
pub open spec fn with_ipv4_header_csum(b: Seq<u8>, ip: int, hl: int) -> Seq<u8> {
    let z = put16(b, ip + 10, 0);
    put16(z, ip + 10, inet_csum(z.subrange(ip, ip + hl)))
}

/// TCP segment (to the end of the frame) with its checksum recomputed.
pub open spec fn with_tcp_csum(b: Seq<u8>, lay: FrameLayout, hs: int) -> Seq<u8> {
    let z = put16(b, hs + 16, 0);
    put16(z, hs + 16, transport_csum_for(z, lay, 6, z.skip(hs)))
}

/// UDP datagram of `udp_len` bytes with its checksum recomputed (wire form).
pub open spec fn with_udp_csum(b: Seq<u8>, lay: FrameLayout, hs: int, udp_len: int) -> Seq<u8> {
    let z = put16(b, hs + 6, 0);
    put16(z, hs + 6, udp_wire(transport_csum_for(z, lay, 17, z.subrange(hs, hs + udp_len))))
}

/// Truncation applies: there is an L4 header and more than 24 payload bytes.
pub open spec fn truncation_applies(f: Seq<u8>, lay: FrameLayout) -> bool {
    match lay.l4 {
        None => false,
        Some(l4) => payload_spec(f, lay).len() > 24 && l4.payload_start + 24 < f.len(),
    }
}

/// The frame after truncating its L4 payload to 24 bytes.
pub open spec fn truncated_frame(f: Seq<u8>, lay: FrameLayout) -> Seq<u8> {
    let l4 = lay.l4.unwrap();
    let ip = lay.ip_start as int;
    let hl = lay.ip_header_len as int;
    let hs = l4.header_start as int;
    let end = l4.payload_start + 24;
    let cut = f.take(end);
    let total = end - ip;
    let with_ip = if lay.is_ipv6 {
        put16(cut, ip + 4, total - hl)
    } else {
        with_ipv4_header_csum(put16(cut, ip + 2, total), ip, hl)
    };
    match l4.proto {
        L4Proto::Tcp => with_tcp_csum(with_ip, lay, hs),
        L4Proto::Udp => {
            let udp_len = l4.header_len + 24;
            with_udp_csum(put16(with_ip, hs + 4, udp_len), lay, hs, udp_len)
        },
    }
}

/// The frame a truncation step leaves: truncated when it applies, else unchanged.
pub open spec fn truncate_outcome(f: Seq<u8>, lay: FrameLayout) -> Seq<u8> {
    if truncation_applies(f, lay) {
        truncated_frame(f, lay)
    } else {
        f
    }
}

/// Truncation keeps the headers and the first 24 payload bytes' worth of length.
pub proof fn lemma_truncated_len(f: Seq<u8>)
    requires
        f.len() >= 14,
        f.len() <= usize::MAX,
        truncation_applies(f, frame_layout(f)),
    ensures
        truncated_frame(f, frame_layout(f)).len() == frame_layout(f).l4.unwrap().payload_start + 24,
        truncated_frame(f, frame_layout(f)).len() < f.len(),
{
    lemma_frame_layout_sound(f);
}


// ---------------------------------------------------------------------------
// Laws
// ---------------------------------------------------------------------------
/// The bytes that truncation rewrites: the IP length field (and, for IPv4, the header
/// checksum), the UDP length field, and the TCP/UDP checksum.
pub open spec fn rewritten_field(lay: FrameLayout, i: int) -> bool {
    let ip = lay.ip_start as int;
    let l4 = lay.l4.unwrap();
    let hs = l4.header_start as int;
    ||| (lay.is_ipv6 && (i == ip + 4 || i == ip + 5))
    ||| (!lay.is_ipv6 && (i == ip + 2 || i == ip + 3 || i == ip + 10 || i == ip + 11))
    ||| (l4.proto == L4Proto::Tcp && (i == hs + 16 || i == hs + 17))
    ||| (l4.proto == L4Proto::Udp && hs + 4 <= i < hs + 8)
}

/// The transport-header bytes that truncation rewrites: the TCP checksum, or the UDP
/// length and checksum.
pub open spec fn l4_field(lay: FrameLayout, i: int) -> bool {
    let l4 = lay.l4.unwrap();
    let hs = l4.header_start as int;
    ||| (l4.proto == L4Proto::Tcp && (i == hs + 16 || i == hs + 17))
    ||| (l4.proto == L4Proto::Udp && hs + 4 <= i < hs + 8)
}

/// The IP stage of truncation: the frame cut after 24 payload bytes, with the IP length
/// field (and, for IPv4, the header checksum) rewritten.
pub open spec fn with_ip_fields(f: Seq<u8>, lay: FrameLayout) -> Seq<u8> {
    let l4 = lay.l4.unwrap();
    let ip = lay.ip_start as int;
    let hl = lay.ip_header_len as int;
    let end = l4.payload_start + 24;
    let cut = f.take(end);
    if lay.is_ipv6 {
        put16(cut, ip + 4, end - ip - hl)
    } else {
        with_ipv4_header_csum(put16(cut, ip + 2, end - ip), ip, hl)
    }
}

/// The L4 stage of truncation applied to `b`.
pub open spec fn with_l4_fields(b: Seq<u8>, lay: FrameLayout) -> Seq<u8> {
    let l4 = lay.l4.unwrap();
    let hs = l4.header_start as int;
    match l4.proto {
        L4Proto::Tcp => with_tcp_csum(b, lay, hs),
        L4Proto::Udp => {
            let udp_len = l4.header_len + 24;
            with_udp_csum(put16(b, hs + 4, udp_len), lay, hs, udp_len)
        },
    }
}

proof fn lemma_truncated_stages(f: Seq<u8>, lay: FrameLayout)
    requires
        lay.l4 is Some,
    ensures
        truncated_frame(f, lay) == with_l4_fields(with_ip_fields(f, lay), lay),
{
}

/// A sound layout whose payload is longer than 24 bytes.
pub open spec fn truncatable(f: Seq<u8>, lay: FrameLayout) -> bool {
    &&& layout_sound(f, lay)
    &&& lay.l4 is Some
    &&& lay.l4.unwrap().payload_start + 24 < f.len()
}

proof fn lemma_ip_stage(f: Seq<u8>, lay: FrameLayout)
    requires
        truncatable(f, lay),
    ensures
        ({
            let l4 = lay.l4.unwrap();
            let ip = lay.ip_start as int;
            let w = with_ip_fields(f, lay);
            &&& w.len() == l4.payload_start + 24
            &&& forall|i: int|
                0 <= i < w.len() && !rewritten_field(lay, i) ==> #[trigger] w[i] == f[i]
            &&& lay.is_ipv6 ==> be16(w, ip + 4) == (w.len() - ip - 40) % 65536
            &&& !lay.is_ipv6 ==> be16(w, ip + 2) == (w.len() - ip) % 65536
        }),
{
    let l4 = lay.l4.unwrap();
    let ip = lay.ip_start as int;
    let hl = lay.ip_header_len as int;
    let end = l4.payload_start + 24;
    let cut = f.take(end);
    let w = with_ip_fields(f, lay);
    if lay.is_ipv6 {
        lemma_put16_read(cut, ip + 4, end - ip - hl);
        assert forall|i: int|
            0 <= i < w.len() && !rewritten_field(lay, i) implies #[trigger] w[i] == f[i] by {
            lemma_put16_index(cut, ip + 4, end - ip - hl, i);
        }
    } else {
        let a = put16(cut, ip + 2, end - ip);
        let z = put16(a, ip + 10, 0);
        let c = inet_csum(z.subrange(ip, ip + hl));
        lemma_put16_read(cut, ip + 2, end - ip);
        assert forall|i: int|
            0 <= i < w.len() && !rewritten_field(lay, i) implies #[trigger] w[i] == f[i] by {
            lemma_put16_index(cut, ip + 2, end - ip, i);
            lemma_put16_index(a, ip + 10, 0, i);
            lemma_put16_index(z, ip + 10, c, i);
        }
        lemma_put16_index(a, ip + 10, 0, ip + 2);
        lemma_put16_index(a, ip + 10, 0, ip + 3);
        lemma_put16_index(z, ip + 10, c, ip + 2);
        lemma_put16_index(z, ip + 10, c, ip + 3);
    }
}

proof fn lemma_l4_stage(w: Seq<u8>, lay: FrameLayout)
    requires
        lay.l4 is Some,
        lay.l4.unwrap().header_start + lay.l4.unwrap().header_len + 24 == w.len(),
        lay.l4.unwrap().proto == L4Proto::Tcp ==> lay.l4.unwrap().header_len >= 20,
        lay.l4.unwrap().proto == L4Proto::Udp ==> lay.l4.unwrap().header_len == 8,
    ensures
        ({
            let l4 = lay.l4.unwrap();
            let hs = l4.header_start as int;
            let r = with_l4_fields(w, lay);
            &&& r.len() == w.len()
            &&& forall|i: int|
                0 <= i < r.len() && !rewritten_field(lay, i) ==> #[trigger] r[i] == w[i]
            &&& forall|i: int|
                0 <= i < hs ==> #[trigger] r[i] == w[i]
            &&& forall|i: int|
                0 <= i < r.len() && !l4_field(lay, i) ==> #[trigger] r[i] == w[i]
            &&& l4.proto == L4Proto::Udp ==> be16(r, hs + 4) == l4.header_len + 24
        }),
{
    let l4 = lay.l4.unwrap();
    let hs = l4.header_start as int;
    match l4.proto {
        L4Proto::Tcp => {
            let z = put16(w, hs + 16, 0);
            let c = transport_csum_for(z, lay, 6, z.skip(hs));
            assert forall|i: int| 0 <= i < w.len() && i != hs + 16 && i != hs + 17 implies #[trigger] with_l4_fields(w, lay)[i] == w[i] by {
                lemma_put16_index(w, hs + 16, 0, i);
                lemma_put16_index(z, hs + 16, c, i);
            }
        },
        L4Proto::Udp => {
            let udp_len = l4.header_len + 24;
            let u = put16(w, hs + 4, udp_len);
            let z = put16(u, hs + 6, 0);
            let c = udp_wire(transport_csum_for(z, lay, 17, z.subrange(hs, hs + udp_len)));
            assert forall|i: int| 0 <= i < w.len() && !(hs + 4 <= i < hs + 8) implies #[trigger] with_l4_fields(w, lay)[i] == w[i] by {
                lemma_put16_index(w, hs + 4, udp_len, i);
                lemma_put16_index(u, hs + 6, 0, i);
                lemma_put16_index(z, hs + 6, c, i);
            }
            lemma_put16_read(w, hs + 4, udp_len);
            lemma_put16_index(u, hs + 6, 0, hs + 4);
            lemma_put16_index(u, hs + 6, 0, hs + 5);
            lemma_put16_index(z, hs + 6, c, hs + 4);
            lemma_put16_index(z, hs + 6, c, hs + 5);
        },
    }
}

/// Truncation keeps the frame up to the first 24 payload bytes, byte for byte, except
/// the rewritten length and checksum fields; the length fields describe the new frame.
/// The 24 payload bytes are kept unless the IPv4 header checksum field lies inside them
/// (an IPv4 header length of zero under a UDP header).
pub proof fn law_truncation_keeps_prefix(f: Seq<u8>, lay: FrameLayout)
    requires
        truncatable(f, lay),
    ensures
        ({
            let l4 = lay.l4.unwrap();
            let ip = lay.ip_start as int;
            let hs = l4.header_start as int;
            let r = truncated_frame(f, lay);
            &&& r.len() == l4.payload_start + 24
            &&& forall|i: int| 0 <= i < r.len() && !rewritten_field(lay, i) ==> r[i] == f[i]
            &&& (lay.is_ipv6 || l4.payload_start >= ip + 12) ==> r.subrange(
                l4.payload_start as int,
                r.len() as int,
            ) == f.subrange(l4.payload_start as int, l4.payload_start + 24)
            &&& lay.is_ipv6 ==> be16(r, ip + 4) == (r.len() - ip - 40) % 65536
            &&& !lay.is_ipv6 ==> be16(r, ip + 2) == (r.len() - ip) % 65536
            &&& l4.proto == L4Proto::Udp ==> be16(r, hs + 4) == l4.header_len + 24
        }),
{
    let l4 = lay.l4.unwrap();
    let ip = lay.ip_start as int;
    let hs = l4.header_start as int;
    lemma_truncated_stages(f, lay);
    lemma_ip_stage(f, lay);
    let w = with_ip_fields(f, lay);
    lemma_l4_stage(w, lay);
    let r = truncated_frame(f, lay);
    assert forall|i: int| 0 <= i < r.len() && !rewritten_field(lay, i) implies r[i] == f[i] by {
        assert(r[i] == w[i]);
        assert(w[i] == f[i]);
    }
    if lay.is_ipv6 || l4.payload_start >= ip + 12 {
        assert forall|i: int| l4.payload_start <= i < r.len() implies !rewritten_field(lay, i) by {}
        assert(r.subrange(l4.payload_start as int, r.len() as int) =~= f.subrange(
            l4.payload_start as int,
            l4.payload_start + 24,
        ));
    }
    if lay.is_ipv6 {
        assert(r[ip + 4] == w[ip + 4] && r[ip + 5] == w[ip + 5]);
    } else {
        assert(!l4_field(lay, ip + 2) && !l4_field(lay, ip + 3));
        assert(r[ip + 2] == w[ip + 2] && r[ip + 3] == w[ip + 3]);
    }
}

/// What re-parsing a truncated frame needs of it: its length, the bytes it keeps, and
/// its rewritten IP length field.
pub open spec fn reparse_facts(f: Seq<u8>, r: Seq<u8>, lay: FrameLayout) -> bool {
    let ip = lay.ip_start as int;
    &&& r.len() == lay.l4.unwrap().payload_start + 24
    &&& forall|i: int| 0 <= i < r.len() && !rewritten_field(lay, i) ==> #[trigger] r[i] == f[i]
    &&& lay.is_ipv6 ==> be16(r, ip + 4) == (r.len() - ip - 40) % 65536
    &&& !lay.is_ipv6 ==> be16(r, ip + 2) == (r.len() - ip) % 65536
}

proof fn lemma_reparse_l2(f: Seq<u8>, r: Seq<u8>, lay: FrameLayout)
    requires
        14 <= f.len() <= usize::MAX,
        lay == frame_layout(f),
        lay.l4 is Some,
        layout_sound(f, lay),
        reparse_facts(f, r, lay),
    ensures
        l2_spec(r) == l2_spec(f),
        l2_spec(f) matches Some((et, l3)) && l3 == lay.ip_start && (lay.is_ipv6 <==> et == 0x86dd)
            && (!lay.is_ipv6 <==> et == 0x0800),
        r[lay.ip_start as int] == f[lay.ip_start as int],
{
    let ip = lay.ip_start as int;
    lemma_vlan_walk_lower(f, 12);
    assert forall|i: int| 12 <= i < ip implies #[trigger] r[i] == f[i] by {
        assert(!rewritten_field(lay, i));
    }
    lemma_vlan_walk_agree(f, r, 12);
    assert(!rewritten_field(lay, ip));
}

#[verifier::rlimit(40)]
proof fn lemma_reparse_ipv4(f: Seq<u8>, r: Seq<u8>, lay: FrameLayout)
    requires
        14 <= f.len() <= usize::MAX,
        lay == frame_layout(f),
        lay.l4 is Some,
        !lay.is_ipv6,
        lay.ip_header_len >= 20,
        layout_sound(f, lay),
        reparse_facts(f, r, lay),
    ensures
        frame_layout(r) == lay,
        lay.l4.unwrap().header_start == lay.ip_start + lay.ip_header_len,
{
    let l4 = lay.l4.unwrap();
    let ip = lay.ip_start as int;
    let hl = lay.ip_header_len as int;
    let hs = l4.header_start as int;
    let p = l4.payload_start as int;
    lemma_reparse_l2(f, r, lay);
    assert(lay == ipv4_spec(f, ip));
    assert(hs == ip + hl);
    assert(!rewritten_field(lay, ip + 9));
    assert(r[ip + 9] == f[ip + 9]);
    assert(be16(r, ip + 2) == p + 24 - ip);
    assert forall|i: int| hs <= i < hs + 4 implies #[trigger] r[i] == f[i] by {
        assert(!rewritten_field(lay, i));
    }
    assert(r[hs] == f[hs] && r[hs + 1] == f[hs + 1] && r[hs + 2] == f[hs + 2] && r[hs + 3]
        == f[hs + 3]);
    if l4.proto == L4Proto::Tcp {
        assert(!rewritten_field(lay, hs + 12));
        assert(r[hs + 12] == f[hs + 12]);
        assert(tcp_spec(r, hs, p + 24 - ip - hl) == lay.l4);
    } else {
        assert(udp_spec(r, hs, p + 24 - ip - hl) == lay.l4);
    }
    assert(ipv4_spec(r, ip) == lay);
}

#[verifier::rlimit(40)]
proof fn lemma_reparse_ipv6(f: Seq<u8>, r: Seq<u8>, lay: FrameLayout)
    requires
        14 <= f.len() <= usize::MAX,
        lay == frame_layout(f),
        lay.l4 is Some,
        lay.is_ipv6,
        layout_sound(f, lay),
        payload_spec(f, lay).len() > 24,
        reparse_facts(f, r, lay),
    ensures
        frame_layout(r) == lay,
        r.len() - lay.ip_start - 40 < 65536,
{
    let l4 = lay.l4.unwrap();
    let ip = lay.ip_start as int;
    let hs = l4.header_start as int;
    let p = l4.payload_start as int;
    lemma_reparse_l2(f, r, lay);
    assert(lay == ipv6_spec(f, ip));
    let end_f = min_int(ip + 40 + be16(f, ip + 4), f.len() as int);
    assert(!rewritten_field(lay, ip + 6));
    assert(r[ip + 6] == f[ip + 6]);
    assert(payload_len_spec(f, lay) > 24);
    assert(be16(r, ip + 4) == p + 24 - ip - 40);
    assert forall|i: int| ip + 40 <= i < hs + 4 implies #[trigger] r[i] == f[i] by {
        assert(!rewritten_field(lay, i));
    }
    if l4.proto == L4Proto::Tcp {
        assert(!rewritten_field(lay, hs + 12));
        assert(r[hs + 12] == f[hs + 12]);
    }
    lemma_ipv6_walk_agree(f, r, f[ip + 6], ip + 40, end_f, p + 24);
    assert(ipv6_spec(r, ip) == lay);
}

proof fn lemma_reparse_payload(f: Seq<u8>, r: Seq<u8>, lay: FrameLayout)
    requires
        lay.l4 is Some,
        layout_sound(f, lay),
        lay.is_ipv6 || lay.ip_header_len >= 20,
        lay.is_ipv6 || lay.l4.unwrap().header_start == lay.ip_start + lay.ip_header_len,
        reparse_facts(f, r, lay),
        lay.l4.unwrap().payload_start + 24 < f.len(),
        lay.is_ipv6 ==> r.len() - lay.ip_start - 40 < 65536,
    ensures
        ({
            let p = lay.l4.unwrap().payload_start as int;
            &&& payload_spec(r, lay) == f.subrange(p, p + 24)
            &&& !truncation_applies(r, lay)
            &&& truncate_outcome(r, lay) == r
        }),
{
    let l4 = lay.l4.unwrap();
    let p = l4.payload_start as int;
    let ip = lay.ip_start as int;
    assert(payload_len_spec(r, lay) == 24);
    assert forall|i: int| p <= i < p + 24 implies #[trigger] r[i] == f[i] by {
        assert(!rewritten_field(lay, i));
    }
    assert(payload_spec(r, lay) =~= f.subrange(p, p + 24));
}

/// Re-parsing a truncated IPv4 frame whose header is shorter than 20 bytes: the rewritten
/// fields may land on the protocol byte or the ports, but any transport header found
/// starts its payload where the kept 24 bytes start.
#[verifier::rlimit(40)]
proof fn lemma_reparse_short_ipv4(f: Seq<u8>, r: Seq<u8>, lay: FrameLayout)
    requires
        14 <= f.len() <= usize::MAX,
        lay == frame_layout(f),
        lay.l4 is Some,
        !lay.is_ipv6,
        layout_sound(f, lay),
        reparse_facts(f, r, lay),
        lay.l4.unwrap().proto == L4Proto::Udp ==> be16(
            r,
            lay.l4.unwrap().header_start + 4,
        ) == lay.l4.unwrap().header_len + 24,
    ensures
        frame_layout(r).l4 matches Some(l4r) ==> l4r.payload_start == lay.l4.unwrap().payload_start,
{
    let l4 = lay.l4.unwrap();
    let ip = lay.ip_start as int;
    let hl = lay.ip_header_len as int;
    let hs = l4.header_start as int;
    lemma_reparse_l2(f, r, lay);
    assert(lay == ipv4_spec(f, ip));
    assert(hs == ip + hl);
    assert(frame_layout(r) == ipv4_spec(r, ip));
    if l4.proto == L4Proto::Tcp {
        assert(f[ip + 9] == 6);
        assert(!rewritten_field(lay, ip + 9));
        assert(r[ip + 9] == f[ip + 9]);
        assert(!rewritten_field(lay, hs + 12));
        assert(r[hs + 12] == f[hs + 12]);
    } else {
        assert(f[ip + 9] == 17);
        if hs + 5 != ip + 9 {
            assert(!rewritten_field(lay, ip + 9));
            assert(r[ip + 9] == f[ip + 9]);
        } else {
            assert(r[ip + 9] == 32);
        }
    }
}

/// A truncated frame is left unchanged by truncating it again. For IPv6, and for IPv4 with
/// a header of at least 20 bytes, it also parses to the same layout, and its payload is
/// exactly the 24 bytes that were kept. (Below 20 bytes the transport header overlaps the
/// IP header, and the rewritten fields may change the ports or the protocol it reads.)
pub proof fn law_truncated_frame_is_stable(f: Seq<u8>)
    requires
        14 <= f.len() <= usize::MAX,
        truncation_applies(f, frame_layout(f)),
    ensures
        ({
            let lay = frame_layout(f);
            let p = lay.l4.unwrap().payload_start as int;
            let r = truncated_frame(f, lay);
            &&& (lay.is_ipv6 || lay.ip_header_len >= 20) ==> frame_layout(r) == lay
                && payload_spec(r, lay) == f.subrange(p, p + 24)
            &&& !truncation_applies(r, frame_layout(r))
            &&& truncate_outcome(r, frame_layout(r)) == r
        }),
{
    let lay = frame_layout(f);
    let l4 = lay.l4.unwrap();
    let p = l4.payload_start as int;
    let r = truncated_frame(f, lay);
    lemma_frame_layout_sound(f);
    law_truncation_keeps_prefix(f, lay);
    assert(reparse_facts(f, r, lay));
    if lay.is_ipv6 {
        lemma_reparse_ipv6(f, r, lay);
        lemma_reparse_payload(f, r, lay);
    } else if lay.ip_header_len >= 20 {
        lemma_reparse_ipv4(f, r, lay);
        lemma_reparse_payload(f, r, lay);
    } else {
        lemma_reparse_short_ipv4(f, r, lay);
        assert(r.len() == p + 24);
    }
}

/// The checksum a segment gets depends only on the IP header bytes.
proof fn lemma_transport_csum_same_header(b1: Seq<u8>, b2: Seq<u8>, lay: FrameLayout, proto: u8, seg: Seq<u8>, h: int)
    requires
        0 <= lay.ip_start,
        h <= b1.len(),
        h <= b2.len(),
        b1.subrange(0, h) == b2.subrange(0, h),
        lay.is_ipv6 ==> lay.ip_start + 40 <= h,
        !lay.is_ipv6 ==> lay.ip_start + lay.ip_header_len <= h && lay.ip_header_len >= 20,
    ensures
        transport_csum_for(b1, lay, proto, seg) == transport_csum_for(b2, lay, proto, seg),
{
    let ip = lay.ip_start as int;
    let hl = lay.ip_header_len as int;
    if lay.is_ipv6 {
        assert(b1.subrange(ip + 8, ip + 24) =~= b1.subrange(0, h).subrange(ip + 8, ip + 24));
        assert(b2.subrange(ip + 8, ip + 24) =~= b2.subrange(0, h).subrange(ip + 8, ip + 24));
        assert(b1.subrange(ip + 24, ip + 40) =~= b1.subrange(0, h).subrange(ip + 24, ip + 40));
        assert(b2.subrange(ip + 24, ip + 40) =~= b2.subrange(0, h).subrange(ip + 24, ip + 40));
    } else {
        assert(b1.subrange(ip + 12, ip + 16) =~= b1.subrange(0, h).subrange(ip + 12, ip + 16));
        assert(b2.subrange(ip + 12, ip + 16) =~= b2.subrange(0, h).subrange(ip + 12, ip + 16));
        assert(b1.subrange(ip, ip + hl) =~= b1.subrange(0, h).subrange(ip, ip + hl));
        assert(b2.subrange(ip, ip + hl) =~= b2.subrange(0, h).subrange(ip, ip + hl));
        lemma_pseudo_dst_local(b1, b2, ip, hl);
    }
}

/// Writing the checksum that `transport_csum_for` computes over a segment whose checksum
/// word (at `k` inside the segment starting at `hs`) is zero makes the segment check to zero.
proof fn lemma_transport_fill_verifies(z: Seq<u8>, lay: FrameLayout, proto: u8, hs: int, seg_end: int, k: int, w: int)
    requires
        proto > 0,
        0 <= lay.ip_start,
        0 <= hs,
        hs + k + 1 < seg_end <= z.len(),
        0 <= k,
        k % 2 == 0,
        z[hs + k] == 0,
        z[hs + k + 1] == 0,
        lay.is_ipv6 ==> lay.ip_start + 40 <= hs,
        !lay.is_ipv6 ==> lay.ip_start + lay.ip_header_len <= hs && lay.ip_header_len >= 20,
        w == transport_csum_for(z, lay, proto, z.subrange(hs, seg_end)) || w == udp_wire(
            transport_csum_for(z, lay, proto, z.subrange(hs, seg_end)),
        ),
    ensures
        ({
            let r = put16(z, hs + k, w);
            transport_csum_for(r, lay, proto, r.subrange(hs, seg_end)) == 0
        }),
{
    let ip = lay.ip_start as int;
    let hl = lay.ip_header_len as int;
    let r = put16(z, hs + k, w);
    let seg = z.subrange(hs, seg_end);
    lemma_put16_window(z, hs + k, w, hs, seg_end);
    lemma_put16_outside(z, hs + k, w, 0, hs);
    lemma_transport_csum_same_header(r, z, lay, proto, r.subrange(hs, seg_end), hs);
    if lay.is_ipv6 {
        law_transport_v6_checksum_verifies(
            z.subrange(ip + 8, ip + 24),
            z.subrange(ip + 24, ip + 40),
            proto,
            seg,
            k,
            w,
        );
    } else {
        lemma_pseudo_dst_len(z, ip, hl);
        law_transport_v4_checksum_verifies(
            z.subrange(ip + 12, ip + 16),
            pseudo_dst_spec(z, ip, hl),
            proto,
            seg,
            k,
            w,
        );
    }
}

/// After truncation the frame's checksums verify: the IPv4 header checksum and the
/// TCP/UDP checksum over the pseudo-header and the shortened segment.
/// (For IPv4 it assumes a header of at least 20 bytes.)
pub proof fn law_truncated_checksums_verify(f: Seq<u8>, lay: FrameLayout)
    requires
        truncatable(f, lay),
        lay.is_ipv6 || lay.ip_header_len >= 20,
    ensures
        ({
            let l4 = lay.l4.unwrap();
            let ip = lay.ip_start as int;
            let hl = lay.ip_header_len as int;
            let hs = l4.header_start as int;
            let r = truncated_frame(f, lay);
            &&& !lay.is_ipv6 ==> inet_csum(r.subrange(ip, ip + hl)) == 0
            &&& l4.proto == L4Proto::Tcp ==> transport_csum_for(r, lay, 6, r.skip(hs)) == 0
            &&& l4.proto == L4Proto::Udp ==> transport_csum_for(
                r,
                lay,
                17,
                r.subrange(hs, hs + l4.header_len + 24),
            ) == 0
        }),
{
    let l4 = lay.l4.unwrap();
    let ip = lay.ip_start as int;
    let hl = lay.ip_header_len as int;
    let hs = l4.header_start as int;
    let end = l4.payload_start + 24;
    lemma_truncated_stages(f, lay);
    lemma_ip_stage(f, lay);
    let w = with_ip_fields(f, lay);
    lemma_l4_stage(w, lay);
    let r = truncated_frame(f, lay);
    if !lay.is_ipv6 {
        let cut = f.take(end);
        let a = put16(cut, ip + 2, end - ip);
        let z1 = put16(a, ip + 10, 0);
        let c = inet_csum(z1.subrange(ip, ip + hl));
        lemma_put16_window(z1, ip + 10, c, ip, ip + hl);
        law_checksum_verifies(z1.subrange(ip, ip + hl), 10);
        assert(r.subrange(ip, ip + hl) =~= w.subrange(ip, ip + hl));
    }
    match l4.proto {
        L4Proto::Tcp => {
            let z = put16(w, hs + 16, 0);
            let c = transport_csum_for(z, lay, 6, z.skip(hs));
            assert(z.skip(hs) =~= z.subrange(hs, end));
            lemma_transport_fill_verifies(z, lay, 6, hs, end, 16, c);
            assert(r.skip(hs) =~= r.subrange(hs, end));
        },
        L4Proto::Udp => {
            let udp_len = l4.header_len + 24;
            let u = put16(w, hs + 4, udp_len);
            let z = put16(u, hs + 6, 0);
            let c = udp_wire(transport_csum_for(z, lay, 17, z.subrange(hs, hs + udp_len)));
            lemma_transport_fill_verifies(z, lay, 17, hs, hs + udp_len, 6, c);
        },
    }
}

/// After truncation the transport checksum verifies under the pseudo-header with the
/// frame's own addresses and the protocol number the segment is: 6 for TCP, 17 for UDP.
/// IPv6 takes source and destination from bytes 8..24 and 24..40 of its header; IPv4 its
/// source from bytes 12..16 and its destination as the pseudo-header destination.
/// (For IPv4 it assumes a header of at least 20 bytes.)
pub proof fn law_truncated_transport_checksum_by_protocol(f: Seq<u8>, lay: FrameLayout)
    requires
        truncatable(f, lay),
        lay.is_ipv6 || lay.ip_header_len >= 20,
    ensures
        ({
            let l4 = lay.l4.unwrap();
            let ip = lay.ip_start as int;
            let hl = lay.ip_header_len as int;
            let hs = l4.header_start as int;
            let r = truncated_frame(f, lay);
            let udp_seg = r.subrange(hs, hs + l4.header_len + 24);
            &&& (lay.is_ipv6 && l4.proto == L4Proto::Tcp) ==> transport_csum_v6(
                r.subrange(ip + 8, ip + 24),
                r.subrange(ip + 24, ip + 40),
                6,
                r.skip(hs),
            ) == 0
            &&& (lay.is_ipv6 && l4.proto == L4Proto::Udp) ==> transport_csum_v6(
                r.subrange(ip + 8, ip + 24),
                r.subrange(ip + 24, ip + 40),
                17,
                udp_seg,
            ) == 0
            &&& (!lay.is_ipv6 && l4.proto == L4Proto::Tcp) ==> transport_csum_v4(
                r.subrange(ip + 12, ip + 16),
                pseudo_dst_spec(r, ip, hl),
                6,
                r.skip(hs),
            ) == 0
            &&& (!lay.is_ipv6 && l4.proto == L4Proto::Udp) ==> transport_csum_v4(
                r.subrange(ip + 12, ip + 16),
                pseudo_dst_spec(r, ip, hl),
                17,
                udp_seg,
            ) == 0
        }),
{
    law_truncated_checksums_verify(f, lay);
}

fn set_be16(buf: &mut Vec<u8>, i: usize, v: usize)
    requires
        i + 1 < old(buf).len(),
    ensures
        final(buf)@ == put16(old(buf)@, i as int, v as int),
{
    buf[i] = ((v / 256) % 256) as u8;
    buf[i + 1] = (v % 256) as u8;
}

fn apply_truncate_fields(
    buf: &mut Vec<u8>,
    ip_start: usize,
    ip_header_len: usize,
    is_ipv6: bool,
    l4: L4Info,
    payload_len: usize,
) -> (truncated: bool)
    requires
        old(buf).len() >= 14,
        frame_layout(old(buf)@) == (FrameLayout { ip_start, ip_header_len, is_ipv6, l4: Some(l4) }),
        payload_len == payload_spec(
            old(buf)@,
            FrameLayout { ip_start, ip_header_len, is_ipv6, l4: Some(l4) },
        ).len(),
    ensures
        ({
            let lay = FrameLayout { ip_start, ip_header_len, is_ipv6, l4: Some(l4) };
            &&& truncated == truncation_applies(old(buf)@, lay)
            &&& final(buf)@ == truncate_outcome(old(buf)@, lay)
        }),
{
    let ghost f = buf@;
    let ghost lay = FrameLayout { ip_start, ip_header_len, is_ipv6, l4: Some(l4) };
    proof {
        assert(f.len() == buf.len());
        lemma_frame_layout_sound(f);
    }
    if payload_len <= TRUNCATE_PAYLOAD_BYTES {
        return false;
    }
    let l4_header_start = l4.header_start;
    let l4_header_len = l4.header_len;
    let payload_start = l4.payload_start;

    let new_payload_end = payload_start + TRUNCATE_PAYLOAD_BYTES;
    if new_payload_end >= buf.len() {
        return false;
    }
    buf.truncate(new_payload_end);
    assert(buf@ == f.take(new_payload_end as int));

    let new_ip_total = buf.len() - ip_start;
    if is_ipv6 {
        let plen = new_ip_total - ip_header_len;
        set_be16(buf, ip_start + 4, plen);
    } else {
        set_be16(buf, ip_start + 2, new_ip_total);
        update_ipv4_header_checksum(buf, ip_start, ip_header_len);
    }
    let ghost with_ip = buf@;
    match l4.proto {
        L4Proto::Tcp => {
            update_tcp_checksum(buf, ip_start, ip_header_len, is_ipv6, l4_header_start, Ghost(lay));
        },
        L4Proto::Udp => {
            let udp_len = l4_header_len + TRUNCATE_PAYLOAD_BYTES;
            set_be16(buf, l4_header_start + 4, udp_len);
            update_udp_checksum(
                buf,
                ip_start,
                ip_header_len,
                is_ipv6,
                l4_header_start,
                udp_len,
                Ghost(lay),
            );
        },
    }
    true
}

/// Truncate using an already-parsed frame (no second parse).
pub fn apply_truncate_on_parsed(buf: &mut Vec<u8>, parsed: &ParsedFrame<'_>) -> (truncated: bool)
    requires
        parsed.is_parse_of(old(buf)@),
    ensures
        truncated == truncation_applies(old(buf)@, parsed.layout()),
        final(buf)@ == truncate_outcome(old(buf)@, parsed.layout()),
{
    let l4 = match parsed.l4 {
        Some(l4) => l4,
        None => {
            return false;
        },
    };
    proof {
        assert(parsed.frame@.len() == parsed.frame.len());
        lemma_frame_layout_sound(parsed.frame@);
    }
    let payload_len = parsed.payload().len();
    apply_truncate_fields(buf, parsed.ip_start, parsed.ip_header_len, parsed.is_ipv6, l4, payload_len)
}

/// Truncate encrypted payload in `buf`. Returns true if the frame was shortened.
pub fn apply_truncate(buf: &mut Vec<u8>) -> (truncated: bool)
    ensures
        old(buf).len() < 14 ==> !truncated && final(buf)@ == old(buf)@,
        old(buf).len() >= 14 ==> truncated == truncation_applies(old(buf)@, frame_layout(old(buf)@))
            && final(buf)@ == truncate_outcome(old(buf)@, frame_layout(old(buf)@)),
{
    let (ip_start, ip_header_len, is_ipv6, l4, payload_len) = {
        let parsed = match parse_frame(buf.as_slice()) {
            Ok(p) => p,
            Err(_) => {
                return false;
            },
        };
        let l4 = match parsed.l4 {
            Some(l4) => l4,
            None => {
                return false;
            },
        };
        proof {
            assert(parsed.frame@.len() == parsed.frame.len());
            lemma_frame_layout_sound(parsed.frame@);
        }
        (parsed.ip_start, parsed.ip_header_len, parsed.is_ipv6, l4, parsed.payload().len())
    };
    apply_truncate_fields(buf, ip_start, ip_header_len, is_ipv6, l4, payload_len)
}

/// Clone + truncate: the frame after truncation (when `truncate` is set and it applies).
pub fn process_frame(frame: &[u8], truncate: bool) -> (r: (Vec<u8>, bool))
    ensures
        !truncate ==> r.0@ == frame@ && !r.1,
        truncate && frame@.len() < 14 ==> r.0@ == frame@ && !r.1,
        truncate && frame@.len() >= 14 ==> r.1 == truncation_applies(frame@, frame_layout(frame@))
            && r.0@ == truncate_outcome(frame@, frame_layout(frame@)),
{
    if !truncate {
        return (vstd::slice::slice_to_vec(frame), false);
    }
    let mut buf = vstd::slice::slice_to_vec(frame);
    if apply_truncate(&mut buf) {
        (buf, true)
    } else {
        (vstd::slice::slice_to_vec(frame), false)
    }
}

fn update_ipv4_header_checksum(buf: &mut Vec<u8>, ip_start: usize, ip_header_len: usize)
    requires
        ip_start + 12 <= old(buf).len(),
        ip_start + ip_header_len <= old(buf).len(),
        ip_header_len <= 60,
    ensures
        final(buf)@ == with_ipv4_header_csum(old(buf)@, ip_start as int, ip_header_len as int),
{
    set_be16(buf, ip_start + 10, 0);
    let ghost z = buf@;
    let header = vstd::slice::slice_subrange(buf.as_slice(), ip_start, ip_start + ip_header_len);
    proof {
        lemma_word_sum_bound(header@);
    }
    let sum = internet_checksum(header);
    set_be16(buf, ip_start + 10, sum as usize);
}

fn read_ip4(buf: &[u8], off: usize) -> (a: [u8; 4])
    requires
        off + 4 <= buf.len(),
    ensures
        a@ == buf@.subrange(off as int, off + 4),
{
    let a = [buf[off], buf[off + 1], buf[off + 2], buf[off + 3]];
    assert(a@ =~= buf@.subrange(off as int, off + 4));
    a
}

fn read_ip6(buf: &[u8], off: usize) -> (a: [u8; 16])
    requires
        off + 16 <= buf.len(),
    ensures
        a@ == buf@.subrange(off as int, off + 16),
{
    let a = [
        buf[off],
        buf[off + 1],
        buf[off + 2],
        buf[off + 3],
        buf[off + 4],
        buf[off + 5],
        buf[off + 6],
        buf[off + 7],
        buf[off + 8],
        buf[off + 9],
        buf[off + 10],
        buf[off + 11],
        buf[off + 12],
        buf[off + 13],
        buf[off + 14],
        buf[off + 15],
    ];
    assert(a@ =~= buf@.subrange(off as int, off + 16));
    a
}

fn update_tcp_checksum(
    buf: &mut Vec<u8>,
    ip_start: usize,
    ip_header_len: usize,
    is_ipv6: bool,
    tcp_start: usize,
    Ghost(lay): Ghost<FrameLayout>,
)
    requires
        lay.ip_start == ip_start,
        lay.ip_header_len == ip_header_len,
        lay.is_ipv6 == is_ipv6,
        tcp_start + 20 <= old(buf).len(),
        old(buf).len() <= tcp_start + 84,
        is_ipv6 ==> ip_start + 40 <= old(buf).len(),
        !is_ipv6 ==> ip_start + 20 <= old(buf).len() && ip_start + ip_header_len <= old(buf).len(),
    ensures
        final(buf)@ == with_tcp_csum(old(buf)@, lay, tcp_start as int),
{
    set_be16(buf, tcp_start + 16, 0);
    let ghost z = buf@;
    let sum = {
        let all = buf.as_slice();
        let segment = vstd::slice::slice_subrange(all, tcp_start, all.len());
        proof {
            lemma_word_sum_bound(segment@);
            assert(segment@ == z.skip(tcp_start as int));
        }
        if is_ipv6 {
            let src = read_ip6(all, ip_start + 8);
            let dst = read_ip6(all, ip_start + 24);
            transport_checksum_ipv6(src, dst, 6, segment)
        } else {
            let src = read_ip4(all, ip_start + 12);
            let dst = ipv4_pseudo_dst(all, ip_start, ip_header_len);
            transport_checksum_ipv4(src, dst, 6, segment)
        }
    };
    set_be16(buf, tcp_start + 16, sum as usize);
}

fn update_udp_checksum(
    buf: &mut Vec<u8>,
    ip_start: usize,
    ip_header_len: usize,
    is_ipv6: bool,
    udp_start: usize,
    udp_len: usize,
    Ghost(lay): Ghost<FrameLayout>,
)
    requires
        lay.ip_start == ip_start,
        lay.ip_header_len == ip_header_len,
        lay.is_ipv6 == is_ipv6,
        udp_start + udp_len <= old(buf).len(),
        8 <= udp_len <= 64,
        is_ipv6 ==> ip_start + 40 <= old(buf).len(),
        !is_ipv6 ==> ip_start + 20 <= old(buf).len() && ip_start + ip_header_len <= old(buf).len(),
    ensures
        final(buf)@ == with_udp_csum(old(buf)@, lay, udp_start as int, udp_len as int),
{
    set_be16(buf, udp_start + 6, 0);
    let ghost z = buf@;
    let sum = {
        let all = buf.as_slice();
        let segment = vstd::slice::slice_subrange(all, udp_start, udp_start + udp_len);
        proof {
            lemma_word_sum_bound(segment@);
        }
        if is_ipv6 {
            let src = read_ip6(all, ip_start + 8);
            let dst = read_ip6(all, ip_start + 24);
            transport_checksum_ipv6(src, dst, 17, segment)
        } else {
            let src = read_ip4(all, ip_start + 12);
            let dst = ipv4_pseudo_dst(all, ip_start, ip_header_len);
            transport_checksum_ipv4(src, dst, 17, segment)
        }
    };
    let wire = udp_checksum_wire(sum);
    set_be16(buf, udp_start + 6, wire as usize);
}

} // verus!
