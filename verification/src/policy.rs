//! Per-packet slim decision tree: which packets have their L4 payload truncated.

use vstd::prelude::*;
use crate::parse::{
    L4Proto, ParsedFrame, FrameLayout, be16, payload_spec, ipv6_fragmented, ipv6_fragmented_at,
};

verus! {

pub const TRUNCATE_PAYLOAD_BYTES: usize = 24;

pub const TLS_HANDSHAKE_BYTES: [u8; 4] = [0x14, 0x15, 0x16, 0x18];
pub const TLS_APPLICATION_DATA: u8 = 0x17;

pub const TLS_PORTS: [u16; 7] = [443, 853, 465, 993, 995, 8443, 5061];
pub const QUIC_PORTS: [u16; 1] = [443];
pub const IPSEC_PORTS: [u16; 2] = [500, 4500];
pub const SSH_PORTS: [u16; 1] = [22];

#[derive(Debug, Clone, Copy, PartialEq, Eq, Structural)]
pub enum Action {
    Keep,
    Truncate,
}

/// HTTPS, DoT, SMTPS, IMAPS, POP3S, alt-HTTPS, SIP-TLS.
pub open spec fn tls_port(p: u16) -> bool {
    p == 443 || p == 853 || p == 465 || p == 993 || p == 995 || p == 8443 || p == 5061
}

/// HTTP/3 over UDP/443.
pub open spec fn quic_port(p: u16) -> bool {
    p == 443
}

/// IKE and NAT-T ESP.
pub open spec fn ipsec_port(p: u16) -> bool {
    p == 500 || p == 4500
}

pub open spec fn ssh_port(p: u16) -> bool {
    p == 22
}

/// ChangeCipherSpec, Alert, Handshake, Heartbeat record types.
pub open spec fn tls_handshake_byte(b: u8) -> bool {
    b == 0x14 || b == 0x15 || b == 0x16 || b == 0x18
}

/// The payload begins with the SSH banner prefix `SSH-`.
pub open spec fn starts_with_ssh_banner(p: Seq<u8>) -> bool {
    p.len() >= 4 && p[0] == 0x53 && p[1] == 0x53 && p[2] == 0x48 && p[3] == 0x2d
}

/// Decision for a TCP segment: TLS records other than handshake ones on a TLS port, TLS
/// application data on any other port, and SSH past its banner are truncated.
pub open spec fn tcp_decision(sport: u16, dport: u16, payload: Seq<u8>) -> Action {
    if payload.len() <= 24 {
        Action::Keep
    } else {
        let b0 = payload[0];
        let is_tls_port = tls_port(sport) || tls_port(dport);
        if is_tls_port && !tls_handshake_byte(b0) {
            Action::Truncate
        } else if !is_tls_port && b0 == 0x17 {
            Action::Truncate
        } else if (ssh_port(sport) || ssh_port(dport)) && !starts_with_ssh_banner(payload) {
            Action::Truncate
        } else {
            Action::Keep
        }
    }
}

/// Decision for a UDP datagram.
pub open spec fn udp_decision(sport: u16, dport: u16, payload: Seq<u8>) -> Action {
    if payload.len() <= 24 {
        Action::Keep
    } else if quic_port(sport) || quic_port(dport) || ipsec_port(sport) || ipsec_port(dport) {
        Action::Truncate
    } else {
        Action::Keep
    }
}

/// An IPv4 packet that is a fragment (more-fragments flag or a fragment offset).
pub open spec fn is_ipv4_fragment(f: Seq<u8>, lay: FrameLayout) -> bool {
    !lay.is_ipv6 && be16(f, lay.ip_start + 6) % 16384 != 0
}

/// An IPv6 packet that is a fragment (a Fragment header in its header chain).
pub open spec fn is_ipv6_fragment(f: Seq<u8>, lay: FrameLayout) -> bool {
    lay.is_ipv6 && ipv6_fragmented(f, lay.ip_start as int)
}

/// The per-packet decision tree; IP fragments are left alone.
pub open spec fn decision(f: Seq<u8>, lay: FrameLayout) -> Action {
    if is_ipv4_fragment(f, lay) || is_ipv6_fragment(f, lay) {
        Action::Keep
    } else {
        match lay.l4 {
            None => Action::Keep,
            Some(l4) => match l4.proto {
                L4Proto::Tcp => tcp_decision(l4.sport, l4.dport, payload_spec(f, lay)),
                L4Proto::Udp => udp_decision(l4.sport, l4.dport, payload_spec(f, lay)),
            },
        }
    }
}

/// A TLS port: HTTPS, DoT, SMTPS, IMAPS, POP3S, alt-HTTPS, SIP-TLS (written out as numbers).
pub open spec fn is_listed_tls_port(p: u16) -> bool {
    p == 443 || p == 853 || p == 465 || p == 993 || p == 995 || p == 8443 || p == 5061
}

/// The decision does not depend on which side of the connection a port is on: swapping
/// the source and destination ports gives the same decision, for TCP and for UDP.
pub proof fn law_decision_port_symmetric(sport: u16, dport: u16, payload: Seq<u8>)
    ensures
        tcp_decision(sport, dport, payload) == tcp_decision(dport, sport, payload),
        udp_decision(sport, dport, payload) == udp_decision(dport, sport, payload),
{
}

/// SSH past its banner is truncated whichever side port 22 is on: a TCP payload longer
/// than 24 bytes on a segment with port 22 at either end and no TLS port, whose first
/// byte is not TLS application data (0x17) and which does not start with `SSH-`.
pub proof fn law_ssh_past_banner_truncated(sport: u16, dport: u16, payload: Seq<u8>)
    requires
        payload.len() > 24,
        sport == 22 || dport == 22,
        !is_listed_tls_port(sport) && !is_listed_tls_port(dport),
        !(payload[0] == 0x53 && payload[1] == 0x53 && payload[2] == 0x48 && payload[3] == 0x2d),
    ensures
        tcp_decision(sport, dport, payload) == Action::Truncate,
{
}

/// An SSH banner, a payload of at most 24 bytes, or a segment with no TLS or SSH port and
/// no TLS application-data byte is kept.
pub proof fn law_tcp_kept(sport: u16, dport: u16, payload: Seq<u8>)
    requires
        payload.len() <= 24 || (!is_listed_tls_port(sport) && !is_listed_tls_port(dport)
            && sport != 22 && dport != 22 && payload[0] != 0x17),
    ensures
        tcp_decision(sport, dport, payload) == Action::Keep,
{
}

/// Non-handshake TLS records on a TLS port (at either end) are truncated when the payload
/// is longer than 24 bytes: everything but ChangeCipherSpec, Alert, Handshake, Heartbeat.
pub proof fn law_tls_port_records_truncated(sport: u16, dport: u16, payload: Seq<u8>)
    requires
        payload.len() > 24,
        is_listed_tls_port(sport) || is_listed_tls_port(dport),
        payload[0] != 0x14 && payload[0] != 0x15 && payload[0] != 0x16 && payload[0] != 0x18,
    ensures
        tcp_decision(sport, dport, payload) == Action::Truncate,
{
}

/// QUIC (UDP 443) and IPsec (UDP 500, 4500), at either end, are truncated when the
/// payload is longer than 24 bytes; other UDP traffic is kept.
pub proof fn law_udp_decision(sport: u16, dport: u16, payload: Seq<u8>)
    ensures
        udp_decision(sport, dport, payload) == (if payload.len() > 24 && (sport == 443
            || dport == 443 || sport == 500 || dport == 500 || sport == 4500 || dport == 4500) {
            Action::Truncate
        } else {
            Action::Keep
        }),
{
}

/// The frame bytes that the decision reads are inside the frame: for a non-IPv6
/// layout, the IPv4 flags/fragment word.
pub open spec fn decidable(f: Seq<u8>, lay: FrameLayout) -> bool {
    lay.is_ipv6 || lay.ip_start + 8 <= f.len()
}

pub fn port_in_set(port: u16, set: &[u16]) -> (r: bool)
    ensures
        r == set@.contains(port),
{
    let mut i: usize = 0;
    while i < set.len()
        invariant
            i <= set@.len(),
            forall|j: int| 0 <= j < i ==> set@[j] != port,
        decreases set@.len() - i,
    {
        if set[i] == port {
            return true;
        }
        i += 1;
    }
    false
}

fn byte_in_set(b: u8, set: &[u8]) -> (r: bool)
    ensures
        r == set@.contains(b),
{
    let mut i: usize = 0;
    while i < set.len()
        invariant
            i <= set@.len(),
            forall|j: int| 0 <= j < i ==> set@[j] != b,
        decreases set@.len() - i,
    {
        if set[i] == b {
            return true;
        }
        i += 1;
    }
    false
}

proof fn lemma_port_sets(p: u16)
    ensures
        TLS_PORTS@.contains(p) == tls_port(p),
        QUIC_PORTS@.contains(p) == quic_port(p),
        IPSEC_PORTS@.contains(p) == ipsec_port(p),
        SSH_PORTS@.contains(p) == ssh_port(p),
{
    assert(TLS_PORTS@ =~= seq![443u16, 853, 465, 993, 995, 8443, 5061]);
    assert(QUIC_PORTS@ =~= seq![443u16]);
    assert(IPSEC_PORTS@ =~= seq![500u16, 4500]);
    assert(SSH_PORTS@ =~= seq![22u16]);
    if tls_port(p) {
        if p == 443 {
            assert(TLS_PORTS@[0] == p);
        } else if p == 853 {
            assert(TLS_PORTS@[1] == p);
        } else if p == 465 {
            assert(TLS_PORTS@[2] == p);
        } else if p == 993 {
            assert(TLS_PORTS@[3] == p);
        } else if p == 995 {
            assert(TLS_PORTS@[4] == p);
        } else if p == 8443 {
            assert(TLS_PORTS@[5] == p);
        } else {
            assert(TLS_PORTS@[6] == p);
        }
    }
    if quic_port(p) {
        assert(QUIC_PORTS@[0] == p);
    }
    if ipsec_port(p) {
        if p == 500 {
            assert(IPSEC_PORTS@[0] == p);
        } else {
            assert(IPSEC_PORTS@[1] == p);
        }
    }
    if ssh_port(p) {
        assert(SSH_PORTS@[0] == p);
    }
}

proof fn lemma_handshake_bytes(b: u8)
    ensures
        TLS_HANDSHAKE_BYTES@.contains(b) == tls_handshake_byte(b),
{
    assert(TLS_HANDSHAKE_BYTES@ =~= seq![0x14u8, 0x15, 0x16, 0x18]);
    if tls_handshake_byte(b) {
        if b == 0x14 {
            assert(TLS_HANDSHAKE_BYTES@[0] == b);
        } else if b == 0x15 {
            assert(TLS_HANDSHAKE_BYTES@[1] == b);
        } else if b == 0x16 {
            assert(TLS_HANDSHAKE_BYTES@[2] == b);
        } else {
            assert(TLS_HANDSHAKE_BYTES@[3] == b);
        }
    }
}

/// Decide whether to truncate L4 payload for a parsed frame.
pub fn decide_action(parsed: &ParsedFrame) -> (a: Action)
    requires
        parsed.wf(),
        decidable(parsed.frame@, parsed.layout()),
    ensures
        a == decision(parsed.frame@, parsed.layout()),
{
    if !parsed.is_ipv6 {
        let ip = parsed.ip_start;
        assert(parsed.frame@.len() == parsed.frame.len());
        let flags_frag = parsed.frame[ip + 6] as u16 * 256 + parsed.frame[ip + 7] as u16;
        assert(flags_frag & 0x3fff == flags_frag % 16384) by (bit_vector);
        if flags_frag & 0x3fff != 0 {
            return Action::Keep;
        }
    } else if ipv6_fragmented_at(parsed.frame, parsed.ip_start) {
        return Action::Keep;
    }
    let l4 = match parsed.l4 {
        Some(l4) => l4,
        None => {
            return Action::Keep;
        },
    };
    match l4.proto {
        L4Proto::Tcp => decide_tcp(l4.sport, l4.dport, parsed.payload()),
        L4Proto::Udp => decide_udp(l4.sport, l4.dport, parsed.payload()),
    }
}

fn decide_tcp(sport: u16, dport: u16, payload: &[u8]) -> (a: Action)
    ensures
        a == tcp_decision(sport, dport, payload@),
{
    if payload.is_empty() || payload.len() <= TRUNCATE_PAYLOAD_BYTES {
        return Action::Keep;
    }
    let b0 = payload[0];
    proof {
        lemma_port_sets(sport);
        lemma_port_sets(dport);
        lemma_handshake_bytes(b0);
    }
    let is_tls_port = port_in_set(sport, &TLS_PORTS) || port_in_set(dport, &TLS_PORTS);
    let is_handshake = byte_in_set(b0, &TLS_HANDSHAKE_BYTES);
    if is_tls_port && !is_handshake {
        return Action::Truncate;
    }
    if !is_tls_port && b0 == TLS_APPLICATION_DATA {
        return Action::Truncate;
    }
    let ssh_banner = payload.len() >= 4 && payload[0] == 0x53 && payload[1] == 0x53 && payload[2]
        == 0x48 && payload[3] == 0x2d;
    if (port_in_set(sport, &SSH_PORTS) || port_in_set(dport, &SSH_PORTS)) && !ssh_banner {
        return Action::Truncate;
    }
    Action::Keep
}

fn decide_udp(sport: u16, dport: u16, payload: &[u8]) -> (a: Action)
    ensures
        a == udp_decision(sport, dport, payload@),
{
    if payload.is_empty() || payload.len() <= TRUNCATE_PAYLOAD_BYTES {
        return Action::Keep;
    }
    proof {
        lemma_port_sets(sport);
        lemma_port_sets(dport);
    }
    if port_in_set(sport, &QUIC_PORTS) || port_in_set(dport, &QUIC_PORTS) || port_in_set(
        sport,
        &IPSEC_PORTS,
    ) || port_in_set(dport, &IPSEC_PORTS) {
        return Action::Truncate;
    }
    Action::Keep
}

} // verus!
