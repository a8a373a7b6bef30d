//! Shared per-packet slim decision (read path for slim and analyze).

use vstd::prelude::*;
use crate::parse::{parse_frame, frame_layout, lemma_frame_layout_sound, be16, L4Proto};
use crate::policy::{decide_action, decision, decidable, Action};
use crate::truncate::{
    apply_truncate_on_parsed, truncation_applies, truncated_frame, rewritten_field,
    transport_csum_for, law_truncation_keeps_prefix, law_truncated_checksums_verify,
};
use crate::checksum::inet_csum;

verus! {

/// Result of processing one frame — avoids copying on keep.
#[derive(Debug)]
pub enum PacketOutcome {
    Keep,
    Truncated(Vec<u8>),
}

/// Reading this frame's decision inputs stays inside the frame (frames shorter than an
/// Ethernet header are never decided on).
#[verifier::opaque]
pub open spec fn frame_decidable(f: Seq<u8>) -> bool {
    f.len() < 14 || decidable(f, frame_layout(f))
}

/// The frame is truncated: it parses, the decision tree says truncate, and truncation applies.
#[verifier::opaque]
pub open spec fn frame_truncates(f: Seq<u8>) -> bool {
    f.len() >= 14 && decision(f, frame_layout(f)) == Action::Truncate && truncation_applies(
        f,
        frame_layout(f),
    )
}

/// The bytes that slimming writes for a frame.
#[verifier::opaque]
pub open spec fn slim_frame(f: Seq<u8>) -> Seq<u8> {
    if frame_truncates(f) {
        truncated_frame(f, frame_layout(f))
    } else {
        f
    }
}

/// Whether `process_packet` may be given this frame (see `frame_decidable`).
pub fn frame_is_decidable(frame: &[u8]) -> (r: bool)
    ensures
        r == frame_decidable(frame@),
{
    reveal(frame_decidable);
    match parse_frame(frame) {
        Err(_) => true,
        Ok(p) => p.is_ipv6 || (p.ip_start <= frame.len() && frame.len() - p.ip_start >= 8),
    }
}

/// Returns outcome and whether the payload was truncated.
pub fn process_packet(frame: &[u8]) -> (r: (PacketOutcome, bool))
    requires
        frame_decidable(frame@),
    ensures
        r.1 == frame_truncates(frame@),
        match r.0 {
            PacketOutcome::Keep => !r.1 && slim_frame(frame@) == frame@,
            PacketOutcome::Truncated(buf) => r.1 && buf@ == slim_frame(frame@),
        },
{
    reveal(frame_decidable);
    reveal(frame_truncates);
    reveal(slim_frame);
    let parsed = match parse_frame(frame) {
        Ok(p) => p,
        Err(_) => {
            return (PacketOutcome::Keep, false);
        },
    };
    proof {
        assert(frame@.len() == frame.len());
        lemma_frame_layout_sound(frame@);
    }
    match decide_action(&parsed) {
        Action::Keep => (PacketOutcome::Keep, false),
        Action::Truncate => {
            let mut buf = vstd::slice::slice_to_vec(frame);
            if apply_truncate_on_parsed(&mut buf, &parsed) {
                (PacketOutcome::Truncated(buf), true)
            } else {
                (PacketOutcome::Keep, false)
            }
        },
    }
}


/// What slimming does to a frame: a frame that is not truncated is written unchanged; a
/// truncated one keeps its headers and first 24 payload bytes byte for byte, except the
/// length and checksum fields, whose new values describe it and verify. (For IPv4 it
/// assumes a header of at least 20 bytes, below which the transport header overlaps the
/// IP header.)
pub proof fn law_slimmed_frame(f: Seq<u8>)
    requires
        f.len() <= usize::MAX,
        frame_truncates(f) ==> frame_layout(f).is_ipv6 || frame_layout(f).ip_header_len >= 20,
    ensures
        !frame_truncates(f) ==> slim_frame(f) == f,
        frame_truncates(f) ==> ({
            let lay = frame_layout(f);
            let l4 = lay.l4.unwrap();
            let ip = lay.ip_start as int;
            let hl = lay.ip_header_len as int;
            let hs = l4.header_start as int;
            let r = slim_frame(f);
            &&& r.len() == l4.payload_start + 24
            &&& r.len() < f.len()
            &&& forall|i: int| 0 <= i < r.len() && !rewritten_field(lay, i) ==> r[i] == f[i]
            &&& lay.is_ipv6 ==> be16(r, ip + 4) == (r.len() - ip - 40) % 65536
            &&& !lay.is_ipv6 ==> be16(r, ip + 2) == (r.len() - ip) % 65536
            &&& !lay.is_ipv6 ==> inet_csum(r.subrange(ip, ip + hl)) == 0
            &&& l4.proto == L4Proto::Tcp ==> transport_csum_for(r, lay, 6, r.skip(hs)) == 0
            &&& l4.proto == L4Proto::Udp ==> be16(r, hs + 4) == l4.header_len + 24
                && transport_csum_for(r, lay, 17, r.subrange(hs, hs + l4.header_len + 24)) == 0
        }),
{
    reveal(slim_frame);
    reveal(frame_truncates);
    if frame_truncates(f) {
        let lay = frame_layout(f);
        lemma_frame_layout_sound(f);
        law_truncation_keeps_prefix(f, lay);
        law_truncated_checksums_verify(f, lay);
    }
}

} // verus!
