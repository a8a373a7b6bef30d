//! libpcap framing: global header, record headers, and the per-record slim step.
//!
//! A pcap file is a 24-byte global header followed by records (16-byte header:
//! `ts_sec`, `ts_usec`, `incl_len`, `orig_len`, then `incl_len` frame bytes). Slimming
//! copies the global header verbatim and, per record, keeps the timestamps and
//! `orig_len`, rewrites `incl_len`, and writes the slimmed frame. A trailing partial
//! record header ends the stream; a record whose body is cut short is an I/O error.
//!
//! The file I/O itself lives with the program; here are the byte-level steps it calls
//! and whole-buffer forms of slim, analyze and count with their laws.

use vstd::prelude::*;
use crate::packet::{process_packet, PacketOutcome, frame_decidable, frame_truncates, slim_frame};
use crate::truncate::lemma_truncated_len;
use crate::parse::frame_layout;

verus! {

pub const PCAP_HDR_LEN: usize = 24;
pub const PCAP_REC_HDR_LEN: usize = 16;
pub const CPU_TICK_INTERVAL: u64 = 64;

pub const MAGIC_LE: u32 = 0xa1b2_c3d4;
pub const MAGIC_BE: u32 = 0xd4c3_b2a1;

pub const PCAPNG_MAGIC: [u8; 4] = [0x0a, 0x0d, 0x0d, 0x0a];

#[verifier::external_type_specification]
#[verifier::external_body]
pub struct ExIoError(std::io::Error);

#[derive(Debug)]
pub enum PcapError {
    Io(std::io::Error),
    Invalid(&'static str),
    Pcapng { path: String },
}

/// Byte order of the 32-bit fields of a pcap file.
#[derive(Clone, Copy, Debug)]
pub struct Endian {
    pub le: bool,
}

#[derive(Debug, Clone, Copy)]
pub struct SlimStats {
    pub in_pkts: u64,
    pub truncated: u64,
    pub kept: u64,
    pub in_bytes: u64,
    pub out_bytes: u64,
}

impl Default for SlimStats {
    fn default() -> (s: Self)
        ensures
            s.in_pkts == 0 && s.truncated == 0 && s.kept == 0 && s.in_bytes == 0 && s.out_bytes
                == 0,
    {
        SlimStats { in_pkts: 0, truncated: 0, kept: 0, in_bytes: 0, out_bytes: 0 }
    }
}

// ---------------------------------------------------------------------------
// The format
// ---------------------------------------------------------------------------
/// 32-bit value at `off` in the given byte order.
pub open spec fn u32_at(s: Seq<u8>, off: int, le: bool) -> nat {
    if le {
        s[off] as nat + 256 * s[off + 1] as nat + 65536 * s[off + 2] as nat + 16777216 * s[off
            + 3] as nat
    } else {
        s[off + 3] as nat + 256 * s[off + 2] as nat + 65536 * s[off + 1] as nat + 16777216 * s[off] as nat
    }
}

/// Encoding of a 32-bit value in the given byte order.
pub open spec fn u32_bytes(v: nat, le: bool) -> Seq<u8> {
    let b0 = (v % 256) as u8;
    let b1 = ((v / 256) % 256) as u8;
    let b2 = ((v / 65536) % 256) as u8;
    let b3 = ((v / 16777216) % 256) as u8;
    if le {
        seq![b0, b1, b2, b3]
    } else {
        seq![b3, b2, b1, b0]
    }
}

pub open spec fn is_pcapng_magic(s: Seq<u8>) -> bool {
    s[0] == 0x0a && s[1] == 0x0d && s[2] == 0x0d && s[3] == 0x0a
}

/// Byte order of a libpcap magic number (`Some(true)`: the `incl_len` etc. fields are little-endian).
pub open spec fn magic_endian(s: Seq<u8>) -> Option<bool> {
    let as_le = u32_at(s, 0, true);
    let as_be = u32_at(s, 0, false);
    if as_le == 0xa1b2c3d4 {
        Some(true)
    } else if as_le == 0xd4c3b2a1 {
        Some(false)
    } else if as_be == 0xa1b2c3d4 {
        Some(true)
    } else if as_be == 0xd4c3b2a1 {
        Some(false)
    } else {
        None
    }
}

/// A record header with `incl_len` replaced.
pub open spec fn out_record_header(rec: Seq<u8>, incl: nat, le: bool) -> Seq<u8> {
    rec.subrange(0, 8) + u32_bytes(incl % 4294967296, le) + rec.subrange(12, 16)
}

/// The output record for an input record header and its frame.
pub open spec fn slim_record_bytes(rec: Seq<u8>, frame: Seq<u8>, le: bool) -> Seq<u8> {
    out_record_header(rec, slim_frame(frame).len(), le) + slim_frame(frame)
}

pub open spec fn truncated_count(frame: Seq<u8>) -> nat {
    if frame_truncates(frame) {
        1
    } else {
        0
    }
}

/// Slimming of the record stream `b` (the bytes after the global header):
/// output bytes, number of records, number of truncated frames; `None` on a cut-short body.
#[verifier::opaque]
pub open spec fn slim_body(b: Seq<u8>, le: bool) -> Option<(Seq<u8>, nat, nat)>
    decreases b.len(),
{
    if b.len() < 16 {
        Some((Seq::empty(), 0, 0))
    } else {
        let incl = u32_at(b, 8, le) as int;
        if b.len() - 16 < incl {
            None
        } else {
            let frame = b.subrange(16, 16 + incl);
            match slim_body(b.skip(16 + incl), le) {
                None => None,
                Some((rest, n, t)) => Some(
                    (
                        slim_record_bytes(b.subrange(0, 16), frame, le) + rest,
                        n + 1,
                        t + truncated_count(frame),
                    ),
                ),
            }
        }
    }
}

/// Number of records in the record stream `b`; `None` on a cut-short body.
#[verifier::opaque]
pub open spec fn count_body(b: Seq<u8>, le: bool) -> Option<nat>
    decreases b.len(),
{
    if b.len() < 16 {
        Some(0)
    } else {
        let incl = u32_at(b, 8, le) as int;
        if b.len() - 16 < incl {
            None
        } else {
            match count_body(b.skip(16 + incl), le) {
                None => None,
                Some(n) => Some(n + 1),
            }
        }
    }
}

/// Analysis of the record stream: bytes slimming would write for the records,
/// number of records, number of truncated frames.
#[verifier::opaque]
pub open spec fn analyze_body(b: Seq<u8>, le: bool) -> Option<(nat, nat, nat)>
    decreases b.len(),
{
    if b.len() < 16 {
        Some((0, 0, 0))
    } else {
        let incl = u32_at(b, 8, le) as int;
        if b.len() - 16 < incl {
            None
        } else {
            let frame = b.subrange(16, 16 + incl);
            match analyze_body(b.skip(16 + incl), le) {
                None => None,
                Some((bytes, n, t)) => Some(
                    (16 + slim_frame(frame).len() + bytes, n + 1, t + truncated_count(frame)),
                ),
            }
        }
    }
}

/// The records of a record stream, in order: each one's 16-byte header and its frame;
/// `None` on a cut-short body.
pub open spec fn records(b: Seq<u8>, le: bool) -> Option<Seq<(Seq<u8>, Seq<u8>)>>
    decreases b.len(),
{
    if b.len() < 16 {
        Some(Seq::empty())
    } else {
        let incl = u32_at(b, 8, le) as int;
        if b.len() - 16 < incl {
            None
        } else {
            match records(b.skip(16 + incl), le) {
                None => None,
                Some(rest) => Some(seq![(b.subrange(0, 16), b.subrange(16, 16 + incl))] + rest),
            }
        }
    }
}

/// Every complete record's frame can be decided on (see `frame_decidable`).
#[verifier::opaque]
pub open spec fn body_decidable(b: Seq<u8>, le: bool) -> bool
    decreases b.len(),
{
    if b.len() < 16 {
        true
    } else {
        let incl = u32_at(b, 8, le) as int;
        if b.len() - 16 < incl {
            true
        } else {
            frame_decidable(b.subrange(16, 16 + incl)) && body_decidable(b.skip(16 + incl), le)
        }
    }
}

/// The input may be given to the whole-file functions: frames of a libpcap file are decidable.
pub open spec fn pcap_decidable(s: Seq<u8>) -> bool {
    s.len() >= 24 ==> (magic_endian(s) matches Some(le) ==> body_decidable(s.skip(24), le))
}

/// Which error a bad global header gives (`None`: the header is good).
pub open spec fn header_error_kind(s: Seq<u8>) -> Option<int> {
    if s.len() < 24 {
        Some(0)
    } else if is_pcapng_magic(s) {
        Some(1)
    } else if magic_endian(s) is None {
        Some(2)
    } else {
        None
    }
}

pub open spec fn header_error_matches(s: Seq<u8>, path: Seq<char>, e: PcapError) -> bool {
    match e {
        PcapError::Invalid(m) => (header_error_kind(s) == Some(0int) && m@
            == "file too short for pcap header"@) || (header_error_kind(s) == Some(2int) && m@
            == "unknown pcap magic"@),
        PcapError::Pcapng { path: p } => header_error_kind(s) == Some(1int) && p@ == path,
        PcapError::Io(_) => false,
    }
}

// ---------------------------------------------------------------------------
// Executable steps
// ---------------------------------------------------------------------------
impl Endian {
    pub fn read_u32(&self, buf: &[u8]) -> (v: u32)
        requires
            buf.len() == 4,
        ensures
            v as nat == u32_at(buf@, 0, self.le),
    {
        if self.le {
            buf[0] as u32 + 256 * buf[1] as u32 + 65536 * buf[2] as u32 + 16777216 * buf[3] as u32
        } else {
            buf[3] as u32 + 256 * buf[2] as u32 + 65536 * buf[1] as u32 + 16777216 * buf[0] as u32
        }
    }

    /// Append the encoding of `v`.
    pub fn write_u32(&self, out: &mut Vec<u8>, v: u32)
        ensures
            final(out)@ == old(out)@ + u32_bytes(v as nat, self.le),
    {
        let b0 = (v % 256) as u8;
        let b1 = ((v / 256) % 256) as u8;
        let b2 = ((v / 65536) % 256) as u8;
        let b3 = ((v / 16777216) % 256) as u8;
        if self.le {
            out.push(b0);
            out.push(b1);
            out.push(b2);
            out.push(b3);
        } else {
            out.push(b3);
            out.push(b2);
            out.push(b1);
            out.push(b0);
        }
    }
}

pub(crate) fn append_bytes(out: &mut Vec<u8>, s: &[u8])
    ensures
        final(out)@ == old(out)@ + s@,
{
    let mut i: usize = 0;
    while i < s.len()
        invariant
            i <= s.len(),
            out@ == old(out)@ + s@.subrange(0, i as int),
        decreases s.len() - i,
    {
        out.push(s[i]);
        i += 1;
        assert(out@ =~= old(out)@ + s@.subrange(0, i as int));
    }
    assert(s@.subrange(0, s@.len() as int) =~= s@);
}

/// Projected output file size after slimming (global header + record headers + frames).
pub fn projected_file_size(global_hdr_len: u64, per_packet_out: u64) -> (n: u64)
    requires
        global_hdr_len + per_packet_out <= u64::MAX,
    ensures
        n == global_hdr_len + per_packet_out,
{
    global_hdr_len + per_packet_out
}

/// Whether the CPU governor samples after this many packets.
pub fn cpu_tick_due(pkt_index: u64) -> (due: bool)
    ensures
        due == (pkt_index > 0 && pkt_index % 64 == 0),
{
    pkt_index > 0 && pkt_index % CPU_TICK_INTERVAL == 0
}

/// Check that `magic` is a libpcap magic number (either byte order): pcapng input is
/// rejected with a message naming `path`, any other magic as unknown.
pub fn check_magic_bytes(magic: &[u8], path: &str) -> (r: Result<(), PcapError>)
    requires
        magic.len() >= 4,
    ensures
        r is Ok <==> magic_endian(magic@) is Some,
        is_pcapng_magic(magic@) ==> (r matches Err(PcapError::Pcapng { path: p }) && p@ == path@),
        !is_pcapng_magic(magic@) && magic_endian(magic@) is None ==> (r matches Err(
            PcapError::Invalid(m),
        ) && m@ == "unknown pcap magic"@),
{
    if magic[0] == PCAPNG_MAGIC[0] && magic[1] == PCAPNG_MAGIC[1] && magic[2] == PCAPNG_MAGIC[2]
        && magic[3] == PCAPNG_MAGIC[3] {
        return Err(PcapError::Pcapng { path: path.to_owned() });
    }
    match detect_endian(magic) {
        Ok(_) => Ok(()),
        Err(e) => Err(e),
    }
}

/// Byte order from the global header's magic number.
pub fn detect_endian(ghdr: &[u8]) -> (r: Result<Endian, PcapError>)
    requires
        ghdr.len() >= 4,
    ensures
        magic_endian(ghdr@) matches Some(le) ==> (r matches Ok(e) && e.le == le),
        magic_endian(ghdr@) is None ==> (r matches Err(PcapError::Invalid(m)) && m@
            == "unknown pcap magic"@),
{
    let le_reader = Endian { le: true };
    let be_reader = Endian { le: false };
    let first = vstd::slice::slice_subrange(ghdr, 0, 4);
    let magic = le_reader.read_u32(first);
    if magic == MAGIC_LE {
        Ok(Endian { le: true })
    } else if magic == MAGIC_BE {
        Ok(Endian { le: false })
    } else {
        let magic_be = be_reader.read_u32(first);
        if magic_be == MAGIC_LE {
            Ok(Endian { le: true })
        } else if magic_be == MAGIC_BE {
            Ok(Endian { le: false })
        } else {
            Err(PcapError::Invalid("unknown pcap magic"))
        }
    }
}

/// Check the global header (the first bytes that were read; 24 of them when present).
pub fn read_global_header(ghdr: &[u8], path: &str) -> (r: Result<Endian, PcapError>)
    ensures
        header_error_kind(ghdr@) is None ==> (r matches Ok(e) && magic_endian(ghdr@) == Some(e.le)),
        header_error_kind(ghdr@) is Some ==> (r matches Err(e) && header_error_matches(
            ghdr@,
            path@,
            e,
        )),
{
    if ghdr.len() < PCAP_HDR_LEN {
        return Err(PcapError::Invalid("file too short for pcap header"));
    }
    match check_magic_bytes(ghdr, path) {
        Ok(()) => {},
        Err(e) => {
            return Err(e);
        },
    }
    detect_endian(ghdr)
}

/// `incl_len` of a record header.
pub fn record_incl_len(endian: Endian, rec_hdr: &[u8]) -> (n: usize)
    requires
        rec_hdr.len() == 16,
    ensures
        n as nat == u32_at(rec_hdr@, 8, endian.le),
{
    let f = vstd::slice::slice_subrange(rec_hdr, 8, 12);
    endian.read_u32(f) as usize
}

proof fn lemma_slim_frame_len(f: Seq<u8>)
    requires
        f.len() <= usize::MAX,
    ensures
        slim_frame(f).len() <= f.len(),
{
    reveal(slim_frame);
    reveal(frame_truncates);
    if frame_truncates(f) {
        lemma_truncated_len(f);
    }
}

/// Slim one record: append its output record (header with the new `incl_len`, then the
/// frame as slimmed) and count it.
pub fn slim_record(
    endian: Endian,
    rec_hdr: &[u8],
    frame: &[u8],
    stats: &mut SlimStats,
    out: &mut Vec<u8>,
)
    requires
        rec_hdr.len() == 16,
        frame_decidable(frame@),
        old(stats).in_pkts < u64::MAX,
        old(stats).truncated < u64::MAX,
        old(stats).kept < u64::MAX,
    ensures
        final(out)@ == old(out)@ + slim_record_bytes(rec_hdr@, frame@, endian.le),
        final(stats).in_pkts == old(stats).in_pkts + 1,
        final(stats).truncated == old(stats).truncated + truncated_count(frame@),
        final(stats).kept == old(stats).kept + 1 - truncated_count(frame@),
        final(stats).in_bytes == old(stats).in_bytes,
        final(stats).out_bytes == old(stats).out_bytes,
{
    stats.in_pkts = stats.in_pkts + 1;
    let (outcome, was_truncated) = process_packet(frame);
    let frame_out: &[u8] = match &outcome {
        PacketOutcome::Keep => frame,
        PacketOutcome::Truncated(buf) => buf.as_slice(),
    };
    if was_truncated {
        stats.truncated = stats.truncated + 1;
    } else {
        stats.kept = stats.kept + 1;
    }
    let new_incl = ((frame_out.len() as u64) % 4294967296) as u32;
    append_bytes(out, vstd::slice::slice_subrange(rec_hdr, 0, 8));
    endian.write_u32(out, new_incl);
    append_bytes(out, vstd::slice::slice_subrange(rec_hdr, 12, 16));
    append_bytes(out, frame_out);
    assert(out@ =~= old(out)@ + slim_record_bytes(rec_hdr@, frame@, endian.le));
}

/// Analyze one record: count it and add the bytes slimming would write for it.
pub fn analyze_record(frame: &[u8], stats: &mut SlimStats, body_bytes: &mut u64)
    requires
        frame_decidable(frame@),
        old(stats).in_pkts < u64::MAX,
        old(stats).truncated < u64::MAX,
        old(stats).kept < u64::MAX,
        *old(body_bytes) + 16 + frame.len() <= u64::MAX,
    ensures
        *final(body_bytes) == *old(body_bytes) + 16 + slim_frame(frame@).len(),
        final(stats).in_pkts == old(stats).in_pkts + 1,
        final(stats).truncated == old(stats).truncated + truncated_count(frame@),
        final(stats).kept == old(stats).kept + 1 - truncated_count(frame@),
        final(stats).in_bytes == old(stats).in_bytes,
        final(stats).out_bytes == old(stats).out_bytes,
{
    proof {
        lemma_slim_frame_len(frame@);
    }
    stats.in_pkts = stats.in_pkts + 1;
    let (outcome, was_truncated) = process_packet(frame);
    let out_len = match &outcome {
        PacketOutcome::Keep => frame.len(),
        PacketOutcome::Truncated(buf) => buf.len(),
    };
    if was_truncated {
        stats.truncated = stats.truncated + 1;
    } else {
        stats.kept = stats.kept + 1;
    }
    *body_bytes = *body_bytes + PCAP_REC_HDR_LEN as u64 + out_len as u64;
}


// ---------------------------------------------------------------------------
// Whole-file forms
// ---------------------------------------------------------------------------
pub open spec fn combine(
    done: (Seq<u8>, nat, nat),
    rest: Option<(Seq<u8>, nat, nat)>,
) -> Option<(Seq<u8>, nat, nat)> {
    match rest {
        None => None,
        Some((r, n, t)) => Some((done.0 + r, done.1 + n, done.2 + t)),
    }
}

pub open spec fn combine_analysis(
    done: (nat, nat, nat),
    rest: Option<(nat, nat, nat)>,
) -> Option<(nat, nat, nat)> {
    match rest {
        None => None,
        Some((b, n, t)) => Some((done.0 + b, done.1 + n, done.2 + t)),
    }
}

pub open spec fn combine_count(done: nat, rest: Option<nat>) -> Option<nat> {
    match rest {
        None => None,
        Some(n) => Some(done + n),
    }
}

proof fn lemma_u32_at_bound(s: Seq<u8>, off: int, le: bool)
    requires
        0 <= off,
        off + 4 <= s.len(),
    ensures
        u32_at(s, off, le) <= u32::MAX,
{
}

/// One record step of the stream, read at offset `off` of `s`.
proof fn lemma_body_step(s: Seq<u8>, off: int, le: bool)
    requires
        0 <= off,
        off + 16 <= s.len(),
    ensures
        ({
            let b = s.skip(off);
            let incl = u32_at(s, off + 8, le) as int;
            &&& u32_at(b, 8, le) == u32_at(s, off + 8, le)
            &&& b.subrange(0, 16) == s.subrange(off, off + 16)
            &&& (b.len() - 16 >= incl ==> b.subrange(16, 16 + incl) == s.subrange(
                off + 16,
                off + 16 + incl,
            ) && b.skip(16 + incl) == s.skip(off + 16 + incl))
        }),
{
    let b = s.skip(off);
    let incl = u32_at(s, off + 8, le) as int;
    assert(b.subrange(0, 16) =~= s.subrange(off, off + 16));
    if b.len() - 16 >= incl {
        assert(b.subrange(16, 16 + incl) =~= s.subrange(off + 16, off + 16 + incl));
        assert(b.skip(16 + incl) =~= s.skip(off + 16 + incl));
    }
}


/// Unfolding of the three stream functions at offset `off` of `s`.
proof fn lemma_stream_step(s: Seq<u8>, off: int, le: bool)
    requires
        0 <= off,
        off + 16 <= s.len(),
    ensures
        ({
            let incl = u32_at(s, off + 8, le) as int;
            let rec = s.subrange(off, off + 16);
            let frame = s.subrange(off + 16, off + 16 + incl);
            let next = s.skip(off + 16 + incl);
            &&& s.len() - off - 16 < incl ==> slim_body(s.skip(off), le) is None
                && analyze_body(s.skip(off), le) is None && count_body(s.skip(off), le) is None
            &&& s.len() - off - 16 >= incl ==> {
                &&& slim_body(s.skip(off), le) == combine(
                    (slim_record_bytes(rec, frame, le), 1nat, truncated_count(frame)),
                    slim_body(next, le),
                )
                &&& analyze_body(s.skip(off), le) == combine_analysis(
                    (16 + slim_frame(frame).len(), 1nat, truncated_count(frame)),
                    analyze_body(next, le),
                )
                &&& count_body(s.skip(off), le) == combine_count(1, count_body(next, le))
                &&& body_decidable(s.skip(off), le) == (frame_decidable(frame) && body_decidable(
                    next,
                    le,
                ))
            }
        }),
{
    reveal(slim_body);
    reveal(count_body);
    reveal(analyze_body);
    reveal(body_decidable);
    lemma_body_step(s, off, le);
    let b = s.skip(off);
    let incl = u32_at(s, off + 8, le) as int;
    if b.len() - 16 >= incl {
        match slim_body(s.skip(off + 16 + incl), le) {
            None => {},
            Some((r, n, t)) => {
                let rec = slim_record_bytes(s.subrange(off, off + 16), s.subrange(off + 16, off + 16 + incl), le);
                assert(rec + r =~= rec + r);
            },
        }
    }
}

/// A stream shorter than a record header holds no records.
proof fn lemma_stream_end(b: Seq<u8>, le: bool)
    requires
        b.len() < 16,
    ensures
        slim_body(b, le) == Some((Seq::<u8>::empty(), 0nat, 0nat)),
        analyze_body(b, le) == Some((0nat, 0nat, 0nat)),
        count_body(b, le) == Some(0nat),
{
    reveal(slim_body);
    reveal(count_body);
    reveal(analyze_body);
}

proof fn lemma_combine_assoc(
    done: (Seq<u8>, nat, nat),
    step: (Seq<u8>, nat, nat),
    rest: Option<(Seq<u8>, nat, nat)>,
)
    ensures
        combine(done, combine(step, rest)) == combine(
            (done.0 + step.0, done.1 + step.1, done.2 + step.2),
            rest,
        ),
{
    if let Some((r, n, t)) = rest {
        assert(done.0 + (step.0 + r) =~= done.0 + step.0 + r);
    }
}

/// Slim a whole pcap file held in memory; `path` names it in the pcapng message.
pub fn slim_pcap_bytes(input: &[u8], path: &str) -> (r: Result<(Vec<u8>, SlimStats), PcapError>)
    requires
        pcap_decidable(input@),
    ensures
        header_error_kind(input@) is Some ==> (r matches Err(e) && header_error_matches(
            input@,
            path@,
            e,
        )),
        header_error_kind(input@) is None ==> ({
            let le = magic_endian(input@).unwrap();
            match slim_body(input@.skip(24), le) {
                None => r matches Err(PcapError::Io(_)),
                Some((body, n, t)) => r matches Ok((out, st)) && out@ == input@.take(24) + body
                    && st.in_pkts == n && st.truncated == t && st.kept == n - t && st.in_bytes
                    == input@.len() && st.out_bytes == out@.len(),
            }
        }),
{
    let endian = match read_global_header(input, path) {
        Ok(e) => e,
        Err(e) => {
            return Err(e);
        },
    };
    let ghost le = endian.le;
    let mut out: Vec<u8> = Vec::new();
    append_bytes(&mut out, vstd::slice::slice_subrange(input, 0, PCAP_HDR_LEN));
    let mut stats = SlimStats::default();
    let mut off: usize = PCAP_HDR_LEN;
    let ghost mut done: (Seq<u8>, nat, nat) = (Seq::empty(), 0, 0);
    assert(input@.skip(24) =~= input@.skip(off as int));
    while input.len() - off >= PCAP_REC_HDR_LEN
        invariant
            24 <= off <= input.len(),
            le == endian.le,
            header_error_kind(input@) is None,
            magic_endian(input@) == Some(le),
            body_decidable(input@.skip(off as int), le),
            slim_body(input@.skip(24), le) == combine(done, slim_body(input@.skip(off as int), le)),
            out@ == input@.take(24) + done.0,
            stats.in_pkts == done.1,
            stats.truncated == done.2,
            stats.kept == done.1 - done.2,
            done.2 <= done.1,
            16 * done.1 <= off - 24,
            stats.in_bytes == 0,
            stats.out_bytes == 0,
        decreases input.len() - off,
    {
        let rec_hdr = vstd::slice::slice_subrange(input, off, off + PCAP_REC_HDR_LEN);
        let incl = record_incl_len(endian, rec_hdr);
        proof {
            lemma_body_step(input@, off as int, le);
            lemma_stream_step(input@, off as int, le);
        }
        if input.len() - off - PCAP_REC_HDR_LEN < incl {
            return Err(unexpected_eof());
        }
        let frame = vstd::slice::slice_subrange(
            input,
            off + PCAP_REC_HDR_LEN,
            off + PCAP_REC_HDR_LEN + incl,
        );
        slim_record(endian, rec_hdr, frame, &mut stats, &mut out);
        proof {
            let rec = slim_record_bytes(rec_hdr@, frame@, le);
            lemma_combine_assoc(
                done,
                (rec, 1nat, truncated_count(frame@)),
                slim_body(input@.skip(off + 16 + incl), le),
            );
            done = (done.0 + rec, done.1 + 1, done.2 + truncated_count(frame@));
            assert(out@ =~= input@.take(24) + done.0);
        }
        off = off + PCAP_REC_HDR_LEN + incl;
    }
    proof {
        lemma_stream_end(input@.skip(off as int), le);
        assert(done.0 + Seq::<u8>::empty() =~= done.0);
    }
    stats.in_bytes = input.len() as u64;
    stats.out_bytes = out.len() as u64;
    Ok((out, stats))
}

/// Compute what slimming would do to a pcap file held in memory, without writing output.
pub fn analyze_pcap_bytes(input: &[u8], path: &str) -> (r: Result<SlimStats, PcapError>)
    requires
        pcap_decidable(input@),
    ensures
        header_error_kind(input@) is Some ==> (r matches Err(e) && header_error_matches(
            input@,
            path@,
            e,
        )),
        header_error_kind(input@) is None ==> ({
            let le = magic_endian(input@).unwrap();
            match analyze_body(input@.skip(24), le) {
                None => r matches Err(PcapError::Io(_)),
                Some((bytes, n, t)) => r matches Ok(st) && st.in_pkts == n && st.truncated == t
                    && st.kept == n - t && st.in_bytes == input@.len() && st.out_bytes == 24
                    + bytes,
            }
        }),
{
    let endian = match read_global_header(input, path) {
        Ok(e) => e,
        Err(e) => {
            return Err(e);
        },
    };
    let ghost le = endian.le;
    let mut stats = SlimStats::default();
    let mut body_bytes: u64 = 0;
    let mut off: usize = PCAP_HDR_LEN;
    let ghost mut done: (nat, nat, nat) = (0, 0, 0);
    assert(input@.skip(24) =~= input@.skip(off as int));
    while input.len() - off >= PCAP_REC_HDR_LEN
        invariant
            24 <= off <= input.len(),
            le == endian.le,
            header_error_kind(input@) is None,
            magic_endian(input@) == Some(le),
            body_decidable(input@.skip(off as int), le),
            analyze_body(input@.skip(24), le) == combine_analysis(
                done,
                analyze_body(input@.skip(off as int), le),
            ),
            body_bytes == done.0,
            stats.in_pkts == done.1,
            stats.truncated == done.2,
            stats.kept == done.1 - done.2,
            done.2 <= done.1,
            16 * done.1 <= off - 24,
            done.0 <= off - 24,
            stats.in_bytes == 0,
            stats.out_bytes == 0,
        decreases input.len() - off,
    {
        let rec_hdr = vstd::slice::slice_subrange(input, off, off + PCAP_REC_HDR_LEN);
        let incl = record_incl_len(endian, rec_hdr);
        proof {
            lemma_body_step(input@, off as int, le);
            lemma_stream_step(input@, off as int, le);
        }
        if input.len() - off - PCAP_REC_HDR_LEN < incl {
            return Err(unexpected_eof());
        }
        let frame = vstd::slice::slice_subrange(
            input,
            off + PCAP_REC_HDR_LEN,
            off + PCAP_REC_HDR_LEN + incl,
        );
        proof {
            lemma_slim_frame_len(frame@);
        }
        analyze_record(frame, &mut stats, &mut body_bytes);
        proof {
            done = (
                done.0 + 16 + slim_frame(frame@).len(),
                done.1 + 1,
                done.2 + truncated_count(frame@),
            );
        }
        off = off + PCAP_REC_HDR_LEN + incl;
    }
    proof {
        lemma_stream_end(input@.skip(off as int), le);
    }
    stats.in_bytes = input.len() as u64;
    stats.out_bytes = projected_file_size(PCAP_HDR_LEN as u64, body_bytes);
    Ok(stats)
}

/// Count the records of a pcap file held in memory.
pub fn count_packets_bytes(input: &[u8], path: &str) -> (r: Result<u64, PcapError>)
    ensures
        header_error_kind(input@) is Some ==> (r matches Err(e) && header_error_matches(
            input@,
            path@,
            e,
        )),
        header_error_kind(input@) is None ==> ({
            let le = magic_endian(input@).unwrap();
            match count_body(input@.skip(24), le) {
                None => r matches Err(PcapError::Io(_)),
                Some(n) => r matches Ok(c) && c == n,
            }
        }),
{
    let endian = match read_global_header(input, path) {
        Ok(e) => e,
        Err(e) => {
            return Err(e);
        },
    };
    let ghost le = endian.le;
    let mut count: u64 = 0;
    let mut off: usize = PCAP_HDR_LEN;
    assert(input@.skip(24) =~= input@.skip(off as int));
    while input.len() - off >= PCAP_REC_HDR_LEN
        invariant
            24 <= off <= input.len(),
            le == endian.le,
            header_error_kind(input@) is None,
            magic_endian(input@) == Some(le),
            count_body(input@.skip(24), le) == combine_count(
                count as nat,
                count_body(input@.skip(off as int), le),
            ),
            16 * count <= off - 24,
        decreases input.len() - off,
    {
        let rec_hdr = vstd::slice::slice_subrange(input, off, off + PCAP_REC_HDR_LEN);
        let incl = record_incl_len(endian, rec_hdr);
        proof {
            lemma_body_step(input@, off as int, le);
            lemma_stream_step(input@, off as int, le);
        }
        if input.len() - off - PCAP_REC_HDR_LEN < incl {
            return Err(unexpected_eof());
        }
        count = count + 1;
        off = off + PCAP_REC_HDR_LEN + incl;
    }
    proof {
        lemma_stream_end(input@.skip(off as int), le);
    }
    Ok(count)
}


// ---------------------------------------------------------------------------
// Laws
// ---------------------------------------------------------------------------
proof fn lemma_u32_roundtrip(v: nat, le: bool)
    requires
        v <= u32::MAX,
    ensures
        u32_at(u32_bytes(v, le), 0, le) == v,
{
    let x = v as u32;
    assert((x % 256) + 256 * ((x / 256) % 256) + 65536 * ((x / 65536) % 256) + 16777216 * ((x
        / 16777216) % 256) == x) by (bit_vector);
}

/// An output record is framed by its own `incl_len`.
proof fn lemma_output_record_framing(rec: Seq<u8>, out: Seq<u8>, rest: Seq<u8>, le: bool)
    requires
        rec.len() == 16,
        out.len() <= u32::MAX,
    ensures
        ({
            let hdr = out_record_header(rec, out.len(), le);
            let r = hdr + out + rest;
            &&& r.len() >= 16
            &&& u32_at(r, 8, le) == out.len()
            &&& u32_at(hdr, 8, le) == out.len()
            &&& r.len() - 16 >= out.len()
            &&& r.subrange(0, 16) == hdr
            &&& r.subrange(16, 16 + out.len() as int) == out
            &&& r.skip(16 + out.len() as int) == rest
            &&& hdr.subrange(0, 8) == rec.subrange(0, 8)
            &&& hdr.subrange(12, 16) == rec.subrange(12, 16)
        }),
{
    lemma_u32_roundtrip(out.len(), le);
    let hdr = out_record_header(rec, out.len(), le);
    let r = hdr + out + rest;
    assert(hdr.subrange(8, 12) =~= u32_bytes(out.len(), le));
    assert(r[8] == hdr[8] && r[9] == hdr[9] && r[10] == hdr[10] && r[11] == hdr[11]);
    assert(r.subrange(0, 16) =~= hdr);
    assert(r.subrange(16, 16 + out.len() as int) =~= out);
    assert(r.skip(16 + out.len() as int) =~= rest);
    assert(hdr.subrange(0, 8) =~= rec.subrange(0, 8));
    assert(hdr.subrange(12, 16) =~= rec.subrange(12, 16));
}

/// Slimming keeps every record: the output record stream holds as many records as
/// the input one (so the packet-count verification of a slimmed file always passes).
pub proof fn law_slim_preserves_record_count(b: Seq<u8>, le: bool)
    requires
        b.len() <= usize::MAX,
    ensures
        slim_body(b, le) matches Some((r, n, t)) ==> count_body(r, le) == Some(n),
    decreases b.len(),
{
    reveal(slim_body);
    reveal(count_body);
    if b.len() >= 16 {
        let incl = u32_at(b, 8, le) as int;
        if b.len() - 16 >= incl {
            let frame = b.subrange(16, 16 + incl);
            law_slim_preserves_record_count(b.skip(16 + incl), le);
            lemma_slim_frame_len(frame);
            if let Some((rest, n, t)) = slim_body(b.skip(16 + incl), le) {
                lemma_u32_at_bound(b, 8, le);
                lemma_output_record_framing(b.subrange(0, 16), slim_frame(frame), rest, le);
            }
        }
    }
}

/// Slimming keeps every packet, in order, with its timestamp: record `i` of the output
/// has the timestamp and original length of input record `i`, an `incl_len` equal to its
/// frame's length, and as its frame the slimmed frame of input record `i`.
pub proof fn law_slim_keeps_records(b: Seq<u8>, le: bool)
    requires
        b.len() <= usize::MAX,
    ensures
        slim_body(b, le) matches Some((out, n, t)) ==> {
            &&& records(b, le) is Some
            &&& records(out, le) is Some
            &&& ({
                let ins = records(b, le).unwrap();
                let outs = records(out, le).unwrap();
                &&& ins.len() == n
                &&& outs.len() == n
                &&& forall|i: int|
                    #![trigger outs[i]]
                    0 <= i < n ==> {
                        &&& outs[i].0.subrange(0, 8) == ins[i].0.subrange(0, 8)
                        &&& outs[i].0.subrange(12, 16) == ins[i].0.subrange(12, 16)
                        &&& u32_at(outs[i].0, 8, le) == outs[i].1.len()
                        &&& outs[i].1 == slim_frame(ins[i].1)
                    }
            })
        },
    decreases b.len(),
{
    reveal(slim_body);
    if b.len() >= 16 {
        let incl = u32_at(b, 8, le) as int;
        if b.len() - 16 >= incl {
            let rec = b.subrange(0, 16);
            let frame = b.subrange(16, 16 + incl);
            law_slim_keeps_records(b.skip(16 + incl), le);
            lemma_slim_frame_len(frame);
            if let Some((rest, n, t)) = slim_body(b.skip(16 + incl), le) {
                let sf = slim_frame(frame);
                lemma_u32_at_bound(b, 8, le);
                lemma_output_record_framing(rec, sf, rest, le);
                let hdr = out_record_header(rec, sf.len(), le);
                let out = hdr + sf + rest;
                assert(slim_record_bytes(rec, frame, le) + rest == out);
                let ins_rest = records(b.skip(16 + incl), le).unwrap();
                let outs_rest = records(rest, le).unwrap();
                let ins = records(b, le).unwrap();
                let outs = records(out, le).unwrap();
                assert(ins == seq![(rec, frame)] + ins_rest);
                assert(outs == seq![(hdr, sf)] + outs_rest);
                assert forall|i: int| 0 <= i < n + 1 implies {
                    &&& #[trigger] outs[i].0.subrange(0, 8) == ins[i].0.subrange(0, 8)
                    &&& outs[i].0.subrange(12, 16) == ins[i].0.subrange(12, 16)
                    &&& u32_at(outs[i].0, 8, le) == outs[i].1.len()
                    &&& outs[i].1 == slim_frame(ins[i].1)
                } by {
                    if i > 0 {
                        assert(outs[i] == outs_rest[i - 1]);
                        assert(ins[i] == ins_rest[i - 1]);
                    }
                }
            }
        }
    }
}

/// Slimming never makes a record stream longer: each record keeps its 16-byte header
/// and its frame only ever loses bytes.
pub proof fn law_slim_never_grows(b: Seq<u8>, le: bool)
    requires
        b.len() <= usize::MAX,
    ensures
        slim_body(b, le) matches Some((out, n, t)) ==> out.len() <= b.len(),
    decreases b.len(),
{
    reveal(slim_body);
    if b.len() >= 16 {
        let incl = u32_at(b, 8, le) as int;
        if b.len() - 16 >= incl {
            let frame = b.subrange(16, 16 + incl);
            law_slim_never_grows(b.skip(16 + incl), le);
            lemma_slim_frame_len(frame);
        }
    }
}

/// A slimmed file keeps the input's global header, so it is read with the same byte
/// order, and it holds as many packets as the input.
pub proof fn law_slimmed_file_count_matches(s: Seq<u8>)
    requires
        s.len() <= usize::MAX,
        header_error_kind(s) is None,
    ensures
        ({
            let le = magic_endian(s).unwrap();
            slim_body(s.skip(24), le) matches Some((body, n, t)) ==> {
                let out = s.take(24) + body;
                &&& out.take(24) == s.take(24)
                &&& header_error_kind(out) is None
                &&& magic_endian(out) == Some(le)
                &&& count_body(out.skip(24), le) == Some(n)
            }
        }),
{
    let le = magic_endian(s).unwrap();
    law_slim_preserves_record_count(s.skip(24), le);
    if let Some((body, n, t)) = slim_body(s.skip(24), le) {
        let out = s.take(24) + body;
        assert(out.take(24) =~= s.take(24));
        assert(out.skip(24) =~= body);
        assert(out[0] == s[0] && out[1] == s[1] && out[2] == s[2] && out[3] == s[3]);
    }
}

/// Analysis predicts slimming: same record and truncation counts, and the byte count it
/// adds up is exactly the length of the slimmed record stream.
pub proof fn law_analyze_matches_slim(b: Seq<u8>, le: bool)
    ensures
        analyze_body(b, le) == match slim_body(b, le) {
            None => None,
            Some((r, n, t)) => Some((r.len(), n, t)),
        },
    decreases b.len(),
{
    reveal(slim_body);
    reveal(analyze_body);
    if b.len() >= 16 {
        let incl = u32_at(b, 8, le) as int;
        if b.len() - 16 >= incl {
            law_analyze_matches_slim(b.skip(16 + incl), le);
        }
    }
}

fn unexpected_eof() -> (e: PcapError)
    ensures
        e is Io,
{
    PcapError::Io(io_unexpected_eof())
}

/// `std::io::Error::new(ErrorKind::UnexpectedEof, ..)`, the error a short `read_exact` gives.
/// Nothing is stated of the value.
#[verifier::external_body]
fn io_unexpected_eof() -> std::io::Error {
    std::io::Error::new(std::io::ErrorKind::UnexpectedEof, "failed to fill whole buffer")
}

} // verus!
