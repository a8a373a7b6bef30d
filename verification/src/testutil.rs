//! Builders for synthetic frames and pcap files (used by the tests).

use vstd::prelude::*;

verus! {

/// Little-endian libpcap global header (version 2.4, snaplen 65535, DLT_EN10MB).
pub const GHDR_LE: [u8; 24] = [
    0xd4, 0xc3, 0xb2, 0xa1, 0x02, 0x00, 0x04, 0x00, 0, 0, 0, 0, 0, 0, 0, 0, 0xff, 0xff, 0, 0, 0x01,
    0, 0, 0,
];

/// Big-endian libpcap global header.
pub const GHDR_BE: [u8; 24] = [
    0xa1, 0xb2, 0xc3, 0xd4, 0x00, 0x02, 0x00, 0x04, 0, 0, 0, 0, 0, 0, 0, 0, 0, 0, 0xff, 0xff, 0x01,
    0, 0, 0,
];

/// Byte `i` of an Ethernet + IPv4 (20-byte header) + TCP frame whose TCP header is
/// `tcp_hdr` bytes long (data-offset byte `doff`), carrying `payload`.
pub open spec fn tcp_frame_byte(
    dport: u16,
    sport: u16,
    payload: Seq<u8>,
    tcp_hdr: int,
    doff: u8,
    i: int,
) -> u8 {
    let ip_len = 20 + tcp_hdr + payload.len();
    if i == 12 {
        0x08
    } else if i == 14 {
        0x45
    } else if i == 16 {
        (ip_len / 256) as u8
    } else if i == 17 {
        (ip_len % 256) as u8
    } else if i == 23 {
        6
    } else if i == 34 {
        (sport / 256) as u8
    } else if i == 35 {
        (sport % 256) as u8
    } else if i == 36 {
        (dport / 256) as u8
    } else if i == 37 {
        (dport % 256) as u8
    } else if i == 46 {
        doff
    } else if i >= 34 + tcp_hdr {
        payload[i - 34 - tcp_hdr]
    } else {
        0
    }
}

pub open spec fn tcp_frame_spec(dport: u16, sport: u16, payload: Seq<u8>, tcp_hdr: int, doff: u8) -> Seq<u8> {
    Seq::new(
        (34 + tcp_hdr + payload.len()) as nat,
        |i: int| tcp_frame_byte(dport, sport, payload, tcp_hdr, doff, i),
    )
}

fn zeros(n: usize) -> (v: Vec<u8>)
    ensures
        v@.len() == n,
        forall|i: int| 0 <= i < n ==> v@[i] == 0,
{
    let mut v: Vec<u8> = Vec::new();
    let mut i: usize = 0;
    while i < n
        invariant
            i <= n,
            v@.len() == i,
            forall|j: int| 0 <= j < i ==> v@[j] == 0,
        decreases n - i,
    {
        v.push(0);
        i += 1;
    }
    v
}

fn build_tcp_frame(dport: u16, sport: u16, payload: &[u8], tcp_hdr: usize, doff: u8) -> (v: Vec<u8>)
    requires
        tcp_hdr == 20 || tcp_hdr == 32,
        20 + tcp_hdr + payload.len() <= 65535,
    ensures
        v@ == tcp_frame_spec(dport, sport, payload@, tcp_hdr as int, doff),
{
    let ip_len = 20 + tcp_hdr + payload.len();
    let total = 14 + ip_len;
    let mut v = zeros(total);
    v[12] = 0x08;
    v[13] = 0x00;
    v[14] = 0x45;
    v[16] = (ip_len / 256) as u8;
    v[17] = (ip_len % 256) as u8;
    v[23] = 6;
    let tcp_off: usize = 34;
    v[tcp_off] = (sport / 256) as u8;
    v[tcp_off + 1] = (sport % 256) as u8;
    v[tcp_off + 2] = (dport / 256) as u8;
    v[tcp_off + 3] = (dport % 256) as u8;
    v[tcp_off + 12] = doff;
    let start = tcp_off + tcp_hdr;
    let mut i: usize = 0;
    while i < payload.len()
        invariant
            start == 34 + tcp_hdr,
            tcp_hdr == 20 || tcp_hdr == 32,
            total == start + payload.len(),
            i <= payload.len(),
            v@.len() == total,
            forall|j: int|
                0 <= j < total && !(start + i <= j) ==> v@[j] == tcp_frame_byte(
                    dport,
                    sport,
                    payload@,
                    tcp_hdr as int,
                    doff,
                    j,
                ),
        decreases payload.len() - i,
    {
        v[start + i] = payload[i];
        i += 1;
    }
    assert(v@ =~= tcp_frame_spec(dport, sport, payload@, tcp_hdr as int, doff));
    v
}

/// Build Ethernet + IPv4 + TCP frame with payload.
pub fn eth_ipv4_tcp_frame(dport: u16, sport: u16, payload: &[u8]) -> (v: Vec<u8>)
    requires
        payload.len() + 40 <= 65535,
    ensures
        v@ == tcp_frame_spec(dport, sport, payload@, 20, 0x50),
{
    build_tcp_frame(dport, sport, payload, 20, 0x50)
}

/// TCP with 12-byte options (data offset = 8 → 32-byte header).
pub fn eth_ipv4_tcp_frame_with_tcp_opts(dport: u16, sport: u16, payload: &[u8]) -> (v: Vec<u8>)
    requires
        payload.len() + 52 <= 65535,
    ensures
        v@ == tcp_frame_spec(dport, sport, payload@, 32, 0x80),
{
    build_tcp_frame(dport, sport, payload, 32, 0x80)
}

/// 32-bit value in the given byte order.
pub open spec fn u32_le_or_be(v: nat, le: bool) -> Seq<u8> {
    let b0 = (v % 256) as u8;
    let b1 = ((v / 256) % 256) as u8;
    let b2 = ((v / 65536) % 256) as u8;
    let b3 = ((v / 16777216) % 256) as u8;
    if le {
        seq![b0, b1, b2, b3]
    } else {
        seq![b3, b2, b1, b0]
    }
}

/// One record: zero timestamps, `incl_len` = the captured length (the override when given,
/// at most the frame's length), `orig_len` = the frame's length, then the captured bytes.
pub open spec fn test_record(frame: Seq<u8>, incl_override: Option<usize>, le: bool) -> Seq<u8> {
    let incl = match incl_override {
        Some(n) => if n < frame.len() {
            n as int
        } else {
            frame.len() as int
        },
        None => frame.len() as int,
    };
    Seq::new(8, |i: int| 0u8) + u32_le_or_be((incl % 4294967296) as nat, le) + u32_le_or_be(
        (frame.len() % 4294967296) as nat,
        le,
    ) + frame.take(incl)
}

pub open spec fn test_records(
    frames: Seq<Vec<u8>>,
    incl_lens: Option<Seq<usize>>,
    le: bool,
    n: int,
) -> Seq<u8>
    decreases n,
{
    if n <= 0 {
        Seq::empty()
    } else {
        let i = n - 1;
        let over = match incl_lens {
            Some(l) => if i < l.len() {
                Some(l[i])
            } else {
                None
            },
            None => None,
        };
        test_records(frames, incl_lens, le, n - 1) + test_record(frames[i]@, over, le)
    }
}

pub open spec fn test_ghdr(le: bool) -> Seq<u8> {
    if le {
        GHDR_LE@
    } else {
        GHDR_BE@
    }
}

fn push_u32(out: &mut Vec<u8>, v: u32, le: bool)
    ensures
        final(out)@ == old(out)@ + u32_le_or_be(v as nat, le),
{
    let b0 = (v % 256) as u8;
    let b1 = ((v / 256) % 256) as u8;
    let b2 = ((v / 65536) % 256) as u8;
    let b3 = ((v / 16777216) % 256) as u8;
    if le {
        out.push(b0);
        out.push(b1);
        out.push(b2);
        out.push(b3);
    } else {
        out.push(b3);
        out.push(b2);
        out.push(b1);
        out.push(b0);
    }
}

fn push_test_record(out: &mut Vec<u8>, frame: &Vec<u8>, over: Option<usize>, le: bool)
    ensures
        final(out)@ == old(out)@ + test_record(frame@, over, le),
{
    let incl = match over {
        Some(n) => if n < frame.len() {
            n
        } else {
            frame.len()
        },
        None => frame.len(),
    };
    let ghost before = out@;
    let mut z: usize = 0;
    while z < 8
        invariant
            z <= 8,
            out@ == before + Seq::new(z as nat, |j: int| 0u8),
        decreases 8 - z,
    {
        out.push(0);
        z += 1;
        assert(out@ =~= before + Seq::new(z as nat, |j: int| 0u8));
    }
    push_u32(out, ((incl as u64) % 4294967296) as u32, le);
    push_u32(out, ((frame.len() as u64) % 4294967296) as u32, le);
    let mut j: usize = 0;
    let ghost mid = out@;
    while j < incl
        invariant
            j <= incl,
            incl <= frame@.len(),
            out@ == mid + frame@.take(j as int),
        decreases incl - j,
    {
        out.push(frame[j]);
        j += 1;
        assert(out@ =~= mid + frame@.take(j as int));
    }
    assert(out@ =~= before + test_record(frame@, over, le));
}

/// A pcap file (global header, then one record per frame) with optional per-packet
/// `incl_len` overrides (default: the whole frame).
pub fn pcap_records_bytes(frames: &Vec<Vec<u8>>, incl_lens: Option<&Vec<usize>>, le: bool) -> (out:
    Vec<u8>)
    ensures
        out@ == test_ghdr(le) + test_records(
            frames@,
            match incl_lens {
                Some(l) => Some(l@),
                None => None,
            },
            le,
            frames@.len() as int,
        ),
{
    let ghost lens = match incl_lens {
        Some(l) => Some(l@),
        None => None,
    };
    let mut out: Vec<u8> = Vec::new();
    let ghdr = if le {
        GHDR_LE
    } else {
        GHDR_BE
    };
    let mut k: usize = 0;
    while k < 24
        invariant
            k <= 24,
            ghdr@ == test_ghdr(le),
            out@ == test_ghdr(le).take(k as int),
        decreases 24 - k,
    {
        out.push(ghdr[k]);
        k += 1;
        assert(out@ =~= test_ghdr(le).take(k as int));
    }
    assert(test_ghdr(le).take(24) =~= test_ghdr(le));
    let mut i: usize = 0;
    while i < frames.len()
        invariant
            i <= frames@.len(),
            lens == match incl_lens {
                Some(l) => Some(l@),
                None => None::<Seq<usize>>,
            },
            out@ == test_ghdr(le) + test_records(frames@, lens, le, i as int),
        decreases frames@.len() - i,
    {
        let over: Option<usize> = match incl_lens {
            Some(l) => if i < l.len() {
                Some(l[i])
            } else {
                None
            },
            None => None,
        };
        let ghost before = out@;
        push_test_record(&mut out, &frames[i], over, le);
        proof {
            assert(test_records(frames@, lens, le, i + 1) == test_records(frames@, lens, le, i as int)
                + test_record(frames@[i as int]@, over, le));
            assert(test_ghdr(le) + test_records(frames@, lens, le, i + 1) =~= before + test_record(
                frames@[i as int]@,
                over,
                le,
            ));
        }
        i += 1;
    }
    out
}

/// A pcap file with `n` identical TLS-truncatable frames (TLS application data to 443).
pub fn minimal_pcap_bytes(n: u32, le: bool) -> (out: Vec<u8>)
    ensures
        exists|frames: Seq<Vec<u8>>|
            #![auto]
            frames.len() == n && (forall|k: int| 0 <= k < n ==> frames[k]@ == tcp_frame_spec(
                443,
                12345,
                Seq::new(30, |j: int| 0x17u8),
                20,
                0x50,
            )) && out@ == test_ghdr(le) + test_records(frames, None, le, n as int),
{
    let payload: [u8; 30] = [0x17; 30];
    let mut frames: Vec<Vec<u8>> = Vec::new();
    let mut k: u32 = 0;
    while k < n
        invariant
            k <= n,
            payload@ == Seq::new(30, |j: int| 0x17u8),
            frames@.len() == k,
            forall|m: int| 0 <= m < k ==> #[trigger] frames@[m]@ == tcp_frame_spec(
                443,
                12345,
                Seq::new(30, |j: int| 0x17u8),
                20,
                0x50,
            ),
        decreases n - k,
    {
        frames.push(eth_ipv4_tcp_frame(443, 12345, &payload));
        k += 1;
    }
    pcap_records_bytes(&frames, None, le)
}

} // verus!
