//! Ethernet (802.1Q) → IPv4/IPv6 → TCP/UDP offset parsing for DLT_EN10MB.
//!
//! The format is stated by spec functions over the frame's bytes (`frame_layout`);
//! the executable parser returns exactly that layout.

use vstd::prelude::*;

verus! {

pub const ETHERTYPE_VLAN: u16 = 0x8100;
pub const ETHERTYPE_IPV6: u16 = 0x86DD;
pub const ETHERTYPE_IPV4: u16 = 0x0800;

pub const IP_PROTO_TCP: u8 = 6;
pub const IP_PROTO_UDP: u8 = 17;

/// IPv4 option types (low 5 bits of option byte).
pub const IP_OPT_EOL: u8 = 0;
pub const IP_OPT_NOP: u8 = 1;
pub const IP_OPT_LSRR: u8 = 3;
pub const IP_OPT_SSRR: u8 = 9;

/// IPv6 extension header next-header values we skip to reach TCP/UDP.
pub const IP6_HOP_BY_HOP: u8 = 0;
pub const IP6_ROUTING: u8 = 43;
pub const IP6_FRAGMENT: u8 = 44;
pub const IP6_ESP: u8 = 50;
pub const IP6_AH: u8 = 51;
pub const IP6_DEST_OPTS: u8 = 60;
pub const IP6_NO_NEXT: u8 = 59;

pub const IP6_HDR: usize = 40;
pub const UDP_HDR: usize = 8;

#[derive(Debug, Clone, Copy, PartialEq, Eq, Structural)]
pub enum L4Proto {
    Tcp,
    Udp,
}

#[derive(Debug, Clone, Copy)]
pub struct L4Info {
    pub proto: L4Proto,
    pub sport: u16,
    pub dport: u16,
    pub header_start: usize,
    pub header_len: usize,
    pub payload_start: usize,
}

#[derive(Debug, Clone, Copy)]
pub struct ParsedFrame<'a> {
    pub frame: &'a [u8],
    pub ip_start: usize,
    pub ip_header_len: usize,
    pub is_ipv6: bool,
    pub l4: Option<L4Info>,
}

#[derive(Debug)]
pub enum ParseError {
    TooShort,
}

/// The offsets that parsing finds in a frame (everything of a `ParsedFrame` but the bytes).
pub struct FrameLayout {
    pub ip_start: usize,
    pub ip_header_len: usize,
    pub is_ipv6: bool,
    pub l4: Option<L4Info>,
}

// ---------------------------------------------------------------------------
// The format
// ---------------------------------------------------------------------------
/// Big-endian 16-bit value at offset `i`.
pub open spec fn be16(f: Seq<u8>, i: int) -> nat {
    f[i] as nat * 256 + f[i + 1] as nat
}

pub open spec fn sat_sub(a: int, b: int) -> int {
    if a >= b {
        a - b
    } else {
        0
    }
}

pub open spec fn no_ip_layout(ip_start: int, ip_header_len: int, is_ipv6: bool) -> FrameLayout {
    FrameLayout {
        ip_start: ip_start as usize,
        ip_header_len: ip_header_len as usize,
        is_ipv6,
        l4: None,
    }
}

/// Walk the 802.1Q tag stack from offset `off`: the inner ethertype and L3 start.
pub open spec fn vlan_walk(f: Seq<u8>, off: int) -> Option<(nat, int)>
    decreases f.len() - off,
{
    if off + 2 > f.len() {
        None
    } else if be16(f, off) != 0x8100 {
        Some((be16(f, off), off + 2))
    } else if off + 4 > f.len() {
        None
    } else {
        vlan_walk(f, off + 4)
    }
}

pub open spec fn l2_spec(f: Seq<u8>) -> Option<(nat, int)> {
    if f.len() < 14 {
        None
    } else {
        vlan_walk(f, 12)
    }
}

/// TCP header at `l4_start` with `l4_len` bytes of L4 data claimed by the IP layer.
pub open spec fn tcp_spec(f: Seq<u8>, l4_start: int, l4_len: int) -> Option<L4Info> {
    if f.len() < l4_start + 20 || l4_len < 20 {
        None
    } else {
        let doff = (f[l4_start + 12] / 16) as int * 4;
        if doff < 20 || f.len() < l4_start + doff || l4_len < doff {
            None
        } else {
            Some(
                L4Info {
                    proto: L4Proto::Tcp,
                    sport: be16(f, l4_start) as u16,
                    dport: be16(f, l4_start + 2) as u16,
                    header_start: l4_start as usize,
                    header_len: doff as usize,
                    payload_start: (l4_start + doff) as usize,
                },
            )
        }
    }
}

/// UDP header at `l4_start` with `l4_len` bytes of L4 data claimed by the IP layer.
pub open spec fn udp_spec(f: Seq<u8>, l4_start: int, l4_len: int) -> Option<L4Info> {
    if f.len() < l4_start + 8 || l4_len < 8 {
        None
    } else {
        Some(
            L4Info {
                proto: L4Proto::Udp,
                sport: be16(f, l4_start) as u16,
                dport: be16(f, l4_start + 2) as u16,
                header_start: l4_start as usize,
                header_len: 8,
                payload_start: (l4_start + 8) as usize,
            },
        )
    }
}

pub open spec fn ipv4_spec(f: Seq<u8>, ip_start: int) -> FrameLayout {
    if f.len() < ip_start + 20 {
        no_ip_layout(ip_start, 0, false)
    } else if f[ip_start] / 16 != 4 {
        no_ip_layout(ip_start, 0, false)
    } else {
        let ihl = (f[ip_start] % 16) as int * 4;
        if f.len() < ip_start + ihl {
            no_ip_layout(ip_start, ihl, false)
        } else {
            let proto = f[ip_start + 9];
            let l4_start = ip_start + ihl;
            let l4_in_ip = sat_sub(be16(f, ip_start + 2) as int, ihl);
            FrameLayout {
                ip_start: ip_start as usize,
                ip_header_len: ihl as usize,
                is_ipv6: false,
                l4: if proto == 6 {
                    tcp_spec(f, l4_start, l4_in_ip)
                } else if proto == 17 {
                    udp_spec(f, l4_start, l4_in_ip)
                } else {
                    None
                },
            }
        }
    }
}

/// Follow the IPv6 next-header chain from `off` (bounded by `end`) to TCP or UDP.
pub open spec fn ipv6_walk(f: Seq<u8>, next: u8, off: int, end: int) -> Option<L4Info>
    decreases end - off,
{
    if off >= end {
        None
    } else if next == 6 {
        tcp_spec(f, off, end - off)
    } else if next == 17 {
        udp_spec(f, off, end - off)
    } else if next == 0 || next == 43 || next == 44 || next == 60 {
        if off + 2 > end {
            None
        } else {
            let ext_len = (f[off + 1] as int + 1) * 8;
            if off + ext_len > end {
                None
            } else {
                ipv6_walk(f, f[off], off + ext_len, end)
            }
        }
    } else if next == 51 {
        if off + 2 > end {
            None
        } else {
            let ext_len = (f[off + 1] as int + 2) * 4;
            if off + ext_len > end {
                None
            } else {
                ipv6_walk(f, f[off], off + ext_len, end)
            }
        }
    } else {
        None
    }
}

pub open spec fn min_int(a: int, b: int) -> int {
    if a <= b {
        a
    } else {
        b
    }
}

/// Whether the IPv6 next-header chain from `off` (bounded by `end`), followed as
/// `ipv6_walk` follows it, reaches a Fragment header.
pub open spec fn ipv6_chain_has_fragment(f: Seq<u8>, next: u8, off: int, end: int) -> bool
    decreases end - off,
{
    if off >= end {
        false
    } else if next == 44 {
        true
    } else if next == 0 || next == 43 || next == 60 {
        if off + 2 > end {
            false
        } else {
            let ext_len = (f[off + 1] as int + 1) * 8;
            if off + ext_len > end {
                false
            } else {
                ipv6_chain_has_fragment(f, f[off], off + ext_len, end)
            }
        }
    } else if next == 51 {
        if off + 2 > end {
            false
        } else {
            let ext_len = (f[off + 1] as int + 2) * 4;
            if off + ext_len > end {
                false
            } else {
                ipv6_chain_has_fragment(f, f[off], off + ext_len, end)
            }
        }
    } else {
        false
    }
}

/// An IPv6 packet at `ip_start` whose header chain holds a Fragment header.
pub open spec fn ipv6_fragmented(f: Seq<u8>, ip_start: int) -> bool {
    &&& 0 <= ip_start
    &&& ip_start + 40 <= f.len()
    &&& ipv6_chain_has_fragment(
        f,
        f[ip_start + 6],
        ip_start + 40,
        min_int(ip_start + 40 + be16(f, ip_start + 4), f.len() as int),
    )
}

pub open spec fn ipv6_spec(f: Seq<u8>, ip_start: int) -> FrameLayout {
    if f.len() < ip_start + 40 || f[ip_start] / 16 != 6 {
        no_ip_layout(ip_start, 40, true)
    } else {
        let end = min_int(ip_start + 40 + be16(f, ip_start + 4), f.len() as int);
        FrameLayout {
            ip_start: ip_start as usize,
            ip_header_len: 40,
            is_ipv6: true,
            l4: ipv6_walk(f, f[ip_start + 6], ip_start + 40, end),
        }
    }
}

/// What parsing finds in a frame of at least 14 bytes.
pub open spec fn frame_layout(f: Seq<u8>) -> FrameLayout {
    match l2_spec(f) {
        None => no_ip_layout(0, 0, false),
        Some((ethertype, l3_start)) => if ethertype == 0x0800 {
            ipv4_spec(f, l3_start)
        } else if ethertype == 0x86dd {
            ipv6_spec(f, l3_start)
        } else {
            no_ip_layout(0, 0, false)
        },
    }
}

/// Behind any stack of 802.1Q tags, the inner ethertype decides the parse: IPv4 is parsed
/// at the L3 start that the tag walk finds, and so is IPv6.
pub proof fn law_ethertype_selects_ip_parser(f: Seq<u8>)
    ensures
        l2_spec(f) matches Some((et, l3)) ==> {
            &&& et == 0x0800 ==> frame_layout(f) == ipv4_spec(f, l3)
            &&& et == 0x86dd ==> frame_layout(f) == ipv6_spec(f, l3)
            &&& (et != 0x0800 && et != 0x86dd) ==> frame_layout(f).l4 is None
        },
{
}

/// Number of L4 payload bytes claimed by the IP length fields: the datagram's bytes
/// after the L4 header (for IPv6, after the extension headers too).
pub open spec fn payload_len_spec(f: Seq<u8>, lay: FrameLayout) -> int {
    match lay.l4 {
        None => 0,
        Some(l4) => {
            let l4_total = if lay.is_ipv6 {
                sat_sub(
                    be16(f, lay.ip_start + 4) as int,
                    sat_sub(l4.header_start - lay.ip_start, 40),
                )
            } else {
                sat_sub(be16(f, lay.ip_start + 2) as int, lay.ip_header_len as int)
            };
            sat_sub(l4_total, l4.header_len as int)
        },
    }
}

/// The L4 payload: claimed by the IP layer and actually captured.
pub open spec fn payload_spec(f: Seq<u8>, lay: FrameLayout) -> Seq<u8> {
    match lay.l4 {
        None => Seq::empty(),
        Some(l4) => {
            let end = min_int(f.len() as int, l4.payload_start + payload_len_spec(f, lay));
            if l4.payload_start >= end {
                Seq::empty()
            } else {
                f.subrange(l4.payload_start as int, end)
            }
        },
    }
}

/// Facts about a layout that the parser guarantees.
pub open spec fn layout_sound(f: Seq<u8>, lay: FrameLayout) -> bool {
    &&& lay.ip_start as int <= f.len()
    &&& match lay.l4 {
        None => true,
        Some(l4) => {
            &&& lay.ip_start + lay.ip_header_len <= l4.header_start
            &&& (lay.is_ipv6 ==> lay.ip_header_len == 40 && lay.ip_start + 40 <= f.len())
            &&& (!lay.is_ipv6 ==> lay.ip_start + 20 <= f.len())
            &&& l4.header_start + l4.header_len == l4.payload_start
            &&& l4.payload_start <= f.len()
            &&& (l4.proto == L4Proto::Tcp ==> l4.header_len >= 20 && l4.header_len <= 60 && l4.header_len % 4 == 0)
            &&& (l4.proto == L4Proto::Udp ==> l4.header_len == 8)
            &&& (!lay.is_ipv6 ==> lay.ip_header_len <= 60 && lay.ip_header_len % 4 == 0)
        },
    }
}

/// IPv4 options walk used for the pseudo-header destination (LSRR/SSRR final hop):
/// end-of-options stops it, a no-operation is one byte, every other option carries its
/// length in its second byte.
pub open spec fn source_route_walk(b: Seq<u8>, i: int, end: int) -> Option<Seq<u8>>
    decreases end - i,
{
    if i >= end {
        None
    } else if b[i] == 0 {
        None
    } else if b[i] == 1 {
        source_route_walk(b, i + 1, end)
    } else if i + 1 >= end {
        None
    } else {
        let opt_len = b[i + 1] as int;
        if opt_len < 2 || i + opt_len > end {
            None
        } else {
            let ty = b[i] % 32;
            if (ty == 3 || ty == 9) && i + opt_len >= i + 3 + 4 {
                Some(b.subrange(i + opt_len - 4, i + opt_len))
            } else {
                source_route_walk(b, i + opt_len, end)
            }
        }
    }
}

/// IPv4 destination for the TCP/UDP pseudo-header.
pub open spec fn pseudo_dst_spec(b: Seq<u8>, ip_start: int, ip_header_len: int) -> Seq<u8> {
    let default = b.subrange(ip_start + 16, ip_start + 20);
    if ip_header_len <= 20 {
        default
    } else {
        match source_route_walk(b, ip_start + 20, ip_start + ip_header_len) {
            Some(d) => d,
            None => default,
        }
    }
}


// ---------------------------------------------------------------------------
// What the format guarantees about the offsets it yields
// ---------------------------------------------------------------------------
proof fn lemma_vlan_walk_bound(f: Seq<u8>, off: int)
    ensures
        vlan_walk(f, off) matches Some((_, l3)) ==> l3 <= f.len(),
    decreases f.len() - off,
{
    if off + 2 <= f.len() && be16(f, off) == 0x8100 && off + 4 <= f.len() {
        lemma_vlan_walk_bound(f, off + 4);
    }
}

proof fn lemma_l4_spec_sound(f: Seq<u8>, l4_start: int, l4_len: int)
    requires
        0 <= l4_start,
        f.len() <= usize::MAX,
    ensures
        tcp_spec(f, l4_start, l4_len) matches Some(l4) ==> {
            &&& l4.proto == L4Proto::Tcp
            &&& l4.header_start == l4_start
            &&& l4.header_start + l4.header_len == l4.payload_start
            &&& l4.payload_start <= f.len()
            &&& 20 <= l4.header_len <= 60
            &&& l4.header_len % 4 == 0
        },
        udp_spec(f, l4_start, l4_len) matches Some(l4) ==> {
            &&& l4.proto == L4Proto::Udp
            &&& l4.header_start == l4_start
            &&& l4.header_start + l4.header_len == l4.payload_start
            &&& l4.payload_start <= f.len()
            &&& l4.header_len == 8
        },
{
}

proof fn lemma_ipv6_walk_sound(f: Seq<u8>, next: u8, off: int, end: int)
    requires
        0 <= off,
        f.len() <= usize::MAX,
    ensures
        ipv6_walk(f, next, off, end) matches Some(l4) ==> {
            &&& l4.header_start >= off
            &&& l4.header_start + l4.header_len == l4.payload_start
            &&& l4.payload_start <= f.len()
            &&& (l4.proto == L4Proto::Tcp ==> 20 <= l4.header_len <= 60 && l4.header_len % 4 == 0)
            &&& (l4.proto == L4Proto::Udp ==> l4.header_len == 8)
        },
    decreases end - off,
{
    lemma_l4_spec_sound(f, off, end - off);
    if off < end && next != 6 && next != 17 && off + 2 <= end {
        if next == 0 || next == 43 || next == 44 || next == 60 {
            let ext_len = (f[off + 1] as int + 1) * 8;
            if off + ext_len <= end {
                lemma_ipv6_walk_sound(f, f[off], off + ext_len, end);
            }
        } else if next == 51 {
            let ext_len = (f[off + 1] as int + 2) * 4;
            if off + ext_len <= end {
                lemma_ipv6_walk_sound(f, f[off], off + ext_len, end);
            }
        }
    }
}

/// Every layout the format yields has its headers inside the frame.
pub proof fn lemma_frame_layout_sound(f: Seq<u8>)
    requires
        f.len() >= 14,
        f.len() <= usize::MAX,
    ensures
        layout_sound(f, frame_layout(f)),
{
    lemma_vlan_walk_bound(f, 12);
    if let Some((et, l3)) = l2_spec(f) {
        assert(l3 >= 0) by {
            lemma_vlan_walk_lower(f, 12);
        }
        if et == 0x0800 {
            if f.len() >= l3 + 20 && f[l3] / 16 == 4 {
                let ihl = (f[l3] % 16) as int * 4;
                lemma_l4_spec_sound(f, l3 + ihl, sat_sub(be16(f, l3 + 2) as int, ihl));
            }
        } else if et == 0x86dd {
            if f.len() >= l3 + 40 && f[l3] / 16 == 6 {
                let end = min_int(l3 + 40 + be16(f, l3 + 4), f.len() as int);
                lemma_ipv6_walk_sound(f, f[l3 + 6], l3 + 40, end);
            }
        }
    }
}

pub proof fn lemma_vlan_walk_lower(f: Seq<u8>, off: int)
    requires
        off >= 0,
    ensures
        vlan_walk(f, off) matches Some((_, l3)) ==> l3 >= off + 2,
    decreases f.len() - off,
{
    if off + 2 <= f.len() && be16(f, off) == 0x8100 && off + 4 <= f.len() {
        lemma_vlan_walk_lower(f, off + 4);
    }
}


/// The VLAN walk reads only the tag bytes before the L3 start it finds.
pub proof fn lemma_vlan_walk_agree(f: Seq<u8>, g: Seq<u8>, off: int)
    requires
        off >= 0,
        vlan_walk(f, off) matches Some((_, l3)) && l3 <= g.len() && (forall|i: int|
            off <= i < l3 ==> #[trigger] g[i] == f[i]),
    ensures
        vlan_walk(g, off) == vlan_walk(f, off),
    decreases f.len() - off,
{
    let l3 = vlan_walk(f, off).unwrap().1;
    lemma_vlan_walk_lower(f, off);
    assert(g[off] == f[off] && g[off + 1] == f[off + 1]);
    if be16(f, off) == 0x8100 {
        lemma_vlan_walk_lower(f, off + 4);
        assert(g[off] == f[off]);
        lemma_vlan_walk_agree(f, g, off + 4);
    }
}

/// Where the IPv6 walk finds the transport header: at or after `off`, and inside `end`.
pub proof fn lemma_ipv6_walk_start(f: Seq<u8>, next: u8, off: int, end: int)
    requires
        0 <= off,
        end <= f.len(),
        f.len() <= usize::MAX,
    ensures
        ipv6_walk(f, next, off, end) matches Some(l4) ==> off <= l4.header_start
            && l4.header_start + l4.header_len <= end && l4.header_start + l4.header_len
            == l4.payload_start,
    decreases end - off,
{
    if off < end && next != 6 && next != 17 && off + 2 <= end {
        if next == 0 || next == 43 || next == 44 || next == 60 {
            let ext_len = (f[off + 1] as int + 1) * 8;
            if off + ext_len <= end {
                lemma_ipv6_walk_start(f, f[off], off + ext_len, end);
            }
        } else if next == 51 {
            let ext_len = (f[off + 1] as int + 2) * 4;
            if off + ext_len <= end {
                lemma_ipv6_walk_start(f, f[off], off + ext_len, end);
            }
        }
    }
}

/// The IPv6 walk reads only the extension headers before the transport header it finds,
/// and that header's ports (and, for TCP, its data offset); its bound only has to leave
/// room for the transport header.
pub proof fn lemma_ipv6_walk_agree(f: Seq<u8>, g: Seq<u8>, next: u8, off: int, end1: int, end2: int)
    requires
        0 <= off,
        end1 <= f.len(),
        end2 <= g.len(),
        f.len() <= usize::MAX,
        ipv6_walk(f, next, off, end1) matches Some(l4) && {
            &&& l4.header_start + l4.header_len <= end2
            &&& forall|i: int| off <= i < l4.header_start + 4 ==> #[trigger] g[i] == f[i]
            &&& l4.proto == L4Proto::Tcp ==> g[l4.header_start + 12] == f[l4.header_start + 12]
        },
    ensures
        ipv6_walk(g, next, off, end2) == ipv6_walk(f, next, off, end1),
    decreases end1 - off,
{
    let l4 = ipv6_walk(f, next, off, end1).unwrap();
    lemma_ipv6_walk_start(f, next, off, end1);
    if next == 6 || next == 17 {
        assert(g[off] == f[off] && g[off + 1] == f[off + 1]);
        assert(g[off + 2] == f[off + 2] && g[off + 3] == f[off + 3]);
    } else {
        let ext_len = if next == 51 {
            (f[off + 1] as int + 2) * 4
        } else {
            (f[off + 1] as int + 1) * 8
        };
        lemma_ipv6_walk_start(f, f[off], off + ext_len, end1);
        assert(g[off] == f[off] && g[off + 1] == f[off + 1]);
        lemma_ipv6_walk_agree(f, g, f[off], off + ext_len, end1, end2);
    }
}

// ---------------------------------------------------------------------------
// 802.1Q tags do not change what is parsed
// ---------------------------------------------------------------------------
/// `f` with one 802.1Q tag (TPID 0x8100, then the tag control bytes) inserted after the
/// MAC addresses.
pub open spec fn with_vlan_tag(f: Seq<u8>, tci_hi: u8, tci_lo: u8) -> Seq<u8> {
    f.take(12) + seq![0x81u8, 0x00u8, tci_hi, tci_lo] + f.skip(12)
}

/// `g` holds `f`'s bytes from offset 12 on, four bytes later.
pub open spec fn shifted_by_tag(f: Seq<u8>, g: Seq<u8>) -> bool {
    &&& g.len() == f.len() + 4
    &&& forall|j: int| 12 <= j < f.len() ==> g[j + 4] == #[trigger] f[j]
}

pub open spec fn shift_l4(l4: Option<L4Info>, d: int) -> Option<L4Info> {
    match l4 {
        None => None,
        Some(x) => Some(
            L4Info {
                proto: x.proto,
                sport: x.sport,
                dport: x.dport,
                header_start: (x.header_start + d) as usize,
                header_len: x.header_len,
                payload_start: (x.payload_start + d) as usize,
            },
        ),
    }
}

/// A layout with every frame offset moved `d` bytes later.
pub open spec fn shift_layout(lay: FrameLayout, d: int) -> FrameLayout {
    FrameLayout {
        ip_start: (lay.ip_start + d) as usize,
        ip_header_len: lay.ip_header_len,
        is_ipv6: lay.is_ipv6,
        l4: shift_l4(lay.l4, d),
    }
}

proof fn lemma_vlan_walk_shift(f: Seq<u8>, g: Seq<u8>, off: int)
    requires
        shifted_by_tag(f, g),
        off >= 12,
    ensures
        vlan_walk(g, off + 4) == match vlan_walk(f, off) {
            None => None,
            Some((e, l)) => Some((e, l + 4)),
        },
    decreases f.len() - off,
{
    if off + 2 <= f.len() {
        assert(g[off + 4] == f[off] && g[off + 5] == f[off + 1]);
        if be16(f, off) == 0x8100 && off + 4 <= f.len() {
            lemma_vlan_walk_shift(f, g, off + 4);
        }
    }
}

proof fn lemma_tcp_udp_spec_shift(f: Seq<u8>, g: Seq<u8>, s: int, l: int)
    requires
        shifted_by_tag(f, g),
        12 <= s <= f.len(),
        f.len() + 4 <= usize::MAX,
    ensures
        tcp_spec(g, s + 4, l) == shift_l4(tcp_spec(f, s, l), 4),
        udp_spec(g, s + 4, l) == shift_l4(udp_spec(f, s, l), 4),
{
    if s + 8 <= f.len() {
        assert(g[s + 4] == f[s] && g[s + 5] == f[s + 1] && g[s + 6] == f[s + 2] && g[s + 7]
            == f[s + 3]);
    }
    if s + 20 <= f.len() {
        assert(g[s + 16] == f[s + 12]);
    }
}

proof fn lemma_ipv4_spec_shift(f: Seq<u8>, g: Seq<u8>, ip: int)
    requires
        shifted_by_tag(f, g),
        12 <= ip <= f.len(),
        f.len() + 4 <= usize::MAX,
    ensures
        ipv4_spec(g, ip + 4) == shift_layout(ipv4_spec(f, ip), 4),
{
    if ip + 20 <= f.len() {
        assert(g[ip + 4] == f[ip]);
        assert(g[ip + 13] == f[ip + 9]);
        assert(g[ip + 6] == f[ip + 2] && g[ip + 7] == f[ip + 3]);
        let ihl = (f[ip] % 16) as int * 4;
        if ip + ihl <= f.len() {
            let l4_in_ip = sat_sub(be16(f, ip + 2) as int, ihl);
            lemma_tcp_udp_spec_shift(f, g, ip + ihl, l4_in_ip);
        }
    }
}

proof fn lemma_ipv6_walk_shift(f: Seq<u8>, g: Seq<u8>, next: u8, off: int, end: int)
    requires
        shifted_by_tag(f, g),
        12 <= off,
        end <= f.len(),
        f.len() + 4 <= usize::MAX,
    ensures
        ipv6_walk(g, next, off + 4, end + 4) == shift_l4(ipv6_walk(f, next, off, end), 4),
    decreases end - off,
{
    if off < end {
        if next == 6 || next == 17 {
            lemma_tcp_udp_spec_shift(f, g, off, end - off);
        } else if off + 2 <= end {
            assert(g[off + 4] == f[off] && g[off + 5] == f[off + 1]);
            if next == 0 || next == 43 || next == 44 || next == 60 {
                let ext_len = (f[off + 1] as int + 1) * 8;
                if off + ext_len <= end {
                    lemma_ipv6_walk_shift(f, g, f[off], off + ext_len, end);
                }
            } else if next == 51 {
                let ext_len = (f[off + 1] as int + 2) * 4;
                if off + ext_len <= end {
                    lemma_ipv6_walk_shift(f, g, f[off], off + ext_len, end);
                }
            }
        }
    }
}

proof fn lemma_ipv6_spec_shift(f: Seq<u8>, g: Seq<u8>, ip: int)
    requires
        shifted_by_tag(f, g),
        12 <= ip <= f.len(),
        f.len() + 4 <= usize::MAX,
    ensures
        ipv6_spec(g, ip + 4) == shift_layout(ipv6_spec(f, ip), 4),
{
    if ip + 40 <= f.len() {
        assert(g[ip + 4] == f[ip]);
        assert(g[ip + 10] == f[ip + 6]);
        assert(g[ip + 8] == f[ip + 4] && g[ip + 9] == f[ip + 5]);
        if f[ip] / 16 == 6 {
            let end = min_int(ip + 40 + be16(f, ip + 4), f.len() as int);
            lemma_ipv6_walk_shift(f, g, f[ip + 6], ip + 40, end);
        }
    }
}

/// An 802.1Q tag in front of the ethertype does not change what is parsed: the tagged
/// frame has the same layout, IPv4 or IPv6, with every offset four bytes later (and a
/// frame with no IP layer still has none).
pub proof fn law_vlan_tag_shifts_layout(f: Seq<u8>, tci_hi: u8, tci_lo: u8)
    requires
        14 <= f.len(),
        f.len() + 4 <= usize::MAX,
    ensures
        frame_layout(with_vlan_tag(f, tci_hi, tci_lo)) == if (l2_spec(f) matches Some((et, _))
            && (et == 0x0800 || et == 0x86dd)) {
            shift_layout(frame_layout(f), 4)
        } else {
            frame_layout(f)
        },
{
    let g = with_vlan_tag(f, tci_hi, tci_lo);
    assert forall|j: int| 12 <= j < f.len() implies g[j + 4] == #[trigger] f[j] by {
        assert(g[j + 4] == f.skip(12)[j - 12]);
    }
    assert(g[12] == 0x81 && g[13] == 0x00);
    assert(be16(g, 12) == 0x8100);
    lemma_vlan_walk_shift(f, g, 12);
    assert(l2_spec(g) == vlan_walk(g, 16));
    if let Some((et, l3)) = l2_spec(f) {
        lemma_vlan_walk_lower(f, 12);
        lemma_vlan_walk_bound(f, 12);
        if et == 0x0800 {
            lemma_ipv4_spec_shift(f, g, l3);
        } else if et == 0x86dd {
            lemma_ipv6_spec_shift(f, g, l3);
        }
    }
}

/// The source-route walk reads only the option bytes in `[i, end)`.
pub proof fn lemma_source_route_walk_local(b1: Seq<u8>, b2: Seq<u8>, i: int, end: int)
    requires
        0 <= i,
        end <= b1.len(),
        end <= b2.len(),
        i <= end ==> b1.subrange(i, end) == b2.subrange(i, end),
    ensures
        source_route_walk(b1, i, end) == source_route_walk(b2, i, end),
    decreases end - i,
{
    if i < end {
        assert(b1[i] == b1.subrange(i, end)[0]);
        assert(b2[i] == b2.subrange(i, end)[0]);
        if b1[i] == 1 {
            assert(b1.subrange(i + 1, end) =~= b1.subrange(i, end).subrange(1, end - i));
            assert(b2.subrange(i + 1, end) =~= b2.subrange(i, end).subrange(1, end - i));
            lemma_source_route_walk_local(b1, b2, i + 1, end);
        } else if i + 1 < end {
            assert(b1[i + 1] == b1.subrange(i, end)[1]);
            assert(b2[i + 1] == b2.subrange(i, end)[1]);
            let opt_len = b1[i + 1] as int;
            if opt_len >= 2 && i + opt_len <= end {
                let j = i + opt_len;
                if opt_len >= 7 {
                    assert(b1.subrange(j - 4, j) =~= b1.subrange(i, end).subrange(j - 4 - i, j - i));
                    assert(b2.subrange(j - 4, j) =~= b2.subrange(i, end).subrange(j - 4 - i, j - i));
                }
                assert(b1.subrange(j, end) =~= b1.subrange(i, end).subrange(j - i, end - i));
                assert(b2.subrange(j, end) =~= b2.subrange(i, end).subrange(j - i, end - i));
                lemma_source_route_walk_local(b1, b2, j, end);
            }
        }
    }
}

/// The pseudo-header destination depends only on the IPv4 header bytes.
pub proof fn lemma_pseudo_dst_local(b1: Seq<u8>, b2: Seq<u8>, ip: int, hl: int)
    requires
        0 <= ip,
        20 <= hl,
        ip + hl <= b1.len(),
        ip + hl <= b2.len(),
        b1.subrange(ip, ip + hl) == b2.subrange(ip, ip + hl),
    ensures
        pseudo_dst_spec(b1, ip, hl) == pseudo_dst_spec(b2, ip, hl),
{
    assert(b1.subrange(ip + 16, ip + 20) =~= b1.subrange(ip, ip + hl).subrange(16, 20));
    assert(b2.subrange(ip + 16, ip + 20) =~= b2.subrange(ip, ip + hl).subrange(16, 20));
    assert(b1.subrange(ip + 20, ip + hl) =~= b1.subrange(ip, ip + hl).subrange(20, hl));
    assert(b2.subrange(ip + 20, ip + hl) =~= b2.subrange(ip, ip + hl).subrange(20, hl));
    lemma_source_route_walk_local(b1, b2, ip + 20, ip + hl);
}


proof fn lemma_source_route_walk_len(b: Seq<u8>, i: int, end: int)
    requires
        0 <= i,
        end <= b.len(),
    ensures
        source_route_walk(b, i, end) matches Some(d) ==> d.len() == 4,
    decreases end - i,
{
    if i < end && b[i] == 1 {
        lemma_source_route_walk_len(b, i + 1, end);
    } else if i < end && b[i] != 0 && i + 1 < end {
        let opt_len = b[i + 1] as int;
        if opt_len >= 2 && i + opt_len <= end {
            lemma_source_route_walk_len(b, i + opt_len, end);
        }
    }
}

/// The pseudo-header destination is an IPv4 address (four bytes).
pub proof fn lemma_pseudo_dst_len(b: Seq<u8>, ip: int, hl: int)
    requires
        0 <= ip,
        ip + 20 <= b.len(),
        ip + hl <= b.len(),
    ensures
        pseudo_dst_spec(b, ip, hl).len() == 4,
{
    if hl > 20 {
        lemma_source_route_walk_len(b, ip + 20, ip + hl);
    }
}

impl<'a> ParsedFrame<'a> {
    pub open spec fn layout(&self) -> FrameLayout {
        FrameLayout {
            ip_start: self.ip_start,
            ip_header_len: self.ip_header_len,
            is_ipv6: self.is_ipv6,
            l4: self.l4,
        }
    }

    /// The IP length field that `payload` reads is inside the frame.
    pub open spec fn wf(&self) -> bool {
        self.l4 is Some ==> self.ip_start + (if self.is_ipv6 {
            6int
        } else {
            4int
        }) <= self.frame.len()
    }

    /// This is the frame's own parse.
    pub open spec fn is_parse_of(&self, f: Seq<u8>) -> bool {
        &&& self.frame@ == f
        &&& f.len() >= 14
        &&& self.layout() == frame_layout(f)
    }

    /// L4 payload bytes (claimed by IP and captured).
    pub fn payload(&self) -> (p: &'a [u8])
        requires
            self.wf(),
        ensures
            p@ == payload_spec(self.frame@, self.layout()),
    {
        let l4 = match self.l4 {
            Some(l4) => l4,
            None => {
                return &[];
            },
        };
        let plen = self.payload_len();
        let end = if plen >= self.frame.len() || l4.payload_start > self.frame.len() - plen {
            self.frame.len()
        } else {
            l4.payload_start + plen
        };
        if l4.payload_start >= end {
            return &[];
        }
        &self.frame[l4.payload_start..end]
    }

    fn payload_len(&self) -> (n: usize)
        requires
            self.wf(),
        ensures
            n == payload_len_spec(self.frame@, self.layout()),
    {
        let l4 = match self.l4 {
            Some(l4) => l4,
            None => {
                return 0;
            },
        };
        let l4_total = if self.is_ipv6 {
            let plen = self.frame[self.ip_start + 4] as usize * 256 + self.frame[self.ip_start
                + 5] as usize;
            let ext = if l4.header_start >= self.ip_start && l4.header_start - self.ip_start
                >= 40 {
                l4.header_start - self.ip_start - 40
            } else {
                0
            };
            if plen >= ext {
                plen - ext
            } else {
                0
            }
        } else {
            let ip_total = self.frame[self.ip_start + 2] as usize * 256
                + self.frame[self.ip_start + 3] as usize;
            if ip_total >= self.ip_header_len {
                ip_total - self.ip_header_len
            } else {
                0
            }
        };
        if l4_total >= l4.header_len {
            l4_total - l4.header_len
        } else {
            0
        }
    }
}

fn read_be16(f: &[u8], i: usize) -> (v: u16)
    requires
        i + 1 < f@.len(),
    ensures
        v as nat == be16(f@, i as int),
{
    f[i] as u16 * 256 + f[i + 1] as u16
}

/// IPv4 destination for the TCP/UDP pseudo-header: the final hop of a loose or strict
/// source route option (LSRR/SSRR) when there is one, else the header's destination.
pub fn ipv4_pseudo_dst(buf: &[u8], ip_start: usize, ip_header_len: usize) -> (dst: [u8; 4])
    requires
        ip_start + 20 <= buf.len(),
        ip_start + ip_header_len <= buf.len(),
    ensures
        dst@ == pseudo_dst_spec(buf@, ip_start as int, ip_header_len as int),
{
    let default = [buf[ip_start + 16], buf[ip_start + 17], buf[ip_start + 18], buf[ip_start + 19]];
    assert(default@ =~= buf@.subrange(ip_start + 16, ip_start + 20));
    if ip_header_len <= 20 {
        return default;
    }
    let mut i = ip_start + 20;
    let end = ip_start + ip_header_len;
    while i < end
        invariant
            ip_start + 20 <= i,
            ip_header_len > 20,
            default@ == buf@.subrange(ip_start + 16, ip_start + 20),
            end == ip_start + ip_header_len,
            end <= buf.len(),
            source_route_walk(buf@, i as int, end as int) == source_route_walk(
                buf@,
                ip_start + 20,
                end as int,
            ),
        decreases end - i,
    {
        let kind = buf[i];
        if kind == IP_OPT_EOL {
            return default;
        }
        if kind == IP_OPT_NOP {
            i += 1;
            continue;
        }
        if end - i <= 1 {
            return default;
        }
        let opt_len = buf[i + 1] as usize;
        if opt_len < 2 || opt_len > end - i {
            return default;
        }
        let ty = kind % 32;
        if ty == IP_OPT_LSRR || ty == IP_OPT_SSRR {
            let data_end = i + opt_len;
            if opt_len >= 7 {
                let last = data_end - 4;
                let d = [buf[last], buf[last + 1], buf[last + 2], buf[last + 3]];
                assert(d@ =~= buf@.subrange(last as int, data_end as int));
                return d;
            }
        }
        i += opt_len;
    }
    default
}

/// Walk 802.1Q tag stack; returns inner ethertype and L3 start offset.
fn l2_ethertype_and_l3_start(frame: &[u8]) -> (r: Option<(u16, usize)>)
    ensures
        r matches Some((_, l3)) ==> l3 <= frame.len(),
        match (r, l2_spec(frame@)) {
            (None, None) => true,
            (Some((et, l3)), Some((set, sl3))) => et as nat == set && l3 as int == sl3,
            _ => false,
        },
{
    if frame.len() < 14 {
        return None;
    }
    let mut off = 12usize;
    loop
        invariant
            12 <= off <= frame.len(),
            frame.len() >= 14,
            vlan_walk(frame@, off as int) == vlan_walk(frame@, 12),
        decreases frame@.len() - off,
    {
        if frame.len() - off < 2 {
            return None;
        }
        let ethertype = read_be16(frame, off);
        if ethertype != ETHERTYPE_VLAN {
            return Some((ethertype, off + 2));
        }
        if frame.len() - off < 4 {
            return None;
        }
        off += 4;
    }
}

/// The frames the fast path takes: untagged Ethernet carrying IPv4 with a 20-byte header,
/// not a fragment, captured as far as its total length claims, and with a 20-byte TCP
/// header, a UDP header, or another protocol whose header is not read.
pub open spec fn plain_ipv4_frame(f: Seq<u8>) -> bool {
    let l4_in_ip = sat_sub(be16(f, 16) as int, 20);
    &&& f.len() >= 54
    &&& f[12] == 0x08 && f[13] == 0x00
    &&& f[14] == 0x45
    &&& be16(f, 20) % 16384 == 0
    &&& be16(f, 16) <= f.len() - 14
    &&& (f[23] == 6 ==> l4_in_ip >= 20 && f[46] / 16 == 5)
    &&& (f[23] == 17 ==> l4_in_ip >= 8)
}

/// The fast path agrees with the general path: a frame it takes is untagged IPv4 at
/// offset 14, and its layout is the IPv4 parse at that offset.
pub proof fn law_fast_path_is_ipv4_path(f: Seq<u8>)
    requires
        plain_ipv4_frame(f),
    ensures
        l2_spec(f) == Some((0x0800nat, 14int)),
        frame_layout(f) == ipv4_spec(f, 14),
        frame_layout(f).ip_start == 14 && frame_layout(f).ip_header_len == 20,
        !frame_layout(f).is_ipv6,
{
    assert(be16(f, 12) == 0x0800);
    assert(vlan_walk(f, 12) == Some((0x0800nat, 14int)));
}

/// Fast path: untagged Ethernet, IPv4 IHL=5, no fragments, standard TCP (20 B) or UDP (8 B).
fn try_parse_ipv4_plain(frame: &[u8]) -> (r: Option<ParsedFrame<'_>>)
    ensures
        r is Some <==> plain_ipv4_frame(frame@),
        r matches Some(p) ==> p.frame@ == frame@ && frame@.len() >= 14 && p.layout() == frame_layout(
            frame@,
        ),
{
    if frame.len() < 54 {
        return None;
    }
    if frame[12] != 0x08 || frame[13] != 0x00 {
        return None;
    }
    let ip = 14usize;
    if frame[ip] != 0x45 {
        return None;
    }
    let flags = read_be16(frame, ip + 6);
    assert(flags & 0x3fff == flags % 16384) by (bit_vector);
    if flags & 0x3fff != 0 {
        return None;
    }
    let ip_total = read_be16(frame, ip + 2) as usize;
    if frame.len() - ip < ip_total {
        return None;
    }
    let proto = frame[ip + 9];
    let l4_start = ip + 20;
    let l4_in_ip = if ip_total >= 20 {
        ip_total - 20
    } else {
        0
    };
    assert(vlan_walk(frame@, 12) == Some((0x0800nat, 14int)));
    assert(frame@[14] / 16 == 4 && frame@[14] % 16 == 5);
    let l4 = if proto == IP_PROTO_TCP {
        if l4_in_ip < 20 || frame.len() < l4_start + 20 {
            return None;
        }
        if frame[l4_start + 12] / 16 != 5 {
            return None;
        }
        let sport = read_be16(frame, l4_start);
        let dport = read_be16(frame, l4_start + 2);
        Some(
            L4Info {
                proto: L4Proto::Tcp,
                sport,
                dport,
                header_start: l4_start,
                header_len: 20,
                payload_start: l4_start + 20,
            },
        )
    } else if proto == IP_PROTO_UDP {
        if l4_in_ip < 8 || frame.len() < l4_start + 8 {
            return None;
        }
        let sport = read_be16(frame, l4_start);
        let dport = read_be16(frame, l4_start + 2);
        Some(
            L4Info {
                proto: L4Proto::Udp,
                sport,
                dport,
                header_start: l4_start,
                header_len: 8,
                payload_start: l4_start + 8,
            },
        )
    } else {
        None
    };
    Some(ParsedFrame { frame, ip_start: ip, ip_header_len: 20, is_ipv6: false, l4 })
}

/// Parse L2–L4 offsets from an Ethernet frame. `l4` is `None` if IP/L4 headers are incomplete.
pub fn parse_frame(frame: &[u8]) -> (r: Result<ParsedFrame<'_>, ParseError>)
    ensures
        r is Err <==> frame@.len() < 14,
        r matches Ok(p) ==> p.is_parse_of(frame@),
{
    if frame.len() < 14 {
        return Err(ParseError::TooShort);
    }
    if let Some(parsed) = try_parse_ipv4_plain(frame) {
        return Ok(parsed);
    }
    let (ethertype, l3_start) = match l2_ethertype_and_l3_start(frame) {
        Some(x) => x,
        None => {
            return Ok(ParsedFrame { frame, ip_start: 0, ip_header_len: 0, is_ipv6: false, l4: None });
        },
    };
    if ethertype == ETHERTYPE_IPV4 {
        return Ok(parse_ipv4(frame, l3_start));
    }
    if ethertype == ETHERTYPE_IPV6 {
        return Ok(parse_ipv6(frame, l3_start));
    }
    Ok(ParsedFrame { frame, ip_start: 0, ip_header_len: 0, is_ipv6: false, l4: None })
}

fn parse_ipv4(frame: &[u8], ip_start: usize) -> (p: ParsedFrame<'_>)
    ensures
        p.frame@ == frame@,
        p.layout() == ipv4_spec(frame@, ip_start as int),
{
    if ip_start > frame.len() || frame.len() - ip_start < 20 {
        return ParsedFrame { frame, ip_start, ip_header_len: 0, is_ipv6: false, l4: None };
    }
    let version_ihl = frame[ip_start];
    if version_ihl / 16 != 4 {
        return ParsedFrame { frame, ip_start, ip_header_len: 0, is_ipv6: false, l4: None };
    }
    let ip_header_len = (version_ihl % 16) as usize * 4;
    if frame.len() - ip_start < ip_header_len {
        return ParsedFrame { frame, ip_start, ip_header_len, is_ipv6: false, l4: None };
    }
    let proto = frame[ip_start + 9];
    let ip_total = read_be16(frame, ip_start + 2) as usize;
    let l4_start = ip_start + ip_header_len;
    let l4_in_ip = if ip_total >= ip_header_len {
        ip_total - ip_header_len
    } else {
        0
    };
    let l4 = if proto == IP_PROTO_TCP {
        parse_tcp(frame, l4_start, l4_in_ip)
    } else if proto == IP_PROTO_UDP {
        parse_udp(frame, l4_start, l4_in_ip)
    } else {
        None
    };
    ParsedFrame { frame, ip_start, ip_header_len, is_ipv6: false, l4 }
}

fn walk_ipv6(frame: &[u8], first_next: u8, start: usize, payload_end: usize) -> (r: Option<L4Info>)
    requires
        payload_end <= frame@.len(),
    ensures
        r == ipv6_walk(frame@, first_next, start as int, payload_end as int),
{
    let mut next = first_next;
    let mut off = start;
    while off < payload_end
        invariant
            payload_end <= frame@.len(),
            ipv6_walk(frame@, next, off as int, payload_end as int) == ipv6_walk(
                frame@,
                first_next,
                start as int,
                payload_end as int,
            ),
        decreases payload_end - off,
    {
        if next == IP_PROTO_TCP {
            return parse_tcp(frame, off, payload_end - off);
        } else if next == IP_PROTO_UDP {
            return parse_udp(frame, off, payload_end - off);
        } else if next == IP6_NO_NEXT || next == IP6_ESP {
            return None;
        } else if next == IP6_HOP_BY_HOP || next == IP6_ROUTING || next == IP6_FRAGMENT || next
            == IP6_DEST_OPTS {
            if payload_end - off < 2 {
                return None;
            }
            let ext_len = (frame[off + 1] as usize + 1) * 8;
            if ext_len < 8 || ext_len > payload_end - off {
                return None;
            }
            next = frame[off];
            off += ext_len;
        } else if next == IP6_AH {
            if payload_end - off < 2 {
                return None;
            }
            let ext_len = (frame[off + 1] as usize + 2) * 4;
            if ext_len > payload_end - off {
                return None;
            }
            next = frame[off];
            off += ext_len;
        } else {
            return None;
        }
    }
    None
}

/// Whether the IPv6 packet at `ip_start` carries a Fragment header in its header chain.
pub fn ipv6_fragmented_at(frame: &[u8], ip_start: usize) -> (r: bool)
    ensures
        r == ipv6_fragmented(frame@, ip_start as int),
{
    if frame.len() < 40 || ip_start > frame.len() - 40 {
        return false;
    }
    let plen = read_be16(frame, ip_start + 4) as usize;
    let start = ip_start + 40;
    let end = if plen <= frame.len() - start {
        start + plen
    } else {
        frame.len()
    };
    let first_next = frame[ip_start + 6];
    assert(ipv6_fragmented(frame@, ip_start as int) == ipv6_chain_has_fragment(
        frame@,
        first_next,
        start as int,
        end as int,
    ));
    let mut next = first_next;
    let mut off = start;
    while off < end
        invariant
            end <= frame@.len(),
            ipv6_fragmented(frame@, ip_start as int) == ipv6_chain_has_fragment(
                frame@,
                first_next,
                start as int,
                end as int,
            ),
            ipv6_chain_has_fragment(frame@, next, off as int, end as int)
                == ipv6_chain_has_fragment(frame@, first_next, start as int, end as int),
        decreases end - off,
    {
        if next == IP6_FRAGMENT {
            return true;
        } else if next == IP6_HOP_BY_HOP || next == IP6_ROUTING || next == IP6_DEST_OPTS {
            if end - off < 2 {
                return false;
            }
            let ext_len = (frame[off + 1] as usize + 1) * 8;
            if ext_len > end - off {
                return false;
            }
            next = frame[off];
            off += ext_len;
        } else if next == IP6_AH {
            if end - off < 2 {
                return false;
            }
            let ext_len = (frame[off + 1] as usize + 2) * 4;
            if ext_len > end - off {
                return false;
            }
            next = frame[off];
            off += ext_len;
        } else {
            return false;
        }
    }
    false
}

fn parse_ipv6(frame: &[u8], ip_start: usize) -> (p: ParsedFrame<'_>)
    ensures
        p.frame@ == frame@,
        p.layout() == ipv6_spec(frame@, ip_start as int),
{
    if ip_start > frame.len() || frame.len() - ip_start < IP6_HDR {
        return ParsedFrame { frame, ip_start, ip_header_len: IP6_HDR, is_ipv6: true, l4: None };
    }
    if frame[ip_start] / 16 != 6 {
        return ParsedFrame { frame, ip_start, ip_header_len: IP6_HDR, is_ipv6: true, l4: None };
    }
    let plen = read_be16(frame, ip_start + 4) as usize;
    let payload_end = if frame.len() - (ip_start + IP6_HDR) < plen {
        frame.len()
    } else {
        ip_start + IP6_HDR + plen
    };
    let l4 = walk_ipv6(frame, frame[ip_start + 6], ip_start + IP6_HDR, payload_end);
    ParsedFrame { frame, ip_start, ip_header_len: IP6_HDR, is_ipv6: true, l4 }
}

fn parse_tcp(frame: &[u8], l4_start: usize, l4_len: usize) -> (r: Option<L4Info>)
    ensures
        r == tcp_spec(frame@, l4_start as int, l4_len as int),
{
    if l4_start > frame.len() || frame.len() - l4_start < 20 || l4_len < 20 {
        return None;
    }
    let data_offset = (frame[l4_start + 12] / 16) as usize * 4;
    if data_offset < 20 || frame.len() - l4_start < data_offset {
        return None;
    }
    if l4_len < data_offset {
        return None;
    }
    let sport = read_be16(frame, l4_start);
    let dport = read_be16(frame, l4_start + 2);
    Some(
        L4Info {
            proto: L4Proto::Tcp,
            sport,
            dport,
            header_start: l4_start,
            header_len: data_offset,
            payload_start: l4_start + data_offset,
        },
    )
}

fn parse_udp(frame: &[u8], l4_start: usize, l4_len: usize) -> (r: Option<L4Info>)
    ensures
        r == udp_spec(frame@, l4_start as int, l4_len as int),
{
    if l4_start > frame.len() || frame.len() - l4_start < UDP_HDR || l4_len < UDP_HDR {
        return None;
    }
    let sport = read_be16(frame, l4_start);
    let dport = read_be16(frame, l4_start + 2);
    Some(
        L4Info {
            proto: L4Proto::Udp,
            sport,
            dport,
            header_start: l4_start,
            header_len: UDP_HDR,
            payload_start: l4_start + UDP_HDR,
        },
    )
}

} // verus!
