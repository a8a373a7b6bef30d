//! RFC 1071 Internet checksums for IPv4, TCP, and UDP.
//!
//! The mathematical model: a byte sequence is read as big-endian 16-bit words
//! (an odd trailing byte is padded with a zero low byte); `word_sum` adds them up
//! as a natural number, and `fold16` is the end-around-carry reduction to 16 bits.
//! The checksum written on the wire is the one's complement of the folded sum.

use vstd::prelude::*;
use vstd::arithmetic::div_mod::{
    lemma_fundamental_div_mod, lemma_mod_multiples_vanish, lemma_small_mod,
    lemma_add_mod_noop, lemma_sub_mod_noop,
};

verus! {

/// Sum of the big-endian 16-bit words of `s` (odd tail byte is the high byte of a last word).
pub open spec fn word_sum(s: Seq<u8>) -> nat
    decreases s.len(),
{
    if s.len() == 0 {
        0
    } else if s.len() == 1 {
        s[0] as nat * 256
    } else {
        (s[0] as nat * 256 + s[1] as nat) + word_sum(s.skip(2))
    }
}

/// End-around-carry reduction: repeatedly add the high half to the low 16 bits.
pub open spec fn fold16(x: nat) -> nat
    decreases x,
{
    if x < 65536 {
        x
    } else {
        proof {
            lemma_fold_step(x);
        }
        fold16((x % 65536 + x / 65536) as nat)
    }
}

/// One's complement of a folded sum, as a 16-bit value.
pub open spec fn complement16(folded: nat) -> int {
    65535 - folded
}

/// RFC 1071 checksum of a byte sequence.
pub open spec fn inet_csum(s: Seq<u8>) -> int {
    complement16(fold16(word_sum(s)))
}

/// Length field of a pseudo-header: the segment length as a 16-bit value (IPv4)
/// or the four big-endian bytes of it as a 32-bit value (IPv6).
pub open spec fn be_u16_bytes(v: nat) -> Seq<u8> {
    seq![((v / 256) % 256) as u8, (v % 256) as u8]
}

pub open spec fn be_u32_bytes(v: nat) -> Seq<u8> {
    seq![
        ((v / 16777216) % 256) as u8,
        ((v / 65536) % 256) as u8,
        ((v / 256) % 256) as u8,
        (v % 256) as u8,
    ]
}

/// IPv4 pseudo-header: source, destination, zero, protocol, 16-bit segment length.
pub open spec fn pseudo_header_v4(src: Seq<u8>, dst: Seq<u8>, proto: u8, seg_len: nat) -> Seq<u8> {
    src + dst + seq![0u8, proto] + be_u16_bytes(seg_len % 65536)
}

/// TCP/UDP checksum over an IPv4 pseudo-header and a segment.
pub open spec fn transport_csum_v4(src: Seq<u8>, dst: Seq<u8>, proto: u8, seg: Seq<u8>) -> int {
    complement16(
        fold16(
            fold16(word_sum(pseudo_header_v4(src, dst, proto, seg.len())))
                + fold16(word_sum(seg)),
        ),
    )
}

/// TCP/UDP checksum over an IPv6 pseudo-header and a segment.
pub open spec fn transport_csum_v6(src: Seq<u8>, dst: Seq<u8>, proto: u8, seg: Seq<u8>) -> int {
    complement16(
        fold16(
            fold16(word_sum(src)) + fold16(word_sum(dst))
                + fold16(word_sum(be_u32_bytes(seg.len() % 4294967296))) + proto as nat
                + fold16(word_sum(seg)),
        ),
    )
}

/// Value that goes on the wire for a UDP checksum (zero is sent as all ones).
pub open spec fn udp_wire(sum: int) -> int {
    if sum == 0 {
        0xffff
    } else {
        sum
    }
}

/// `s` with the 16-bit big-endian value `v` written at offset `k`.
pub open spec fn put16(s: Seq<u8>, k: int, v: int) -> Seq<u8> {
    s.update(k, ((v / 256) % 256) as u8).update(k + 1, (v % 256) as u8)
}

// ---------------------------------------------------------------------------
// Lemmas about the model
// ---------------------------------------------------------------------------
pub proof fn lemma_fold_step(x: nat)
    requires
        x >= 65536,
    ensures
        x % 65536 + x / 65536 < x,
        ((x % 65536 + x / 65536) as int) % 65535 == (x as int) % 65535,
{
    let q = x as int / 65536;
    let r = x as int % 65536;
    lemma_fundamental_div_mod(x as int, 65536);
    assert(x as int == 65536 * q + r);
    assert(q >= 1);
    assert(x as int == 65535 * q + (q + r));
    lemma_mod_multiples_vanish(q, q + r, 65535);
}

/// The folded sum is at most 16 bits, at most the input, congruent to it modulo
/// 0xffff, and zero only for a zero input.
pub proof fn lemma_fold16(x: nat)
    ensures
        fold16(x) <= 65535,
        fold16(x) <= x,
        (fold16(x) as int) % 65535 == (x as int) % 65535,
        x > 0 ==> fold16(x) > 0,
    decreases x,
{
    if x >= 65536 {
        lemma_fold_step(x);
        let y = (x % 65536 + x / 65536) as nat;
        lemma_fold16(y);
        assert(x / 65536 >= 1);
    }
}

/// A positive multiple of 0xffff folds to 0xffff.
proof fn lemma_fold16_of_multiple(x: nat)
    requires
        x > 0,
        (x as int) % 65535 == 0,
    ensures
        fold16(x) == 65535,
{
    lemma_fold16(x);
    let f = fold16(x);
    if f < 65535 {
        lemma_small_mod(f, 65535);
        assert(false);
    }
}

proof fn lemma_fold16_small(x: nat)
    requires
        x < 65536,
    ensures
        fold16(x) == x,
{
}

/// Words of `s` from an even offset.
proof fn lemma_word_sum_skip(s: Seq<u8>, i: int)
    requires
        0 <= i,
        i + 1 < s.len(),
    ensures
        word_sum(s.skip(i)) == (s[i] as nat * 256 + s[i + 1] as nat) + word_sum(s.skip(i + 2)),
{
    assert(s.skip(i).skip(2) =~= s.skip(i + 2));
}

/// Each word is at most 0xffff, and there are at most `len` of them.
pub proof fn lemma_word_sum_bound(s: Seq<u8>)
    ensures
        word_sum(s) <= 65535 * s.len(),
    decreases s.len(),
{
    if s.len() >= 2 {
        lemma_word_sum_bound(s.skip(2));
    }
}

/// Overwriting the word at an even offset changes the sum by the difference of the words.
pub proof fn lemma_word_sum_put16(s: Seq<u8>, k: int, v: int)
    requires
        0 <= k,
        k + 1 < s.len(),
        k % 2 == 0,
        0 <= v < 65536,
    ensures
        word_sum(put16(s, k, v)) + (s[k] as nat * 256 + s[k + 1] as nat) == word_sum(s) + v,
    decreases k,
{
    let t = put16(s, k, v);
    assert(t.len() == s.len());
    if k == 0 {
        assert(t.skip(2) =~= s.skip(2));
        assert(t[0] as int * 256 + t[1] as int == v);
    } else {
        assert(t.skip(2) =~= put16(s.skip(2), k - 2, v));
        lemma_word_sum_put16(s.skip(2), k - 2, v);
    }
}

/// Word sum of a concatenation whose first part has even length.
pub proof fn lemma_word_sum_concat(a: Seq<u8>, b: Seq<u8>)
    requires
        a.len() % 2 == 0,
    ensures
        word_sum(a + b) == word_sum(a) + word_sum(b),
    decreases a.len(),
{
    if a.len() > 0 {
        assert((a + b).skip(2) =~= a.skip(2) + b);
        lemma_word_sum_concat(a.skip(2), b);
    } else {
        assert(a + b =~= b);
    }
}

proof fn lemma_cong_add(a: int, b: int, c: int, d: int)
    requires
        a % 65535 == b % 65535,
        c % 65535 == d % 65535,
    ensures
        (a + c) % 65535 == (b + d) % 65535,
{
    lemma_add_mod_noop(a, c, 65535);
    lemma_add_mod_noop(b, d, 65535);
}

/// Adding the complement of a congruent folded value gives a multiple of 0xffff.
proof fn lemma_cancel(x: int, g: int)
    requires
        x % 65535 == g % 65535,
    ensures
        (x + (65535 - g)) % 65535 == 0,
{
    lemma_sub_mod_noop(x, g, 65535);
    assert((x - g) % 65535 == 0);
    lemma_mod_multiples_vanish(1, x - g, 65535);
    assert(x + (65535 - g) == 65535 * 1 + (x - g));
}

/// A checksum value and the value that is put on the wire in its place are congruent.
proof fn lemma_wire_congruent(c: int, w: int)
    requires
        0 <= c <= 65535,
        w == c || w == udp_wire(c),
    ensures
        w % 65535 == c % 65535,
        0 <= w <= 65535,
{
    if w != c {
        assert(c == 0 && w == 65535);
    }
}

proof fn lemma_word_sum_put16_zero(s: Seq<u8>, k: int, v: int)
    requires
        0 <= k,
        k + 1 < s.len(),
        k % 2 == 0,
        s[k] == 0,
        s[k + 1] == 0,
        0 <= v < 65536,
    ensures
        word_sum(put16(s, k, v)) == word_sum(s) + v,
        put16(s, k, v).len() == s.len(),
{
    lemma_word_sum_put16(s, k, v);
}

/// RFC 1071 verification: once the checksum of a message whose checksum field (an
/// even-aligned 16-bit word) is zero is written into that field, the checksum of the
/// whole message is zero.
pub proof fn law_checksum_verifies(s: Seq<u8>, k: int)
    requires
        0 <= k,
        k + 1 < s.len(),
        k % 2 == 0,
        s[k] == 0,
        s[k + 1] == 0,
    ensures
        inet_csum(put16(s, k, inet_csum(s))) == 0,
{
    let sum = word_sum(s);
    lemma_fold16(sum);
    let c = inet_csum(s);
    lemma_word_sum_put16_zero(s, k, c);
    let t = word_sum(put16(s, k, c));
    assert(t == sum + (65535 - fold16(sum)));
    lemma_cancel(sum as int, fold16(sum) as int);
    lemma_fold16_of_multiple(t);
}

proof fn lemma_pseudo_v4_positive(src: Seq<u8>, dst: Seq<u8>, proto: u8, n: nat)
    requires
        src.len() == 4,
        dst.len() == 4,
    ensures
        word_sum(pseudo_header_v4(src, dst, proto, n)) >= proto,
{
    let mid = seq![0u8, proto];
    let tail = be_u16_bytes(n % 65536);
    lemma_word_sum_concat(src, dst + mid + tail);
    lemma_word_sum_concat(dst, mid + tail);
    lemma_word_sum_concat(mid, tail);
    assert(src + dst + mid + tail =~= src + (dst + (mid + tail)));
    assert(dst + mid + tail =~= dst + (mid + tail));
    assert(mid.skip(2) =~= Seq::<u8>::empty());
}

/// TCP/UDP verification over IPv4: writing the computed checksum (or, for UDP, its
/// wire form) into the zeroed checksum field makes the segment check to zero.
pub proof fn law_transport_v4_checksum_verifies(
    src: Seq<u8>,
    dst: Seq<u8>,
    proto: u8,
    seg: Seq<u8>,
    k: int,
    w: int,
)
    requires
        src.len() == 4,
        dst.len() == 4,
        proto > 0,
        0 <= k,
        k + 1 < seg.len(),
        k % 2 == 0,
        seg[k] == 0,
        seg[k + 1] == 0,
        w == transport_csum_v4(src, dst, proto, seg) || w == udp_wire(
            transport_csum_v4(src, dst, proto, seg),
        ),
    ensures
        transport_csum_v4(src, dst, proto, put16(seg, k, w)) == 0,
{
    let a = word_sum(pseudo_header_v4(src, dst, proto, seg.len()));
    let s = word_sum(seg);
    lemma_fold16(a);
    lemma_fold16(s);
    let g = fold16(fold16(a) + fold16(s));
    lemma_fold16(fold16(a) + fold16(s));
    let c = 65535 - g;
    lemma_wire_congruent(c, w);
    lemma_word_sum_put16_zero(seg, k, w);
    let seg2 = put16(seg, k, w);
    let s2 = word_sum(seg2);
    assert(s2 == s + w);
    lemma_fold16(s2);
    let t = fold16(a) + fold16(s2);
    lemma_pseudo_v4_positive(src, dst, proto, seg.len());
    lemma_cong_add(fold16(a) as int, a as int, fold16(s2) as int, (s + w) as int);
    lemma_cong_add(fold16(a) as int, a as int, fold16(s) as int, s as int);
    lemma_cong_add((a + s) as int, g as int, w, c);
    lemma_cancel((a + s) as int, g as int);
    assert(t % 65535 == 0);
    lemma_fold16_of_multiple(t);
}

/// TCP/UDP verification over IPv6 (same statement with the IPv6 pseudo-header).
pub proof fn law_transport_v6_checksum_verifies(
    src: Seq<u8>,
    dst: Seq<u8>,
    proto: u8,
    seg: Seq<u8>,
    k: int,
    w: int,
)
    requires
        proto > 0,
        0 <= k,
        k + 1 < seg.len(),
        k % 2 == 0,
        seg[k] == 0,
        seg[k + 1] == 0,
        w == transport_csum_v6(src, dst, proto, seg) || w == udp_wire(
            transport_csum_v6(src, dst, proto, seg),
        ),
    ensures
        transport_csum_v6(src, dst, proto, put16(seg, k, w)) == 0,
{
    let a = word_sum(src);
    let b = word_sum(dst);
    let l = word_sum(be_u32_bytes(seg.len() % 4294967296));
    let s = word_sum(seg);
    lemma_fold16(a);
    lemma_fold16(b);
    lemma_fold16(l);
    lemma_fold16(s);
    let h = fold16(a) + fold16(b) + fold16(l) + proto as nat;
    let g = fold16(h + fold16(s));
    lemma_fold16(h + fold16(s));
    let c = 65535 - g;
    lemma_wire_congruent(c, w);
    lemma_word_sum_put16_zero(seg, k, w);
    let seg2 = put16(seg, k, w);
    let s2 = word_sum(seg2);
    lemma_fold16(s2);
    let t = h + fold16(s2);
    lemma_cong_add(h as int, h as int, fold16(s2) as int, (s + w) as int);
    lemma_cong_add(h as int, h as int, fold16(s) as int, s as int);
    lemma_cong_add((h + s) as int, g as int, w, c);
    lemma_cancel((h + s) as int, g as int);
    assert(t % 65535 == 0);
    lemma_fold16_of_multiple(t);
}

/// The folded sum depends only on the value modulo 0xffff and on whether it is zero.
proof fn lemma_fold16_unique(x: nat, y: nat)
    requires
        (x as int) % 65535 == (y as int) % 65535,
        x == 0 <==> y == 0,
    ensures
        fold16(x) == fold16(y),
{
    lemma_fold16(x);
    lemma_fold16(y);
    if x > 0 {
        let fx = fold16(x);
        let fy = fold16(y);
        if fx < 65535 {
            lemma_small_mod(fx, 65535);
        }
        if fy < 65535 {
            lemma_small_mod(fy, 65535);
        }
    }
}

/// The IPv4 TCP/UDP checksum is the Internet checksum of the 12-byte pseudo-header
/// (source address, destination address, a zero byte, the protocol, and the segment
/// length as a big-endian 16-bit number) followed by the segment.
pub proof fn law_transport_v4_is_pseudo_header_checksum(
    src: Seq<u8>,
    dst: Seq<u8>,
    proto: u8,
    seg: Seq<u8>,
)
    requires
        src.len() == 4,
        dst.len() == 4,
    ensures
        transport_csum_v4(src, dst, proto, seg) == inet_csum(
            src + dst + seq![
                0u8,
                proto,
                ((seg.len() % 65536) / 256) as u8,
                ((seg.len() % 65536) % 256) as u8,
            ] + seg,
        ),
{
    let n = seg.len() % 65536;
    let ph = src + dst + seq![0u8, proto, (n / 256) as u8, (n % 256) as u8];
    assert(ph =~= pseudo_header_v4(src, dst, proto, seg.len()));
    lemma_word_sum_concat(ph, seg);
    let a = word_sum(ph);
    let s = word_sum(seg);
    lemma_fold16(a);
    lemma_fold16(s);
    lemma_cong_add(fold16(a) as int, a as int, fold16(s) as int, s as int);
    lemma_fold16_unique(fold16(a) + fold16(s), a + s);
}

/// The IPv6 TCP/UDP checksum is the Internet checksum of the 40-byte pseudo-header
/// (source address, destination address, the segment length as a big-endian 32-bit
/// number, three zero bytes, the next-header value) followed by the segment.
pub proof fn law_transport_v6_is_pseudo_header_checksum(
    src: Seq<u8>,
    dst: Seq<u8>,
    proto: u8,
    seg: Seq<u8>,
)
    requires
        src.len() == 16,
        dst.len() == 16,
    ensures
        transport_csum_v6(src, dst, proto, seg) == inet_csum(
            src + dst + seq![
                ((seg.len() % 4294967296) / 16777216) as u8,
                (((seg.len() % 4294967296) / 65536) % 256) as u8,
                (((seg.len() % 4294967296) / 256) % 256) as u8,
                ((seg.len() % 4294967296) % 256) as u8,
                0u8,
                0u8,
                0u8,
                proto,
            ] + seg,
        ),
{
    let n = seg.len() % 4294967296;
    let lenb = seq![
        (n / 16777216) as u8,
        ((n / 65536) % 256) as u8,
        ((n / 256) % 256) as u8,
        (n % 256) as u8,
    ];
    assert(lenb =~= be_u32_bytes(n));
    let nh = seq![0u8, 0u8, 0u8, proto];
    let whole = src + dst + (lenb + nh) + seg;
    assert(src + dst + seq![
        (n / 16777216) as u8,
        ((n / 65536) % 256) as u8,
        ((n / 256) % 256) as u8,
        (n % 256) as u8,
        0u8,
        0u8,
        0u8,
        proto,
    ] + seg =~= whole);
    lemma_word_sum_concat(src, dst + (lenb + nh) + seg);
    assert(src + (dst + (lenb + nh) + seg) =~= whole);
    lemma_word_sum_concat(dst, (lenb + nh) + seg);
    assert(dst + ((lenb + nh) + seg) =~= dst + (lenb + nh) + seg);
    lemma_word_sum_concat(lenb, nh + seg);
    assert(lenb + (nh + seg) =~= (lenb + nh) + seg);
    lemma_word_sum_concat(nh, seg);
    let t = nh.skip(2);
    assert(t =~= seq![0u8, proto]);
    assert(t.skip(2) =~= Seq::<u8>::empty());
    assert(word_sum(t.skip(2)) == 0);
    assert(word_sum(t) == proto);
    assert(word_sum(nh) == proto);
    let a = word_sum(src);
    let b = word_sum(dst);
    let l = word_sum(lenb);
    let s = word_sum(seg);
    assert(word_sum(whole) == a + b + l + proto + s);
    lemma_fold16(a);
    lemma_fold16(b);
    lemma_fold16(l);
    lemma_fold16(s);
    lemma_cong_add(fold16(a) as int, a as int, fold16(b) as int, b as int);
    lemma_cong_add((fold16(a) + fold16(b)) as int, (a + b) as int, fold16(l) as int, l as int);
    lemma_cong_add(
        (fold16(a) + fold16(b) + fold16(l)) as int,
        (a + b + l) as int,
        proto as int,
        proto as int,
    );
    lemma_cong_add(
        (fold16(a) + fold16(b) + fold16(l) + proto) as int,
        (a + b + l + proto) as int,
        fold16(s) as int,
        s as int,
    );
    lemma_fold16_unique(
        fold16(a) + fold16(b) + fold16(l) + proto as nat + fold16(s),
        a + b + l + proto as nat + s,
    );
}


/// `put16` writes only the two bytes at `k`.
pub proof fn lemma_put16_index(s: Seq<u8>, k: int, v: int, i: int)
    requires
        0 <= k,
        k + 1 < s.len(),
        0 <= i < s.len(),
        i != k,
        i != k + 1,
    ensures
        put16(s, k, v)[i] == s[i],
        put16(s, k, v).len() == s.len(),
{
}

/// A window containing the written word sees the write at the shifted offset.
pub proof fn lemma_put16_window(s: Seq<u8>, k: int, v: int, a: int, b: int)
    requires
        0 <= a <= k,
        k + 1 < b <= s.len(),
    ensures
        put16(s, k, v).subrange(a, b) == put16(s.subrange(a, b), k - a, v),
{
    assert(put16(s, k, v).subrange(a, b) =~= put16(s.subrange(a, b), k - a, v));
}

/// A window not containing the written word does not see it.
pub proof fn lemma_put16_outside(s: Seq<u8>, k: int, v: int, a: int, b: int)
    requires
        0 <= a <= b <= s.len(),
        0 <= k,
        k + 1 < s.len(),
        k + 1 < a || k >= b,
    ensures
        put16(s, k, v).subrange(a, b) == s.subrange(a, b),
{
    assert(put16(s, k, v).subrange(a, b) =~= s.subrange(a, b));
}

/// Reading back a written word gives its low 16 bits.
pub proof fn lemma_put16_read(s: Seq<u8>, k: int, v: int)
    requires
        0 <= k,
        k + 1 < s.len(),
        0 <= v,
    ensures
        put16(s, k, v)[k] as int * 256 + put16(s, k, v)[k + 1] as int == v % 65536,
{
    let q = v / 256;
    let a = v % 256;
    lemma_fundamental_div_mod(v, 256);
    let c = q % 256;
    let d = q / 256;
    lemma_fundamental_div_mod(q, 256);
    assert(v == 65536 * d + (256 * c + a));
    vstd::arithmetic::div_mod::lemma_fundamental_div_mod_converse_mod(v, 65536, d, 256 * c + a);
}

// ---------------------------------------------------------------------------
// Executable checksum functions
// ---------------------------------------------------------------------------
/// One's complement sum of 16-bit words, folded to 16 bits (not inverted).
pub fn checksum_sum(data: &[u8]) -> (sum: u32)
    requires
        word_sum(data@) <= u32::MAX,
    ensures
        sum as nat == fold16(word_sum(data@)),
        sum <= 0xffff,
{
    let mut sum: u32 = 0;
    let mut i: usize = 0;
    assert(data@.skip(0) =~= data@);
    while data.len() - i > 1
        invariant
            i <= data.len(),
            sum as nat + word_sum(data@.skip(i as int)) == word_sum(data@),
            word_sum(data@) <= u32::MAX,
        decreases data.len() - i,
    {
        proof {
            lemma_word_sum_skip(data@, i as int);
        }
        sum += (data[i] as u32) * 256 + data[i + 1] as u32;
        i += 2;
    }
    if i < data.len() {
        assert(data@.skip(i as int).len() == 1);
        sum += (data[i] as u32) * 256;
    } else {
        assert(data@.skip(i as int).len() == 0);
    }
    let ghost total = sum as nat;
    assert(total == word_sum(data@));
    while sum >> 16 != 0
        invariant
            fold16(sum as nat) == fold16(total),
        decreases sum,
    {
        assert(sum >> 16 == sum / 65536 && sum & 0xffff == sum % 65536) by (bit_vector);
        assert(sum >= 65536) by (bit_vector)
            requires
                sum >> 16 != 0,
        ;
        proof {
            lemma_fold_step(sum as nat);
        }
        sum = (sum & 0xffff) + (sum >> 16);
    }
    assert(sum < 65536) by (bit_vector)
        requires
            sum >> 16 == 0,
    ;
    sum
}

fn finish(mut sum: u32) -> (csum: u16)
    ensures
        csum as int == complement16(fold16(sum as nat)),
{
    let ghost total = sum as nat;
    while sum >> 16 != 0
        invariant
            fold16(sum as nat) == fold16(total),
        decreases sum,
    {
        assert(sum >> 16 == sum / 65536 && sum & 0xffff == sum % 65536) by (bit_vector);
        assert(sum >= 65536) by (bit_vector)
            requires
                sum >> 16 != 0,
        ;
        proof {
            lemma_fold_step(sum as nat);
        }
        sum = (sum & 0xffff) + (sum >> 16);
    }
    assert(sum < 65536 && (!sum) as u16 == (65535 - sum) as u16) by (bit_vector)
        requires
            sum >> 16 == 0,
    ;
    !sum as u16
}

/// RFC 1071 checksum of `data`.
pub fn internet_checksum(data: &[u8]) -> (csum: u16)
    requires
        word_sum(data@) <= u32::MAX,
    ensures
        csum as int == inet_csum(data@),
{
    let s = checksum_sum(data);
    proof {
        lemma_fold16_small(s as nat);
    }
    finish(s)
}

/// IPv4 header checksum (header only, checksum field zeroed).
pub fn ipv4_header_checksum(header: &[u8]) -> (csum: u16)
    requires
        word_sum(header@) <= u32::MAX,
    ensures
        csum as int == inet_csum(header@),
{
    internet_checksum(header)
}

fn checksum_sum_pseudo_ipv4(src: [u8; 4], dst: [u8; 4], proto: u8, segment: &[u8]) -> (sum: u32)
    requires
        word_sum(segment@) <= u32::MAX,
    ensures
        sum as nat == fold16(
            fold16(word_sum(pseudo_header_v4(src@, dst@, proto, segment@.len())))
                + fold16(word_sum(segment@)),
        ),
        sum <= 0xffff,
{
    let len = (segment.len() % 65536) as u16;
    let ph: [u8; 12] = [
        src[0],
        src[1],
        src[2],
        src[3],
        dst[0],
        dst[1],
        dst[2],
        dst[3],
        0,
        proto,
        (len / 256) as u8,
        (len % 256) as u8,
    ];
    assert(ph@ =~= pseudo_header_v4(src@, dst@, proto, segment@.len()));
    proof {
        lemma_word_sum_bound(ph@);
    }
    let mut sum = checksum_sum(&ph) + checksum_sum(segment);
    let ghost total = sum as nat;
    while sum >> 16 != 0
        invariant
            fold16(sum as nat) == fold16(total),
        decreases sum,
    {
        assert(sum >> 16 == sum / 65536 && sum & 0xffff == sum % 65536) by (bit_vector);
        assert(sum >= 65536) by (bit_vector)
            requires
                sum >> 16 != 0,
        ;
        proof {
            lemma_fold_step(sum as nat);
        }
        sum = (sum & 0xffff) + (sum >> 16);
    }
    assert(sum < 65536) by (bit_vector)
        requires
            sum >> 16 == 0,
    ;
    sum
}

fn checksum_sum_pseudo_ipv6(src: [u8; 16], dst: [u8; 16], proto: u8, segment: &[u8]) -> (sum: u32)
    requires
        word_sum(segment@) <= u32::MAX,
    ensures
        sum as nat == fold16(
            fold16(word_sum(src@)) + fold16(word_sum(dst@))
                + fold16(word_sum(be_u32_bytes(segment@.len() % 4294967296))) + proto as nat
                + fold16(word_sum(segment@)),
        ),
        sum <= 0xffff,
{
    let n = ((segment.len() as u64) % 4294967296) as u32;
    let lenb: [u8; 4] = [
        (n / 16777216) as u8,
        ((n / 65536) % 256) as u8,
        ((n / 256) % 256) as u8,
        (n % 256) as u8,
    ];
    assert(lenb@ =~= be_u32_bytes(segment@.len() % 4294967296));
    proof {
        lemma_word_sum_bound(src@);
        lemma_word_sum_bound(dst@);
        lemma_word_sum_bound(lenb@);
    }
    let mut sum = checksum_sum(&src) + checksum_sum(&dst);
    sum += checksum_sum(&lenb);
    sum += proto as u32;
    sum += checksum_sum(segment);
    let ghost total = sum as nat;
    while sum >> 16 != 0
        invariant
            fold16(sum as nat) == fold16(total),
        decreases sum,
    {
        assert(sum >> 16 == sum / 65536 && sum & 0xffff == sum % 65536) by (bit_vector);
        assert(sum >= 65536) by (bit_vector)
            requires
                sum >> 16 != 0,
        ;
        proof {
            lemma_fold_step(sum as nat);
        }
        sum = (sum & 0xffff) + (sum >> 16);
    }
    assert(sum < 65536) by (bit_vector)
        requires
            sum >> 16 == 0,
    ;
    sum
}

/// TCP/UDP checksum over the IPv4 pseudo-header + segment.
pub fn transport_checksum_ipv4(src: [u8; 4], dst: [u8; 4], proto: u8, segment: &[u8]) -> (csum: u16)
    requires
        word_sum(segment@) <= u32::MAX,
    ensures
        csum as int == transport_csum_v4(src@, dst@, proto, segment@),
{
    let s = checksum_sum_pseudo_ipv4(src, dst, proto, segment);
    proof {
        lemma_fold16_small(s as nat);
    }
    finish(s)
}

/// TCP/UDP checksum over the IPv6 pseudo-header + segment.
pub fn transport_checksum_ipv6(src: [u8; 16], dst: [u8; 16], proto: u8, segment: &[u8]) -> (csum: u16)
    requires
        word_sum(segment@) <= u32::MAX,
    ensures
        csum as int == transport_csum_v6(src@, dst@, proto, segment@),
{
    let s = checksum_sum_pseudo_ipv6(src, dst, proto, segment);
    proof {
        lemma_fold16_small(s as nat);
    }
    finish(s)
}

/// Write UDP checksum; use 0xFFFF when computed checksum is zero.
pub fn udp_checksum_wire(sum: u16) -> (wire: u16)
    ensures
        wire as int == udp_wire(sum as int),
        wire != 0,
{
    if sum == 0 {
        0xffff
    } else {
        sum
    }
}

} // verus!
