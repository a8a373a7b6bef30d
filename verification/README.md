# pcap-slim

Slims libpcap captures in place: every packet keeps its timestamp and headers, and only
the encrypted L4 payloads (TLS application data, QUIC, IPsec, SSH past its banner) are cut
to their first 24 bytes, with the IP/UDP lengths and the IPv4/TCP/UDP checksums rewritten.

## Layout

- `src/` — the library, verified with Verus:
  - `parse.rs`: Ethernet/802.1Q → IPv4/IPv6 (extension headers) → TCP/UDP offsets, stated
    as spec functions over the frame bytes;
  - `policy.rs`: the per-packet decision tree;
  - `checksum.rs`: RFC 1071 checksums over a word-sum model;
  - `truncate.rs`: payload truncation with the length and checksum rewriting;
  - `packet.rs`, `pcap_io.rs`: per-packet outcome and libpcap record streams (slim,
    analyze, count);
  - `coord.rs`: marker paths, directory-entry rules, oldest-first order and the in-place
    protocol as a step function;
  - `output.rs`, `mmap_policy.rs`, `limit.rs`: reports, I/O mode, I/O byte batching;
  - `testutil.rs`: frame and capture builders.
- `app/` — the command-line program: file system and mmap I/O, worker threads, the
  floating-point CPU/I/O governors, JSON and human output.
- `tests/` — tests of the library.
