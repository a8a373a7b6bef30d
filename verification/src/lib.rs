//! pcap-slim: deterministic truncation of encrypted L4 payloads in pcaps.
//!
//! The verified library: frame parsing, the per-packet decision tree, payload
//! truncation with header and checksum rewriting, libpcap record framing, and the
//! decisions of the file-level coordination protocol.

pub mod testutil;

pub mod checksum;
pub mod coord;
pub mod limit;
pub mod mmap_policy;
pub mod output;
pub mod packet;
pub mod parse;
pub mod pcap_io;
pub mod policy;
pub mod truncate;

pub use packet::{process_packet, PacketOutcome};
pub use pcap_io::{analyze_pcap_bytes, count_packets_bytes, slim_pcap_bytes, SlimStats};
pub use policy::{decide_action, Action};
