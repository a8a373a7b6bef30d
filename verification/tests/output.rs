use pcap_slim::coord::FileResult;
use pcap_slim::limit::IoBatcher;
use pcap_slim::output::{plan_worker_count, summarize, FileReport, FileStatus};
use pcap_slim::pcap_io::{cpu_tick_due, SlimStats};

#[test]
fn report_constructors() {
    let stats = SlimStats { in_pkts: 5, truncated: 5, kept: 0, in_bytes: 100, out_bytes: 60 };
    let ok = FileReport::ok("a.pcap", &stats, 7);
    assert_eq!(ok.status, FileStatus::Processed);
    assert_eq!(ok.truncated, Some(5));
    assert_eq!(ok.elapsed_ms, Some(7));
    let skip = FileReport::skipped_marker("b.pcap");
    assert_eq!(skip.status, FileStatus::SkippedMarker);
    assert_eq!(skip.in_pkts, None);
    let fail = FileReport::fail("c.pcap", "boom");
    assert_eq!(fail.error.as_deref(), Some("boom"));
}

#[test]
fn report_from_outcome() {
    let r = FileReport::from_outcome("x", &Ok((FileResult::Processed, None)), 1);
    assert_eq!(r.status, FileStatus::Fail);
    assert_eq!(r.error.as_deref(), Some("unexpected empty result"));
    let r = FileReport::from_outcome("x", &Err("bad".to_string()), 1);
    assert_eq!(r.error.as_deref(), Some("bad"));
    let r = FileReport::from_outcome("x", &Ok((FileResult::SkippedMarker, None)), 1);
    assert_eq!(r.status, FileStatus::SkippedMarker);
}

#[test]
fn summary_counts() {
    let stats = SlimStats { in_pkts: 1, truncated: 0, kept: 1, in_bytes: 1, out_bytes: 1 };
    let files = vec![
        FileReport::ok("a", &stats, 1),
        FileReport::fail("b", "e"),
        FileReport::skipped_marker("c"),
        FileReport::ok("d", &stats, 1),
    ];
    let s = summarize(&files, 9, true);
    assert_eq!((s.ok, s.skip, s.fail), (2, 1, 1));
    assert_eq!(s.elapsed_ms, 9);
    assert!(s.check_only);
}

#[test]
fn worker_count_bounds() {
    assert_eq!(plan_worker_count(0, 5), 1);
    assert_eq!(plan_worker_count(4, 2), 2);
    assert_eq!(plan_worker_count(2, 10), 2);
}

#[test]
fn io_batches_at_256k() {
    let mut b = IoBatcher::new();
    assert_eq!(b.add(0), None);
    assert_eq!(b.add(100_000), None);
    assert_eq!(b.add(200_000), Some(300_000));
    assert_eq!(b.pending, 0);
    assert_eq!(b.add(5), None);
    assert_eq!(b.flush(), Some(5));
    assert_eq!(b.flush(), None);
}

#[test]
fn cpu_tick_every_64_packets() {
    assert!(!cpu_tick_due(0));
    assert!(!cpu_tick_due(63));
    assert!(cpu_tick_due(64));
    assert!(cpu_tick_due(128));
}
