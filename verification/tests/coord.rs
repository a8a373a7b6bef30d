use pcap_slim::coord::{
    check_packet_count, in_place_start, is_old_enough, marker_path, in_place_step, is_pending_pcap_name, is_stale_tmp,
    is_tmp_pcap_name, order_by_mtime, CoordError, FileResult, InPlaceAction, InPlaceEvent,
    InPlaceState,
};
use pcap_slim::pcap_io::SlimStats;

#[test]
fn verify_tmp_packet_count_mismatch() {
    let err = check_packet_count(2, 1).unwrap_err();
    assert!(matches!(
        err,
        CoordError::PacketCountMismatch {
            expected: 2,
            out_count: 1
        }
    ));
    assert!(check_packet_count(3, 3).is_ok());
}

#[test]
fn name_filters() {
    assert!(is_tmp_pcap_name(b"stale.pcap.tmp"));
    assert!(!is_tmp_pcap_name(b"a.pcap"));
    assert!(is_pending_pcap_name(b"a.pcap"));
    assert!(!is_pending_pcap_name(b"a.pcap.tmp"));
    assert!(!is_pending_pcap_name(b"a.pcapng"));
    assert!(!is_pending_pcap_name(b"pcap"));
}

#[test]
fn stale_tmp_needs_old_mtime() {
    assert!(is_stale_tmp(b"x.pcap.tmp", Some(5), 10));
    assert!(!is_stale_tmp(b"x.pcap.tmp", Some(10), 10));
    assert!(!is_stale_tmp(b"x.pcap.tmp", None, 10));
    assert!(!is_stale_tmp(b"x.pcap", Some(5), 10));
}

#[test]
fn oldest_first_stable() {
    let keys = vec![Some(30), Some(10), None, Some(10), Some(20)];
    assert_eq!(order_by_mtime(&keys), vec![2, 1, 3, 4, 0]);
    assert_eq!(order_by_mtime(&vec![]), Vec::<usize>::new());
}

fn stats(n: u64) -> SlimStats {
    SlimStats { in_pkts: n, truncated: 0, kept: n, in_bytes: 0, out_bytes: 0 }
}

#[test]
fn marker_skips_second_run() {
    let (s, a) = in_place_start();
    assert!(matches!(a, InPlaceAction::CheckMarker));
    let (s, a) = in_place_step(s, InPlaceEvent::MarkerChecked { marked: true });
    assert!(matches!(s, InPlaceState::Done));
    assert!(matches!(
        a,
        InPlaceAction::Finish(Ok((FileResult::SkippedMarker, None)))
    ));
}

#[test]
fn in_place_happy_path() {
    let (s, _) = in_place_start();
    let (s, a) = in_place_step(s, InPlaceEvent::MarkerChecked { marked: false });
    assert!(matches!(a, InPlaceAction::SlimToTmp));
    let (s, a) = in_place_step(s, InPlaceEvent::Slimmed(Ok(stats(2))));
    assert!(matches!(a, InPlaceAction::CountTmp));
    let (s, a) = in_place_step(s, InPlaceEvent::Counted(Ok(2)));
    assert!(matches!(a, InPlaceAction::RenameTmpOverSource));
    let (s, a) = in_place_step(s, InPlaceEvent::Renamed(Ok(())));
    assert!(matches!(a, InPlaceAction::CreateMarker));
    let (s, a) = in_place_step(s, InPlaceEvent::MarkerCreated(Ok(())));
    assert!(matches!(s, InPlaceState::Done));
    match a {
        InPlaceAction::Finish(Ok((FileResult::Processed, Some(st)))) => assert_eq!(st.in_pkts, 2),
        _ => panic!("expected finish"),
    }
}

#[test]
fn count_mismatch_removes_tmp() {
    let (s, _) = in_place_start();
    let (s, _) = in_place_step(s, InPlaceEvent::MarkerChecked { marked: false });
    let (s, _) = in_place_step(s, InPlaceEvent::Slimmed(Ok(stats(2))));
    let (s, a) = in_place_step(s, InPlaceEvent::Counted(Ok(1)));
    assert!(matches!(s, InPlaceState::Done));
    assert!(matches!(
        a,
        InPlaceAction::RemoveTmpThenFail(CoordError::PacketCountMismatch {
            expected: 2,
            out_count: 1
        })
    ));
}

#[test]
fn marker_path_beside_capture() {
    assert_eq!(
        marker_path(b"/data/pcap", b"capture.pcap"),
        b"/data/pcap/.slim_markers/capture.pcap".to_vec()
    );
    assert_eq!(marker_path(b"/data/pcap/", b"a.pcap"), b"/data/pcap/.slim_markers/a.pcap".to_vec());
    assert_eq!(marker_path(b"/", b"a.pcap"), b"/.slim_markers/a.pcap".to_vec());
    assert_eq!(marker_path(b"", b"a.pcap"), b".slim_markers/a.pcap".to_vec());
    assert_eq!(marker_path(b".", b"test.pcap"), b"./.slim_markers/test.pcap".to_vec());
    assert_eq!(marker_path(b"d", b""), b"d/.slim_markers/".to_vec());
}

#[test]
fn age_filter_keeps_old_captures_only() {
    let minute: i128 = 60_000_000_000;
    let now: i128 = 1_700_000_000_000_000_000;
    let cutoff = now - 120 * minute;
    assert!(is_old_enough(now - 180 * minute, cutoff));
    assert!(is_old_enough(cutoff, cutoff));
    assert!(!is_old_enough(now - minute, cutoff));
}
