//! File-level coordination: markers, atomic rename, orphan cleanup.
//!
//! The file system work is done by the program; here are the decisions it follows:
//! which directory entries are pending or stale, the oldest-first order, the packet-count
//! check, and the in-place slim protocol as a step function from state and event to
//! next state and action.

use vstd::prelude::*;
use crate::pcap_io::{PcapError, SlimStats, append_bytes};

verus! {

pub const STALE_TMP_SECS: u64 = 300;

/// `.pcap`
pub const PCAP_SUFFIX: [u8; 5] = [0x2e, 0x70, 0x63, 0x61, 0x70];

/// `.pcap.tmp`
pub const PCAP_TMP_SUFFIX: [u8; 9] = [0x2e, 0x70, 0x63, 0x61, 0x70, 0x2e, 0x74, 0x6d, 0x70];

/// `.slim_markers`: the directory, beside the captures, holding one empty marker per
/// slimmed capture.
pub const MARKER_DIR: [u8; 13] = [
    0x2e, 0x73, 0x6c, 0x69, 0x6d, 0x5f, 0x6d, 0x61, 0x72, 0x6b, 0x65, 0x72, 0x73,
];

#[derive(Debug)]
pub enum CoordError {
    Io(std::io::Error),
    Pcap(PcapError),
    PacketCountMismatch { expected: u64, out_count: u64 },
}

#[derive(Debug, Clone, Copy, PartialEq, Eq, Structural)]
pub enum FileResult {
    SkippedMarker,
    Processed,
}

// ---------------------------------------------------------------------------
// Marker paths
// ---------------------------------------------------------------------------
/// The path `base` with the relative or absolute path `part` pushed onto it: `part` when it
/// is absolute; otherwise `base`, a `/` unless `base` is empty or already ends in one, then `part`.
pub open spec fn path_push(base: Seq<u8>, part: Seq<u8>) -> Seq<u8> {
    if part.len() > 0 && part[0] == 0x2f {
        part
    } else if base.len() > 0 && base.last() != 0x2f {
        base + seq![0x2fu8] + part
    } else {
        base + part
    }
}

fn push_path(base: &mut Vec<u8>, part: &[u8])
    ensures
        final(base)@ == path_push(old(base)@, part@),
{
    if part.len() > 0 && part[0] == 0x2f {
        base.clear();
        append_bytes(base, part);
        assert(base@ =~= part@);
    } else {
        if base.len() > 0 && base[base.len() - 1] != 0x2f {
            base.push(0x2f);
        }
        append_bytes(base, part);
    }
}

/// Marker path of the capture named `name` in directory `dir`: `<dir>/.slim_markers/<name>`
/// (paths as the bytes of their Unix form).
pub fn marker_path(dir: &[u8], name: &[u8]) -> (p: Vec<u8>)
    ensures
        p@ == path_push(path_push(dir@, MARKER_DIR@), name@),
{
    let mut p: Vec<u8> = Vec::new();
    append_bytes(&mut p, dir);
    assert(p@ =~= dir@);
    push_path(&mut p, &MARKER_DIR);
    push_path(&mut p, name);
    p
}

// ---------------------------------------------------------------------------
// Directory entries
// ---------------------------------------------------------------------------
pub open spec fn ends_with(s: Seq<u8>, suffix: Seq<u8>) -> bool {
    s.len() >= suffix.len() && s.subrange(s.len() - suffix.len(), s.len() as int) == suffix
}

fn bytes_end_with(s: &[u8], suffix: &[u8]) -> (r: bool)
    ensures
        r == ends_with(s@, suffix@),
{
    if s.len() < suffix.len() {
        return false;
    }
    let start = s.len() - suffix.len();
    let mut i: usize = 0;
    while i < suffix.len()
        invariant
            start == s.len() - suffix.len(),
            i <= suffix.len(),
            forall|j: int| 0 <= j < i ==> s@[start + j] == suffix@[j],
        decreases suffix.len() - i,
    {
        if s[start + i] != suffix[i] {
            assert(s@.subrange(start as int, s@.len() as int)[i as int] != suffix@[i as int]);
            return false;
        }
        i += 1;
    }
    assert(s@.subrange(start as int, s@.len() as int) =~= suffix@);
    true
}

/// A leftover temporary file of an interrupted slim (`*.pcap.tmp`).
pub fn is_tmp_pcap_name(name: &[u8]) -> (r: bool)
    ensures
        r == ends_with(name@, PCAP_TMP_SUFFIX@),
{
    bytes_end_with(name, &PCAP_TMP_SUFFIX)
}

/// A capture the directory scan considers: `*.pcap` but not `*.pcap.tmp`.
pub fn is_pending_pcap_name(name: &[u8]) -> (r: bool)
    ensures
        r == (ends_with(name@, PCAP_SUFFIX@) && !ends_with(
            name@,
            PCAP_TMP_SUFFIX@,
        )),
{
    let b = name;
    bytes_end_with(b, &PCAP_SUFFIX) && !bytes_end_with(b, &PCAP_TMP_SUFFIX)
}

/// A temporary file is stale when its modification time is known and before the cutoff
/// (times in nanoseconds relative to the Unix epoch).
pub fn is_stale_tmp(name: &[u8], mtime_ns: Option<i128>, cutoff_ns: i128) -> (r: bool)
    ensures
        r == (ends_with(name@, PCAP_TMP_SUFFIX@) && (mtime_ns matches Some(t) && t
            < cutoff_ns)),
{
    if !is_tmp_pcap_name(name) {
        return false;
    }
    match mtime_ns {
        Some(t) => t < cutoff_ns,
        None => false,
    }
}

/// The age filter of a directory run: a capture qualifies when it was last modified no
/// later than the cutoff, `now` minus the minimum age (times in nanoseconds relative to
/// the Unix epoch).
pub fn is_old_enough(mtime_ns: i128, cutoff_ns: i128) -> (r: bool)
    ensures
        r == (mtime_ns <= cutoff_ns),
{
    mtime_ns <= cutoff_ns
}

/// Unknown modification times sort first; otherwise older first.
pub open spec fn key_lt(a: Option<i128>, b: Option<i128>) -> bool {
    match (a, b) {
        (None, Some(_)) => true,
        (Some(x), Some(y)) => x < y,
        _ => false,
    }
}

/// Entry `a` comes before entry `b`: smaller key, or equal key and listed earlier.
pub open spec fn comes_before(keys: Seq<Option<i128>>, a: int, b: int) -> bool {
    key_lt(keys[a], keys[b]) || (keys[a] == keys[b] && a < b)
}

pub open spec fn sorted_by_key(keys: Seq<Option<i128>>, order: Seq<usize>) -> bool {
    forall|i: int, j: int|
        0 <= i < j < order.len() ==> comes_before(keys, order[i] as int, order[j] as int)
}

fn key_less(a: Option<i128>, b: Option<i128>) -> (r: bool)
    ensures
        r == key_lt(a, b),
{
    match (a, b) {
        (None, Some(_)) => true,
        (Some(x), Some(y)) => x < y,
        _ => false,
    }
}

/// Oldest-first order of directory entries by modification time (a stable sort: entries
/// with equal times keep their listing order). Returns the entries' indices.
pub fn order_by_mtime(keys: &Vec<Option<i128>>) -> (order: Vec<usize>)
    ensures
        order.len() == keys.len(),
        forall|i: int| 0 <= i < order.len() ==> order[i] < keys.len(),
        sorted_by_key(keys@, order@),
{
    let mut order: Vec<usize> = Vec::new();
    let mut i: usize = 0;
    while i < keys.len()
        invariant
            i <= keys.len(),
            order.len() == i,
            forall|j: int| 0 <= j < order.len() ==> order[j] < i,
            sorted_by_key(keys@, order@),
        decreases keys.len() - i,
    {
        let mut pos: usize = 0;
        while pos < order.len() && !key_less(keys[i], keys[order[pos]])
            invariant
                pos <= order.len(),
                order.len() == i,
                i < keys.len(),
                forall|j: int| 0 <= j < order.len() ==> order[j] < i,
                forall|j: int| 0 <= j < pos ==> !key_lt(keys@[i as int], keys@[order[j] as int]),
            decreases order.len() - pos,
        {
            pos += 1;
        }
        let ghost old_order = order@;
        proof {
            if pos < order.len() {
                assert forall|j: int| pos <= j < old_order.len() implies key_lt(
                    keys@[i as int],
                    keys@[old_order[j] as int],
                ) by {
                    if j > pos {
                        assert(comes_before(keys@, old_order[pos as int] as int, old_order[j] as int));
                    }
                }
            }
        }
        order.insert(pos, i);
        assert forall|a: int, b: int| 0 <= a < b < order@.len() implies comes_before(
            keys@,
            order@[a] as int,
            order@[b] as int,
        ) by {
            if a < pos && b < pos {
                assert(order@[a] == old_order[a] && order@[b] == old_order[b]);
            } else if a < pos && b == pos {
                assert(order@[a] == old_order[a]);
            } else if a < pos {
                assert(order@[a] == old_order[a] && order@[b] == old_order[b - 1]);
            } else if a == pos {
                assert(order@[b] == old_order[b - 1]);
            } else {
                assert(order@[a] == old_order[a - 1] && order@[b] == old_order[b - 1]);
            }
        }
        i += 1;
    }
    order
}

// ---------------------------------------------------------------------------
// Packet-count verification
// ---------------------------------------------------------------------------
/// The slimmed temporary file must hold as many packets as the slim pass read.
pub fn check_packet_count(expected: u64, out_count: u64) -> (r: Result<(), CoordError>)
    ensures
        r is Ok <==> out_count == expected,
        r matches Err(e) ==> e matches CoordError::PacketCountMismatch { expected: x, out_count: o }
            && x == expected && o == out_count,
{
    if out_count != expected {
        return Err(CoordError::PacketCountMismatch { expected, out_count });
    }
    Ok(())
}

// ---------------------------------------------------------------------------
// In-place slim protocol: marker check → slim to `.tmp` → count → rename → marker
// ---------------------------------------------------------------------------
pub enum InPlaceState {
    CheckingMarker,
    Slimming,
    Verifying { stats: SlimStats },
    Renaming { stats: SlimStats },
    Marking { stats: SlimStats },
    Done,
}

pub enum InPlaceEvent {
    MarkerChecked { marked: bool },
    Slimmed(Result<SlimStats, PcapError>),
    Counted(Result<u64, PcapError>),
    Renamed(Result<(), std::io::Error>),
    MarkerCreated(Result<(), std::io::Error>),
}

pub enum InPlaceAction {
    /// Test whether `.slim_markers/<name>` exists.
    CheckMarker,
    /// Slim the source into `<name>.tmp`.
    SlimToTmp,
    /// Count the packets of `<name>.tmp`.
    CountTmp,
    /// Remove `<name>.tmp`, then fail with the error.
    RemoveTmpThenFail(CoordError),
    /// Rename `<name>.tmp` over the source.
    RenameTmpOverSource,
    /// Create the marker file.
    CreateMarker,
    /// The file is done.
    Finish(Result<(FileResult, Option<SlimStats>), CoordError>),
}

/// The event answers the action the state is waiting on.
pub open spec fn event_fits(state: InPlaceState, event: InPlaceEvent) -> bool {
    match (state, event) {
        (InPlaceState::CheckingMarker, InPlaceEvent::MarkerChecked { .. }) => true,
        (InPlaceState::Slimming, InPlaceEvent::Slimmed(_)) => true,
        (InPlaceState::Verifying { .. }, InPlaceEvent::Counted(_)) => true,
        (InPlaceState::Renaming { .. }, InPlaceEvent::Renamed(_)) => true,
        (InPlaceState::Marking { .. }, InPlaceEvent::MarkerCreated(_)) => true,
        _ => false,
    }
}

/// The protocol's transition table.
pub open spec fn in_place_transition(state: InPlaceState, event: InPlaceEvent) -> (
    InPlaceState,
    InPlaceAction,
) {
    match (state, event) {
        (InPlaceState::CheckingMarker, InPlaceEvent::MarkerChecked { marked }) => if marked {
            (InPlaceState::Done, InPlaceAction::Finish(Ok((FileResult::SkippedMarker, None))))
        } else {
            (InPlaceState::Slimming, InPlaceAction::SlimToTmp)
        },
        (InPlaceState::Slimming, InPlaceEvent::Slimmed(r)) => match r {
            Ok(stats) => (InPlaceState::Verifying { stats }, InPlaceAction::CountTmp),
            Err(e) => (InPlaceState::Done, InPlaceAction::RemoveTmpThenFail(CoordError::Pcap(e))),
        },
        (InPlaceState::Verifying { stats }, InPlaceEvent::Counted(r)) => match r {
            Ok(n) => if n == stats.in_pkts {
                (InPlaceState::Renaming { stats }, InPlaceAction::RenameTmpOverSource)
            } else {
                (
                    InPlaceState::Done,
                    InPlaceAction::RemoveTmpThenFail(
                        CoordError::PacketCountMismatch { expected: stats.in_pkts, out_count: n },
                    ),
                )
            },
            Err(e) => (InPlaceState::Done, InPlaceAction::RemoveTmpThenFail(CoordError::Pcap(e))),
        },
        (InPlaceState::Renaming { stats }, InPlaceEvent::Renamed(r)) => match r {
            Ok(()) => (InPlaceState::Marking { stats }, InPlaceAction::CreateMarker),
            Err(e) => (InPlaceState::Done, InPlaceAction::Finish(Err(CoordError::Io(e)))),
        },
        (InPlaceState::Marking { stats }, InPlaceEvent::MarkerCreated(r)) => match r {
            Ok(()) => (InPlaceState::Done, InPlaceAction::Finish(Ok((FileResult::Processed, Some(stats))))),
            Err(e) => (InPlaceState::Done, InPlaceAction::Finish(Err(CoordError::Io(e)))),
        },
        (s, _) => (s, InPlaceAction::CheckMarker),
    }
}

/// Where the protocol starts: check the marker.
pub fn in_place_start() -> (r: (InPlaceState, InPlaceAction))
    ensures
        r.0 == InPlaceState::CheckingMarker,
        r.1 == InPlaceAction::CheckMarker,
{
    (InPlaceState::CheckingMarker, InPlaceAction::CheckMarker)
}

/// One step of the in-place slim protocol.
pub fn in_place_step(state: InPlaceState, event: InPlaceEvent) -> (r: (InPlaceState, InPlaceAction))
    requires
        event_fits(state, event),
    ensures
        r == in_place_transition(state, event),
{
    match (state, event) {
        (InPlaceState::CheckingMarker, InPlaceEvent::MarkerChecked { marked }) => {
            if marked {
                (InPlaceState::Done, InPlaceAction::Finish(Ok((FileResult::SkippedMarker, None))))
            } else {
                (InPlaceState::Slimming, InPlaceAction::SlimToTmp)
            }
        },
        (InPlaceState::Slimming, InPlaceEvent::Slimmed(r)) => match r {
            Ok(stats) => (InPlaceState::Verifying { stats }, InPlaceAction::CountTmp),
            Err(e) => (InPlaceState::Done, InPlaceAction::RemoveTmpThenFail(CoordError::Pcap(e))),
        },
        (InPlaceState::Verifying { stats }, InPlaceEvent::Counted(r)) => match r {
            Ok(n) => match check_packet_count(stats.in_pkts, n) {
                Ok(()) => (InPlaceState::Renaming { stats }, InPlaceAction::RenameTmpOverSource),
                Err(e) => (InPlaceState::Done, InPlaceAction::RemoveTmpThenFail(e)),
            },
            Err(e) => (InPlaceState::Done, InPlaceAction::RemoveTmpThenFail(CoordError::Pcap(e))),
        },
        (InPlaceState::Renaming { stats }, InPlaceEvent::Renamed(r)) => match r {
            Ok(()) => (InPlaceState::Marking { stats }, InPlaceAction::CreateMarker),
            Err(e) => (InPlaceState::Done, InPlaceAction::Finish(Err(CoordError::Io(e)))),
        },
        (InPlaceState::Marking { stats }, InPlaceEvent::MarkerCreated(r)) => match r {
            Ok(()) => (InPlaceState::Done, InPlaceAction::Finish(Ok((FileResult::Processed, Some(stats))))),
            Err(e) => (InPlaceState::Done, InPlaceAction::Finish(Err(CoordError::Io(e)))),
        },
        (s, _) => (s, InPlaceAction::CheckMarker),
    }
}

/// Idempotency: a file whose marker exists is finished as skipped, and nothing is written.
pub proof fn law_marked_file_is_skipped()
    ensures
        in_place_transition(InPlaceState::CheckingMarker, InPlaceEvent::MarkerChecked { marked: true })
            == (InPlaceState::Done, InPlaceAction::Finish(Ok((FileResult::SkippedMarker, None)))),
{
}

/// The run on an unmarked file whose every step succeeds: slim to the temporary file,
/// count it, rename it over the source, create the marker, and finish with the slim
/// pass's statistics.
pub proof fn law_in_place_success_run(stats: SlimStats)
    ensures
        ({
            let (s1, a1) = in_place_transition(InPlaceState::CheckingMarker, InPlaceEvent::MarkerChecked { marked: false });
            let (s2, a2) = in_place_transition(s1, InPlaceEvent::Slimmed(Ok(stats)));
            let (s3, a3) = in_place_transition(s2, InPlaceEvent::Counted(Ok(stats.in_pkts)));
            let (s4, a4) = in_place_transition(s3, InPlaceEvent::Renamed(Ok(())));
            let (s5, a5) = in_place_transition(s4, InPlaceEvent::MarkerCreated(Ok(())));
            &&& a1 is SlimToTmp
            &&& a2 is CountTmp
            &&& a3 is RenameTmpOverSource
            &&& a4 is CreateMarker
            &&& a5 == InPlaceAction::Finish(Ok((FileResult::Processed, Some(stats))))
            &&& s5 is Done
        }),
{
}

/// Verifiability: the temporary file replaces the source only right after its packet
/// count was read and equals the slim pass's packet count.
pub proof fn law_rename_only_after_count_matches(state: InPlaceState, event: InPlaceEvent)
    requires
        event_fits(state, event),
        in_place_transition(state, event).1 is RenameTmpOverSource,
    ensures
        state matches InPlaceState::Verifying { stats } && event matches InPlaceEvent::Counted(Ok(n))
            && n == stats.in_pkts,
{
}

/// The marker is written last: only right after the rename succeeded.
pub proof fn law_marker_only_after_rename(state: InPlaceState, event: InPlaceEvent)
    requires
        event_fits(state, event),
        in_place_transition(state, event).1 is CreateMarker,
    ensures
        state is Renaming && event matches InPlaceEvent::Renamed(Ok(())),
{
}

/// Atomicity: a failure while the temporary file exists (slimming or counting it)
/// removes it, and the source stays untouched (no rename follows: the run is done).
pub proof fn law_failure_before_rename_removes_tmp(state: InPlaceState, event: InPlaceEvent)
    requires
        event_fits(state, event),
        state is Slimming || state is Verifying,
        !(in_place_transition(state, event).1 is CountTmp),
        !(in_place_transition(state, event).1 is RenameTmpOverSource),
    ensures
        in_place_transition(state, event).1 is RemoveTmpThenFail,
        in_place_transition(state, event).0 is Done,
{
}

} // verus!
