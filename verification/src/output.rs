//! Per-file and per-run result types for human and JSON output.
//!
//! The printing and the serde derives live with the program (which keeps serializable
//! copies of these types); here are the values and how a run's summary counts them.

use vstd::prelude::*;
use crate::pcap_io::SlimStats;
use crate::coord::FileResult;

verus! {

#[derive(Debug, Clone, Copy, PartialEq, Eq, Structural)]
pub enum FileStatus {
    Processed,
    SkippedMarker,
    Fail,
}

#[derive(Debug, Clone)]
pub struct FileReport {
    pub file: String,
    pub status: FileStatus,
    pub in_pkts: Option<u64>,
    pub truncated: Option<u64>,
    pub kept: Option<u64>,
    pub in_bytes: Option<u64>,
    pub out_bytes: Option<u64>,
    pub elapsed_ms: Option<u64>,
    pub error: Option<String>,
}

#[derive(Debug, Clone, Copy)]
pub struct RunSummary {
    pub ok: u64,
    pub skip: u64,
    pub fail: u64,
    pub elapsed_ms: u64,
    pub check_only: bool,
}

#[derive(Debug, Clone)]
pub struct RunReport {
    pub summary: RunSummary,
    pub files: Vec<FileReport>,
}

impl FileReport {
    /// The report carries no statistics and no wall time.
    pub open spec fn no_stats(&self) -> bool {
        &&& self.in_pkts is None
        &&& self.truncated is None
        &&& self.kept is None
        &&& self.in_bytes is None
        &&& self.out_bytes is None
        &&& self.elapsed_ms is None
    }

    /// A file skipped because its marker exists (`file` is the path as displayed).
    pub fn skipped_marker(file: &str) -> (r: Self)
        ensures
            r.file@ == file@,
            r.status == FileStatus::SkippedMarker,
            r.in_pkts is None && r.truncated is None && r.kept is None && r.in_bytes is None
                && r.out_bytes is None && r.elapsed_ms is None && r.error is None,
    {
        FileReport {
            file: file.to_owned(),
            status: FileStatus::SkippedMarker,
            in_pkts: None,
            truncated: None,
            kept: None,
            in_bytes: None,
            out_bytes: None,
            elapsed_ms: None,
            error: None,
        }
    }

    /// A failed file with its error message.
    pub fn fail(file: &str, err: &str) -> (r: Self)
        ensures
            r.file@ == file@,
            r.status == FileStatus::Fail,
            r.error matches Some(e) && e@ == err@,
            r.in_pkts is None && r.truncated is None && r.kept is None && r.in_bytes is None
                && r.out_bytes is None && r.elapsed_ms is None,
    {
        FileReport {
            file: file.to_owned(),
            status: FileStatus::Fail,
            in_pkts: None,
            truncated: None,
            kept: None,
            in_bytes: None,
            out_bytes: None,
            elapsed_ms: None,
            error: Some(err.to_owned()),
        }
    }

    /// A processed file with its statistics and wall time.
    pub fn ok(file: &str, stats: &SlimStats, elapsed_ms: u64) -> (r: Self)
        ensures
            r.file@ == file@,
            r.status == FileStatus::Processed,
            r.in_pkts == Some(stats.in_pkts),
            r.truncated == Some(stats.truncated),
            r.kept == Some(stats.kept),
            r.in_bytes == Some(stats.in_bytes),
            r.out_bytes == Some(stats.out_bytes),
            r.elapsed_ms == Some(elapsed_ms),
            r.error is None,
    {
        FileReport {
            file: file.to_owned(),
            status: FileStatus::Processed,
            in_pkts: Some(stats.in_pkts),
            truncated: Some(stats.truncated),
            kept: Some(stats.kept),
            in_bytes: Some(stats.in_bytes),
            out_bytes: Some(stats.out_bytes),
            elapsed_ms: Some(elapsed_ms),
            error: None,
        }
    }

    /// The report for one file's outcome (`Err` holds the error as displayed).
    pub fn from_outcome(
        file: &str,
        outcome: &Result<(FileResult, Option<SlimStats>), String>,
        elapsed_ms: u64,
    ) -> (r: Self)
        ensures
            r.file@ == file@,
            match outcome {
                Ok((FileResult::Processed, Some(stats))) => r.status == FileStatus::Processed && r.in_pkts
                    == Some(stats.in_pkts) && r.truncated == Some(stats.truncated) && r.kept
                    == Some(stats.kept) && r.in_bytes == Some(stats.in_bytes) && r.out_bytes
                    == Some(stats.out_bytes) && r.elapsed_ms == Some(elapsed_ms) && r.error is None,
                Ok((FileResult::SkippedMarker, _)) => r.status == FileStatus::SkippedMarker
                    && r.error is None && r.no_stats(),
                Ok((FileResult::Processed, None)) => r.status == FileStatus::Fail && (r.error matches Some(
                    e,
                ) && e@ == "unexpected empty result"@) && r.no_stats(),
                Err(msg) => r.status == FileStatus::Fail && (r.error matches Some(e) && e@ == msg@)
                    && r.no_stats(),
            },
    {
        match outcome {
            Ok((FileResult::Processed, Some(stats))) => FileReport::ok(file, stats, elapsed_ms),
            Ok((FileResult::SkippedMarker, _)) => FileReport::skipped_marker(file),
            Ok(_) => FileReport::fail(file, "unexpected empty result"),
            Err(e) => FileReport::fail(file, e.as_str()),
        }
    }
}

/// Number of reports with status `st`.
pub open spec fn status_count(files: Seq<FileReport>, st: FileStatus) -> nat
    decreases files.len(),
{
    if files.len() == 0 {
        0
    } else {
        status_count(files.drop_last(), st) + if files.last().status == st {
            1nat
        } else {
            0nat
        }
    }
}

/// The count of a status is the number of reports that have it: the length of the
/// reports filtered by that status.
pub proof fn law_status_count_is_filter_count(files: Seq<FileReport>, st: FileStatus)
    ensures
        status_count(files, st) == files.filter(|r: FileReport| r.status == st).len(),
    decreases files.len(),
{
    reveal(Seq::filter);
    if files.len() > 0 {
        law_status_count_is_filter_count(files.drop_last(), st);
    }
}

/// Count the reports of a run by status.
pub fn summarize(files: &Vec<FileReport>, elapsed_ms: u64, check_only: bool) -> (s: RunSummary)
    ensures
        s.ok == status_count(files@, FileStatus::Processed),
        s.skip == status_count(files@, FileStatus::SkippedMarker),
        s.fail == status_count(files@, FileStatus::Fail),
        s.elapsed_ms == elapsed_ms,
        s.check_only == check_only,
{
    let mut summary = RunSummary { ok: 0, skip: 0, fail: 0, elapsed_ms, check_only };
    let mut i: usize = 0;
    while i < files.len()
        invariant
            i <= files@.len(),
            summary.ok == status_count(files@.take(i as int), FileStatus::Processed),
            summary.skip == status_count(files@.take(i as int), FileStatus::SkippedMarker),
            summary.fail == status_count(files@.take(i as int), FileStatus::Fail),
            summary.ok + summary.skip + summary.fail == i,
            summary.elapsed_ms == elapsed_ms,
            summary.check_only == check_only,
        decreases files@.len() - i,
    {
        assert(files@.take(i + 1).drop_last() =~= files@.take(i as int));
        match files[i].status {
            FileStatus::Processed => summary.ok = summary.ok + 1,
            FileStatus::SkippedMarker => summary.skip = summary.skip + 1,
            FileStatus::Fail => summary.fail = summary.fail + 1,
        }
        i += 1;
    }
    assert(files@.take(files@.len() as int) =~= files@);
    summary
}

/// Every report is counted exactly once in a run's summary.
pub proof fn law_summary_counts_every_file(files: Seq<FileReport>)
    ensures
        status_count(files, FileStatus::Processed) + status_count(files, FileStatus::SkippedMarker)
            + status_count(files, FileStatus::Fail) == files.len(),
    decreases files.len(),
{
    if files.len() > 0 {
        law_summary_counts_every_file(files.drop_last());
    }
}

/// Worker threads for a run: at least one, at most one per file.
pub fn plan_worker_count(workers: usize, n_files: usize) -> (n: usize)
    ensures
        n == if n_files < (if workers < 1 { 1 } else { workers }) {
            n_files
        } else if workers < 1 {
            1
        } else {
            workers
        },
{
    let w = if workers < 1 { 1 } else { workers };
    if n_files < w {
        n_files
    } else {
        w
    }
}

} // verus!
