//! When to use mmap for pcap input (avoids cold-cache page-fault storms at high worker counts).

use vstd::prelude::*;

verus! {

/// `--dir` uses mmap only up to this many workers unless `--mmap` forces it.
pub const DIR_MMAP_MAX_WORKERS: usize = 2;

/// Resolve whether to mmap input for this run: `--no-mmap` wins, then `--mmap`; a
/// directory run maps files when it has at most two workers; a single file is read.
pub fn resolve_use_mmap(is_dir: bool, workers: usize, no_mmap: bool, force_mmap: bool) -> (use_mmap:
    bool)
    ensures
        use_mmap == (!no_mmap && (force_mmap || (is_dir && workers <= 2))),
{
    if no_mmap {
        return false;
    }
    if force_mmap {
        return true;
    }
    if is_dir {
        return workers <= DIR_MMAP_MAX_WORKERS;
    }
    false
}

} // verus!
