//! Integer bookkeeping of the process-wide I/O governor: bytes are charged to the
//! token bucket in batches of at least 256 KiB (the bucket itself, which works in
//! floating-point rates and sleeps, lives with the program).

use vstd::prelude::*;

verus! {

/// Flush accumulated I/O bytes to the token bucket.
pub const IO_BATCH_BYTES: u64 = 256 * 1024;

/// Bytes accounted but not yet charged to the token bucket.
#[derive(Debug, Clone, Copy)]
pub struct IoBatcher {
    pub pending: u64,
}

pub open spec fn sat_add_u64(a: u64, b: u64) -> u64 {
    if a + b > u64::MAX {
        u64::MAX
    } else {
        (a + b) as u64
    }
}

impl IoBatcher {
    pub fn new() -> (b: Self)
        ensures
            b.pending == 0,
    {
        IoBatcher { pending: 0 }
    }

    /// Account `bytes`; returns the amount to charge now, if the batch is full.
    pub fn add(&mut self, bytes: u64) -> (charge: Option<u64>)
        ensures
            bytes == 0 ==> charge is None && final(self).pending == old(self).pending,
            bytes != 0 ==> ({
                let total = sat_add_u64(old(self).pending, bytes);
                if total >= 262144 {
                    charge == Some(total) && final(self).pending == 0
                } else {
                    charge is None && final(self).pending == total
                }
            }),
            final(self).pending < 262144 || final(self).pending == old(self).pending,
    {
        if bytes == 0 {
            return None;
        }
        self.pending = self.pending.saturating_add(bytes);
        if self.pending >= IO_BATCH_BYTES {
            let pending = self.pending;
            self.pending = 0;
            Some(pending)
        } else {
            None
        }
    }

    /// Charge whatever is still pending.
    pub fn flush(&mut self) -> (charge: Option<u64>)
        ensures
            old(self).pending > 0 ==> charge == Some(old(self).pending),
            old(self).pending == 0 ==> charge is None,
            final(self).pending == 0,
    {
        if self.pending > 0 {
            let pending = self.pending;
            self.pending = 0;
            Some(pending)
        } else {
            None
        }
    }
}

} // verus!
