use vstd::prelude::*;

verus! {

/// A point in time, as seconds and nanoseconds since the Unix epoch.
#[derive(Clone, Copy, Debug, PartialEq, Eq, Structural)]
pub struct Timestamp {
    pub secs: u64,
    pub nanos: u32,
}

/// Nanoseconds from `then` to `now`, zero when `then` is not earlier.
pub open spec fn elapsed_nanos(now: Timestamp, then: Timestamp) -> int {
    if now.total_nanos() > then.total_nanos() {
        now.total_nanos() - then.total_nanos()
    } else {
        0
    }
}

impl Timestamp {
    pub open spec fn total_nanos(self) -> int {
        self.secs as int * 1_000_000_000 + self.nanos as int
    }

    pub fn as_nanos(&self) -> (r: u128)
        ensures
            r == self.total_nanos(),
    {
        let s = self.secs as u128;
        proof {
            assert(s * 1_000_000_000 <= 0xffff_ffff_ffff_ffffu128 * 1_000_000_000) by (nonlinear_arith)
                requires
                    s <= 0xffff_ffff_ffff_ffffu128,
            ;
        }
        s * 1_000_000_000 + self.nanos as u128
    }
}

/// Whether a directory last modified at `last_modified` has stayed unchanged
/// for strictly longer than `threshold_nanos` at `now`.
pub fn is_cold(now: Timestamp, last_modified: Timestamp, threshold_nanos: u128) -> (r: bool)
    ensures
        r == (elapsed_nanos(now, last_modified) > threshold_nanos),
{
    let a = now.as_nanos();
    let b = last_modified.as_nanos();
    if a > b {
        a - b > threshold_nanos
    } else {
        false
    }
}

} // verus!
