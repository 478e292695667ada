//! Bounded-retry policy shared by bus and transport operations.
//!
//! The original loops (`attempt, fail, back off, attempt again`) are driven
//! from outside; this module owns the one decision they make: whether a
//! further attempt is allowed after a given number of failures.

use vstd::prelude::*;

verus! {

/// Number of attempts granted to a bus operation: a device search before
/// discovery fails, or a single sensor read-back before the cycle is
/// discarded.
pub const BUS_ATTEMPTS: u32 = 3;

/// Backoff between bus attempts, in milliseconds.
pub const BUS_BACKOFF_MS: u64 = 25;

/// A bounded-retry policy: at most `max_attempts` attempts, separated by a
/// backoff of `backoff_ms` milliseconds.
pub struct RetryPolicy {
    pub max_attempts: u32,
    pub backoff_ms: u64,
}

impl RetryPolicy {
    /// The policy applied to bus operations (discovery and read-back).
    pub fn bus() -> (r: RetryPolicy)
        ensures
            r.max_attempts == BUS_ATTEMPTS,
            r.backoff_ms == BUS_BACKOFF_MS,
    {
        RetryPolicy { max_attempts: BUS_ATTEMPTS, backoff_ms: BUS_BACKOFF_MS }
    }

    /// After `failures` failed attempts, may one more attempt be made?
    ///
    /// A caller performs attempts while this returns true, so in total at
    /// most `max_attempts` attempts are made.
    pub fn may_attempt(&self, failures: u32) -> (r: bool)
        ensures
            r == (failures < self.max_attempts),
    {
        failures < self.max_attempts
    }
}

} // verus!
