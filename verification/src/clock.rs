//! Wall-clock access for timestamps.
//!
//! The rest of the library takes instants as plain `u64` milliseconds, so
//! that every rule that depends on age can be verified as a function of an
//! explicit clock reading.

use vstd::prelude::*;

verus! {

/// Relies on std::time::SystemTime::now: current wall-clock time, converted
/// to nanoseconds since the Unix epoch. Nothing is promised of the value:
/// the clock may jump, so callers must hold for every reading.
#[verifier::external_body]
pub fn now_nanos() -> u64 {
    std::time::SystemTime::now()
        .duration_since(std::time::SystemTime::UNIX_EPOCH)
        .map(|d| d.as_nanos() as u64)
        .unwrap_or(0)
}

/// The current wall-clock time in milliseconds since the Unix epoch.
pub fn now_millis() -> u64 {
    now_nanos() / 1_000_000
}

} // verus!
