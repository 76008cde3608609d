//! The wall clock.

use vstd::prelude::*;

verus! {

/// Milliseconds since the Unix epoch by `SystemTime::now()`, or zero when the
/// clock stands before the epoch. Nothing is promised of the value: it is the
/// time.
#[verifier::external_body]
pub(crate) fn unix_millis_now() -> u64 {
    std::time::SystemTime::now()
        .duration_since(std::time::UNIX_EPOCH)
        .unwrap_or_default()
        .as_millis() as u64
}

} // verus!
