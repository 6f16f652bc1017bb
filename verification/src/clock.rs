//! The wall clock, read in milliseconds since the Unix epoch.
use vstd::prelude::*;

verus! {

/// Milliseconds since the Unix epoch.
///
/// Calls `SystemTime::now().duration_since(UNIX_EPOCH)`; a clock set before
/// the epoch reads as 0. Nothing is claimed of the value: it is the time.
#[verifier::external_body]
pub(crate) fn now_millis() -> u64 {
    std::time::SystemTime::now()
        .duration_since(std::time::UNIX_EPOCH)
        .unwrap_or_default()
        .as_millis() as u64
}

/// `a - b`, or 0 when `b` is later than `a`.
pub open spec fn elapsed(a: u64, b: u64) -> u64 {
    if a >= b { (a - b) as u64 } else { 0 }
}

} // verus!
