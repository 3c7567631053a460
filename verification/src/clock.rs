use vstd::prelude::*;
use std::time::SystemTime;
use std::time::UNIX_EPOCH;

verus! {

/// Relies on std's `SystemTime::now` and `duration_since(UNIX_EPOCH)`: the number
/// of whole seconds since the Unix epoch, or `None` when the system clock reads
/// earlier than the epoch. Nothing can be promised of the value itself.
#[verifier::external_body]
pub fn now_unix_seconds() -> (r: Option<u64>) {
    SystemTime::now().duration_since(UNIX_EPOCH).ok().map(|d| d.as_secs())
}

/// The current Unix time in seconds, or 0 when the clock is unreadable.
pub fn now_or_zero() -> u64 {
    match now_unix_seconds() {
        Some(t) => t,
        None => 0,
    }
}

} // verus!
