//! Trusted wrappers around the process's sources of randomness and time.
//!
//! Nothing beyond the stated bounds is assumed of either result: callers are
//! verified for every value the wrappers may hand back.

use vstd::prelude::*;

verus! {

/// Relies on rand's `Rng::gen_range` over `0..n`, which panics on an empty
/// range and otherwise returns a uniform sample within the range.
#[verifier::external_body]
pub(crate) fn random_below(n: i32) -> (r: i32)
    requires
        n >= 1,
    ensures
        0 <= r < n,
{
    rand::Rng::gen_range(&mut rand::thread_rng(), 0..n)
}

/// Relies on std's `SystemTime::now` and `duration_since(UNIX_EPOCH)`: a
/// clock reading, converted to whole milliseconds since the epoch (zero if
/// the clock reads earlier than the epoch).  Nothing is assumed of the
/// value: every caller is verified for every reading the clock may give.
#[verifier::external_body]
pub(crate) fn now_millis() -> (r: u64)
{
    match std::time::SystemTime::now().duration_since(std::time::UNIX_EPOCH) {
        Ok(d) => d.as_millis() as u64,
        Err(_) => 0,
    }
}

} // verus!
