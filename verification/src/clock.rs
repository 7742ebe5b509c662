use vstd::prelude::*;

verus! {

/// Relies on std::time::SystemTime::now: the wall clock, read as whole
/// seconds since the Unix epoch, and zero when the clock sits before it.
/// Nothing can be promised of the value.
#[verifier::external_body]
pub(crate) fn unix_time_seconds() -> u64 {
    match std::time::SystemTime::now().duration_since(std::time::SystemTime::UNIX_EPOCH) {
        Ok(d) => d.as_secs(),
        Err(_) => 0,
    }
}

} // verus!
