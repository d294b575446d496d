//! Monotonic time stamps for the snapshots that rates are computed from.
use vstd::prelude::*;

verus! {

#[verifier::external_type_specification]
#[verifier::external_body]
pub struct ExInstant(std::time::Instant);

/// `Instant` is `Copy`: its `clone` returns the same instant.
pub assume_specification[ <std::time::Instant as Clone>::clone ](i: &std::time::Instant) -> (r:
    std::time::Instant)
    ensures
        r == *i,
;

/// `Instant::now()`: a reading of the monotonic clock; nothing is promised of
/// its value.
#[verifier::external_body]
pub fn now() -> std::time::Instant {
    std::time::Instant::now()
}

} // verus!
