//! The wall clock, as far as seeding needs it. Reading the clock is left to
//! the standard library; nothing is assumed about the time it reports beyond
//! what its types guarantee.

use core::time::Duration;
use std::time::SystemTimeError;
use vstd::prelude::*;

verus! {

/// `std::time::SystemTimeError`, of which the verifier knows only the name.
#[verifier::external_type_specification]
#[verifier::external_body]
pub struct ExSystemTimeError(std::time::SystemTimeError);

/// `SystemTime::elapsed` on `UNIX_EPOCH`: how long ago the epoch was by the
/// system clock, or an error where the clock is set to before the epoch.
/// Nothing is promised about the outcome.
#[verifier::external_body]
pub(crate) fn since_epoch() -> Result<Duration, SystemTimeError> {
    std::time::SystemTime::UNIX_EPOCH.elapsed()
}

/// `Duration::as_secs`: the whole seconds of the duration.
pub assume_specification[ Duration::as_secs ](d: &Duration) -> u64;

/// `Duration::subsec_nanos`: the part of the duration below one second, in
/// nanoseconds, which is less than one billion.
pub assume_specification[ Duration::subsec_nanos ](d: &Duration) -> (nanos: u32)
    ensures
        nanos < 1_000_000_000,
;

} // verus!
