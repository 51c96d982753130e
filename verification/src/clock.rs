//! The clock of the line: milliseconds since a fixed start.

use std::sync::Arc;
use std::time::{Duration, Instant};
use vstd::prelude::*;

verus! {

/// The greatest reading that the clock can give: the whole milliseconds in
/// the longest duration, which is as many whole seconds as a `u64` holds and
/// less than a second more.
pub const MAX_READING_MS: u128 = 18446744073709551615999;

/// `std::time::Instant`: a reading of the monotonic clock, opaque here.
#[verifier::external_type_specification]
#[verifier::external_body]
pub struct ExInstant(Instant);

/// `std::time::Instant::elapsed`: the time that has passed since the
/// instant was taken. It depends on when it is called, so nothing is
/// claimed of the duration that it returns.
pub assume_specification[ Instant::elapsed ](start: &Instant) -> (passed: Duration)
;

/// `std::time::Duration::as_millis`: the whole milliseconds in a duration.
/// A duration is a number of whole seconds that fits a `u64` and a part of
/// less than a second, so what is claimed is that the result is at most
/// `u64::MAX * 1000 + 999`.
pub assume_specification[ Duration::as_millis ](passed: &Duration) -> (ms: u128)
    ensures
        ms <= MAX_READING_MS,
;

/// The clock's reading: whole milliseconds elapsed since `start`. A reading
/// depends on when it is taken, so two readings may differ; every reading
/// is at most [`MAX_READING_MS`].
pub fn now_ms(start: &Arc<Instant>) -> (ms: u128)
    ensures
        ms <= MAX_READING_MS,
{
    start.elapsed().as_millis()
}

} // verus!
