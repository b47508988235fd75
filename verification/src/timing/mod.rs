//! Measuring how long a computation takes.
use std::time::{Duration, Instant};
use vstd::prelude::*;

verus! {

#[verifier::external_type_specification]
#[verifier::external_body]
pub struct ExInstant(std::time::Instant);

/// `Instant::now`: the current time. Nothing is promised of it: it depends on the clock.
#[verifier::external_body]
fn now() -> Instant {
    Instant::now()
}

/// `Instant::elapsed`: the time passed since `start`. Nothing is promised of it: it depends
/// on the clock.
#[verifier::external_body]
fn elapsed(start: &Instant) -> Duration {
    start.elapsed()
}

/// Runs `f` once and gives its result with the time it took.
pub fn measure<T, F: FnOnce() -> T>(f: F) -> (r: (T, Duration))
    requires
        f.requires(()),
    ensures
        f.ensures((), r.0),
{
    let before = now();
    let result = f();
    let duration = elapsed(&before);
    (result, duration)
}

} // verus!
