//! Wall-clock timing of the search.
use vstd::prelude::*;

use std::time::Instant;

verus! {

/// `std::time::Instant`: a point of the monotonic clock.
#[verifier::external_type_specification]
#[verifier::external_body]
pub struct ExInstant(Instant);

/// `Instant::now` of std: the current point of the monotonic clock. It
/// depends on the time of the call, so nothing is stated of it.
#[verifier::external_body]
fn instant_now() -> Instant {
    Instant::now()
}

/// A stopwatch started at a point of the monotonic clock.
#[derive(Clone, Copy, Debug)]
pub struct Timer {
    start: Instant,
}

impl Timer {
    /// The point at which the stopwatch started.
    pub closed spec fn start_spec(&self) -> Instant {
        self.start
    }

    /// A stopwatch started now.
    pub fn start() -> Self {
        Timer { start: instant_now() }
    }

    /// The point at which the stopwatch started.
    pub fn started_at(&self) -> (res: Instant)
        ensures
            res == self.start_spec(),
    {
        self.start
    }
}

} // verus!
