//! Request deadlines, measured on the monotonic clock.

use vstd::prelude::*;
use std::time::Instant;

verus! {

#[verifier::external_type_specification]
#[verifier::external_body]
pub struct ExInstant(Instant);

/// A deadline: `budget_ms` milliseconds after `start`.
pub struct Deadline {
    pub start: Instant,
    pub budget_ms: u64,
}

/// Relies on std's `Instant::elapsed`: the time since `since` on the monotonic
/// clock, in whole milliseconds. It depends on when it is called, so nothing is
/// stated of it.
#[verifier::external_body]
fn elapsed_ms(since: &Instant) -> u64 {
    since.elapsed().as_millis() as u64
}

impl Deadline {
    /// Whether the deadline has passed.
    pub fn passed(&self) -> bool {
        elapsed_ms(&self.start) >= self.budget_ms
    }
}

} // verus!
