//! A wall-clock budget for one round of work.

use vstd::prelude::*;

verus! {

/// A point on the monotonic clock of `std`; nothing is known of a value of it.
#[verifier::external_type_specification]
#[verifier::external_body]
pub struct ExInstant(std::time::Instant);

/// Calls `std::time::Instant::now`. The result depends on the clock, so
/// nothing is stated of it.
#[verifier::external_body]
fn clock_now() -> (now: std::time::Instant) {
    std::time::Instant::now()
}

/// Calls `std::time::Instant::elapsed` and gives the time passed since
/// `start` in nanoseconds. The result depends on the clock, so nothing is
/// stated of it.
#[verifier::external_body]
fn nanos_since(start: &std::time::Instant) -> (elapsed: u128) {
    start.elapsed().as_nanos()
}

/// A budget of wall-clock time that starts to run when it is made.
pub struct TimeBudget {
    started: std::time::Instant,
    budget: u128,
}

impl TimeBudget {
    /// The length of the budget in nanoseconds.
    pub closed spec fn budget(&self) -> u128 {
        self.budget
    }

    /// Starts a budget of `budget` nanoseconds.
    pub fn new(budget: u128) -> (time_budget: Self)
        ensures
            time_budget.budget() == budget,
    {
        Self { started: clock_now(), budget }
    }

    /// Whether the budget is used up once `elapsed` nanoseconds have passed
    /// since it started.
    pub fn is_expired_after(&self, elapsed: u128) -> (expired: bool)
        ensures
            expired == (elapsed >= self.budget()),
    {
        elapsed >= self.budget
    }

    /// Whether the budget is used up now. The answer depends on the clock;
    /// a budget of no time at all is always used up.
    pub fn is_expired(&self) -> (expired: bool)
        ensures
            self.budget() == 0 ==> expired,
    {
        let elapsed = nanos_since(&self.started);
        self.is_expired_after(elapsed)
    }
}

} // verus!
