//! Time limits of the search.
use vstd::prelude::*;
use std::time::{Duration, Instant};

verus! {

#[verifier::external_type_specification]
#[verifier::external_body]
pub struct ExInstant(Instant);

/// The search's time limit: `secs` is the limit in whole seconds (the search
/// is out of time once more whole seconds than that have elapsed), `None`
/// where there is no limit; `final_millis` is the number of milliseconds from
/// which a finished search reports that it ran out of time.
pub struct TimeLimit {
    pub secs: Option<u64>,
    pub final_millis: u128,
}

impl TimeLimit {
    /// A search that has run `elapsed_secs` whole seconds is out of time:
    /// only under a limit, once more whole seconds than the limit elapsed.
    pub open spec fn exceeded_after(&self, elapsed_secs: u64) -> bool {
        self.secs matches Some(l) && elapsed_secs > l
    }

    /// Whether a search that has run `elapsed_secs` whole seconds is out of
    /// time.
    pub fn is_exceeded(&self, elapsed_secs: u64) -> (r: bool)
        ensures
            r == self.exceeded_after(elapsed_secs),
    {
        match self.secs {
            Some(limit) => elapsed_secs > limit,
            None => false,
        }
    }
}

/// `Instant::now`: the current time. Nothing is stated of it.
#[verifier::external_body]
pub(crate) fn instant_now() -> Instant {
    Instant::now()
}

/// `Instant::elapsed`: the time since `i`. Nothing is stated of it.
#[verifier::external_body]
pub(crate) fn instant_elapsed(i: &Instant) -> Duration {
    i.elapsed()
}

/// `Duration::as_secs`: the whole seconds of `d`. Nothing is stated of it.
#[verifier::external_body]
pub(crate) fn duration_secs(d: &Duration) -> u64 {
    d.as_secs()
}

/// `Duration::as_millis`: the whole milliseconds of `d`. Nothing is stated
/// of it.
#[verifier::external_body]
pub(crate) fn duration_millis(d: &Duration) -> u128 {
    d.as_millis()
}

} // verus!
