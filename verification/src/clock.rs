//! Telling and passing time.
use crate::state::Shared;
use crate::time::{Duration, SystemTime};
use vstd::prelude::*;

verus! {

/// Interface that any task scheduler must implement to provide
/// time-based operations.
///
/// It is necessary to mock time to provide deterministic execution
/// of arbitrary tasks.
pub trait Clock<R: Shared>: Clone + Send + Sync + 'static {
    /// The latest point in time that the clock is known to have reached, in nanoseconds since the
    /// Unix epoch.
    spec fn reached(runtime: &R) -> int;

    /// Returns the current time.
    ///
    /// A clock may move on while it is read, but never back.
    fn current(&self, runtime: &mut R) -> (time: SystemTime)
        requires
            old(runtime).valid(),
        ensures
            final(runtime).valid(),
            final(runtime).follows(old(runtime)),
            Self::reached(old(runtime)) <= time.nanos <= Self::reached(final(runtime)),
    ;

    /// Sleep for the given duration.
    fn sleep(&self, runtime: &mut R, duration: Duration)
        requires
            old(runtime).valid(),
            Self::reached(old(runtime)) + duration.nanos <= u128::MAX,
        ensures
            final(runtime).valid(),
            final(runtime).follows(old(runtime)),
            Self::reached(final(runtime)) >= Self::reached(old(runtime)) + duration.nanos,
    ;

    /// Sleep until the given deadline.
    fn sleep_until(&self, runtime: &mut R, deadline: SystemTime)
        requires
            old(runtime).valid(),
        ensures
            final(runtime).valid(),
            final(runtime).follows(old(runtime)),
            Self::reached(final(runtime)) >= Self::reached(old(runtime)),
            Self::reached(final(runtime)) >= deadline.nanos,
    ;
}

} // verus!
