//! The signal that asks tasks to stop.
use vstd::prelude::*;

verus! {

/// The value of a signal that held `value` once `new` has been signalled: the first stays.
pub open spec fn signalled(value: Option<i32>, new: i32) -> Option<i32> {
    if value is Some {
        value
    } else {
        Some(new)
    }
}

/// What a signal that held `seen` holds once it has been compared with its source.
pub open spec fn observed(seen: Option<i32>, source: Option<i32>) -> Option<i32> {
    if seen is Some {
        seen
    } else {
        source
    }
}

/// Where a value is signalled, once, to any number of [`Signal`]s.
pub struct Signaler {
    value: Option<i32>,
}

/// Resolves when its [`Signaler`] signals.
pub struct Signal {
    value: Option<i32>,
}

impl View for Signaler {
    type V = Option<i32>;

    closed spec fn view(&self) -> Option<i32> {
        self.value
    }
}

impl View for Signal {
    type V = Option<i32>;

    closed spec fn view(&self) -> Option<i32> {
        self.value
    }
}

impl Signaler {
    /// A signaler that has not signalled.
    pub fn new() -> (signaler: Self)
        ensures
            signaler@ is None,
    {
        Signaler { value: None }
    }

    /// Resolves the signals with `value`, unless they are resolved already.
    pub fn signal(&mut self, value: i32)
        ensures
            final(self)@ == signalled(old(self)@, value),
    {
        if self.value.is_none() {
            self.value = Some(value);
        }
    }

    /// A signal that resolves when this signaler signals, or at once if it has.
    pub fn subscribe(&self) -> (signal: Signal)
        ensures
            signal@ == self@,
    {
        Signal { value: self.value }
    }
}

impl Signal {
    /// The value that was signalled, if any was.
    pub fn poll(&mut self, signaler: &Signaler) -> (value: Option<i32>)
        ensures
            final(self)@ == observed(old(self)@, signaler@),
            value == final(self)@,
    {
        if self.value.is_none() {
            self.value = signaler.value;
        }
        self.value
    }
}

/// Signalling is idempotent: all but the first call change nothing.
pub proof fn law_signalling_is_idempotent(value: Option<i32>, first: i32, second: i32)
    ensures
        signalled(signalled(value, first), second) == signalled(value, first),
{
}

/// A signal resolves with the value that was signalled first, whether it was made before or
/// after.
pub proof fn law_signals_agree(value: i32, later: i32)
    ensures
        observed(None, signalled(None, value)) == Some(value),
        observed(signalled(None, value), signalled(signalled(None, value), later)) == Some(value),
        observed(None, signalled(signalled(None, value), later)) == Some(value),
{
}

/// The value that is signalled first stays; a signal that has resolved keeps its value, and one
/// that has not takes on that of its source.
pub proof fn law_first_value_stays(seen: i32, value: i32, source: Option<i32>)
    ensures
        signalled(None, value) == Some(value),
        signalled(Some(seen), value) == Some(seen),
        observed(Some(seen), source) == Some(seen),
        observed(None, source) == source,
{
}

} // verus!
