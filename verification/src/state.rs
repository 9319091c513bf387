//! State that the contexts of a runtime share.
use vstd::prelude::*;

verus! {

/// State that the contexts of a runtime share.
///
/// A context is a light handle; what the tasks of a runtime see of one another (its clock, its
/// blobs, its metrics, its stop signal) is passed to each operation that reads or changes it.
pub trait Shared {
    /// Whether the state is well formed: every operation expects it and preserves it.
    spec fn valid(&self) -> bool;

    /// Whether all that was opened, bound or connected in `earlier` still is.
    ///
    /// Every operation leads to a state that follows the one before it, so that whoever holds a
    /// blob, a listener or an end of a connection can go on using it.
    spec fn follows(&self, earlier: &Self) -> bool;
}

} // verus!
