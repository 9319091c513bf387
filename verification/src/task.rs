//! Running and spawning tasks.
use crate::handle::Handle;
use crate::signal::{signalled, Signal};
use crate::state::Shared;
use vstd::prelude::*;

verus! {

/// Interface that any task scheduler must implement to start
/// running tasks.
pub trait Runner: Sized {
    /// Start running a root task.
    ///
    /// The root task does not create the initial context because it can be useful to have a
    /// reference to context before starting task execution.
    fn start<F, T>(self, f: F) -> (output: T) where F: FnOnce() -> T
        requires
            call_requires(f, ()),
        ensures
            call_ensures(f, (), output),
    ;
}

/// Interface that any task scheduler must implement to spawn tasks.
pub trait Spawner<R: Shared>: Clone + Send + Sync + 'static {
    /// Whether a task was spawned from this context.
    spec fn spawned(&self) -> bool;

    /// The value that the runtime was stopped with, if it was.
    spec fn stop_value(runtime: &R) -> Option<i32>;

    /// Enqueue a task to be executed: gives the context to execute it in, and a handle to it.
    ///
    /// A spawned task will start executing immediately (even if the caller does not await the
    /// handle).
    ///
    /// Spawned tasks consume the context used to create them. This ensures that context cannot
    /// be shared between tasks and that a task's context always comes from somewhere.
    fn spawn<T>(self, runtime: &mut R) -> (task: (Self, Handle<T>))
        requires
            !self.spawned(),
            old(runtime).valid(),
        ensures
            final(runtime).valid(),
            final(runtime).follows(old(runtime)),
            Self::stop_value(final(runtime)) == Self::stop_value(old(runtime)),
            !task.0.spawned(),
            !task.1@.blocking,
            task.1@.outcome is None,
    ;

    /// Enqueue a task to be executed (without consuming the context).
    ///
    /// In some cases, it may be useful to spawn a task without consuming the context (e.g.
    /// starting an actor that already has a reference to context).
    ///
    /// Only one task can be spawned from a context.
    fn spawn_ref<T>(&mut self, runtime: &mut R) -> (handle: Handle<T>)
        requires
            !old(self).spawned(),
            old(runtime).valid(),
        ensures
            final(self).spawned(),
            final(runtime).valid(),
            final(runtime).follows(old(runtime)),
            Self::stop_value(final(runtime)) == Self::stop_value(old(runtime)),
            !handle@.blocking,
            handle@.outcome is None,
    ;

    /// Enqueue a blocking task to be executed.
    ///
    /// This method is designed for synchronous, potentially long-running operations that should
    /// not block the asynchronous event loop. The task starts executing immediately, and the
    /// returned handle can be awaited to retrieve the result.
    ///
    /// Blocking tasks cannot be aborted.
    fn spawn_blocking<T>(self, runtime: &mut R) -> (handle: Handle<T>)
        requires
            !self.spawned(),
            old(runtime).valid(),
        ensures
            final(runtime).valid(),
            final(runtime).follows(old(runtime)),
            Self::stop_value(final(runtime)) == Self::stop_value(old(runtime)),
            handle@.blocking,
            handle@.outcome is None,
    ;

    /// Signals the runtime to stop execution and that all outstanding tasks
    /// should perform any required cleanup and exit. This method is idempotent and
    /// can be called multiple times.
    ///
    /// This method does not actually kill any tasks but rather signals to them, using
    /// the `Signal` returned by `stopped`, that they should exit.
    fn stop(&self, runtime: &mut R, value: i32)
        requires
            old(runtime).valid(),
        ensures
            final(runtime).valid(),
            final(runtime).follows(old(runtime)),
            Self::stop_value(final(runtime)) == signalled(Self::stop_value(old(runtime)), value),
    ;

    /// Returns an instance of a `Signal` that resolves when `stop` is called by
    /// any task.
    ///
    /// If `stop` has already been called, the returned `Signal` will resolve immediately.
    fn stopped(&self, runtime: &R) -> (signal: Signal)
        requires
            runtime.valid(),
        ensures
            signal@ == Self::stop_value(runtime),
    ;
}

} // verus!
