//! Handles to spawned tasks.
use crate::error::Error;
use vstd::prelude::*;

verus! {

/// A spawned task as its owner sees it.
pub struct HandleState<T> {
    /// The number of the task.
    pub task: usize,
    /// Whether the task is a blocking one.
    pub blocking: bool,
    /// What the task came to, once that is known.
    pub outcome: Option<Result<T, Error>>,
}

impl<T> HandleState<T> {
    /// The task comes to `outcome`, unless it has come to something already.
    pub open spec fn settle(self, outcome: Result<T, Error>) -> HandleState<T> {
        if self.outcome is Some {
            self
        } else {
            HandleState { outcome: Some(outcome), ..self }
        }
    }

    /// The task is closed, unless it is a blocking one or has come to something already.
    pub open spec fn abort(self) -> HandleState<T> {
        if self.blocking {
            self
        } else {
            self.settle(Err(Error::Closed))
        }
    }
}

/// Handle to a spawned task.
pub struct Handle<T> {
    task: usize,
    blocking: bool,
    outcome: Option<Result<T, Error>>,
}

impl<T> View for Handle<T> {
    type V = HandleState<T>;

    closed spec fn view(&self) -> HandleState<T> {
        HandleState { task: self.task, blocking: self.blocking, outcome: self.outcome }
    }
}

impl<T> Handle<T> {
    /// A handle to a task that has not come to anything yet.
    pub fn new(task: usize, blocking: bool) -> (handle: Self)
        ensures
            handle@ == (HandleState::<T> { task, blocking, outcome: None }),
    {
        Handle { task, blocking, outcome: None }
    }

    /// The number of the task.
    pub fn task(&self) -> (task: usize)
        ensures
            task == self@.task,
    {
        self.task
    }

    /// Records what the task returned.
    pub fn finish(&mut self, value: T)
        ensures
            final(self)@ == old(self)@.settle(Ok(value)),
    {
        if self.outcome.is_none() {
            self.outcome = Some(Ok(value));
        }
    }

    /// Records that the task panicked.
    pub fn fail(&mut self)
        ensures
            final(self)@ == old(self)@.settle(Err(Error::Exited)),
    {
        if self.outcome.is_none() {
            self.outcome = Some(Err(Error::Exited));
        }
    }

    /// Runs the body of the task and records what it returned.
    pub fn run<F>(&mut self, body: F) where F: FnOnce() -> T
        requires
            call_requires(body, ()),
        ensures
            exists|value: T| #[trigger] call_ensures(body, (), value) && final(self)@ == old(self)@.settle(Ok(value)),
    {
        let value = body();
        assert(call_ensures(body, (), value));
        self.finish(value);
    }

    /// Aborts the task, unless it is a blocking one.
    pub fn abort(&mut self)
        ensures
            final(self)@ == old(self)@.abort(),
    {
        if !self.blocking && self.outcome.is_none() {
            self.outcome = Some(Err(Error::Closed));
        }
    }

    /// What the task came to, if that is known.
    pub fn outcome(&self) -> (outcome: Option<&Result<T, Error>>)
        ensures
            outcome == (match self@.outcome {
                Some(result) => Some(&result),
                None => None,
            }),
    {
        self.outcome.as_ref()
    }

    /// Takes what the task came to, if that is known.
    pub fn join(self) -> (outcome: Option<Result<T, Error>>)
        ensures
            outcome == self@.outcome,
    {
        self.outcome
    }
}

/// A handle resolves once: nothing changes what a task came to.
pub proof fn law_outcome_is_final<T>(handle: HandleState<T>, result: Result<T, Error>)
    requires
        handle.outcome is Some,
    ensures
        handle.settle(result) == handle,
        handle.abort() == handle,
{
}

/// Awaiting an aborted task gives [`Error::Closed`], however often it is aborted and whatever it
/// would have returned.
pub proof fn law_aborted_task_is_closed<T>(handle: HandleState<T>, result: Result<T, Error>)
    requires
        !handle.blocking,
        handle.outcome is None,
    ensures
        handle.abort().outcome == Some(Err::<T, Error>(Error::Closed)),
        handle.abort().abort() == handle.abort(),
        handle.abort().settle(result) == handle.abort(),
{
}

/// Blocking tasks cannot be aborted: they come to what they would have come to.
pub proof fn law_blocking_task_cannot_be_aborted<T>(
    handle: HandleState<T>,
    result: Result<T, Error>,
)
    requires
        handle.blocking,
        handle.outcome is None,
    ensures
        handle.abort() == handle,
        handle.abort().settle(result).outcome == Some(result),
{
}

/// What a task comes to first is what its handle resolves with, and nothing else changes.
pub proof fn law_first_outcome_is_recorded<T>(handle: HandleState<T>, result: Result<T, Error>)
    requires
        handle.outcome is None,
    ensures
        handle.settle(result).outcome == Some(result),
        handle.settle(result).task == handle.task,
        handle.settle(result).blocking == handle.blocking,
        handle.abort().task == handle.task,
        handle.abort().blocking == handle.blocking,
{
}

} // verus!
