//! Execute tasks with a configurable scheduler.
//!
//! This crate provides the interfaces of a runtime and a runtime for testing and simulation: the
//! [`deterministic`] module allows for deterministic execution of tasks.
//!
//! # Terminology
//!
//! Each runtime is typically composed of an `Executor` and a `Context`. The `Executor` implements
//! the [`Runner`] trait and drives execution of a runtime. The `Context` implements any number of
//! the other traits to provide core functionality.
//!
//! A context is a light handle. What the contexts of a runtime share is passed to each operation
//! that reads or changes it, so that a contract can say what the operation does to it.

pub mod assoc;
pub mod clock;
pub mod deterministic;
pub mod error;
pub mod handle;
pub mod hex;
pub mod memory;
pub mod metrics;
pub mod mocks;
pub mod network;
pub mod partition;
pub mod registry;
pub mod scheduler;
pub mod signal;
pub mod state;
pub mod storage;
pub mod switch;
pub mod task;
pub mod time;

pub use clock::Clock;
pub use error::Error;
pub use handle::Handle;
pub use metrics::Metrics;
pub use network::{Listener, Network, Sink, Stream};
pub use signal::{Signal, Signaler};
pub use state::Shared;
pub use storage::{Blob, Storage};
pub use task::{Runner, Spawner};
