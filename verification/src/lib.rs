//! A promise based asynchronous library: deferred tasks, promises of their
//! results, series and parallel execution of many tasks, and event loops.
//!
//! The work runs on the calling thread; handing it to other threads is left to
//! the program around the library.

mod task;
pub mod promise;
pub mod deferred;
pub mod schedule;
pub mod event_loop;
pub mod laws;
pub mod results;

pub use promise::Promise;
pub use deferred::{ControlFlow, Deferred};
pub use event_loop::{Emit, EventLoop};
