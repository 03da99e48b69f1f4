//! The decision core of a thread-local async runtime.
//!
//! Everything the runtime has to decide stands here as plain state and plain values: which task,
//! future or stream is to be polled next, which wakers are due, what the reactor hands to the
//! operating system and how it reads the answer. Polling a future, calling a waker and talking to
//! the operating system are left to the code around the library, which performs the action it is
//! told and hands the outcome back.
//!
//! A waker is any value of a type `W`: the library stores it and gives it back when it is due.

use vstd::prelude::*;

pub mod executor;
pub mod id;
pub mod io;
pub mod join;
pub mod merge;
pub mod poller;
pub mod reactor;
pub mod task;
pub mod time;
pub mod wake_queue;
pub mod waker;

pub use executor::{Executor, RunAction, RunPass, MAIN_TASK_ID};
pub use id::Id;
pub use io::{Async, Attempt, EventWait, Progress};
pub use join::{JoinFuture, TryJoinFuture};
pub use merge::{MergeFutureStream, MergeStream};
pub use poller::{PollEntry, PollSet, PollTimeout, TimerSpec};
pub use reactor::{
    Awoken, Filter, Interest, Reactor, ReactorError, Source, WaitPlan, WithFlag,
};
pub use task::{HandleData, RetData, TaskHandle, TaskWaker};
pub use time::{Duration, TimerQueue};
pub use wake_queue::{Drain, WakeQueue};
pub use waker::FlagWaker;

verus! {

/// What polling a future or a stream once gave.
#[derive(Debug)]
pub enum Poll<T> {
    /// The value is there.
    Ready(T),
    /// Not yet: the waker that was handed over is called once polling again is worth it.
    Pending,
}

} // verus!
