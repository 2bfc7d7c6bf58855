//! A fork-join parallelism library.
//!
//! The verified part of the library holds the data model of tasks and
//! algorithms, the join barriers that collect the results of forked subtasks,
//! the engine that decides what happens with each task result, the laws on
//! what whole runs of the engine hand to a computation's job, and the
//! handle through which the submitter of a computation reads its results.
pub mod algorithm;
pub mod barrier;
pub mod channel;
pub mod job;
pub mod run;
pub mod scheduler;
pub mod search;


pub use algorithm::{AlgoStyle, Algorithm, ReduceStyle, Task, TaskResult};
pub use barrier::{CompletedJoin, JoinBarrier, ResultReceiver};
pub use channel::{ChannelSender, Received};
pub use job::{open_channel, recv_result, try_recv_result, Job, ResultError};
pub use scheduler::{Scheduler, Step};
