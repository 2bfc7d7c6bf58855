//! The handle through which the submitter of a computation reads its results.
use crate::channel::{channel_new, channel_recv, channel_try_recv, ChannelSender, Received};
use std::sync::mpsc::Receiver;
use vstd::prelude::*;

verus! {

/// A problem fetching a result from a job.
#[derive(Debug, PartialEq, Eq, Structural)]
pub enum ResultError {
    /// Returned from `try_recv` when no results are available at the time of the call.
    NoResult,
    /// Returned from `try_recv` and `recv` when there are no more results to fetch.
    Completed,
}

impl ResultError {
    /// The human-readable text of the error.
    pub fn message(&self) -> (m: &'static str)
        ensures
            *self == ResultError::Completed ==> m@ == "The job has finished executing, no results left to read"@,
            *self == ResultError::NoResult ==> m@ == "No results available"@,
    {
        match self {
            ResultError::Completed => "The job has finished executing, no results left to read",
            ResultError::NoResult => "No results available",
        }
    }
}

/// The result of a non-blocking read, given what the channel held.
pub fn try_recv_result<Ret>(found: Received<Ret>) -> (r: Result<Ret, ResultError>)
    ensures
        found matches Received::Value(v) ==> r == Ok::<Ret, ResultError>(v),
        found is Empty ==> r == Err::<Ret, ResultError>(ResultError::NoResult),
        found is Disconnected ==> r == Err::<Ret, ResultError>(ResultError::Completed),
{
    match found {
        Received::Value(v) => Ok(v),
        Received::Empty => Err(ResultError::NoResult),
        Received::Disconnected => Err(ResultError::Completed),
    }
}

/// The result of a blocking read, given what the channel delivered
/// (`None` when every sending end is gone).
pub fn recv_result<Ret>(found: Option<Ret>) -> (r: Result<Ret, ResultError>)
    ensures
        found matches Some(v) ==> r == Ok::<Ret, ResultError>(v),
        found is None ==> r == Err::<Ret, ResultError>(ResultError::Completed),
{
    match found {
        Some(v) => Ok(v),
        None => Err(ResultError::Completed),
    }
}

/// The handle for a computation, used to fetch its results. Termination of
/// the computation shows as `ResultError::Completed`.
#[verifier::reject_recursive_types(Ret)]
pub struct Job<Ret> {
    pub(crate) port: Receiver<Ret>,
    pub(crate) channel: Ghost<int>,
}

/// Open a new channel: a sending end for the results of a computation, and
/// the job that reads them.
pub fn open_channel<Ret>() -> (ends: (ChannelSender<Ret>, Job<Ret>))
    ensures
        ends.0.channel_id() == ends.1.channel_id(),
{
    channel_new()
}

/// Open a new channel whose two ends carry the number `n`.
pub(crate) fn open_numbered_channel<Ret>(n: Ghost<int>) -> (ends: (ChannelSender<Ret>, Job<Ret>))
    ensures
        ends.0.channel_id() == n@,
        ends.1.channel_id() == n@,
{
    let (mut sender, mut job) = channel_new();
    sender.set_channel_id(n);
    job.channel = n;
    (sender, job)
}

impl<Ret> Job<Ret> {
    /// The number of the channel this job reads.
    pub closed spec fn channel_id(&self) -> int {
        self.channel@
    }

    /// Attempt to get a result from this `Job` without blocking; a
    /// `ResultError` if no result is available at the time of the call.
    pub fn try_recv(&self) -> (r: Result<Ret, ResultError>) {
        try_recv_result(channel_try_recv(&self.port))
    }

    /// Block and wait for a result; `ResultError::Completed` once no more
    /// results can arrive.
    pub fn recv(&self) -> (r: Result<Ret, ResultError>)
        ensures
            r matches Err(e) ==> e == ResultError::Completed,
    {
        recv_result(channel_recv(&self.port))
    }
}

} // verus!
