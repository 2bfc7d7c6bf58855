//! The std channel through which results reach the submitter of a computation.
use crate::job::Job;
use std::sync::mpsc::{Receiver, Sender};
use vstd::prelude::*;

verus! {

#[verifier::external_type_specification]
#[verifier::external_body]
#[verifier::reject_recursive_types(T)]
pub struct ExSender<T>(Sender<T>);

#[verifier::external_type_specification]
#[verifier::external_body]
#[verifier::reject_recursive_types(T)]
pub struct ExReceiver<T>(Receiver<T>);

/// A sending end of the channel of a job. The two ends of one channel, and
/// every clone of a sending end, carry the same ghost number; nothing is
/// said of the numbers of two different channels.
#[verifier::reject_recursive_types(T)]
pub struct ChannelSender<T> {
    pub(crate) sender: Sender<T>,
    pub(crate) channel: Ghost<int>,
}

impl<T> ChannelSender<T> {
    /// The number of the channel this end sends on.
    pub closed spec fn channel_id(&self) -> int {
        self.channel@
    }

    /// Give this end the channel number `n`.
    pub(crate) fn set_channel_id(&mut self, n: Ghost<int>)
        ensures
            final(self).channel_id() == n@,
    {
        self.channel = n;
    }
}

/// What one non-blocking read of a channel found.
pub enum Received<T> {
    /// A value that was waiting in the channel.
    Value(T),
    /// The channel is open but holds no value right now.
    Empty,
    /// The channel holds no value and every sending end is gone.
    Disconnected,
}

/// A ghost record of every value the library handed to a channel, each
/// with the number of the channel it was handed to, in the order of the
/// sends. Only `channel_send` adds to it.
#[verifier::reject_recursive_types(T)]
pub struct SendLog<T> {
    entries: Ghost<Seq<(int, T)>>,
}

impl<T> SendLog<T> {
    /// The sends recorded so far: channel number and value, oldest first.
    pub closed spec fn entries(&self) -> Seq<(int, T)> {
        self.entries@
    }

    /// A record of no sends.
    pub fn new() -> (log: Self)
        ensures
            log.entries() == Seq::<(int, T)>::empty(),
    {
        SendLog { entries: Ghost(Seq::empty()) }
    }
}

/// Calls `Sender::send` on `sender` with `value`, and records in `log` that
/// `value` was handed to the channel of `sender`. Per its documentation the
/// value is handed back, inside the error, exactly when the receiving end
/// is gone; this returns it in that case. Whether the receiving end is
/// still there is not a function of the arguments, so nothing is claimed
/// about which case occurs.
#[verifier::external_body]
pub(crate) fn channel_send<T>(sender: &ChannelSender<T>, value: T, log: &mut SendLog<T>) -> (returned: Option<T>)
    ensures
        returned matches Some(v) ==> v == value,
        final(log).entries() == old(log).entries().push((sender.channel_id(), value)),
{
    log.entries = Ghost(log.entries@.push((sender.channel@, value)));
    match sender.sender.send(value) {
        Ok(()) => None,
        Err(e) => Some(e.0),
    }
}

/// Calls `Sender::clone`, which per its documentation makes another sending
/// end of the same channel; the clone keeps the channel's number.
#[verifier::external_body]
pub(crate) fn channel_clone_sender<T>(sender: &ChannelSender<T>) -> (s: ChannelSender<T>)
    ensures
        s.channel_id() == sender.channel_id(),
{
    ChannelSender { sender: sender.sender.clone(), channel: sender.channel }
}

/// Calls `std::sync::mpsc::channel`, which per its documentation makes a new
/// channel and gives back its two ends; the sending end, and the job reading
/// the receiving end, carry one and the same channel number. Which number it
/// is, is not claimed.
#[verifier::external_body]
pub(crate) fn channel_new<T>() -> (ends: (ChannelSender<T>, Job<T>))
    ensures
        ends.0.channel_id() == ends.1.channel_id(),
{
    let (sender, port) = std::sync::mpsc::channel();
    (ChannelSender { sender, channel: Ghost(0int) }, Job { port, channel: Ghost(0int) })
}

/// Calls `Receiver::try_recv` and tells its outcomes apart one for one.
/// What it finds depends on other threads, so nothing is claimed of it.
#[verifier::external_body]
pub(crate) fn channel_try_recv<T>(port: &Receiver<T>) -> (r: Received<T>) {
    match port.try_recv() {
        Ok(v) => Received::Value(v),
        Err(std::sync::mpsc::TryRecvError::Empty) => Received::Empty,
        Err(std::sync::mpsc::TryRecvError::Disconnected) => Received::Disconnected,
    }
}

/// Calls `Receiver::recv`, which blocks until a value arrives (`Some`) or
/// every sending end is gone (`None`). What it finds depends on other
/// threads, so nothing is claimed of it.
#[verifier::external_body]
pub(crate) fn channel_recv<T>(port: &Receiver<T>) -> (r: Option<T>) {
    port.recv().ok()
}

} // verus!
