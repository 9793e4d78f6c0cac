//! Single-producer / single-consumer message queue (crossbeam-backed).
//!
//! This is the recommended way to hand audio blocks or control messages
//! between an audio thread and a UI/control thread: crossbeam's channels
//! are lock-free for the SPSC case and never allocate in `try_*` paths.
//!
//! What a receive returns depends on what other threads sent, so the
//! contracts here state what holds of every outcome: a refused message is
//! handed back unchanged, and each call reports one of its documented
//! results.
use vstd::prelude::*;

verus! {

/// `crossbeam_channel::Sender`, the sending end of a channel, held opaque.
#[verifier::external_type_specification]
#[verifier::external_body]
#[verifier::reject_recursive_types(T)]
pub struct ExSender<T>(crossbeam_channel::Sender<T>);

/// `crossbeam_channel::Receiver`, the receiving end of a channel, held opaque.
#[verifier::external_type_specification]
#[verifier::external_body]
#[verifier::reject_recursive_types(T)]
pub struct ExReceiver<T>(crossbeam_channel::Receiver<T>);

/// The message could not be sent because the channel is disconnected; the
/// message is handed back.
#[derive(PartialEq, Eq, Debug)]
pub struct SendError<T>(pub T);

/// The message could not be sent right now; the message is handed back.
#[derive(PartialEq, Eq, Debug)]
pub enum TrySendError<T> {
    /// The channel is full.
    Full(T),
    /// The channel is disconnected.
    Disconnected(T),
}

/// A message could not be received because the channel is empty and
/// disconnected.
#[derive(PartialEq, Eq, Clone, Copy, Debug)]
pub struct RecvError;

/// A message could not be received right now.
#[derive(PartialEq, Eq, Clone, Copy, Debug)]
pub enum TryRecvError {
    /// The channel is empty.
    Empty,
    /// The channel is empty and disconnected.
    Disconnected,
}

/// A `try_send` outcome: success, or the refused message handed back.
pub open spec fn try_send_outcome<T>(r: Result<(), TrySendError<T>>, msg: T) -> bool {
    match r {
        Ok(()) => true,
        Err(TrySendError::Full(m)) => m == msg,
        Err(TrySendError::Disconnected(m)) => m == msg,
    }
}

/// A `send` outcome: success, or the refused message handed back.
pub open spec fn send_outcome<T>(r: Result<(), SendError<T>>, msg: T) -> bool {
    match r {
        Ok(()) => true,
        Err(SendError(m)) => m == msg,
    }
}

/// A capacity for which `crossbeam_channel::bounded` neither overflows its
/// index arithmetic (`(capacity + 1).next_power_of_two() * 2`) nor the size
/// of its slot buffer: one slot holds a message and a stamp of at most
/// eight bytes, padded to the larger of their alignments, so it takes at
/// most `size + align + 15` bytes. Capacity zero makes a rendezvous
/// channel, which has no slot buffer.
pub open spec fn bounded_capacity_ok<T>(capacity: usize) -> bool {
    ||| capacity == 0
    ||| {
        &&& capacity <= usize::MAX / 4
        &&& capacity * (vstd::layout::size_of::<T>() + vstd::layout::align_of::<T>() + 16)
            + vstd::layout::align_of::<T>() + 16 <= isize::MAX
    }
}

/// Calls `crossbeam_channel::bounded`, which creates a channel holding at
/// most `capacity` messages. It panics on a capacity whose index
/// arithmetic or slot buffer would overflow; `bounded_capacity_ok` rules
/// those out. Nothing is claimed of the two ends beyond that they exist.
#[verifier::external_body]
fn channel_bounded<T>(capacity: usize) -> (crossbeam_channel::Sender<T>, crossbeam_channel::Receiver<T>)
    requires
        bounded_capacity_ok::<T>(capacity),
{
    crossbeam_channel::bounded(capacity)
}

/// Calls `crossbeam_channel::unbounded`, which creates a channel with a
/// growable buffer. Nothing is claimed of the two ends beyond that they
/// exist.
#[verifier::external_body]
fn channel_unbounded<T>() -> (crossbeam_channel::Sender<T>, crossbeam_channel::Receiver<T>) {
    crossbeam_channel::unbounded()
}

/// Calls `crossbeam_channel::Sender::send`, which blocks until the message
/// is sent or the channel is disconnected; on disconnection the error holds
/// the message it was given. The result depends on the other end, so only
/// that the refused message is handed back is claimed.
#[verifier::external_body]
fn sender_send<T>(sender: &crossbeam_channel::Sender<T>, msg: T) -> (r: Result<(), SendError<T>>)
    ensures
        send_outcome(r, msg),
{
    match sender.send(msg) {
        Ok(()) => Ok(()),
        Err(crossbeam_channel::SendError(m)) => Err(SendError(m)),
    }
}

/// Calls `crossbeam_channel::Sender::try_send`, which sends only if the
/// channel has room now; a full or disconnected channel hands the
/// message back in the error. Which outcome occurs depends on the other
/// end, so only that the refused message is handed back is claimed.
#[verifier::external_body]
fn sender_try_send<T>(sender: &crossbeam_channel::Sender<T>, msg: T) -> (r: Result<(), TrySendError<T>>)
    ensures
        try_send_outcome(r, msg),
{
    match sender.try_send(msg) {
        Ok(()) => Ok(()),
        Err(crossbeam_channel::TrySendError::Full(m)) => Err(TrySendError::Full(m)),
        Err(crossbeam_channel::TrySendError::Disconnected(m)) => Err(TrySendError::Disconnected(m)),
    }
}

/// Calls `crossbeam_channel::Receiver::recv`, which blocks until a message
/// arrives or the channel is empty and disconnected. What arrives depends
/// on the senders, so nothing is claimed of it.
#[verifier::external_body]
fn receiver_recv<T>(receiver: &crossbeam_channel::Receiver<T>) -> Result<T, RecvError> {
    match receiver.recv() {
        Ok(v) => Ok(v),
        Err(crossbeam_channel::RecvError) => Err(RecvError),
    }
}

/// Calls `crossbeam_channel::Receiver::try_recv`, which takes a message if
/// one is waiting, or reports an empty or disconnected channel. What
/// arrives depends on the senders, so nothing is claimed of it.
#[verifier::external_body]
fn receiver_try_recv<T>(receiver: &crossbeam_channel::Receiver<T>) -> Result<T, TryRecvError> {
    match receiver.try_recv() {
        Ok(v) => Ok(v),
        Err(crossbeam_channel::TryRecvError::Empty) => Err(TryRecvError::Empty),
        Err(crossbeam_channel::TryRecvError::Disconnected) => Err(TryRecvError::Disconnected),
    }
}

/// Calls `Clone::clone` on a `crossbeam_channel::Sender`, which makes
/// another handle to the same channel: it increments the channel's sender
/// count and returns a handle holding the same pointer to the shared
/// channel (`counter::Sender::acquire`), so the new handle is equal to the
/// one it was cloned from.
#[verifier::external_body]
fn sender_clone<T>(sender: &crossbeam_channel::Sender<T>) -> (r: crossbeam_channel::Sender<T>)
    ensures
        r == *sender,
{
    sender.clone()
}

/// Calls `Clone::clone` on a `crossbeam_channel::Receiver`, which makes
/// another handle to the same channel: for the channels made here it
/// increments the receiver count and returns a handle holding the same
/// pointer to the shared channel (`counter::Receiver::acquire`), so the new
/// handle is equal to the one it was cloned from.
#[verifier::external_body]
fn receiver_clone<T>(receiver: &crossbeam_channel::Receiver<T>) -> (r: crossbeam_channel::Receiver<T>)
    ensures
        r == *receiver,
{
    receiver.clone()
}

/// A single-producer, single-consumer FIFO channel. Cheaply cloneable for
/// both ends.
#[derive(Debug)]
#[verifier::reject_recursive_types(T)]
pub struct SpscQueue<T> {
    sender: crossbeam_channel::Sender<T>,
    receiver: crossbeam_channel::Receiver<T>,
}

impl<T> SpscQueue<T> {
    /// The queue's sending end.
    pub closed spec fn channel_sender(&self) -> crossbeam_channel::Sender<T> {
        self.sender
    }

    /// The queue's receiving end.
    pub closed spec fn channel_receiver(&self) -> crossbeam_channel::Receiver<T> {
        self.receiver
    }

    /// Create a channel with a fixed capacity. `send` blocks when full,
    /// `try_send` returns the value instead.
    pub fn bounded(capacity: usize) -> Self
        requires
            bounded_capacity_ok::<T>(capacity),
    {
        let (sender, receiver) = channel_bounded(capacity);
        SpscQueue { sender, receiver }
    }

    /// Create an unbounded channel (prefer bounded for real-time use).
    pub fn unbounded() -> Self {
        let (sender, receiver) = channel_unbounded();
        SpscQueue { sender, receiver }
    }

    /// Send a message, blocking until space is available.
    pub fn send(&self, value: T) -> (r: Result<(), SendError<T>>)
        ensures
            send_outcome(r, value),
    {
        sender_send(&self.sender, value)
    }

    /// Send a message only if capacity is available right now.
    /// This is the real-time-safe call (never blocks, never allocates).
    pub fn try_send(&self, value: T) -> (r: Result<(), TrySendError<T>>)
        ensures
            try_send_outcome(r, value),
    {
        sender_try_send(&self.sender, value)
    }

    /// Receive a message, blocking until one arrives.
    pub fn recv(&self) -> Result<T, RecvError> {
        receiver_recv(&self.receiver)
    }

    /// Receive a message without blocking. Real-time-safe.
    pub fn try_recv(&self) -> Result<T, TryRecvError> {
        receiver_try_recv(&self.receiver)
    }

    /// Split into independent producer and consumer halves. The halves are
    /// handles to the queue's own channel: the producer holds the queue's
    /// sending end and the consumer its receiving end.
    pub fn split(&self) -> (r: (Producer<T>, Consumer<T>))
        ensures
            r.0.channel_sender() == self.channel_sender(),
            r.1.channel_receiver() == self.channel_receiver(),
    {
        (Producer { sender: sender_clone(&self.sender) }, Consumer {
            receiver: receiver_clone(&self.receiver),
        })
    }
}

impl<T> Clone for SpscQueue<T> {
    /// Another handle to the same channel.
    fn clone(&self) -> (r: Self)
        ensures
            r.channel_sender() == self.channel_sender(),
            r.channel_receiver() == self.channel_receiver(),
    {
        SpscQueue { sender: sender_clone(&self.sender), receiver: receiver_clone(&self.receiver) }
    }
}

/// Producer half of an [`SpscQueue`].
#[derive(Debug)]
#[verifier::reject_recursive_types(T)]
pub struct Producer<T> {
    sender: crossbeam_channel::Sender<T>,
}

impl<T> Producer<T> {
    /// The producer's sending end.
    pub closed spec fn channel_sender(&self) -> crossbeam_channel::Sender<T> {
        self.sender
    }

    /// Blocking send.
    pub fn send(&self, value: T) -> (r: Result<(), SendError<T>>)
        ensures
            send_outcome(r, value),
    {
        sender_send(&self.sender, value)
    }

    /// Non-blocking send (real-time-safe).
    pub fn try_send(&self, value: T) -> (r: Result<(), TrySendError<T>>)
        ensures
            try_send_outcome(r, value),
    {
        sender_try_send(&self.sender, value)
    }
}

impl<T> Clone for Producer<T> {
    /// Another handle to the same channel's sending end.
    fn clone(&self) -> (r: Self)
        ensures
            r.channel_sender() == self.channel_sender(),
    {
        Producer { sender: sender_clone(&self.sender) }
    }
}

/// Consumer half of an [`SpscQueue`].
#[derive(Debug)]
#[verifier::reject_recursive_types(T)]
pub struct Consumer<T> {
    receiver: crossbeam_channel::Receiver<T>,
}

impl<T> Consumer<T> {
    /// The consumer's receiving end.
    pub closed spec fn channel_receiver(&self) -> crossbeam_channel::Receiver<T> {
        self.receiver
    }

    /// Blocking receive.
    pub fn recv(&self) -> Result<T, RecvError> {
        receiver_recv(&self.receiver)
    }

    /// Non-blocking receive (real-time-safe).
    pub fn try_recv(&self) -> Result<T, TryRecvError> {
        receiver_try_recv(&self.receiver)
    }
}

impl<T> Clone for Consumer<T> {
    /// Another handle to the same channel's receiving end.
    fn clone(&self) -> (r: Self)
        ensures
            r.channel_receiver() == self.channel_receiver(),
    {
        Consumer { receiver: receiver_clone(&self.receiver) }
    }
}

} // verus!
