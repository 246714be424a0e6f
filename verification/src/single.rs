//! One bounded channel that many workers listen on: each message goes to
//! one of them.

use vstd::prelude::*;

verus! {

/// `crossbeam_channel::Sender`: the sending end of a channel, carried
/// through as a value of which nothing is known.
#[verifier::external_type_specification]
#[verifier::external_body]
#[verifier::reject_recursive_types(T)]
pub struct ExSender<T>(crossbeam_channel::Sender<T>);

/// `crossbeam_channel::Receiver`: the receiving end of a channel, carried
/// through as a value of which nothing is known.
#[verifier::external_type_specification]
#[verifier::external_body]
#[verifier::reject_recursive_types(T)]
pub struct ExReceiver<T>(crossbeam_channel::Receiver<T>);

/// `crossbeam_channel::SendTimeoutError`: why a send did not go through,
/// carried through as a value of which nothing is known.
#[verifier::external_type_specification]
#[verifier::external_body]
#[verifier::reject_recursive_types(T)]
pub struct ExSendTimeoutError<T>(crossbeam_channel::SendTimeoutError<T>);

/// How long a send waits for room in the channel, in milliseconds.
pub const SEND_TIMEOUT_MS: u64 = 100;

/// What `crossbeam_channel::Sender::capacity` gives for `tx`: the number of
/// messages that its channel was made to hold, `None` for a channel without
/// a bound. A channel keeps it for life.
pub uninterp spec fn sender_capacity(tx: crossbeam_channel::Sender<(String, usize)>) -> Option<
    usize,
>;

/// What `crossbeam_channel::Receiver::capacity` gives for `rx`: the number
/// of messages that its channel was made to hold, `None` for a channel
/// without a bound. A channel keeps it for life.
pub uninterp spec fn receiver_capacity(rx: crossbeam_channel::Receiver<(String, usize)>) -> Option<
    usize,
>;

/// `crossbeam_channel::bounded`: the two ends of a new channel that holds at
/// most `capacity` messages, which is the capacity that both ends give.
/// The capacities that the call refuses with a panic lie far above those
/// admitted here.
#[verifier::external_body]
fn bounded(capacity: usize) -> (ends: (
    crossbeam_channel::Sender<(String, usize)>,
    crossbeam_channel::Receiver<(String, usize)>,
))
    requires
        capacity <= u8::MAX,
    ensures
        sender_capacity(ends.0) == Some(capacity),
        receiver_capacity(ends.1) == Some(capacity),
{
    crossbeam_channel::bounded(capacity)
}

/// `crossbeam_channel::Sender::send_timeout`: waits up to `millis`
/// milliseconds for room in the channel. Whether the message went in depends
/// on the other end and on the clock, so nothing is claimed of the outcome.
/// The wait is kept short, so that the call comes back also from a channel
/// that stays full.
#[verifier::external_body]
fn send_timeout(
    tx: &crossbeam_channel::Sender<(String, usize)>,
    msg: (String, usize),
    millis: u64,
) -> (outcome: Result<(), crossbeam_channel::SendTimeoutError<(String, usize)>>)
    requires
        millis <= SEND_TIMEOUT_MS,
{
    tx.send_timeout(msg, std::time::Duration::from_millis(millis))
}

/// `Clone::clone` of `crossbeam_channel::Receiver`: another handle on the
/// receiving end of the same channel, which therefore reports the capacity
/// that `rx` reports.
#[verifier::external_body]
fn another_receiver(rx: &crossbeam_channel::Receiver<(String, usize)>) -> (handle:
    crossbeam_channel::Receiver<(String, usize)>)
    ensures
        receiver_capacity(handle) == receiver_capacity(*rx),
{
    rx.clone()
}

/// Whether the outcome of a send says that the message went into the
/// channel.
pub fn delivered(outcome: &Result<(), crossbeam_channel::SendTimeoutError<(String, usize)>>) -> (ok:
    bool)
    ensures
        ok == (outcome is Ok),
{
    match outcome {
        Ok(_) => true,
        Err(_) => false,
    }
}

/// Sends `msg` into the channel behind `tx`, waiting for room no longer
/// than [`SEND_TIMEOUT_MS`], and says whether the message went in.
pub fn send_to(tx: &crossbeam_channel::Sender<(String, usize)>, msg: (String, usize)) -> (sent:
    bool) {
    let result = send_timeout(tx, msg, SEND_TIMEOUT_MS);
    delivered(&result)
}

/// Holds channel objects for the main thread to communicate with workers
pub struct MessageBus {
    tx: crossbeam_channel::Sender<(String, usize)>,
    rx: crossbeam_channel::Receiver<(String, usize)>,
}

impl MessageBus {
    /// Both ends of the bus belong to a channel of one capacity.
    #[verifier::type_invariant]
    spec fn ends_agree(self) -> bool {
        sender_capacity(self.tx) == receiver_capacity(self.rx)
    }

    /// The number of messages that the channel of the bus holds at most.
    pub closed spec fn capacity(&self) -> Option<usize> {
        receiver_capacity(self.rx)
    }

    /// A bus whose channel queues no more than `capacity` messages.
    pub fn new(capacity: u8) -> (bus: Self)
        ensures
            bus.capacity() == Some(capacity as usize),
    {
        // channels are a fixed size and will not queue msgs beyond capacity
        let (t, r) = bounded(capacity as usize);
        Self { tx: t, rx: r }
    }

    /// Sends `msg` to whichever worker takes it first, and says whether it
    /// went into the channel in time.
    pub fn send(&self, msg: (String, usize)) -> (sent: bool) {
        send_to(&self.tx, msg)
    }

    /// A handle on the receiving end, for one more worker: it reports the
    /// capacity of the bus.
    pub fn get_recvr(&self) -> (handle: crossbeam_channel::Receiver<(String, usize)>)
        ensures
            receiver_capacity(handle) == self.capacity(),
    {
        another_receiver(&self.rx)
    }
}

} // verus!
