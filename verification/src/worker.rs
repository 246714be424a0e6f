//! What a worker of the pool does with what its wait for a message ends in.
//!
//! The worker's thread waits on its channel with a timeout, hands the
//! outcome to [`on_event`] and does what comes back.

use vstd::prelude::*;

verus! {

/// How a wait for a message ended.
#[derive(Clone, Copy, Debug, PartialEq, Eq, Structural)]
pub enum Event {
    /// A message came in.
    Received,
    /// No message came in time; `stop` is the stop flag as read after the
    /// wait.
    TimedOut { stop: bool },
}

/// What the worker does next.
#[derive(Clone, Copy, Debug, PartialEq, Eq, Structural)]
pub enum Action {
    /// Work on the message for a while, then wait for the next one.
    Rest,
    /// Wait for the next message.
    Listen,
    /// Leave the loop.
    Stop,
}

/// The worker's next state and action: a message is counted, and worked on
/// for a while where the worker is a slow one; a timeout ends the loop once
/// the stop flag is set and not before.
pub fn on_event(received: u32, event: Event, do_delay: bool) -> (next: (u32, Action))
    requires
        event is Received ==> received < u32::MAX,
    ensures
        next.0 == (if event is Received {
            received + 1
        } else {
            received as int
        }),
        next.1 == (match event {
            Event::Received => if do_delay {
                Action::Rest
            } else {
                Action::Listen
            },
            Event::TimedOut { stop } => if stop {
                Action::Stop
            } else {
                Action::Listen
            },
        }),
{
    match event {
        Event::Received => {
            // increment rec counter
            let n = received + 1;
            if do_delay {
                // pretend to do lengthy work
                (n, Action::Rest)
            } else {
                (n, Action::Listen)
            }
        },
        Event::TimedOut { stop } => {
            // recv timeout
            if stop {
                // thread signalled to stop
                (received, Action::Stop)
            } else {
                (received, Action::Listen)
            }
        },
    }
}

} // verus!
