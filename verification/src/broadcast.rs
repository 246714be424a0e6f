//! One bounded channel per worker: each message goes to all of them.

use super::single::send_to;
use vstd::prelude::*;

verus! {

/// Sends a copy of `msg` to each of `senders` in turn and stops at the first
/// that does not take it in time. Says whether all took it.
pub fn send_all(senders: &Vec<crossbeam_channel::Sender<(String, usize)>>, msg: &(String, usize)) -> (sent:
    bool)
    ensures
        senders@.len() == 0 ==> sent,
{
    let mut i: usize = 0;
    while i < senders.len()
        invariant
            i <= senders@.len(),
        decreases senders@.len() - i,
    {
        if !send_to(&senders[i], (msg.0.clone(), msg.1)) {
            return false;
        }
        i += 1;
    }
    true
}

/// Whether each worker has received exactly `expected` messages.
pub fn chk_msg_counts(counts: &Vec<u32>, expected: u32) -> (ok: bool)
    ensures
        ok == (forall|i: int| 0 <= i < counts@.len() ==> counts@[i] == expected),
{
    let mut i: usize = 0;
    while i < counts.len()
        invariant
            i <= counts@.len(),
            forall|k: int| 0 <= k < i ==> counts@[k] == expected,
        decreases counts@.len() - i,
    {
        if counts[i] != expected {
            return false;
        }
        i += 1;
    }
    true
}

} // verus!
