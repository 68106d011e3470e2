//! The wait-event command: a firmware request that waits until the simulator raises
//! an event.
use vstd::prelude::*;

verus! {

/// The action code of the wait-event command.
pub const WAIT_EVENT_ACTION: u32 = 0x8;

/// The status that the simulator gives for an event it does not support.
pub const EVENT_UNSUPPORTED: u32 = 0xffff_ffff;

/// What one poll of the simulator's event status means for the waiting command.
#[derive(Clone, Copy, Debug, PartialEq, Eq, Structural)]
pub enum WaitPoll {
    /// The event has not happened: poll again.
    Pending,
    /// The event happened: answer with one word, the status.
    Ready(u32),
}

/// Waits for a simulator event, by number.
#[derive(Clone, Copy, Debug, PartialEq, Eq, Structural)]
pub struct WaitEvent;

impl WaitEvent {
    /// The command handles requests with action `action`.
    pub fn is_me(&self, action: u32) -> (r: bool)
        ensures
            r == (action == WAIT_EVENT_ACTION),
    {
        action == WAIT_EVENT_ACTION
    }

    /// What the event status `status` of one poll means. The status of an event that
    /// the simulator does not support is no answer: the caller stops before asking.
    pub fn poll_cmd(&self, status: u32) -> (r: WaitPoll)
        requires
            status != EVENT_UNSUPPORTED,
        ensures
            status == 0 ==> r == WaitPoll::Pending,
            status != 0 ==> r == WaitPoll::Ready(status),
    {
        if status == 0 {
            WaitPoll::Pending
        } else {
            WaitPoll::Ready(status)
        }
    }
}

} // verus!
