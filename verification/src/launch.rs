//! Waiting for a server that was just started: how long to keep asking it
//! for a `PING`, and how long to pause between attempts.

use vstd::prelude::*;

verus! {

/// How long a server gets to answer its first `PING`, in milliseconds.
pub const START_LIMIT_MS: u64 = 15000;

/// The pause between two attempts, in milliseconds.
pub const POLL_MS: u64 = 25;

/// What the wait for a freshly started server does next.
pub enum StartStep {
    /// Connect and send a `PING`.
    Probe,
    /// It answered: the server is up.
    Ready,
    /// Pause this many milliseconds, then ask again.
    Wait(u64),
    /// The time is up: stop the server and fail.
    GiveUp,
}

/// One step of the wait, `elapsed_ms` after the server was started. With
/// no attempt made yet at this step (`answered` is `None`), an attempt is due
/// while the time is not up; after an attempt, an answer ends the wait and no
/// answer means a pause before the next step.
pub fn start_step(elapsed_ms: u64, answered: Option<bool>) -> (s: StartStep)
    ensures
        answered is None && elapsed_ms < START_LIMIT_MS ==> s is Probe,
        answered is None && elapsed_ms >= START_LIMIT_MS ==> s is GiveUp,
        answered == Some(true) ==> s is Ready,
        answered == Some(false) ==> (s matches StartStep::Wait(ms) && ms == POLL_MS),
{
    match answered {
        None => if elapsed_ms < START_LIMIT_MS {
            StartStep::Probe
        } else {
            StartStep::GiveUp
        },
        Some(true) => StartStep::Ready,
        Some(false) => StartStep::Wait(POLL_MS),
    }
}

} // verus!
