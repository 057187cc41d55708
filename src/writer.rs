//! Decisions of the write pipeline, which applies queued records and then
//! flushes, retrying failures until they succeed or the engine is stopped.
use vstd::prelude::*;

verus! {

/// What the write pipeline does after one attempt of a write or a flush.
#[derive(Clone, Copy, Debug, PartialEq, Eq, Structural)]
pub enum Attempt {
    /// It succeeded: report `WriteProgress` for a write, then go on.
    Done,
    /// It failed: report the error, wait the retry gap, try again.
    Retry,
    /// It failed and the running flag is clear: give up.
    Abandon,
}

/// Whether the pipeline takes up the next record: only while running.
pub fn take_record(running: bool) -> (r: bool)
    ensures
        r == running,
{
    running
}

/// The decision after an attempt that succeeded when `ok` is set, taken
/// with the running flag as it stands.
pub fn after_attempt(running: bool, ok: bool) -> (r: Attempt)
    ensures
        ok ==> r == Attempt::Done,
        !ok && running ==> r == Attempt::Retry,
        !ok && !running ==> r == Attempt::Abandon,
{
    if ok {
        Attempt::Done
    } else if running {
        Attempt::Retry
    } else {
        Attempt::Abandon
    }
}

} // verus!
