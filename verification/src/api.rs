//! The decisions of the calls that wait on a port and kill by port; the
//! caller does the looking up, the signalling and the sleeping.
use vstd::prelude::*;

verus! {

/// What to do after one look at a port while waiting for it to be free.
pub enum WaitStep {
    /// The port is free: the wait succeeds.
    Free,
    /// The time is up: the wait fails.
    TimedOut,
    /// Sleep this many milliseconds, then look again.
    Sleep(u64),
}

/// The pause between two looks at the port.
pub open spec fn poll_interval_ms() -> u64 {
    50
}

/// Decides one round of waiting for a port to be free: `port_free` is what
/// the look found, `elapsed_ms` the time since the wait began; the wait
/// gives up once `timeout_ms` have passed.
pub fn wait_for_port_free(port_free: bool, elapsed_ms: u64, timeout_ms: u32) -> (r: WaitStep)
    ensures
        port_free ==> r is Free,
        !port_free && elapsed_ms >= timeout_ms ==> r is TimedOut,
        !port_free && elapsed_ms < timeout_ms ==> r == WaitStep::Sleep(poll_interval_ms()),
{
    if port_free {
        WaitStep::Free
    } else if elapsed_ms >= timeout_ms as u64 {
        WaitStep::TimedOut
    } else {
        WaitStep::Sleep(50)
    }
}

/// The answer of a kill by port: the pid found on the port when the signal
/// reached it, else nothing.
pub fn kill_by_port(found: Option<u32>, killed: bool) -> (r: Option<u32>)
    ensures
        r == (if killed {
            found
        } else {
            None
        }),
{
    match found {
        Some(pid) => if killed {
            Some(pid)
        } else {
            None
        },
        None => None,
    }
}

} // verus!
