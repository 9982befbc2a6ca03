//! The decision inside a watchdog worker: between wake-ups it either reports
//! cancellation, reports the elapsed deadline, or parks for exactly the
//! remaining time (never a short polling slice).

use vstd::prelude::*;

verus! {

/// What the watchdog worker does after one look at its state.
#[derive(Debug, Clone, Copy, PartialEq, Eq, Structural)]
pub enum WaitStep {
    /// Cancelled before the deadline: the wait resolves without timing out.
    Cancelled,
    /// The deadline elapsed before cancellation.
    TimedOut,
    /// Park for the whole remaining deadline.
    Park { remaining_nanos: u64 },
}

/// The decision for one look: cancellation first, then the clock.
pub open spec fn spec_wait_step(cancelled: bool, elapsed_nanos: u64, timeout_nanos: u64) -> WaitStep {
    if cancelled {
        WaitStep::Cancelled
    } else if elapsed_nanos >= timeout_nanos {
        WaitStep::TimedOut
    } else {
        WaitStep::Park { remaining_nanos: (timeout_nanos - elapsed_nanos) as u64 }
    }
}

/// One decision of the worker loop. Cancellation is checked before the clock.
pub fn wait_step(cancelled: bool, elapsed_nanos: u64, timeout_nanos: u64) -> (s: WaitStep)
    ensures
        s == spec_wait_step(cancelled, elapsed_nanos, timeout_nanos),
{
    if cancelled {
        return WaitStep::Cancelled;
    }
    if elapsed_nanos >= timeout_nanos {
        return WaitStep::TimedOut;
    }
    WaitStep::Park { remaining_nanos: timeout_nanos - elapsed_nanos }
}

/// The worker's result once it stops: true only when the deadline elapsed first.
pub fn wait_result(step: WaitStep) -> (r: Option<bool>)
    ensures
        r == (match step {
            WaitStep::Cancelled => Some(false),
            WaitStep::TimedOut => Some(true),
            WaitStep::Park { .. } => None::<bool>,
        }),
{
    match step {
        WaitStep::Cancelled => Some(false),
        WaitStep::TimedOut => Some(true),
        WaitStep::Park { .. } => None,
    }
}

/// The whole milliseconds of a park, saturated to `usize`.
pub fn requested_park_millis(remaining_nanos: u64) -> (m: usize)
    ensures
        m as int == (if remaining_nanos / 1_000_000 > usize::MAX { usize::MAX as int } else { (remaining_nanos / 1_000_000) as int }),
{
    let millis = remaining_nanos / 1_000_000;
    if millis > usize::MAX as u64 {
        usize::MAX
    } else {
        millis as usize
    }
}

} // verus!
