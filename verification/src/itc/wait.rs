use vstd::prelude::*;
use crate::config::{TickType, PORT_MAX_DELAY};

verus! {

/// The outcome of one step of a blocking call.
#[derive(Clone, Copy, PartialEq, Eq, Structural, Debug)]
pub enum BlockStep {
    /// The call ends with this result; the second value tells whether the
    /// caller should yield because it woke a task of at least its priority.
    Done(bool, bool),
    /// The running task was blocked: yield, then call `after_wake`.
    Yield,
}

/// The time bookkeeping of a blocking call.
pub struct Wait {
    /// The timeout the call was made with (`PORT_MAX_DELAY`: no limit).
    pub timeout: TickType,
    /// The tick count when the call was made.
    pub entry_tick: TickType,
    /// How long the next block may last.
    pub remaining: TickType,
}

/// `now - entry`, wrapped around at the largest tick value.
pub open spec fn elapsed_ticks(now: TickType, entry: TickType) -> TickType {
    if now >= entry {
        (now - entry) as TickType
    } else {
        (now + 0x1_0000_0000 - entry) as TickType
    }
}

impl Wait {
    /// The bookkeeping of a call made at tick `now` with limit `timeout`.
    pub fn new(timeout: TickType, now: TickType) -> (w: Self)
        ensures
            w.timeout == timeout,
            w.entry_tick == now,
            w.remaining == timeout,
    {
        Wait { timeout, entry_tick: now, remaining: timeout }
    }

    /// After a wake-up that was not a timeout: false when the whole timeout
    /// has passed since the call was made; otherwise the remaining time is
    /// what is left of it. A call without limit always goes on.
    pub fn still_waiting(&mut self, now: TickType) -> (r: bool)
        ensures
            final(self).timeout == old(self).timeout,
            final(self).entry_tick == old(self).entry_tick,
            old(self).timeout == PORT_MAX_DELAY ==> r && final(self).remaining == old(self).remaining,
            old(self).timeout != PORT_MAX_DELAY ==> {
                let elapsed = elapsed_ticks(now, old(self).entry_tick);
                &&& r == (elapsed < old(self).timeout)
                &&& r ==> final(self).remaining == old(self).timeout - elapsed
                &&& !r ==> final(self).remaining == old(self).remaining
            },
    {
        if self.timeout == PORT_MAX_DELAY {
            return true;
        }
        let elapsed: TickType = if now >= self.entry_tick {
            now - self.entry_tick
        } else {
            now + (u32::MAX - self.entry_tick) + 1
        };
        if elapsed >= self.timeout {
            return false;
        }
        self.remaining = self.timeout - elapsed;
        true
    }
}

/// The elapsed time is the number of ticks since the call was made: with
/// no wrap-around of the counter it is `now - entry` (so zero at the call's
/// own tick), and across one wrap-around it counts the ticks up to the
/// largest value and on from zero.
pub proof fn lemma_elapsed_since_call(now: TickType, entry: TickType)
    ensures
        now >= entry ==> elapsed_ticks(now, entry) == now - entry,
        now < entry ==> elapsed_ticks(now, entry) == (u32::MAX - entry) + 1 + now,
        elapsed_ticks(entry, entry) == 0,
{
}

/// A call with a time limit that is woken before the limit is reached goes
/// on: `still_waiting` says so and leaves the rest of the limit, counted from
/// the call; once the limit is reached it does not go on and keeps the
/// remaining time.
pub proof fn lemma_still_waiting_in_time(w0: Wait, w1: Wait, now: TickType, r: bool)
    requires
        w0.timeout != PORT_MAX_DELAY,
        w0.entry_tick <= now,
        w1.timeout == w0.timeout,
        ({
            let elapsed = elapsed_ticks(now, w0.entry_tick);
            &&& r == (elapsed < w0.timeout)
            &&& r ==> w1.remaining == w0.timeout - elapsed
            &&& !r ==> w1.remaining == w0.remaining
        }),
    ensures
        now - w0.entry_tick < w0.timeout ==> r && w1.remaining == w0.timeout - (now - w0.entry_tick),
        now - w0.entry_tick >= w0.timeout ==> !r && w1.remaining == w0.remaining,
{
}

} // verus!
