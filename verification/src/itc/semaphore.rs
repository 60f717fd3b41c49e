use vstd::prelude::*;
use crate::config::UBaseType;
use crate::event::{wait_list_ok, blocked_current, woke_first_waiter, timeout_cleared};
use crate::itc::wait::{BlockStep, Wait, elapsed_ticks};
use crate::list::List;
use crate::scheduler::{Kernel, IDLE_TASK};
use crate::config::PORT_MAX_DELAY;

verus! {

/// A binary or counting semaphore.
pub struct Semaphore {
    pub count: UBaseType,
    pub max_count: UBaseType,
    /// The tasks blocked in `take`, highest priority first.
    pub wait_list: List,
}

/// What `after_wake` returns for a call whose wait did not time out: `None`
/// (try again, with the remaining time updated) while time is left,
/// `Some(false)` once the whole timeout has passed.
pub open spec fn wake_verdict(w0: Wait, w1: Wait, now: u32, r: Option<bool>) -> bool {
    &&& w1.timeout == w0.timeout
    &&& w1.entry_tick == w0.entry_tick
    &&& if w0.timeout == PORT_MAX_DELAY {
        r.is_none() && w1.remaining == w0.remaining
    } else if elapsed_ticks(now, w0.entry_tick) < w0.timeout {
        r.is_none() && w1.remaining == w0.timeout - elapsed_ticks(now, w0.entry_tick)
    } else {
        r == Some(false) && w1.remaining == w0.remaining
    }
}

impl Semaphore {
    /// The wait list is fit for the kernel and the count never exceeds its
    /// maximum.
    pub open spec fn wf(&self, k: &Kernel) -> bool {
        &&& wait_list_ok(&self.wait_list, k)
        &&& self.count <= self.max_count
    }

    /// A binary semaphore, available.
    pub fn new_binary() -> (s: Self)
        ensures
            s.count == 1,
            s.max_count == 1,
            s.wait_list.items@.len() == 0,
            s.wait_list.index == 0,
    {
        Semaphore { count: 1, max_count: 1, wait_list: List::new() }
    }

    /// A counting semaphore of at most `max` counts, holding `initial` of
    /// them (at most `max`).
    pub fn new_counting(max: UBaseType, initial: UBaseType) -> (s: Self)
        ensures
            s.count == (if initial > max { max } else { initial }),
            s.max_count == max,
            s.wait_list.items@.len() == 0,
            s.wait_list.index == 0,
    {
        let count = if initial > max {
            max
        } else {
            initial
        };
        Semaphore { count, max_count: max, wait_list: List::new() }
    }

    /// Empties the wait list.
    pub fn init(&mut self)
        ensures
            final(self).count == old(self).count,
            final(self).max_count == old(self).max_count,
            final(self).wait_list.items@.len() == 0,
            final(self).wait_list.index == 0,
    {
        self.wait_list.init();
    }

    /// A step of `take`: takes a count when one is available; otherwise fails
    /// when no time is left, or blocks the running task on the wait list for
    /// the remaining time.
    pub fn take(&mut self, k: &mut Kernel, w: &Wait) -> (r: BlockStep)
        requires
            old(k).wf(),
            old(self).wf(old(k)),
            old(self).count == 0 && w.remaining > 0 ==> old(k).current != IDLE_TASK
                && old(k).tcbs@[old(k).current as int].event_list_item.ctner.is_none(),
        ensures
            final(k).wf(),
            final(self).wf(final(k)),
            final(self).max_count == old(self).max_count,
            old(self).count > 0 ==> r == BlockStep::Done(true, false) && final(self).count == old(
                self,
            ).count - 1 && final(self).wait_list == old(self).wait_list && *final(k) == *old(k),
            old(self).count == 0 && w.remaining == 0 ==> r == BlockStep::Done(false, false) && *final(self)
                == *old(self) && *final(k) == *old(k),
            old(self).count == 0 && w.remaining > 0 ==> r == BlockStep::Yield && final(self).count
                == 0 && blocked_current(
                old(k),
                final(k),
                &old(self).wait_list,
                &final(self).wait_list,
                w.remaining,
            ),
    {
        if self.count > 0 {
            self.count = self.count - 1;
            return BlockStep::Done(true, false);
        }
        if w.remaining == 0 {
            return BlockStep::Done(false, false);
        }
        k.place_on_event_list(&mut self.wait_list, w.remaining);
        BlockStep::Yield
    }

    /// The step after a blocked `take` runs again: `Some(false)` when the
    /// wait timed out (the task leaves the wait list) or when the whole
    /// timeout has passed; `None` when `take` is to be tried again.
    pub fn take_after_wake(&mut self, k: &mut Kernel, w: &mut Wait) -> (r: Option<bool>)
        requires
            old(k).wf(),
            old(self).wf(old(k)),
        ensures
            final(k).wf(),
            final(self).wf(final(k)),
            final(self).count == old(self).count,
            final(self).max_count == old(self).max_count,
            old(k).tcbs@[old(k).current as int].event_list_item.ctner.is_some() ==> r == Some(false)
                && *final(w) == *old(w) && timeout_cleared(
                old(k),
                final(k),
                &old(self).wait_list,
                &final(self).wait_list,
            ),
            old(k).tcbs@[old(k).current as int].event_list_item.ctner.is_none() ==> *final(k) == *old(
                k,
            ) && final(self).wait_list == old(self).wait_list && wake_verdict(
                *old(w),
                *final(w),
                old(k).tick_count,
                r,
            ),
    {
        if k.check_timed_out(&mut self.wait_list) {
            return Some(false);
        }
        if w.still_waiting(k.tick_count) {
            None
        } else {
            Some(false)
        }
    }

    /// Gives a count: with waiters, the count goes up (never past its
    /// maximum) and the waiter of highest priority is woken (it takes the
    /// count when it runs); without, the count goes up unless it is at its
    /// maximum, in which case the call fails. Returns the result and whether
    /// the caller should yield.
    pub fn give(&mut self, k: &mut Kernel) -> (r: (bool, bool))
        requires
            old(k).wf(),
            old(self).wf(old(k)),
        ensures
            final(k).wf(),
            final(self).wf(final(k)),
            final(self).max_count == old(self).max_count,
            final(self).count <= final(self).max_count,
            r.0 == (old(self).wait_list.items@.len() > 0 || old(self).count < old(self).max_count),
            old(self).wait_list.items@.len() > 0 ==> r.0 && final(self).count == (if old(self).count
                < old(self).max_count {
                old(self).count + 1
            } else {
                old(self).count as int
            }) && woke_first_waiter(
                old(k),
                final(k),
                &old(self).wait_list,
                &final(self).wait_list,
                old(self).wait_list.items@[0].owner.unwrap(),
                r.1,
            ),
            old(self).wait_list.items@.len() == 0 && old(self).count < old(self).max_count ==> r == (
            true, false) && final(self).count == old(self).count + 1 && final(self).wait_list == old(
                self,
            ).wait_list && *final(k) == *old(k),
            old(self).wait_list.items@.len() == 0 && old(self).count >= old(self).max_count ==> r == (
            false, false) && *final(self) == *old(self) && *final(k) == *old(k),
    {
        if self.wait_list.items.len() > 0 {
            if self.count < self.max_count {
                self.count = self.count + 1;
            }
            let (_t, yield_needed) = k.wake_waiter(&mut self.wait_list);
            (true, yield_needed)
        } else if self.count < self.max_count {
            self.count = self.count + 1;
            (true, false)
        } else {
            (false, false)
        }
    }
}

/// The verdict after a wake-up that was not a timeout, for a call with a
/// time limit made at tick `entry_tick`: while fewer ticks than the limit
/// have passed since the call, the call is tried again with the rest of the
/// limit; once the limit has passed, it fails. A call without limit is
/// always tried again.
pub proof fn lemma_wake_verdict(w0: Wait, w1: Wait, now: u32, r: Option<bool>)
    requires
        wake_verdict(w0, w1, now, r),
    ensures
        w0.timeout == PORT_MAX_DELAY ==> r.is_none() && w1.remaining == w0.remaining,
        w0.timeout != PORT_MAX_DELAY && w0.entry_tick <= now && now - w0.entry_tick < w0.timeout
            ==> r.is_none() && w1.remaining == w0.timeout - (now - w0.entry_tick),
        w0.timeout != PORT_MAX_DELAY && w0.entry_tick <= now && now - w0.entry_tick >= w0.timeout
            ==> r == Some(false),
{
}

} // verus!
