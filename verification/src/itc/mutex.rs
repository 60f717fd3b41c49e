use vstd::prelude::*;
use crate::config::{UBaseType, MAX_PRIORITIES};
use crate::event::{wait_list_ok, blocked_current, woke_first_waiter, timeout_cleared, lemma_wait_list_keep};
use crate::itc::semaphore::wake_verdict;
use crate::itc::wait::{BlockStep, Wait};
use crate::list::{List, ListId, ListItem};
use crate::scheduler::{Kernel, Placement, IDLE_TASK, lemma_tcb_update, other_tasks_same, valid_id};
use crate::task::{TCB, TaskState};

verus! {

/// A recursive mutex with priority inheritance.
pub struct Mutex {
    /// The tasks blocked in `take`, highest priority first.
    pub wait_list: List,
    pub owner: Option<usize>,
    /// How many times the owner has taken the mutex.
    pub recursive_count: UBaseType,
}

/// `k1` is `k0` once task `o` has been given priority `prio`: when it is
/// ready it moves to the end of the ready list of that priority.
pub open spec fn reprioritised(k0: &Kernel, k1: &Kernel, o: int, prio: UBaseType) -> bool {
    let c = k0.tcbs@[o];
    &&& other_tasks_same(k0, k1, o)
    &&& k1.current == k0.current
    &&& k1.tick_count == k0.tick_count
    &&& k1.current_delay == k0.current_delay
    &&& if c.state == TaskState::Ready || c.state == TaskState::Running {
        &&& k1.tcbs@[o] == (TCB {
            priority: prio,
            state_list_item: ListItem {
                value: prio,
                ctner: Some(ListId::Ready(prio as usize)),
                ..c.state_list_item
            },
            ..c
        })
        &&& forall|id2: ListId|
            valid_id(id2) ==> #[trigger] k1.view_of(id2) == k0.view_after_move(
                o,
                ListId::Ready(prio as usize),
                Placement::End,
                prio,
                id2,
            )
    } else {
        &&& k1.tcbs@[o] == (TCB { priority: prio, ..c })
        &&& k1.ready_lists == k0.ready_lists
        &&& k1.delay_lists == k0.delay_lists
        &&& k1.suspended_list == k0.suspended_list
        &&& k1.top_ready_priority == k0.top_ready_priority
    }
}

/// Priority inheritance: when the running task's priority is above that of
/// owner `o`, the owner takes it on (moving within the ready lists if it is
/// ready); otherwise nothing changes.
pub open spec fn inherited(k0: &Kernel, k1: &Kernel, o: int) -> bool {
    let caller = k0.tcbs@[k0.current as int].priority;
    if caller <= k0.tcbs@[o].priority {
        *k1 == *k0
    } else {
        reprioritised(k0, k1, o, caller)
    }
}

/// Priority disinheritance: owner `o` gets its base priority back (moving
/// within the ready lists if it is ready or running); nothing changes when
/// it already has it.
pub open spec fn disinherited(k0: &Kernel, k1: &Kernel, o: int) -> bool {
    let c = k0.tcbs@[o];
    if c.priority == c.base_priority {
        *k1 == *k0
    } else {
        reprioritised(k0, k1, o, c.base_priority)
    }
}

impl Kernel {
    /// Gives task `o` priority `prio` (below `MAX_PRIORITIES`); when it is
    /// ready or running its state item moves to the end of the ready list of
    /// that priority.
    pub fn set_priority(&mut self, o: usize, prio: UBaseType)
        requires
            old(self).wf(),
            o < old(self).tcbs@.len(),
            prio < MAX_PRIORITIES,
        ensures
            final(self).wf(),
            reprioritised(old(self), final(self), o as int, prio),
    {
        let ghost k0 = *self;
        proof {
            assert(self.task_ok(o as int));
            self.lemma_wf_to_except(o as int);
        }
        let state = self.tcbs[o].state;
        self.tcbs[o].priority = prio;
        proof {
            lemma_tcb_update(&k0, self, o as int);
        }
        let ghost k1 = *self;
        if state == TaskState::Ready || state == TaskState::Running {
            self.move_state_item(o, ListId::Ready(prio as usize), Placement::End, prio);
            let ghost k2 = *self;
            self.set_task_state(o, state);
            proof {
                let k3 = *self;
                assert forall|id2: ListId| valid_id(id2) implies #[trigger] k3.view_of(id2)
                    == k0.view_after_move(o as int, ListId::Ready(prio as usize), Placement::End, prio, id2) by {
                    assert(k3.list_of(id2) == k2.list_of(id2));
                    assert(k1.list_of(id2) == k0.list_of(id2));
                    assert(k1.view_of(id2) == k0.view_of(id2));
                    assert(k1.view_without(o as int, id2) == k0.view_without(o as int, id2));
                    assert(k2.view_of(id2) == k1.view_after_move(o as int, ListId::Ready(prio as usize), Placement::End, prio, id2));
                }
                assert(k3.tcbs@[o as int] =~= (TCB {
                    priority: prio,
                    state_list_item: ListItem {
                        value: prio,
                        ctner: Some(ListId::Ready(prio as usize)),
                        ..k0.tcbs@[o as int].state_list_item
                    },
                    ..k0.tcbs@[o as int]
                }));
                assert forall|u: int| 0 <= u < k0.tcbs@.len() && u != o implies #[trigger] k0.tcbs@[u]
                    == k3.tcbs@[u] by {
                    assert(k0.tcbs@[u] == k1.tcbs@[u]);
                    assert(k1.tcbs@[u] == k2.tcbs@[u]);
                }
            }
        } else {
            proof {
                assert(self.task_state_ok(o as int));
                self.lemma_wf_from_except(o as int);
                assert(self.tcbs@[o as int] =~= (TCB { priority: prio, ..k0.tcbs@[o as int] }));
            }
        }
    }
}

impl Mutex {
    pub open spec fn wf(&self, k: &Kernel) -> bool {
        &&& wait_list_ok(&self.wait_list, k)
        &&& self.owner.is_some() ==> self.owner.unwrap() < k.tcbs@.len()
        &&& self.owner.is_some() <==> self.recursive_count > 0
    }

    /// A free mutex.
    pub fn new() -> (m: Self)
        ensures
            m.owner.is_none(),
            m.recursive_count == 0,
            m.wait_list.items@.len() == 0,
            m.wait_list.index == 0,
    {
        Mutex { wait_list: List::new(), owner: None, recursive_count: 0 }
    }

    /// Empties the wait list.
    pub fn init(&mut self)
        ensures
            final(self).owner == old(self).owner,
            final(self).recursive_count == old(self).recursive_count,
            final(self).wait_list.items@.len() == 0,
            final(self).wait_list.index == 0,
    {
        self.wait_list.init();
    }

    /// Raises the owner's priority to the running task's when that is
    /// higher (the owner moves to the end of its new ready list when ready).
    pub fn priority_inherit(&self, k: &mut Kernel)
        requires
            old(k).wf(),
            self.wf(old(k)),
            self.owner.is_some(),
            self.owner.unwrap() != old(k).current,
        ensures
            final(k).wf(),
            inherited(old(k), final(k), self.owner.unwrap() as int),
    {
        let caller_priority = k.tcbs[k.current].priority;
        let owner = self.owner.unwrap();
        let owner_priority = k.tcbs[owner].priority;
        if caller_priority <= owner_priority {
            return;
        }
        proof {
            assert(k.task_ok(k.current as int));
            assert(k.task_ok(owner as int));
        }
        k.set_priority(owner, caller_priority);
    }

    /// Gives the owner its base priority back (it moves to the end of its
    /// ready list when ready or running).
    pub fn priority_disinherit(&self, k: &mut Kernel)
        requires
            old(k).wf(),
            self.owner.is_some(),
            self.owner.unwrap() < old(k).tcbs@.len(),
        ensures
            final(k).wf(),
            disinherited(old(k), final(k), self.owner.unwrap() as int),
    {
        let owner = self.owner.unwrap();
        let base = k.tcbs[owner].base_priority;
        let current_pri = k.tcbs[owner].priority;
        if current_pri == base {
            return;
        }
        proof {
            assert(k.task_ok(owner as int));
        }
        k.set_priority(owner, base);
    }

    /// A step of `take`: a free mutex becomes the running task's; the owner
    /// takes it once more; otherwise the call fails when no time is left, or
    /// the owner inherits the running task's priority and the running task
    /// blocks on the wait list for the remaining time.
    pub fn take(&mut self, k: &mut Kernel, w: &Wait) -> (r: BlockStep)
        requires
            old(k).wf(),
            old(self).wf(old(k)),
            old(self).owner == Some(old(k).current) ==> old(self).recursive_count < UBaseType::MAX,
            old(self).owner.is_some() && old(self).owner != Some(old(k).current) && w.remaining > 0
                ==> old(k).current != IDLE_TASK && old(k).tcbs@[old(k).current as int].event_list_item.ctner.is_none(),
        ensures
            final(k).wf(),
            final(self).wf(final(k)),
            old(self).owner.is_none() ==> r == BlockStep::Done(true, false) && final(self).owner == Some(
                old(k).current,
            ) && final(self).recursive_count == 1 && final(self).wait_list == old(self).wait_list
                && *final(k) == *old(k),
            old(self).owner == Some(old(k).current) ==> r == BlockStep::Done(true, false) && final(self).owner
                == old(self).owner && final(self).recursive_count == old(self).recursive_count + 1
                && final(self).wait_list == old(self).wait_list && *final(k) == *old(k),
            old(self).owner.is_some() && old(self).owner != Some(old(k).current) && w.remaining == 0
                ==> r == BlockStep::Done(false, false) && *final(self) == *old(self) && *final(k) == *old(k),
            old(self).owner.is_some() && old(self).owner != Some(old(k).current) && w.remaining > 0
                ==> r == BlockStep::Yield && final(self).owner == old(self).owner
                && final(self).recursive_count == old(self).recursive_count && exists|km: Kernel|
                inherited(old(k), &km, old(self).owner.unwrap() as int) && blocked_current(
                &km,
                final(k),
                &old(self).wait_list,
                &final(self).wait_list,
                w.remaining,
            ),
    {
        let cur = k.current;
        if self.owner.is_none() {
            self.owner = Some(cur);
            self.recursive_count = 1;
            return BlockStep::Done(true, false);
        }
        if self.owner == Some(cur) {
            self.recursive_count = self.recursive_count + 1;
            return BlockStep::Done(true, false);
        }
        if w.remaining == 0 {
            return BlockStep::Done(false, false);
        }
        let ghost k0 = *k;
        self.priority_inherit(k);
        let ghost km = *k;
        proof {
            lemma_wait_list_keep(&self.wait_list, &k0, &km);
            assert(km.current == k0.current);
            assert(km.tcbs@[cur as int].event_list_item == k0.tcbs@[cur as int].event_list_item) by {
                if k0.tcbs@[k0.current as int].priority > k0.tcbs@[self.owner.unwrap() as int].priority {
                    assert(km.tcbs@[cur as int] == k0.tcbs@[cur as int]);
                }
            }
        }
        k.place_on_event_list(&mut self.wait_list, w.remaining);
        proof {
            assert(self.owner.unwrap() < k.tcbs@.len());
        }
        BlockStep::Yield
    }

    /// The step after a blocked `take` runs again: `Some(true)` when the
    /// mutex was handed to the running task by `give` (it then holds it
    /// once); `Some(false)` when the wait timed out (the task leaves the wait
    /// list) or when the whole timeout has passed; `None` when `take` is to
    /// be tried again.
    pub fn take_after_wake(&mut self, k: &mut Kernel, w: &mut Wait) -> (r: Option<bool>)
        requires
            old(k).wf(),
            old(self).wf(old(k)),
        ensures
            final(k).wf(),
            final(self).wf(final(k)),
            final(self).owner == old(self).owner,
            final(self).recursive_count == old(self).recursive_count,
            old(self).owner == Some(old(k).current) ==> r == Some(true) && *final(self) == *old(self)
                && *final(k) == *old(k) && *final(w) == *old(w),
            old(self).owner != Some(old(k).current) && old(k).tcbs@[old(k).current as int].event_list_item.ctner.is_some() ==> r == Some(false)
                && *final(w) == *old(w) && timeout_cleared(
                old(k),
                final(k),
                &old(self).wait_list,
                &final(self).wait_list,
            ),
            old(self).owner != Some(old(k).current) && old(k).tcbs@[old(k).current as int].event_list_item.ctner.is_none() ==> *final(k) == *old(
                k,
            ) && final(self).wait_list == old(self).wait_list && wake_verdict(
                *old(w),
                *final(w),
                old(k).tick_count,
                r,
            ),
    {
        if self.owner == Some(k.current) {
            return Some(true);
        }
        if k.check_timed_out(&mut self.wait_list) {
            return Some(false);
        }
        if w.still_waiting(k.tick_count) {
            None
        } else {
            Some(false)
        }
    }

    /// Releases the mutex: only its owner may. The last release gives the
    /// owner its base priority back, and hands the mutex to the waiter of
    /// highest priority, which is woken, if there is one. Returns the result
    /// and whether the caller should yield.
    pub fn give(&mut self, k: &mut Kernel) -> (r: (bool, bool))
        requires
            old(k).wf(),
            old(self).wf(old(k)),
        ensures
            final(k).wf(),
            final(self).wf(final(k)),
            old(self).owner != Some(old(k).current) ==> r == (false, false) && *final(self) == *old(
                self,
            ) && *final(k) == *old(k),
            old(self).owner == Some(old(k).current) && old(self).recursive_count > 1 ==> r == (
            true, false) && final(self).owner == old(self).owner && final(self).recursive_count == old(
                self,
            ).recursive_count - 1 && final(self).wait_list == old(self).wait_list && *final(k) == *old(
                k,
            ),
            old(self).owner == Some(old(k).current) && old(self).recursive_count == 1 ==> r.0
                && exists|km: Kernel|
                disinherited(old(k), &km, old(k).current as int) && if old(
                    self,
                ).wait_list.items@.len() == 0 {
                    &&& *final(k) == km
                    &&& final(self).owner.is_none()
                    &&& final(self).recursive_count == 0
                    &&& final(self).wait_list == old(self).wait_list
                    &&& !r.1
                } else {
                    &&& woke_first_waiter(
                        &km,
                        final(k),
                        &old(self).wait_list,
                        &final(self).wait_list,
                        old(self).wait_list.items@[0].owner.unwrap(),
                        r.1,
                    )
                    &&& final(self).owner == old(self).wait_list.items@[0].owner
                    &&& final(self).recursive_count == 1
                },
    {
        let cur = k.current;
        if self.owner != Some(cur) {
            return (false, false);
        }
        self.recursive_count = self.recursive_count - 1;
        if self.recursive_count > 0 {
            return (true, false);
        }
        let ghost k0 = *k;
        self.priority_disinherit(k);
        let ghost km = *k;
        proof {
            lemma_wait_list_keep(&self.wait_list, &k0, &km);
        }
        self.owner = None;
        if self.wait_list.items.len() > 0 {
            let (t, yield_needed) = k.wake_waiter(&mut self.wait_list);
            self.owner = Some(t);
            self.recursive_count = 1;
            return (true, yield_needed);
        }
        (true, false)
    }
}

/// Inheritance is undone on release: whatever priority the owner inherited,
/// once it gives the mutex back it is at its base priority, which neither
/// step changes.
pub proof fn lemma_inherit_then_disinherit(k0: &Kernel, k1: &Kernel, k2: &Kernel, o: int)
    requires
        0 <= o < k0.tcbs@.len(),
        inherited(k0, k1, o),
        disinherited(k1, k2, o),
    ensures
        k2.tcbs@[o].priority == k0.tcbs@[o].base_priority,
        k2.tcbs@[o].base_priority == k0.tcbs@[o].base_priority,
{
}

/// Priority inheritance in every state of the owner: once it is applied,
/// the owner's priority is the higher of its own and the running task's,
/// whether the owner is ready, delayed, blocked or suspended, and its base
/// priority is kept.
pub proof fn lemma_inherit_raises(k0: &Kernel, k1: &Kernel, o: int)
    requires
        0 <= o < k0.tcbs@.len(),
        inherited(k0, k1, o),
    ensures
        k1.tcbs@[o].priority == (if k0.tcbs@[k0.current as int].priority > k0.tcbs@[o].priority {
            k0.tcbs@[k0.current as int].priority
        } else {
            k0.tcbs@[o].priority
        }),
        k1.tcbs@[o].base_priority == k0.tcbs@[o].base_priority,
{
}

/// Disinheritance gives the owner its base priority back, whatever priority
/// it had and whatever its state, and keeps the base priority.
pub proof fn lemma_disinherit_restores(k0: &Kernel, k1: &Kernel, o: int)
    requires
        0 <= o < k0.tcbs@.len(),
        disinherited(k0, k1, o),
    ensures
        k1.tcbs@[o].priority == k0.tcbs@[o].base_priority,
        k1.tcbs@[o].base_priority == k0.tcbs@[o].base_priority,
{
}

} // verus!
