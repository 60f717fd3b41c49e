use vstd::prelude::*;
use crate::config::{TickType, PORT_MAX_DELAY, MAX_PRIORITIES};
use crate::list::{List, ListId, ListItem, has_owner, owners_unique, lemma_insert_owners, lemma_remove_owners, sorted, insert_position, cursor_after_remove, lemma_insert_keeps_sorted, lemma_remove_keeps_sorted, lemma_insert_position};
use crate::scheduler::{Kernel, Placement, IDLE_TASK, lemma_tcb_update, other_tasks_same, valid_id, wake_time};
use crate::task::{TCB, TaskState};

verus! {

/// The wait list of a mutex, semaphore or queue: in ascending order of sort
/// value (so the waiter of highest priority first), every item owned by a
/// task of the kernel, no task in it twice, and each item the event item of
/// its task, which therefore belongs to a wait list.
pub open spec fn wait_list_ok(l: &List, k: &Kernel) -> bool {
    &&& l.wf()
    &&& sorted(l.items@)
    &&& owners_unique(l.items@)
    &&& forall|i: int|
        0 <= i < l.items@.len() ==> (#[trigger] l.items@[i]).owner.is_some() && l.items@[i].owner.unwrap()
            < k.tcbs@.len() && k.tcbs@[l.items@[i].owner.unwrap() as int].event_list_item == l.items@[i]
                && l.items@[i].ctner == Some(ListId::Event)
}

/// A wait list stays fit for a kernel that has at least as many tasks and
/// has kept the event items of the tasks in it.
pub proof fn lemma_wait_list_keep(l: &List, k0: &Kernel, k1: &Kernel)
    requires
        wait_list_ok(l, k0),
        k0.tcbs@.len() <= k1.tcbs@.len(),
        forall|i: int|
            0 <= i < l.items@.len() ==> k1.tcbs@[(#[trigger] l.items@[i]).owner.unwrap() as int].event_list_item
                == k0.tcbs@[l.items@[i].owner.unwrap() as int].event_list_item,
    ensures
        wait_list_ok(l, k1),
{
}

/// A wait list stays fit when the only task that changed is not in it.
pub proof fn lemma_wait_list_other(l: &List, k0: &Kernel, k1: &Kernel, t: int)
    requires
        wait_list_ok(l, k0),
        other_tasks_same(k0, k1, t),
        0 <= t,
        !has_owner(l.items@, t as usize),
    ensures
        wait_list_ok(l, k1),
{
    assert forall|i: int| 0 <= i < l.items@.len() implies k1.tcbs@[(#[trigger] l.items@[i]).owner.unwrap() as int].event_list_item
        == k0.tcbs@[l.items@[i].owner.unwrap() as int].event_list_item by {
        assert(l.items@[i].owner != Some(t as usize));
    }
    lemma_wait_list_keep(l, k0, k1);
}

/// A task whose event item belongs to no list is in no wait list.
pub proof fn lemma_not_waiting(l: &List, k: &Kernel, t: usize)
    requires
        wait_list_ok(l, k),
        t < k.tcbs@.len(),
        k.tcbs@[t as int].event_list_item.ctner.is_none(),
    ensures
        !has_owner(l.items@, t),
{
    if has_owner(l.items@, t) {
        let i = choose|i: int| 0 <= i < l.items@.len() && #[trigger] l.items@[i].owner == Some(t);
        assert(l.items@[i].owner.is_some());
    }
}

/// The sort value that orders waiters by priority, highest first.
pub open spec fn wait_value(priority: u32) -> TickType {
    (PORT_MAX_DELAY - priority) as TickType
}

/// The item that puts task `t` of priority `priority` in a wait list.
pub open spec fn wait_item(t: usize, priority: u32) -> ListItem {
    ListItem { value: wait_value(priority), owner: Some(t), ctner: Some(ListId::Event) }
}

/// A task woken from a wait list: ready, out of the wait list, its state item
/// at the end of the ready list of its priority.
pub open spec fn released_tcb(c: TCB) -> TCB {
    TCB {
        state: TaskState::Ready,
        state_list_item: ListItem {
            value: c.priority,
            ctner: Some(ListId::Ready(c.priority as usize)),
            ..c.state_list_item
        },
        event_list_item: ListItem { ctner: None, ..c.event_list_item },
        ..c
    }
}

/// The control block of the running task of `k` once it blocks for at most
/// `timeout` ticks: delayed as `task_delay` does, or, for `PORT_MAX_DELAY`,
/// which means no time limit, in the suspended list, where no tick wakes it.
pub open spec fn blocked_tcb(k: &Kernel, timeout: TickType) -> TCB {
    let c = k.current as int;
    if timeout == PORT_MAX_DELAY {
        TCB {
            state: TaskState::Suspended,
            state_list_item: ListItem { ctner: Some(ListId::Suspended), ..k.tcbs@[c].state_list_item },
            ..k.tcbs@[c]
        }
    } else {
        k.delayed_tcb(c, wake_time(k.tick_count, timeout), k.delay_target(timeout))
    }
}

/// The list the state item of a task blocking for `timeout` ticks goes into.
pub open spec fn block_target(k: &Kernel, timeout: TickType) -> ListId {
    if timeout == PORT_MAX_DELAY {
        ListId::Suspended
    } else {
        k.delay_target(timeout)
    }
}

/// How it goes there: in order of wake time into a delay list, before the
/// cursor into the suspended list.
pub open spec fn block_placement(timeout: TickType) -> Placement {
    if timeout == PORT_MAX_DELAY {
        Placement::BeforeIndex
    } else {
        Placement::Ordered
    }
}

/// Its sort value there: the wake time, or its old value in the suspended list.
pub open spec fn block_value(k: &Kernel, timeout: TickType) -> TickType {
    if timeout == PORT_MAX_DELAY {
        k.tcbs@[k.current as int].state_list_item.value
    } else {
        wake_time(k.tick_count, timeout)
    }
}

/// `k1` and `l1` are `k0` and `l0` once the running task of `k0` is
/// blocked on wait list `l0` for at most `timeout` ticks (without limit for
/// `PORT_MAX_DELAY`): its event item is in the wait list in priority order
/// and its state item is where `blocked_tcb` says.
pub open spec fn blocked_current(
    k0: &Kernel,
    k1: &Kernel,
    l0: &List,
    l1: &List,
    timeout: TickType,
) -> bool {
    let c = k0.current;
    let prio = k0.tcbs@[c as int].priority;
    let p = insert_position(l0.items@, wait_value(prio));
    &&& l1.items@ == l0.items@.insert(p, wait_item(c, prio))
    &&& l1.index == (if l0.index >= p {
        l0.index + 1
    } else {
        l0.index as int
    })
    &&& other_tasks_same(k0, k1, c as int)
    &&& k1.tcbs@[c as int] == (TCB {
        event_list_item: wait_item(c, prio),
        ..blocked_tcb(k0, timeout)
    })
    &&& forall|id2: ListId|
        valid_id(id2) ==> #[trigger] k1.view_of(id2)
            == k0.view_after_move(
            c as int,
            block_target(k0, timeout),
            block_placement(timeout),
            block_value(k0, timeout),
            id2,
        )
    &&& k1.current == k0.current
    &&& k1.tick_count == k0.tick_count
    &&& k1.current_delay == k0.current_delay
}

/// `k1` and `l1` are `k0` and `l0` once the first waiter `t` of `l0` (the
/// one of highest priority) is woken: it leaves the wait list and whatever
/// list its state item is in, and goes at the end of the ready list of its
/// priority; `y` tells whether its priority is at least that of the running task.
pub open spec fn woke_first_waiter(
    k0: &Kernel,
    k1: &Kernel,
    l0: &List,
    l1: &List,
    t: usize,
    y: bool,
) -> bool {
    &&& Some(t) == l0.items@[0].owner
    &&& l1.items@ == l0.items@.remove(0)
    &&& l1.index == cursor_after_remove(l0.index as int, 0, l1.items@.len() as int)
    &&& other_tasks_same(k0, k1, t as int)
    &&& k1.tcbs@[t as int] == released_tcb(k0.tcbs@[t as int])
    &&& forall|id2: ListId|
        valid_id(id2) ==> #[trigger] k1.view_of(id2) == k0.view_after_move(
            t as int,
            ListId::Ready(k0.tcbs@[t as int].priority as usize),
            Placement::End,
            k0.tcbs@[t as int].priority,
            id2,
        )
    &&& k1.current == k0.current
    &&& k1.tick_count == k0.tick_count
    &&& k1.current_delay == k0.current_delay
    &&& y == (k0.tcbs@[t as int].priority >= k0.tcbs@[k0.current as int].priority)
}

/// `k1` and `l1` are `k0` and `l0` once the running task of `k0`, whose
/// wait timed out, has left the wait list (its first item there, if any)
/// and its event item belongs to no list.
pub open spec fn timeout_cleared(k0: &Kernel, k1: &Kernel, l0: &List, l1: &List) -> bool {
    let c = k0.current;
    &&& k1.tcbs@[c as int] == (TCB {
        event_list_item: ListItem {
            ctner: None,
            ..k0.tcbs@[c as int].event_list_item
        },
        ..k0.tcbs@[c as int]
    })
    &&& other_tasks_same(k0, k1, c as int)
    &&& k1.ready_lists == k0.ready_lists
    &&& k1.delay_lists == k0.delay_lists
    &&& k1.suspended_list == k0.suspended_list
    &&& k1.current == k0.current
    &&& k1.tick_count == k0.tick_count
    &&& (crate::list::has_owner(l0.items@, c) ==> exists|p: int|
        0 <= p < l0.items@.len() && l0.items@[p].owner == Some(c)
            && (forall|j: int| 0 <= j < p ==> l0.items@[j].owner != Some(c))
            && l1.items@ == l0.items@.remove(p))
    &&& (!crate::list::has_owner(l0.items@, c) ==> l1.items@
        == l0.items@)
}

impl Kernel {
    /// Blocks the running task on `wait_list` for at most `timeout` ticks: its
    /// event item goes into the wait list in priority order, and the task is
    /// delayed as `task_delay` does; with `PORT_MAX_DELAY` it goes into the
    /// suspended list instead, so that only the object wakes it.
    pub fn place_on_event_list(&mut self, wait_list: &mut List, timeout: TickType)
        requires
            old(self).wf(),
            old(self).current != IDLE_TASK,
            old(self).tcbs@[old(self).current as int].event_list_item.ctner.is_none(),
            wait_list_ok(old(wait_list), old(self)),
        ensures
            final(self).wf(),
            wait_list_ok(final(wait_list), final(self)),
            blocked_current(old(self), final(self), old(wait_list), final(wait_list), timeout),
    {
        let ghost k0 = *self;
        let cur = self.current;
        proof {
            assert(self.task_ok(cur as int));
            self.lemma_wf_to_except(cur as int);
        }
        let priority = self.tcbs[cur].priority;
        let mut item = self.tcbs[cur].event_list_item;
        item.value = PORT_MAX_DELAY - priority;
        item.ctner = Some(ListId::Event);
        proof {
            lemma_insert_keeps_sorted(wait_list.items@, item);
            lemma_insert_position(wait_list.items@, item.value);
            lemma_not_waiting(wait_list, &k0, cur);
            lemma_insert_owners(wait_list.items@, insert_position(wait_list.items@, item.value), item);
        }
        let ghost w0 = *wait_list;
        wait_list.insert(item);
        self.tcbs[cur].event_list_item = item;
        proof {
            lemma_tcb_update(&k0, self, cur as int);
            self.lemma_wf_from_except(cur as int);
            w0.items@.insert_ensures(insert_position(w0.items@, item.value), item);
        }
        let ghost k1 = *self;
        if timeout == PORT_MAX_DELAY {
            self.suspend_task(cur);
        } else {
            self.delay_current(timeout);
        }
        proof {
            let k2 = *self;
            assert forall|id2: ListId| valid_id(id2) implies #[trigger] k1.view_of(id2) == k0.view_of(
                id2,
            ) by {
                assert(k1.list_of(id2) == k0.list_of(id2));
            }
            assert(k2.tcbs@[cur as int] =~= (TCB {
                event_list_item: wait_item(cur, priority),
                ..blocked_tcb(&k0, timeout)
            }));
            assert forall|u: int| 0 <= u < k0.tcbs@.len() && u != cur implies #[trigger] k0.tcbs@[u]
                == k2.tcbs@[u] by {
                assert(k0.tcbs@[u] == k1.tcbs@[u]);
            }
            assert(item == wait_item(cur, priority));
            assert forall|i: int| 0 <= i < wait_list.items@.len() implies (
            #[trigger] wait_list.items@[i]).owner.is_some() && wait_list.items@[i].owner.unwrap()
                < k2.tcbs@.len() && k2.tcbs@[wait_list.items@[i].owner.unwrap() as int].event_list_item
                == wait_list.items@[i] && wait_list.items@[i].ctner == Some(ListId::Event) by {
                let p = insert_position(w0.items@, item.value);
                if i != p {
                    let j = if i < p { i } else { i - 1 };
                    assert(wait_list.items@[i] == w0.items@[j]);
                    let o = w0.items@[j].owner.unwrap();
                    assert(o != cur);
                    assert(k2.tcbs@[o as int] == k0.tcbs@[o as int]);
                }
            }
        }
    }

    /// Takes task `t` out of whatever wait list it is in, as far as its own
    /// record goes: its event item belongs to no list afterwards.
    pub fn clear_event_item(&mut self, t: usize)
        requires
            old(self).wf(),
            t < old(self).tcbs@.len(),
        ensures
            final(self).wf(),
            other_tasks_same(old(self), final(self), t as int),
            final(self).tcbs@[t as int] == (TCB {
                event_list_item: ListItem { ctner: None, ..old(self).tcbs@[t as int].event_list_item },
                ..old(self).tcbs@[t as int]
            }),
            final(self).ready_lists == old(self).ready_lists,
            final(self).delay_lists == old(self).delay_lists,
            final(self).suspended_list == old(self).suspended_list,
            final(self).top_ready_priority == old(self).top_ready_priority,
            final(self).current == old(self).current,
            final(self).tick_count == old(self).tick_count,
            final(self).current_delay == old(self).current_delay,
    {
        let ghost k0 = *self;
        proof {
            assert(self.task_ok(t as int));
            self.lemma_wf_to_except(t as int);
        }
        self.tcbs[t].event_list_item.ctner = None;
        proof {
            lemma_tcb_update(&k0, self, t as int);
            self.lemma_wf_from_except(t as int);
            assert(self.tcbs@[t as int] =~= (TCB {
                event_list_item: ListItem { ctner: None, ..k0.tcbs@[t as int].event_list_item },
                ..k0.tcbs@[t as int]
            }));
        }
    }

    /// Wakes the first waiter of `wait_list` (the one of highest priority):
    /// it leaves the wait list and whatever list its state item is in, and
    /// goes at the end of the ready list of its priority. Returns the woken
    /// task and whether the caller should yield, that is whether its priority
    /// is at least that of the running task.
    pub fn wake_waiter(&mut self, wait_list: &mut List) -> (r: (usize, bool))
        requires
            old(self).wf(),
            wait_list_ok(old(wait_list), old(self)),
            old(wait_list).items@.len() > 0,
        ensures
            final(self).wf(),
            wait_list_ok(final(wait_list), final(self)),
            woke_first_waiter(old(self), final(self), old(wait_list), final(wait_list), r.0, r.1),
    {
        let ghost k0 = *self;
        let ghost w0 = *wait_list;
        proof {
            lemma_remove_keeps_sorted(wait_list.items@, 0);
            wait_list.items@.remove_ensures(0);
        }
        let item = wait_list.remove_at(0);
        let t = item.owner.unwrap();
        self.clear_event_item(t);
        let ghost k1 = *self;
        proof {
            assert(self.task_ok(t as int));
            self.lemma_wf_to_except(t as int);
        }
        let priority = self.tcbs[t].priority;
        self.move_state_item(t, ListId::Ready(priority as usize), Placement::End, priority);
        let ghost k2 = *self;
        self.set_task_state(t, TaskState::Ready);
        let yield_needed = priority >= self.tcbs[self.current].priority;
        proof {
            let k3 = *self;
            assert forall|id2: ListId| valid_id(id2) implies #[trigger] k3.view_of(id2)
                == k0.view_after_move(t as int, ListId::Ready(priority as usize), Placement::End, priority, id2) by {
                assert(k3.list_of(id2) == k2.list_of(id2));
                assert(k1.list_of(id2) == k0.list_of(id2));
                assert(k1.tcbs@[t as int].state_list_item == k0.tcbs@[t as int].state_list_item);
                assert(k1.view_of(id2) == k0.view_of(id2));
                assert(k1.view_without(t as int, id2) == k0.view_without(t as int, id2));
                assert(k2.view_of(id2) == k1.view_after_move(t as int, ListId::Ready(priority as usize), Placement::End, priority, id2));
            }
            assert(k3.tcbs@[t as int] =~= released_tcb(k0.tcbs@[t as int]));
            assert forall|u: int| 0 <= u < k0.tcbs@.len() && u != t implies #[trigger] k0.tcbs@[u]
                == k3.tcbs@[u] by {
                assert(k0.tcbs@[u] == k1.tcbs@[u]);
                assert(k1.tcbs@[u] == k2.tcbs@[u]);
            }
            assert(k3.tcbs@[k3.current as int].priority == k0.tcbs@[k0.current as int].priority);
            assert forall|i: int| 0 <= i < wait_list.items@.len() implies (
            #[trigger] wait_list.items@[i]).owner.is_some() && wait_list.items@[i].owner.unwrap()
                < k3.tcbs@.len() by {
                assert(wait_list.items@[i] == w0.items@[i + 1]);
            }
        }
        (t, yield_needed)
    }

    /// After a blocked task runs again: true (and the task's event item is
    /// taken out of `wait_list`) when it was not woken by the object, that is
    /// when its wait timed out.
    pub fn check_timed_out(&mut self, wait_list: &mut List) -> (r: bool)
        requires
            old(self).wf(),
            wait_list_ok(old(wait_list), old(self)),
        ensures
            final(self).wf(),
            wait_list_ok(final(wait_list), final(self)),
            r == old(self).tcbs@[old(self).current as int].event_list_item.ctner.is_some(),
            !r ==> *final(self) == *old(self) && *final(wait_list) == *old(wait_list),
            r ==> timeout_cleared(old(self), final(self), old(wait_list), final(wait_list)),
    {
        let cur = self.current;
        if self.tcbs[cur].event_list_item.ctner.is_none() {
            return false;
        }
        let found = wait_list.find_owner(cur);
        match found {
            Some(pos) => {
                proof {
                    lemma_remove_keeps_sorted(wait_list.items@, pos as int);
                    wait_list.items@.remove_ensures(pos as int);
                }
                let ghost w0 = *wait_list;
                wait_list.remove_at(pos);
                proof {
                    assert forall|i: int| 0 <= i < wait_list.items@.len() implies (
                    #[trigger] wait_list.items@[i]).owner.is_some() && wait_list.items@[i].owner.unwrap()
                        < self.tcbs@.len() by {
                        if i < pos {
                            assert(wait_list.items@[i] == w0.items@[i]);
                        } else {
                            assert(wait_list.items@[i] == w0.items@[i + 1]);
                        }
                    }
                }
            },
            None => {},
        }
        self.clear_event_item(cur);
        true
    }
}

impl Kernel {
    /// Suspends task `t`, which may be waiting on the object whose wait list
    /// is `wait_list` (a waiting task must be in it): its first item there, if any, leaves the wait list and
    /// its event item belongs to no list, so that no give or send can wake it;
    /// then it is suspended as `task_suspend` does (a task that waited
    /// without time limit is already in the suspended list and stays there).
    /// Returns whether the caller should yield.
    pub fn suspend_waiter(&mut self, t: usize, wait_list: &mut List) -> (r: bool)
        requires
            old(self).wf(),
            t < old(self).tcbs@.len(),
            wait_list_ok(old(wait_list), old(self)),
            old(self).tcbs@[t as int].event_list_item.ctner.is_some() ==> crate::list::has_owner(
                old(wait_list).items@,
                t,
            ),
        ensures
            final(self).wf(),
            wait_list_ok(final(wait_list), final(self)),
            final(self).tcbs@[t as int].event_list_item.ctner.is_none(),
            (crate::list::has_owner(old(wait_list).items@, t) ==> exists|p: int|
                0 <= p < old(wait_list).items@.len() && old(wait_list).items@[p].owner == Some(t)
                    && (forall|j: int| 0 <= j < p ==> old(wait_list).items@[j].owner != Some(t))
                    && final(wait_list).items@ == old(wait_list).items@.remove(p)),
            !crate::list::has_owner(old(wait_list).items@, t) ==> final(wait_list).items@ == old(
                wait_list,
            ).items@,
            exists|km: Kernel|
                event_cleared(old(self), &km, t as int) && crate::scheduler::suspend_outcome(
                    &km,
                    final(self),
                    t as int,
                    r,
                ),
    {
        let ghost k0 = *self;
        let found = wait_list.find_owner(t);
        match found {
            Some(pos) => {
                proof {
                    lemma_remove_keeps_sorted(wait_list.items@, pos as int);
                    wait_list.items@.remove_ensures(pos as int);
                }
                let ghost w0 = *wait_list;
                wait_list.remove_at(pos);
                proof {
                    assert forall|i: int| 0 <= i < wait_list.items@.len() implies (
                    #[trigger] wait_list.items@[i]).owner.is_some() && wait_list.items@[i].owner.unwrap()
                        < self.tcbs@.len() by {
                        if i < pos {
                            assert(wait_list.items@[i] == w0.items@[i]);
                        } else {
                            assert(wait_list.items@[i] == w0.items@[i + 1]);
                        }
                    }
                }
            },
            None => {},
        }
        self.clear_event_item(t);
        let ghost km = *self;
        let r = self.task_suspend(t);
        proof {
            assert(event_cleared(&k0, &km, t as int));
            assert(crate::scheduler::suspend_outcome(&km, self, t as int, r));
            if km.tcbs@[t as int].state != TaskState::Suspended && km.tcbs@[t as int].state
                != TaskState::NotCreated {
                assert(self.tcbs@[t as int].event_list_item == km.tcbs@[t as int].event_list_item);
            }
        }
        r
    }
}

/// `k1` is `k0` once the event item of task `t` belongs to no list; nothing
/// else changes.
pub open spec fn event_cleared(k0: &Kernel, k1: &Kernel, t: int) -> bool {
    &&& other_tasks_same(k0, k1, t)
    &&& k1.tcbs@[t] == (TCB {
        event_list_item: ListItem { ctner: None, ..k0.tcbs@[t].event_list_item },
        ..k0.tcbs@[t]
    })
    &&& k1.ready_lists == k0.ready_lists
    &&& k1.delay_lists == k0.delay_lists
    &&& k1.suspended_list == k0.suspended_list
    &&& k1.top_ready_priority == k0.top_ready_priority
    &&& k1.current == k0.current
    &&& k1.tick_count == k0.tick_count
    &&& k1.current_delay == k0.current_delay
}

/// Waiters are ordered by priority: a task of higher priority has a smaller
/// wait value, so it stands before in a wait list and is woken first.
pub proof fn lemma_wait_order(p1: u32, p2: u32)
    requires
        p2 < p1 < MAX_PRIORITIES,
    ensures
        wait_value(p1) < wait_value(p2),
{
}

/// A task that blocks without time limit waits in the suspended list, out
/// of reach of the tick; with a time limit it is delayed until the tick
/// count plus the limit.
pub proof fn lemma_block_place(k: &Kernel, timeout: TickType)
    ensures
        timeout == PORT_MAX_DELAY ==> blocked_tcb(k, timeout).state == TaskState::Suspended
            && blocked_tcb(k, timeout).state_list_item.ctner == Some(ListId::Suspended)
            && blocked_tcb(k, timeout).ticks_to_delay == k.tcbs@[k.current as int].ticks_to_delay,
        timeout != PORT_MAX_DELAY ==> blocked_tcb(k, timeout).state == TaskState::Delayed
            && blocked_tcb(k, timeout).ticks_to_delay == wake_time(k.tick_count, timeout)
            && blocked_tcb(k, timeout).state_list_item.value == wake_time(k.tick_count, timeout),
{
}

} // verus!
