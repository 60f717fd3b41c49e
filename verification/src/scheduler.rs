use vstd::prelude::*;
use crate::bitmap::{ready_bit, record_spec, clear_spec, record_priority, clear_priority, highest_priority, lemma_zero_word};
use crate::config::{StackType, TickType, UBaseType, MAX_PRIORITIES, USE_TIME_SLICING, IDLE_STACK_SIZE};
use crate::list::{List, ListId, ListItem, has_owner, owners_unique, owner_pos, sorted, insert_position, cursor_after_remove, next_cursor, lemma_owner_pos, lemma_remove_owners, lemma_insert_owners, lemma_insert_keeps_sorted, lemma_remove_keeps_sorted, lemma_insert_position, lemma_insert_position_unique};
use crate::port::cortex_m7;
use crate::task::{TCB, TaskState, NAME_LEN};
use vstd::string::StringSliceAdditionalSpecFns;

verus! {

/// The idle task is always the first task.
pub const IDLE_TASK: usize = 0usize;

/// How a detached state item is put into a list.
#[derive(Clone, Copy, PartialEq, Eq, Structural, Debug)]
pub enum Placement {
    /// Just before the item the cursor points at.
    BeforeIndex,
    /// At the tail.
    End,
    /// In ascending order of value.
    Ordered,
}

/// The whole kernel state: the tasks, their lists, the ready-priority
/// bitmap, the running task and the tick counter.
pub struct Kernel {
    pub tcbs: Vec<TCB>,
    /// One ready list per priority.
    pub ready_lists: Vec<List>,
    /// The two delay lists; `current_delay` names the one of the current
    /// tick epoch, the other one holds wake times past the next overflow.
    pub delay_lists: Vec<List>,
    pub current_delay: usize,
    pub suspended_list: List,
    /// Bit `p` is set when the ready list of priority `p` is not empty.
    pub top_ready_priority: UBaseType,
    /// The task that runs.
    pub current: usize,
    pub tick_count: TickType,
}

/// The lists that the kernel itself holds.
pub open spec fn valid_id(id: ListId) -> bool {
    match id {
        ListId::Ready(p) => p < MAX_PRIORITIES,
        ListId::Delay(d) => d < 2,
        ListId::Suspended => true,
        ListId::Event => false,
    }
}

/// The list a task in the given state belongs in.
pub open spec fn state_matches(state: TaskState, priority: UBaseType, ctner: Option<ListId>) -> bool {
    match state {
        TaskState::Ready => ctner == Some(ListId::Ready(priority as usize)),
        TaskState::Running => ctner == Some(ListId::Ready(priority as usize)),
        TaskState::Delayed => ctner matches Some(ListId::Delay(_)),
        TaskState::Suspended => ctner == Some(ListId::Suspended),
        TaskState::NotCreated => ctner.is_none(),
    }
}

impl Kernel {
    pub open spec fn list_of(&self, id: ListId) -> List {
        match id {
            ListId::Ready(p) => self.ready_lists@[p as int],
            ListId::Delay(d) => self.delay_lists@[d as int],
            _ => self.suspended_list,
        }
    }

    pub open spec fn items_of(&self, id: ListId) -> Seq<ListItem> {
        self.list_of(id).items@
    }

    pub open spec fn tcb(&self, t: int) -> TCB {
        self.tcbs@[t]
    }

    /// The sizes of the tables, the bounds of the indices.
    pub open spec fn shape(&self) -> bool {
        &&& self.ready_lists@.len() == MAX_PRIORITIES
        &&& self.delay_lists@.len() == 2
        &&& self.current_delay < 2
        &&& forall|p: int| 0 <= p < MAX_PRIORITIES ==> (#[trigger] self.ready_lists@[p]).wf()
        &&& forall|d: int| 0 <= d < 2 ==> (#[trigger] self.delay_lists@[d]).wf()
        &&& self.suspended_list.wf()
        &&& 0 < self.tcbs@.len() <= usize::MAX
        &&& self.current < self.tcbs@.len()
        &&& self.top_ready_priority < 32
    }

    /// An item of list `id` belongs to a task that knows it is in `id`.
    pub open spec fn entry_ok(&self, id: ListId, e: ListItem) -> bool {
        &&& e.owner.is_some()
        &&& e.owner.unwrap() < self.tcbs@.len()
        &&& e.ctner == Some(id)
        &&& self.tcbs@[e.owner.unwrap() as int].state_list_item.ctner == Some(id)
    }

    pub open spec fn entries_ok(&self, id: ListId) -> bool {
        &&& owners_unique(self.items_of(id))
        &&& forall|i: int|
            0 <= i < self.items_of(id).len() ==> self.entry_ok(id, #[trigger] self.items_of(id)[i])
    }

    /// The fields of task `t` that do not depend on its state: priorities
    /// in range, items owned by the task, and a state item that is in the
    /// list it names.
    pub open spec fn task_links_ok(&self, t: int) -> bool {
        let c = self.tcbs@[t];
        &&& c.priority < MAX_PRIORITIES
        &&& c.base_priority < MAX_PRIORITIES
        &&& c.state_list_item.owner == Some(t as usize)
        &&& c.event_list_item.owner == Some(t as usize)
        &&& cortex_m7::STACK_CHECK_WORDS <= c.stack@.len()
        &&& (c.event_list_item.ctner.is_none() || c.event_list_item.ctner == Some(ListId::Event))
        &&& match c.state_list_item.ctner {
            None => true,
            Some(id) => valid_id(id) && has_owner(self.items_of(id), t as usize),
        }
    }

    /// The state of task `t` agrees with the list it is in, and only the
    /// current task may be running.
    pub open spec fn task_state_ok(&self, t: int) -> bool {
        let c = self.tcbs@[t];
        &&& state_matches(c.state, c.priority, c.state_list_item.ctner)
        &&& c.state == TaskState::Running ==> t == self.current
    }

    pub open spec fn task_ok(&self, t: int) -> bool {
        self.task_links_ok(t) && self.task_state_ok(t)
    }

    /// Bit `p` of the bitmap is set exactly when ready list `p` is not empty.
    pub open spec fn bitmap_ok(&self) -> bool {
        forall|p: int|
            0 <= p < MAX_PRIORITIES ==> (ready_bit(self.top_ready_priority, p) <==> (
            #[trigger] self.ready_lists@[p]).items@.len() > 0)
    }

    /// Both delay lists are in ascending order of wake time.
    pub open spec fn delays_sorted(&self) -> bool {
        forall|d: int| 0 <= d < 2 ==> sorted((#[trigger] self.delay_lists@[d]).items@)
    }

    pub open spec fn lists_ok(&self) -> bool {
        forall|id: ListId| valid_id(id) ==> #[trigger] self.entries_ok(id)
    }

    /// Everything holds except, possibly, what `task_state_ok` says of task `t`.
    pub open spec fn wf_except(&self, t: int) -> bool {
        &&& self.shape()
        &&& 0 <= t < self.tcbs@.len()
        &&& self.lists_ok()
        &&& forall|u: int| 0 <= u < self.tcbs@.len() && u != t ==> #[trigger] self.task_ok(u)
        &&& self.task_links_ok(t)
        &&& self.bitmap_ok()
        &&& self.delays_sorted()
    }

    /// The kernel invariant: every task sits in exactly the list its state
    /// names, each list holds only tasks that know they are in it, the bitmap
    /// reflects which ready lists are not empty, and the delay lists are
    /// sorted by wake time.
    pub open spec fn wf(&self) -> bool {
        &&& self.shape()
        &&& self.lists_ok()
        &&& forall|u: int| 0 <= u < self.tcbs@.len() ==> #[trigger] self.task_ok(u)
        &&& self.bitmap_ok()
        &&& self.delays_sorted()
    }

    /// The delay list of the current tick epoch.
    pub open spec fn current_delay_id(&self) -> ListId {
        ListId::Delay(self.current_delay)
    }

    /// The delay list for wake times past the next overflow of the tick counter.
    pub open spec fn overflow_delay_id(&self) -> ListId {
        ListId::Delay((1 - self.current_delay) as usize)
    }
}

/// The fields of the kernel other than the lists are equal.
pub open spec fn same_scalars(a: &Kernel, b: &Kernel) -> bool {
    &&& a.top_ready_priority == b.top_ready_priority
    &&& a.current == b.current
    &&& a.tick_count == b.tick_count
    &&& a.current_delay == b.current_delay
}

/// Every kernel list but `id` is equal in `a` and `b`.
pub open spec fn other_lists_same(a: &Kernel, b: &Kernel, id: ListId) -> bool {
    &&& a.ready_lists@.len() == b.ready_lists@.len()
    &&& a.delay_lists@.len() == b.delay_lists@.len()
    &&& forall|id2: ListId| valid_id(id2) && id2 != id ==> #[trigger] a.list_of(id2) == b.list_of(id2)
}

/// Every task but `t` is equal in `a` and `b`.
pub open spec fn other_tasks_same(a: &Kernel, b: &Kernel, t: int) -> bool {
    &&& a.tcbs@.len() == b.tcbs@.len()
    &&& forall|u: int| 0 <= u < a.tcbs@.len() && u != t ==> #[trigger] a.tcbs@[u] == b.tcbs@[u]
}

/// Task `t` differs at most in the container of its state item.
pub open spec fn only_ctner_changed(a: TCB, b: TCB) -> bool {
    &&& b.state_list_item.value == a.state_list_item.value
    &&& b.state_list_item.owner == a.state_list_item.owner
    &&& b.event_list_item == a.event_list_item
    &&& b.top_of_stack == a.top_of_stack
    &&& b.stack == a.stack
    &&& b.name == a.name
    &&& b.ticks_to_delay == a.ticks_to_delay
    &&& b.priority == a.priority
    &&& b.base_priority == a.base_priority
    &&& b.state == a.state
}

impl Kernel {
    /// The position of the item owned by `t` in kernel list `id`.
    fn list_find(&self, id: ListId, t: usize) -> (r: Option<usize>)
        requires
            self.shape(),
            valid_id(id),
        ensures
            match r {
                Some(p) => p < self.items_of(id).len() && self.items_of(id)[p as int].owner == Some(
                    t,
                ),
                None => !has_owner(self.items_of(id), t),
            },
    {
        match id {
            ListId::Ready(p) => self.ready_lists[p].find_owner(t),
            ListId::Delay(d) => self.delay_lists[d].find_owner(t),
            _ => self.suspended_list.find_owner(t),
        }
    }

    /// Takes the item at `pos` out of kernel list `id`.
    fn list_remove_at(&mut self, id: ListId, pos: usize)
        requires
            old(self).shape(),
            valid_id(id),
            pos < old(self).items_of(id).len(),
        ensures
            final(self).shape(),
            final(self).tcbs == old(self).tcbs,
            same_scalars(old(self), final(self)),
            other_lists_same(old(self), final(self), id),
            final(self).items_of(id) == old(self).items_of(id).remove(pos as int),
            final(self).list_of(id).index == cursor_after_remove(
                old(self).list_of(id).index as int,
                pos as int,
                final(self).items_of(id).len() as int,
            ),
    {
        match id {
            ListId::Ready(p) => {
                self.ready_lists[p].remove_at(pos);
            },
            ListId::Delay(d) => {
                self.delay_lists[d].remove_at(pos);
            },
            _ => {
                self.suspended_list.remove_at(pos);
            },
        }
    }

    /// Puts `item` into kernel list `id` as `how` says.
    fn list_insert(&mut self, id: ListId, item: ListItem, how: Placement)
        requires
            old(self).shape(),
            valid_id(id),
        ensures
            final(self).shape(),
            final(self).tcbs == old(self).tcbs,
            same_scalars(old(self), final(self)),
            other_lists_same(old(self), final(self), id),
            final(self).items_of(id) == old(self).items_of(id).insert(
                insert_at(old(self).list_of(id), item.value, how),
                item,
            ),
            final(self).list_of(id).index == cursor_after_insert(
                old(self).list_of(id),
                item.value,
                how,
            ),
    {
        proof {
            lemma_insert_position(old(self).items_of(id), item.value);
        }
        match id {
            ListId::Ready(p) => {
                match how {
                    Placement::BeforeIndex => self.ready_lists[p].insert_before_index(item),
                    Placement::End => self.ready_lists[p].insert_end(item),
                    Placement::Ordered => self.ready_lists[p].insert(item),
                }
            },
            ListId::Delay(d) => {
                match how {
                    Placement::BeforeIndex => self.delay_lists[d].insert_before_index(item),
                    Placement::End => self.delay_lists[d].insert_end(item),
                    Placement::Ordered => self.delay_lists[d].insert(item),
                }
            },
            _ => {
                match how {
                    Placement::BeforeIndex => self.suspended_list.insert_before_index(item),
                    Placement::End => self.suspended_list.insert_end(item),
                    Placement::Ordered => self.suspended_list.insert(item),
                }
            },
        }
    }
}

impl Kernel {
    /// Takes the state item of task `t` out of the list it is in (nothing
    /// happens when it is in none) and, when that empties a ready list,
    /// clears the list's bit. Returns how many items are left in that list,
    /// or 0 when the item was in none.
    pub fn remove_state_item(&mut self, t: usize) -> (r: usize)
        requires
            old(self).wf_except(t as int),
        ensures
            final(self).wf_except(t as int),
            r == (match old(self).tcbs@[t as int].state_list_item.ctner {
                None => 0,
                Some(id) => final(self).items_of(id).len(),
            }),
            other_tasks_same(old(self), final(self), t as int),
            only_ctner_changed(old(self).tcbs@[t as int], final(self).tcbs@[t as int]),
            final(self).tcbs@[t as int].state_list_item.ctner.is_none(),
            final(self).current == old(self).current,
            final(self).tick_count == old(self).tick_count,
            final(self).current_delay == old(self).current_delay,
            match old(self).tcbs@[t as int].state_list_item.ctner {
                None => {
                    &&& final(self).top_ready_priority == old(self).top_ready_priority
                    &&& other_lists_same(old(self), final(self), ListId::Event)
                },
                Some(id) => {
                    &&& other_lists_same(old(self), final(self), id)
                    &&& final(self).items_of(id) == old(self).items_of(id).remove(
                        owner_pos(old(self).items_of(id), t),
                    )
                    &&& final(self).list_of(id).index == cursor_after_remove(
                        old(self).list_of(id).index as int,
                        owner_pos(old(self).items_of(id), t),
                        final(self).items_of(id).len() as int,
                    )
                    &&& final(self).top_ready_priority == (match id {
                        ListId::Ready(p) => if final(self).items_of(id).len() == 0 {
                            clear_spec(old(self).top_ready_priority, p as u32)
                        } else {
                            old(self).top_ready_priority
                        },
                        _ => old(self).top_ready_priority,
                    })
                },
            },
    {
        let ctner = self.tcbs[t].state_list_item.ctner;
        match ctner {
            None => 0,
            Some(id) => {
                let ghost k0 = *self;
                let ghost s0 = self.items_of(id);
                let found = self.list_find(id, t);
                let pos = found.unwrap();
                proof {
                    assert(k0.entries_ok(id));
                    lemma_owner_pos(s0, t, pos as int);
                    lemma_remove_owners(s0, pos as int);
                    if let ListId::Delay(d) = id {
                        lemma_remove_keeps_sorted(s0, pos as int);
                    }
                }
                self.list_remove_at(id, pos);
                self.tcbs[t].state_list_item.ctner = None;
                let mut cleared = false;
                if let ListId::Ready(p) = id {
                    if self.ready_lists[p].items.len() == 0 {
                        self.top_ready_priority = clear_priority(self.top_ready_priority, p as u32);
                        cleared = true;
                    }
                }
                proof {
                    let k1 = *self;
                    assert(k1.tcbs@[t as int].state_list_item.ctner.is_none());
                    assert(other_tasks_same(&k0, &k1, t as int));
                    // the lists
                    assert forall|id2: ListId| valid_id(id2) implies #[trigger] k1.entries_ok(id2) by {
                        assert(k0.entries_ok(id2));
                        if id2 == id {
                            assert forall|i: int| 0 <= i < k1.items_of(id2).len() implies k1.entry_ok(
                                id2,
                                #[trigger] k1.items_of(id2)[i],
                            ) by {
                                let oi = if i < pos { i } else { i + 1 };
                                assert(k1.items_of(id2)[i] == s0[oi]);
                                assert(k0.entry_ok(id2, s0[oi]));
                                assert(s0[oi].owner != Some(t));
                            }
                        } else {
                            assert(k1.list_of(id2) == k0.list_of(id2));
                            assert forall|i: int| 0 <= i < k1.items_of(id2).len() implies k1.entry_ok(
                                id2,
                                #[trigger] k1.items_of(id2)[i],
                            ) by {
                                assert(k0.entry_ok(id2, k0.items_of(id2)[i]));
                            }
                        }
                    }
                    // the tasks
                    assert forall|u: int| 0 <= u < k1.tcbs@.len() && u != t implies #[trigger] k1.task_ok(
                        u,
                    ) by {
                        assert(k0.task_ok(u));
                        assert(k1.tcbs@[u] == k0.tcbs@[u]);
                        match k0.tcbs@[u].state_list_item.ctner {
                            None => {},
                            Some(id3) => {
                                if id3 == id {
                                    assert(has_owner(s0, u as usize));
                                    assert(s0[pos as int].owner == Some(t));
                                    assert(has_owner(s0.remove(pos as int), u as usize));
                                    assert(has_owner(k1.items_of(id3), u as usize));
                                } else {
                                    assert(k1.list_of(id3) == k0.list_of(id3));
                                }
                            },
                        }
                        assert(k1.task_links_ok(u));
                        assert(k1.task_state_ok(u));
                    }
                    // the bitmap
                    assert forall|q: int| 0 <= q < MAX_PRIORITIES implies (ready_bit(
                        k1.top_ready_priority,
                        q,
                    ) <==> (#[trigger] k1.ready_lists@[q]).items@.len() > 0) by {
                        assert(k0.ready_lists@[q] == k0.list_of(ListId::Ready(q as usize)));
                        assert(k1.ready_lists@[q] == k1.list_of(ListId::Ready(q as usize)));
                        if ListId::Ready(q as usize) != id {
                            assert(k1.list_of(ListId::Ready(q as usize)) == k0.list_of(
                                ListId::Ready(q as usize),
                            ));
                        }
                    }
                    assert forall|d: int| 0 <= d < 2 implies sorted(
                        (#[trigger] k1.delay_lists@[d]).items@,
                    ) by {
                        assert(k0.delay_lists@[d] == k0.list_of(ListId::Delay(d as usize)));
                        assert(k1.delay_lists@[d] == k1.list_of(ListId::Delay(d as usize)));
                    }
                }
                match id {
                    ListId::Ready(p) => self.ready_lists[p].items.len(),
                    ListId::Delay(d) => self.delay_lists[d].items.len(),
                    _ => self.suspended_list.items.len(),
                }
            },
        }
    }
}

impl Kernel {
    /// Gives the detached state item of task `t` the sort value `value` and
    /// puts it into kernel list `id` as `how` says; putting it into a ready
    /// list sets that list's bit.
    pub fn place_state_item(&mut self, t: usize, id: ListId, how: Placement, value: TickType)
        requires
            old(self).wf_except(t as int),
            old(self).tcbs@[t as int].state_list_item.ctner.is_none(),
            valid_id(id),
            id is Delay ==> how == Placement::Ordered,
            id is Ready ==> id->Ready_0 == old(self).tcbs@[t as int].priority,
        ensures
            final(self).wf_except(t as int),
            other_tasks_same(old(self), final(self), t as int),
            final(self).tcbs@[t as int] == (TCB {
                state_list_item: ListItem {
                    value,
                    ctner: Some(id),
                    ..old(self).tcbs@[t as int].state_list_item
                },
                ..old(self).tcbs@[t as int]
            }),
            other_lists_same(old(self), final(self), id),
            final(self).items_of(id) == old(self).items_of(id).insert(
                insert_at(old(self).list_of(id), value, how),
                final(self).tcbs@[t as int].state_list_item,
            ),
            final(self).list_of(id).index == cursor_after_insert(old(self).list_of(id), value, how),
            final(self).top_ready_priority == (match id {
                ListId::Ready(p) => record_spec(old(self).top_ready_priority, p as u32),
                _ => old(self).top_ready_priority,
            }),
            final(self).current == old(self).current,
            final(self).tick_count == old(self).tick_count,
            final(self).current_delay == old(self).current_delay,
    {
        let ghost k0 = *self;
        let ghost s0 = self.items_of(id);
        let mut item = self.tcbs[t].state_list_item;
        item.value = value;
        item.ctner = Some(id);
        proof {
            assert(k0.entries_ok(id));
            assert(k0.task_links_ok(t as int));
            assert(!has_owner(s0, t)) by {
                if has_owner(s0, t) {
                    let i = choose|i: int| 0 <= i < s0.len() && #[trigger] s0[i].owner == Some(t);
                    assert(k0.entry_ok(id, s0[i]));
                }
            }
            let p = insert_at(k0.list_of(id), value, how);
            lemma_insert_position(s0, value);
            lemma_insert_owners(s0, p, item);
            if let ListId::Delay(d) = id {
                assert(k0.delay_lists@[d as int] == k0.list_of(id));
                lemma_insert_keeps_sorted(s0, item);
            }
        }
        self.list_insert(id, item, how);
        self.tcbs[t].state_list_item = item;
        if let ListId::Ready(p) = id {
            self.top_ready_priority = record_priority(self.top_ready_priority, p as u32);
        }
        proof {
            let k1 = *self;
            let p = insert_at(k0.list_of(id), value, how);
            assert(other_tasks_same(&k0, &k1, t as int));
            assert forall|id2: ListId| valid_id(id2) implies #[trigger] k1.entries_ok(id2) by {
                assert(k0.entries_ok(id2));
                if id2 == id {
                    assert forall|i: int| 0 <= i < k1.items_of(id2).len() implies k1.entry_ok(
                        id2,
                        #[trigger] k1.items_of(id2)[i],
                    ) by {
                        if i < p {
                            assert(k1.items_of(id2)[i] == s0[i]);
                            assert(k0.entry_ok(id2, s0[i]));
                        } else if i > p {
                            assert(k1.items_of(id2)[i] == s0[i - 1]);
                            assert(k0.entry_ok(id2, s0[i - 1]));
                        }
                    }
                } else {
                    assert(k1.list_of(id2) == k0.list_of(id2));
                    assert forall|i: int| 0 <= i < k1.items_of(id2).len() implies k1.entry_ok(
                        id2,
                        #[trigger] k1.items_of(id2)[i],
                    ) by {
                        assert(k0.entry_ok(id2, k0.items_of(id2)[i]));
                        assert(k0.items_of(id2)[i].owner != Some(t));
                    }
                }
            }
            assert forall|u: int| 0 <= u < k1.tcbs@.len() && u != t implies #[trigger] k1.task_ok(
                u,
            ) by {
                assert(k0.task_ok(u));
                assert(k1.tcbs@[u] == k0.tcbs@[u]);
                match k0.tcbs@[u].state_list_item.ctner {
                    None => {},
                    Some(id3) => {
                        if id3 == id {
                            assert(has_owner(s0, u as usize));
                            assert(has_owner(k1.items_of(id3), u as usize));
                        } else {
                            assert(k1.list_of(id3) == k0.list_of(id3));
                        }
                    },
                }
                assert(k1.task_links_ok(u));
                assert(k1.task_state_ok(u));
            }
            assert(k1.task_links_ok(t as int)) by {
                assert(has_owner(k1.items_of(id), t));
            }
            assert forall|q: int| 0 <= q < MAX_PRIORITIES implies (ready_bit(
                k1.top_ready_priority,
                q,
            ) <==> (#[trigger] k1.ready_lists@[q]).items@.len() > 0) by {
                assert(k0.ready_lists@[q] == k0.list_of(ListId::Ready(q as usize)));
                assert(k1.ready_lists@[q] == k1.list_of(ListId::Ready(q as usize)));
                if ListId::Ready(q as usize) != id {
                    assert(k1.list_of(ListId::Ready(q as usize)) == k0.list_of(
                        ListId::Ready(q as usize),
                    ));
                }
            }
            assert forall|d: int| 0 <= d < 2 implies sorted(
                (#[trigger] k1.delay_lists@[d]).items@,
            ) by {
                assert(k0.delay_lists@[d] == k0.list_of(ListId::Delay(d as usize)));
                assert(k1.delay_lists@[d] == k1.list_of(ListId::Delay(d as usize)));
            }
        }
    }
}

/// The items and the cursor of a list.
pub open spec fn list_view(l: List) -> (Seq<ListItem>, int) {
    (l.items@, l.index as int)
}

/// A list view after the item at `pos` is taken out.
pub open spec fn remove_view(v: (Seq<ListItem>, int), pos: int) -> (Seq<ListItem>, int) {
    (v.0.remove(pos), cursor_after_remove(v.1, pos, v.0.len() - 1))
}

/// The position at which an item of value `value` goes into a list view.
pub open spec fn insert_at_view(v: (Seq<ListItem>, int), value: TickType, how: Placement) -> int {
    match how {
        Placement::BeforeIndex => v.1,
        Placement::End => v.0.len() as int,
        Placement::Ordered => insert_position(v.0, value),
    }
}

/// A list view after `item` is put in as `how` says.
pub open spec fn insert_view(v: (Seq<ListItem>, int), item: ListItem, how: Placement) -> (
    Seq<ListItem>,
    int,
) {
    let p = insert_at_view(v, item.value, how);
    (v.0.insert(p, item), if v.1 >= p {
        v.1 + 1
    } else {
        v.1
    })
}

impl Kernel {
    pub open spec fn view_of(&self, id: ListId) -> (Seq<ListItem>, int) {
        list_view(self.list_of(id))
    }

    /// List `id2` once task `t`'s state item has left its list.
    pub open spec fn view_without(&self, t: int, id2: ListId) -> (Seq<ListItem>, int) {
        if self.tcbs@[t].state_list_item.ctner == Some(id2) {
            remove_view(self.view_of(id2), owner_pos(self.items_of(id2), t as usize))
        } else {
            self.view_of(id2)
        }
    }

    /// List `id2` once task `t`'s state item has left its list and, with sort
    /// value `value`, has been put into list `id` as `how` says.
    pub open spec fn view_after_move(
        &self,
        t: int,
        id: ListId,
        how: Placement,
        value: TickType,
        id2: ListId,
    ) -> (Seq<ListItem>, int) {
        let item = ListItem { value, owner: Some(t as usize), ctner: Some(id) };
        if id2 == id {
            insert_view(self.view_without(t, id2), item, how)
        } else {
            self.view_without(t, id2)
        }
    }

    /// Moves the state item of task `t`, with sort value `value`, from the
    /// list it is in (if any) into kernel list `id`, as `how` says; the
    /// bitmap follows the ready lists.
    pub fn move_state_item(&mut self, t: usize, id: ListId, how: Placement, value: TickType)
        requires
            old(self).wf_except(t as int),
            valid_id(id),
            id is Delay ==> how == Placement::Ordered,
            id is Ready ==> id->Ready_0 == old(self).tcbs@[t as int].priority,
        ensures
            final(self).wf_except(t as int),
            other_tasks_same(old(self), final(self), t as int),
            final(self).tcbs@[t as int] == (TCB {
                state_list_item: ListItem {
                    value,
                    ctner: Some(id),
                    ..old(self).tcbs@[t as int].state_list_item
                },
                ..old(self).tcbs@[t as int]
            }),
            forall|id2: ListId|
                valid_id(id2) ==> #[trigger] final(self).view_of(id2) == old(self).view_after_move(
                    t as int,
                    id,
                    how,
                    value,
                    id2,
                ),
            final(self).current == old(self).current,
            final(self).tick_count == old(self).tick_count,
            final(self).current_delay == old(self).current_delay,
    {
        let ghost k0 = *self;
        self.remove_state_item(t);
        let ghost k1 = *self;
        self.place_state_item(t, id, how, value);
        proof {
            let k2 = *self;
            assert(k1.tcbs@[t as int].state_list_item.owner == Some(t)) by {
                assert(k0.task_links_ok(t as int));
            }
            assert(k2.tcbs@[t as int] =~= (TCB {
                state_list_item: ListItem {
                    value,
                    ctner: Some(id),
                    ..k0.tcbs@[t as int].state_list_item
                },
                ..k0.tcbs@[t as int]
            }));
            assert forall|id2: ListId| valid_id(id2) implies #[trigger] k2.view_of(id2)
                == k0.view_after_move(t as int, id, how, value, id2) by {
                assert(k1.view_of(id2) == k0.view_without(t as int, id2));
                if id2 == id {
                    assert(k2.tcbs@[t as int].state_list_item == (ListItem {
                        value,
                        owner: Some(t),
                        ctner: Some(id),
                    }));
                } else {
                    assert(k2.list_of(id2) == k1.list_of(id2));
                }
            }
        }
    }
}

/// Changing fields of task `t` other than its state item keeps everything
/// but the agreement of `t`'s state with its list.
pub proof fn lemma_tcb_update(k0: &Kernel, k1: &Kernel, t: int)
    requires
        k0.wf_except(t),
        other_tasks_same(k0, k1, t),
        k1.tcbs@[t].state_list_item == k0.tcbs@[t].state_list_item,
        k1.tcbs@[t].event_list_item.owner == Some(t as usize),
        k1.tcbs@[t].event_list_item.ctner.is_none() || k1.tcbs@[t].event_list_item.ctner == Some(
            ListId::Event,
        ),
        k1.tcbs@[t].priority < MAX_PRIORITIES,
        k1.tcbs@[t].base_priority < MAX_PRIORITIES,
        cortex_m7::STACK_CHECK_WORDS <= k1.tcbs@[t].stack@.len(),
        k1.ready_lists == k0.ready_lists,
        k1.delay_lists == k0.delay_lists,
        k1.suspended_list == k0.suspended_list,
        same_scalars(k0, k1),
    ensures
        k1.wf_except(t),
{
    assert(k1.ready_lists@ == k0.ready_lists@);
    assert(k1.delay_lists@ == k0.delay_lists@);
    assert forall|id: ListId| valid_id(id) implies #[trigger] k1.entries_ok(id) by {
        assert(k0.entries_ok(id));
        assert(k1.list_of(id) == k0.list_of(id));
        assert forall|i: int| 0 <= i < k1.items_of(id).len() implies k1.entry_ok(
            id,
            #[trigger] k1.items_of(id)[i],
        ) by {
            assert(k0.entry_ok(id, k0.items_of(id)[i]));
        }
    }
    assert forall|u: int| 0 <= u < k1.tcbs@.len() && u != t implies #[trigger] k1.task_ok(u) by {
        assert(k0.task_ok(u));
        match k0.tcbs@[u].state_list_item.ctner {
            None => {},
            Some(id3) => {
                assert(k1.list_of(id3) == k0.list_of(id3));
            },
        }
        assert(k1.task_links_ok(u));
    }
    assert(k1.task_links_ok(t)) by {
        match k0.tcbs@[t].state_list_item.ctner {
            None => {},
            Some(id3) => {
                assert(k1.list_of(id3) == k0.list_of(id3));
            },
        }
    }
}

impl Kernel {
    /// `wf` with the state of task `t` left out is `wf` once that state agrees.
    pub proof fn lemma_wf_from_except(&self, t: int)
        requires
            self.wf_except(t),
            self.task_state_ok(t),
        ensures
            self.wf(),
    {
        assert forall|u: int| 0 <= u < self.tcbs@.len() implies #[trigger] self.task_ok(u) by {
            if u != t {
            }
        }
    }

    /// `wf` implies `wf` with the state of any one task left out.
    pub proof fn lemma_wf_to_except(&self, t: int)
        requires
            self.wf(),
            0 <= t < self.tcbs@.len(),
        ensures
            self.wf_except(t),
    {
        assert(self.task_ok(t));
    }
}

/// `k1` is `k0` once task `t` has become ready: its state item left its list
/// and went, with its priority as sort value, just before the cursor of the
/// ready list of its priority.
pub open spec fn made_ready(k0: &Kernel, k1: &Kernel, t: int) -> bool {
    let prio = k0.tcbs@[t].priority;
    &&& other_tasks_same(k0, k1, t)
    &&& k1.tcbs@[t] == (TCB {
        state: TaskState::Ready,
        state_list_item: ListItem {
            value: prio,
            ctner: Some(ListId::Ready(prio as usize)),
            ..k0.tcbs@[t].state_list_item
        },
        ..k0.tcbs@[t]
    })
    &&& forall|id2: ListId|
        valid_id(id2) ==> #[trigger] k1.view_of(id2) == k0.view_after_move(
            t,
            ListId::Ready(prio as usize),
            Placement::BeforeIndex,
            prio,
            id2,
        )
    &&& k1.current == k0.current
    &&& k1.tick_count == k0.tick_count
    &&& k1.current_delay == k0.current_delay
}

/// `k1` is `k0` once task `t` has been suspended: its state item left its
/// list and went, keeping its sort value, just before the cursor of the
/// suspended list.
pub open spec fn made_suspended(k0: &Kernel, k1: &Kernel, t: int) -> bool {
    &&& other_tasks_same(k0, k1, t)
    &&& k1.tcbs@[t] == (TCB {
        state: TaskState::Suspended,
        state_list_item: ListItem { ctner: Some(ListId::Suspended), ..k0.tcbs@[t].state_list_item },
        ..k0.tcbs@[t]
    })
    &&& forall|id2: ListId|
        valid_id(id2) ==> #[trigger] k1.view_of(id2) == k0.view_after_move(
            t,
            ListId::Suspended,
            Placement::BeforeIndex,
            k0.tcbs@[t].state_list_item.value,
            id2,
        )
    &&& k1.current == k0.current
    &&& k1.tick_count == k0.tick_count
    &&& k1.current_delay == k0.current_delay
}

/// A task `task_resume` releases: suspended, and not waiting on an object.
pub open spec fn resumable(c: TCB) -> bool {
    c.state == TaskState::Suspended && c.event_list_item.ctner.is_none()
}

/// Only a suspended task is ever resumed: a task in any other state
/// (ready, running, delayed, not created) is not one `task_resume` releases.
pub proof fn lemma_resume_only_suspended(c: TCB)
    requires
        c.state != TaskState::Suspended,
    ensures
        !resumable(c),
{
}

/// What `task_suspend` does to task `t`: nothing to a task that is not
/// created or already suspended; otherwise the task is suspended, and `r`
/// tells whether it was the running one.
pub open spec fn suspend_outcome(k0: &Kernel, k1: &Kernel, t: int, r: bool) -> bool {
    let c = k0.tcbs@[t];
    if c.state == TaskState::Suspended || c.state == TaskState::NotCreated {
        *k1 == *k0 && !r
    } else {
        made_suspended(k0, k1, t) && r == (t == k0.current)
    }
}

/// Resuming undoes suspending: a ready task that is suspended and then
/// resumed is ready again with everything but its sort value (now its
/// priority) as before, in the ready list of its priority; the other tasks
/// are as they were.
pub proof fn lemma_suspend_then_resume(k0: &Kernel, k1: &Kernel, k2: &Kernel, t: int)
    requires
        k0.wf(),
        k2.wf(),
        0 <= t < k0.tcbs@.len(),
        k0.tcbs@[t].state == TaskState::Ready,
        made_suspended(k0, k1, t),
        made_ready(k1, k2, t),
    ensures
        k2.tcbs@[t] == (TCB {
            state_list_item: ListItem {
                value: k0.tcbs@[t].priority,
                ..k0.tcbs@[t].state_list_item
            },
            ..k0.tcbs@[t]
        }),
        has_owner(k2.items_of(ListId::Ready(k0.tcbs@[t].priority as usize)), t as usize),
        forall|u: int| 0 <= u < k0.tcbs@.len() && u != t ==> #[trigger] k2.tcbs@[u] == k0.tcbs@[u],
{
    assert(k0.task_ok(t));
    assert(k2.task_ok(t));
    assert(k2.tcbs@[t] =~= (TCB {
        state_list_item: ListItem {
            value: k0.tcbs@[t].priority,
            ..k0.tcbs@[t].state_list_item
        },
        ..k0.tcbs@[t]
    }));
    assert forall|u: int| 0 <= u < k0.tcbs@.len() && u != t implies #[trigger] k2.tcbs@[u] == k0.tcbs@[u] by {
        assert(k1.tcbs@[u] == k0.tcbs@[u]);
    }
}

impl Kernel {
    /// Sets the state of task `t` to one that agrees with the list it is in.
    pub fn set_task_state(&mut self, t: usize, state: TaskState)
        requires
            old(self).wf_except(t as int),
            state_matches(
                state,
                old(self).tcbs@[t as int].priority,
                old(self).tcbs@[t as int].state_list_item.ctner,
            ),
            state == TaskState::Running ==> t == old(self).current,
        ensures
            final(self).wf(),
            other_tasks_same(old(self), final(self), t as int),
            final(self).tcbs@[t as int] == (TCB { state, ..old(self).tcbs@[t as int] }),
            final(self).ready_lists == old(self).ready_lists,
            final(self).delay_lists == old(self).delay_lists,
            final(self).suspended_list == old(self).suspended_list,
            same_scalars(old(self), final(self)),
    {
        let ghost k0 = *self;
        self.tcbs[t].state = state;
        proof {
            assert(self.tcbs@[t as int] =~= (TCB { state, ..k0.tcbs@[t as int] }));
            lemma_tcb_update(&k0, self, t as int);
            self.lemma_wf_from_except(t as int);
        }
    }

    /// Makes a suspended task ready again: it leaves the suspended list and
    /// goes into the ready list of its priority just before the cursor.
    /// Returns whether the caller should yield, that is whether the task's
    /// priority is at least that of the running task. A task that is not
    /// suspended is left alone, and so is one that waits without time limit
    /// on an object (its event item is in a wait list): only the object
    /// releases it.
    pub fn task_resume(&mut self, t: usize) -> (r: bool)
        requires
            old(self).wf(),
            t < old(self).tcbs@.len(),
        ensures
            final(self).wf(),
            old(self).tcbs@[t as int].state != TaskState::Suspended ==> *final(self) == *old(self) && !r,
            !resumable(old(self).tcbs@[t as int]) ==> *final(self) == *old(self) && !r,
            resumable(old(self).tcbs@[t as int]) ==> made_ready(old(self), final(self), t as int)
                && r == (old(self).tcbs@[t as int].priority >= old(self).tcbs@[old(self).current as int].priority),
    {
        if self.tcbs[t].state != TaskState::Suspended || self.tcbs[t].event_list_item.ctner.is_some() {
            return false;
        }
        let ghost k0 = *self;
        proof {
            self.lemma_wf_to_except(t as int);
        }
        let priority = self.tcbs[t].priority;
        self.move_state_item(t, ListId::Ready(priority as usize), Placement::BeforeIndex, priority);
        let ghost k1 = *self;
        self.set_task_state(t, TaskState::Ready);
        proof {
            let k2 = *self;
            assert forall|id2: ListId| valid_id(id2) implies #[trigger] k2.view_of(id2) == k1.view_of(id2) by {
                assert(k2.list_of(id2) == k1.list_of(id2));
            }
            assert(k2.tcbs@[t as int] =~= (TCB { state: TaskState::Ready, ..k1.tcbs@[t as int] }));
            assert(k2.tcbs@[k2.current as int].priority == k0.tcbs@[k0.current as int].priority);
        }
        priority >= self.tcbs[self.current].priority
    }

    /// Suspends a task: it leaves the ready or delay list it is in (a
    /// remaining delay is discarded) and goes into the suspended list just
    /// before the cursor. Returns whether the caller should yield, that is
    /// whether the task is the running one. A task that is not created or
    /// already suspended is left alone. The idle task may be suspended too:
    /// with no task ready, the scheduler still runs it. A task waiting on an
    /// object is suspended with
    /// `suspend_waiter`, which also takes it out of the object's wait list.
    pub fn task_suspend(&mut self, t: usize) -> (r: bool)
        requires
            old(self).wf(),
            t < old(self).tcbs@.len(),
            old(self).tcbs@[t as int].event_list_item.ctner.is_none(),
        ensures
            final(self).wf(),
            suspend_outcome(old(self), final(self), t as int, r),
    {
        let state = self.tcbs[t].state;
        if state == TaskState::NotCreated || state == TaskState::Suspended {
            return false;
        }
        self.suspend_task(t);
        t == self.current
    }

    /// Moves task `t` from its list into the suspended list, just before the
    /// cursor, keeping its sort value.
    pub(crate) fn suspend_task(&mut self, t: usize)
        requires
            old(self).wf(),
            t < old(self).tcbs@.len(),
        ensures
            final(self).wf(),
            made_suspended(old(self), final(self), t as int),
    {
        let ghost k0 = *self;
        proof {
            self.lemma_wf_to_except(t as int);
        }
        let value = self.tcbs[t].state_list_item.value;
        self.move_state_item(t, ListId::Suspended, Placement::BeforeIndex, value);
        let ghost k1 = *self;
        self.set_task_state(t, TaskState::Suspended);
        proof {
            let k2 = *self;
            assert forall|id2: ListId| valid_id(id2) implies #[trigger] k2.view_of(id2) == k1.view_of(id2) by {
                assert(k2.list_of(id2) == k1.list_of(id2));
            }
            assert(k2.tcbs@[t as int] =~= (TCB { state: TaskState::Suspended, ..k1.tcbs@[t as int] }));
        }
    }

    /// Ends the delay of a delayed task: it leaves its delay list and goes
    /// into the ready list of its priority just before the cursor. Returns
    /// whether the caller should yield, that is whether the task's priority
    /// is at least that of the running task. A task that is not delayed is
    /// left alone.
    pub fn abort_delay(&mut self, t: usize) -> (r: bool)
        requires
            old(self).wf(),
            t < old(self).tcbs@.len(),
        ensures
            final(self).wf(),
            old(self).tcbs@[t as int].state != TaskState::Delayed ==> *final(self) == *old(self) && !r,
            old(self).tcbs@[t as int].state == TaskState::Delayed ==> made_ready(old(self), final(self), t as int)
                && r == (old(self).tcbs@[t as int].priority >= old(self).tcbs@[old(self).current as int].priority),
    {
        if self.tcbs[t].state != TaskState::Delayed {
            return false;
        }
        // a delayed task is always in a delay list
        if self.tcbs[t].state_list_item.ctner.is_none() {
            proof {
                assert(self.task_ok(t as int));
            }
            return false;
        }
        let ghost k0 = *self;
        proof {
            self.lemma_wf_to_except(t as int);
        }
        let priority = self.tcbs[t].priority;
        self.move_state_item(t, ListId::Ready(priority as usize), Placement::BeforeIndex, priority);
        let ghost k1 = *self;
        self.set_task_state(t, TaskState::Ready);
        proof {
            let k2 = *self;
            assert forall|id2: ListId| valid_id(id2) implies #[trigger] k2.view_of(id2) == k1.view_of(id2) by {
                assert(k2.list_of(id2) == k1.list_of(id2));
            }
            assert(k2.tcbs@[t as int] =~= (TCB { state: TaskState::Ready, ..k1.tcbs@[t as int] }));
            assert(k2.tcbs@[k2.current as int].priority == k0.tcbs@[k0.current as int].priority);
        }
        priority >= self.tcbs[self.current].priority
    }
}

/// True when `tick + ticks` passes the largest tick value.
pub open spec fn wake_overflows(tick: TickType, ticks: TickType) -> bool {
    tick + ticks > u32::MAX
}

/// `tick + ticks`, wrapped around at the largest tick value.
pub open spec fn wake_time(tick: TickType, ticks: TickType) -> TickType {
    if wake_overflows(tick, ticks) {
        (tick + ticks - 0x1_0000_0000) as TickType
    } else {
        (tick + ticks) as TickType
    }
}

/// `tick + ticks` wrapped around, and whether it wrapped.
pub fn overflowing_add(tick: TickType, ticks: TickType) -> (r: (TickType, bool))
    ensures
        r.0 == wake_time(tick, ticks),
        r.1 == wake_overflows(tick, ticks),
{
    match tick.checked_add(ticks) {
        Some(w) => (w, false),
        None => (ticks - (u32::MAX - tick) - 1, true),
    }
}

impl Kernel {
    /// The delay list a task that waits `ticks` from now goes into: the
    /// overflow list when its wake time wraps around.
    pub open spec fn delay_target(&self, ticks: TickType) -> ListId {
        if wake_overflows(self.tick_count, ticks) {
            self.overflow_delay_id()
        } else {
            self.current_delay_id()
        }
    }

    /// Task `t` of `self`, delayed until `wake` in list `id`.
    pub open spec fn delayed_tcb(&self, t: int, wake: TickType, id: ListId) -> TCB {
        TCB {
            state: TaskState::Delayed,
            ticks_to_delay: wake,
            state_list_item: ListItem {
                value: wake,
                ctner: Some(id),
                ..self.tcbs@[t].state_list_item
            },
            ..self.tcbs@[t]
        }
    }

    /// Moves the running task from its list into the delay list of its wake
    /// time, `ticks` from now, in order of wake time.
    pub fn delay_current(&mut self, ticks: TickType)
        requires
            old(self).wf(),
            old(self).current != IDLE_TASK,
        ensures
            final(self).wf(),
            other_tasks_same(old(self), final(self), old(self).current as int),
            final(self).tcbs@[old(self).current as int] == old(self).delayed_tcb(
                old(self).current as int,
                wake_time(old(self).tick_count, ticks),
                old(self).delay_target(ticks),
            ),
            forall|id2: ListId|
                valid_id(id2) ==> #[trigger] final(self).view_of(id2) == old(self).view_after_move(
                    old(self).current as int,
                    old(self).delay_target(ticks),
                    Placement::Ordered,
                    wake_time(old(self).tick_count, ticks),
                    id2,
                ),
            final(self).current == old(self).current,
            final(self).tick_count == old(self).tick_count,
            final(self).current_delay == old(self).current_delay,
    {
        let ghost k0 = *self;
        let cur = self.current;
        let (wake_time, overflowed) = overflowing_add(self.tick_count, ticks);
        proof {
            self.lemma_wf_to_except(cur as int);
        }
        self.tcbs[cur].ticks_to_delay = wake_time;
        proof {
            lemma_tcb_update(&k0, self, cur as int);
        }
        let target = if overflowed {
            ListId::Delay(1 - self.current_delay)
        } else {
            ListId::Delay(self.current_delay)
        };
        let ghost k1 = *self;
        self.move_state_item(cur, target, Placement::Ordered, wake_time);
        proof {
            assert forall|id2: ListId| valid_id(id2) implies #[trigger] k1.view_of(id2) == k0.view_of(
                id2,
            ) by {
                assert(k1.list_of(id2) == k0.list_of(id2));
            }
        }
        let ghost k2 = *self;
        self.set_task_state(cur, TaskState::Delayed);
        proof {
            let k3 = *self;
            assert forall|id2: ListId| valid_id(id2) implies #[trigger] k3.view_of(id2) == k2.view_of(
                id2,
            ) by {
                assert(k3.list_of(id2) == k2.list_of(id2));
            }
            assert(k3.tcbs@[cur as int] =~= k0.delayed_tcb(cur as int, wake_time, target));
            assert forall|u: int| 0 <= u < k0.tcbs@.len() && u != cur implies #[trigger] k0.tcbs@[u]
                == k3.tcbs@[u] by {
                assert(k0.tcbs@[u] == k1.tcbs@[u]);
                assert(k1.tcbs@[u] == k2.tcbs@[u]);
            }
        }
    }

    /// Puts the running task to sleep for `ticks` ticks: it leaves the ready
    /// list and goes, in order of wake time, into the current delay list, or
    /// into the overflow delay list when its wake time wraps around. Returns
    /// that the caller must yield.
    pub fn task_delay(&mut self, ticks: TickType) -> (r: bool)
        requires
            old(self).wf(),
            old(self).current != IDLE_TASK,
        ensures
            final(self).wf(),
            r,
            other_tasks_same(old(self), final(self), old(self).current as int),
            final(self).tcbs@[old(self).current as int] == old(self).delayed_tcb(
                old(self).current as int,
                wake_time(old(self).tick_count, ticks),
                old(self).delay_target(ticks),
            ),
            forall|id2: ListId|
                valid_id(id2) ==> #[trigger] final(self).view_of(id2) == old(self).view_after_move(
                    old(self).current as int,
                    old(self).delay_target(ticks),
                    Placement::Ordered,
                    wake_time(old(self).tick_count, ticks),
                    id2,
                ),
            final(self).current == old(self).current,
            final(self).tick_count == old(self).tick_count,
            final(self).current_delay == old(self).current_delay,
    {
        self.delay_current(ticks);
        true
    }

    /// Marks priority `priority` in the ready bitmap.
    pub fn record_ready_priority(&mut self, priority: UBaseType)
        requires
            priority < 32,
        ensures
            final(self).top_ready_priority == record_spec(old(self).top_ready_priority, priority),
            final(self).tcbs == old(self).tcbs,
            final(self).ready_lists == old(self).ready_lists,
            final(self).delay_lists == old(self).delay_lists,
            final(self).suspended_list == old(self).suspended_list,
            final(self).current == old(self).current,
            final(self).tick_count == old(self).tick_count,
            final(self).current_delay == old(self).current_delay,
    {
        self.top_ready_priority = record_priority(self.top_ready_priority, priority);
    }

    /// Unmarks priority `priority` in the ready bitmap.
    pub fn clear_ready_priority(&mut self, priority: UBaseType)
        requires
            priority < 32,
        ensures
            final(self).top_ready_priority == clear_spec(old(self).top_ready_priority, priority),
            final(self).tcbs == old(self).tcbs,
            final(self).ready_lists == old(self).ready_lists,
            final(self).delay_lists == old(self).delay_lists,
            final(self).suspended_list == old(self).suspended_list,
            final(self).current == old(self).current,
            final(self).tick_count == old(self).tick_count,
            final(self).current_delay == old(self).current_delay,
    {
        self.top_ready_priority = clear_priority(self.top_ready_priority, priority);
    }

    /// The highest priority whose ready list is not empty.
    pub open spec fn top_priority(&self) -> int {
        choose|p: int|
            0 <= p < MAX_PRIORITIES && self.ready_lists@[p].items@.len() > 0 && forall|q: int|
                p < q < MAX_PRIORITIES ==> self.ready_lists@[q].items@.len() == 0
    }

    /// Makes the next task, in round-robin order, of the highest priority
    /// that has a ready task the running one: the cursor of that ready list
    /// advances past the end marker to the next item, whose task becomes
    /// current. With no task ready, the idle task becomes current. Nothing
    /// else changes.
    pub fn select_highest_priority_task(&mut self)
        requires
            old(self).wf(),
            old(self).tcbs@[old(self).current as int].state != TaskState::Running,
        ensures
            final(self).wf(),
            selected(old(self), final(self)),
    {
        let ghost k0 = *self;
        if self.top_ready_priority == 0 {
            proof {
                assert forall|q: int| 0 <= q < MAX_PRIORITIES implies (#[trigger] k0.ready_lists@[q]).items@.len()
                    == 0 by {
                    lemma_zero_word(q);
                }
            }
            self.current = IDLE_TASK;
            proof {
                let k1 = *self;
                assert forall|u: int| 0 <= u < k1.tcbs@.len() implies #[trigger] k1.task_ok(u) by {
                    assert(k0.task_ok(u));
                    if k0.tcbs@[u].state == TaskState::Running {
                        let p = k0.tcbs@[u].priority as int;
                        assert(has_owner(k0.items_of(ListId::Ready(p as usize)), u as usize));
                    }
                    match k0.tcbs@[u].state_list_item.ctner {
                        None => {},
                        Some(id3) => {
                            assert(k1.items_of(id3) == k0.items_of(id3));
                        },
                    }
                    assert(k1.task_links_ok(u));
                }
                assert forall|id: ListId| valid_id(id) implies #[trigger] k1.entries_ok(id) by {
                    assert(k0.entries_ok(id));
                    assert(k1.items_of(id) == k0.items_of(id));
                    assert forall|i: int| 0 <= i < k1.items_of(id).len() implies k1.entry_ok(
                        id,
                        #[trigger] k1.items_of(id)[i],
                    ) by {
                        assert(k0.entry_ok(id, k0.items_of(id)[i]));
                    }
                }
            }
            return;
        }
        let top = highest_priority(self.top_ready_priority);
        let p = top as usize;
        proof {
            assert(k0.ready_lists@[p as int].items@.len() > 0);
            assert(!k0.none_ready());
            assert forall|q: int| p < q < MAX_PRIORITIES implies k0.ready_lists@[q].items@.len() == 0 by {
                assert(!ready_bit(k0.top_ready_priority, q));
            }
            let tp = k0.top_priority();
            assert(tp == p) by {
                if tp < p {
                    assert(k0.ready_lists@[p as int].items@.len() == 0);
                } else if tp > p {
                    assert(k0.ready_lists@[tp].items@.len() == 0);
                }
            }
            assert(k0.ready_lists@[p as int].wf());
        }
        let next = self.ready_lists[p].get_next_entry();
        let ghost l0 = k0.ready_lists@[p as int];
        let ghost ni = next_cursor(l0.index as int, l0.items@.len() as int);
        proof {
            assert(k0.entries_ok(ListId::Ready(p)));
            assert(k0.entry_ok(ListId::Ready(p), l0.items@[ni]));
        }
        self.current = next.unwrap();
        proof {
            let k1 = *self;
            assert(k1.ready_lists@ =~= k0.ready_lists@.update(
                p as int,
                List { index: ni as usize, ..l0 },
            ));
            let c = k1.current as int;
            assert(k0.task_ok(c));
            assert forall|id: ListId| valid_id(id) implies #[trigger] k1.entries_ok(id) by {
                assert(k0.entries_ok(id));
                assert(k1.items_of(id) == k0.items_of(id));
                assert forall|i: int| 0 <= i < k1.items_of(id).len() implies k1.entry_ok(
                    id,
                    #[trigger] k1.items_of(id)[i],
                ) by {
                    assert(k0.entry_ok(id, k0.items_of(id)[i]));
                }
            }
            assert forall|u: int| 0 <= u < k1.tcbs@.len() implies #[trigger] k1.task_ok(u) by {
                assert(k0.task_ok(u));
                match k0.tcbs@[u].state_list_item.ctner {
                    None => {},
                    Some(id3) => {
                        assert(k1.items_of(id3) == k0.items_of(id3));
                    },
                }
                assert(k1.task_links_ok(u));
            }
            assert forall|q: int| 0 <= q < MAX_PRIORITIES implies (ready_bit(
                k1.top_ready_priority,
                q,
            ) <==> (#[trigger] k1.ready_lists@[q]).items@.len() > 0) by {
                assert(k0.ready_lists@[q].items@ == k1.ready_lists@[q].items@);
            }
            assert forall|d: int| 0 <= d < 2 implies sorted(
                (#[trigger] k1.delay_lists@[d]).items@,
            ) by {
                assert(k0.delay_lists@[d] == k1.delay_lists@[d]);
            }
            assert(k1.shape()) by {
                assert forall|q: int| 0 <= q < MAX_PRIORITIES implies (#[trigger] k1.ready_lists@[q]).wf() by {
                    assert(k0.ready_lists@[q].wf());
                }
            }
        }
    }

    /// Flips which delay list belongs to the current tick epoch.
    pub fn switch_delay_lists(&mut self)
        requires
            old(self).wf(),
        ensures
            final(self).wf(),
            final(self).current_delay == 1 - old(self).current_delay,
            final(self).tcbs == old(self).tcbs,
            final(self).ready_lists == old(self).ready_lists,
            final(self).delay_lists == old(self).delay_lists,
            final(self).suspended_list == old(self).suspended_list,
            final(self).top_ready_priority == old(self).top_ready_priority,
            final(self).current == old(self).current,
            final(self).tick_count == old(self).tick_count,
    {
        let ghost k0 = *self;
        self.current_delay = 1 - self.current_delay;
        proof {
            let k1 = *self;
            assert forall|id: ListId| valid_id(id) implies #[trigger] k1.entries_ok(id) by {
                assert(k0.entries_ok(id));
                assert(k1.list_of(id) == k0.list_of(id));
                assert forall|i: int| 0 <= i < k1.items_of(id).len() implies k1.entry_ok(
                    id,
                    #[trigger] k1.items_of(id)[i],
                ) by {
                    assert(k0.entry_ok(id, k0.items_of(id)[i]));
                }
            }
            assert forall|u: int| 0 <= u < k1.tcbs@.len() implies #[trigger] k1.task_ok(u) by {
                assert(k0.task_ok(u));
                match k0.tcbs@[u].state_list_item.ctner {
                    None => {},
                    Some(id3) => {
                        assert(k1.list_of(id3) == k0.list_of(id3));
                    },
                }
                assert(k1.task_links_ok(u));
            }
        }
    }
}

impl Kernel {
    /// No ready list holds a task.
    pub open spec fn none_ready(&self) -> bool {
        forall|q: int| 0 <= q < MAX_PRIORITIES ==> (#[trigger] self.ready_lists@[q]).items@.len() == 0
    }
}

/// `k1` is `k0` once the task to run is selected: with no task ready, the
/// idle task; otherwise the task of the item after the cursor of the ready
/// list of the highest priority that holds a task, whose cursor advances to
/// it. Nothing else changes.
pub open spec fn selected(k0: &Kernel, k1: &Kernel) -> bool {
    &&& k1.tcbs == k0.tcbs
    &&& k1.delay_lists == k0.delay_lists
    &&& k1.suspended_list == k0.suspended_list
    &&& k1.top_ready_priority == k0.top_ready_priority
    &&& k1.tick_count == k0.tick_count
    &&& k1.current_delay == k0.current_delay
    &&& k1.ready_lists@.len() == MAX_PRIORITIES
    &&& if k0.none_ready() {
        &&& k1.current == IDLE_TASK
        &&& k1.ready_lists == k0.ready_lists
    } else {
        let p = k0.top_priority();
        let l = k0.ready_lists@[p];
        &&& 0 <= p < MAX_PRIORITIES
        &&& l.items@.len() > 0
        &&& forall|q: int| p < q < MAX_PRIORITIES ==> k0.ready_lists@[q].items@.len() == 0
        &&& k1.ready_lists@[p].items == l.items
        &&& k1.ready_lists@[p].index == next_cursor(l.index as int, l.items@.len() as int)
        &&& forall|q: int|
            0 <= q < MAX_PRIORITIES && q != p ==> #[trigger] k1.ready_lists@[q] == k0.ready_lists@[q]
        &&& Some(k1.current) == l.items@[next_cursor(l.index as int, l.items@.len() as int)].owner
        &&& k1.tcbs@[k1.current as int].priority == p
    }
}

impl Kernel {
    /// The context switch: when the running task's stack still has its
    /// sentinel words, a running task becomes ready, the next task is
    /// selected as `select_highest_priority_task` does, and it runs. When no
    /// task is ready the idle task runs in whatever state it was left.
    /// Returns false, changing nothing, when the stack has overflowed.
    pub fn switch_context(&mut self) -> (r: bool)
        requires
            old(self).wf(),
        ensures
            final(self).wf(),
            r <==> (forall|i: int|
                0 <= i < cortex_m7::STACK_CHECK_WORDS ==> old(self).tcbs@[old(self).current as int].stack@[i]
                    == cortex_m7::STACK_FILL_BYTE),
            !r ==> *final(self) == *old(self),
            r ==> final(self).delay_lists == old(self).delay_lists
                && final(self).suspended_list == old(self).suspended_list
                && final(self).top_ready_priority == old(self).top_ready_priority
                && final(self).tick_count == old(self).tick_count
                && final(self).current_delay == old(self).current_delay
                && final(self).tcbs@.len() == old(self).tcbs@.len(),
            r && old(self).none_ready() ==> final(self).current == IDLE_TASK && final(self).tcbs
                == old(self).tcbs && final(self).ready_lists == old(self).ready_lists,
            r && !old(self).none_ready() ==> ({
                let c0 = old(self).current as int;
                let p = old(self).top_priority();
                let l = old(self).ready_lists@[p];
                let ni = next_cursor(l.index as int, l.items@.len() as int);
                let c1 = final(self).current as int;
                &&& Some(final(self).current) == l.items@[ni].owner
                &&& final(self).tcbs@[c1].priority == p
                &&& forall|q: int| p < q < MAX_PRIORITIES ==> old(self).ready_lists@[q].items@.len() == 0
                &&& final(self).ready_lists@[p].items@ == l.items@
                &&& final(self).ready_lists@[p].index == ni
                &&& forall|q: int| 0 <= q < MAX_PRIORITIES && q != p ==> #[trigger] final(self).ready_lists@[q]
                    == old(self).ready_lists@[q]
                &&& final(self).tcbs@[c1] == (TCB { state: TaskState::Running, ..old(self).tcbs@[c1] })
                &&& c0 != c1 ==> final(self).tcbs@[c0] == (TCB {
                    state: if old(self).tcbs@[c0].state == TaskState::Running {
                        TaskState::Ready
                    } else {
                        old(self).tcbs@[c0].state
                    },
                    ..old(self).tcbs@[c0]
                })
                &&& forall|u: int|
                    0 <= u < final(self).tcbs@.len() && u != c0 && u != c1 ==> #[trigger] final(self).tcbs@[u]
                        == old(self).tcbs@[u]
            }),
    {
        let ghost k0 = *self;
        let cur = self.current;
        assert(self.task_ok(cur as int));
        if !cortex_m7::check_stack_overflow(&self.tcbs[cur].stack) {
            return false;
        }
        if self.tcbs[cur].state == TaskState::Running {
            proof {
                self.lemma_wf_to_except(cur as int);
            }
            self.set_task_state(cur, TaskState::Ready);
        }
        let ghost k1 = *self;
        assert(k1.ready_lists == k0.ready_lists);
        self.select_highest_priority_task();
        let ghost k2 = *self;
        let next = self.current;
        if self.tcbs[next].state != TaskState::Ready {
            // no task is ready: the idle task runs as it is
            proof {
                if !k1.none_ready() {
                    let p = k1.top_priority();
                    let l = k1.ready_lists@[p];
                    let ni = next_cursor(l.index as int, l.items@.len() as int);
                    assert(k1.entries_ok(ListId::Ready(p as usize)));
                    assert(k1.entry_ok(ListId::Ready(p as usize), l.items@[ni]));
                    assert(k1.task_ok(next as int));
                    assert(k1.tcbs@[k1.current as int].state != TaskState::Running);
                    assert(false);
                }
                if k0.tcbs@[cur as int].state == TaskState::Running {
                    let pc = k0.tcbs@[cur as int].priority as int;
                    assert(has_owner(k0.items_of(ListId::Ready(pc as usize)), cur));
                    assert(!k0.none_ready());
                }
            }
            return true;
        }
        proof {
            if k1.none_ready() {
                assert(next == IDLE_TASK);
                assert(k2.task_ok(next as int));
                let pn = k2.tcbs@[next as int].priority as int;
                assert(has_owner(k2.items_of(ListId::Ready(pn as usize)), next));
            }
            if k0.none_ready() {
                assert(k1.none_ready()) by {
                    assert forall|q: int| 0 <= q < MAX_PRIORITIES implies (#[trigger] k1.ready_lists@[q]).items@.len() == 0 by {
                        assert(k0.ready_lists@[q] == k1.ready_lists@[q]);
                    }
                }
            }
            let p = k1.top_priority();
            let l = k1.ready_lists@[p];
            let ni = next_cursor(l.index as int, l.items@.len() as int);
            assert(k1.entries_ok(ListId::Ready(p as usize)));
            assert(k1.entry_ok(ListId::Ready(p as usize), l.items@[ni]));
            assert(k2.task_ok(next as int));
            self.lemma_wf_to_except(next as int);
        }
        self.set_task_state(next, TaskState::Running);
        proof {
            let k3 = *self;
            assert(k3.tcbs@[next as int] =~= (TCB { state: TaskState::Running, ..k0.tcbs@[next as int] }));
            if cur != next {
                assert(k3.tcbs@[cur as int] == k1.tcbs@[cur as int]);
            }
            assert forall|q: int| 0 <= q < MAX_PRIORITIES && q != k1.top_priority() implies #[trigger] k3.ready_lists@[q]
                == k0.ready_lists@[q] by {
                assert(k2.ready_lists@[q] == k1.ready_lists@[q]);
            }
            assert forall|u: int|
                0 <= u < k3.tcbs@.len() && u != cur && u != next implies #[trigger] k3.tcbs@[u] == k0.tcbs@[u] by {
                assert(k1.tcbs@[u] == k0.tcbs@[u]);
            }
        }
        true
    }

    /// Starts scheduling: picks the first task to run as
    /// `select_highest_priority_task` does; only the cursor of that ready
    /// list and the running task change.
    pub fn start(&mut self)
        requires
            old(self).wf(),
            old(self).tcbs@[old(self).current as int].state != TaskState::Running,
        ensures
            final(self).wf(),
            selected(old(self), final(self)),
    {
        self.select_highest_priority_task();
    }
}

/// A control block fit to be added as task `t`: not created, both items
/// owned by `t` and in no list, priorities in range, a stack deep enough to
/// be checked.
pub open spec fn fresh_tcb(c: TCB, t: int) -> bool {
    &&& c.state == TaskState::NotCreated
    &&& c.state_list_item.owner == Some(t as usize)
    &&& c.state_list_item.ctner.is_none()
    &&& c.event_list_item.owner == Some(t as usize)
    &&& c.event_list_item.ctner.is_none()
    &&& c.priority < MAX_PRIORITIES
    &&& c.base_priority < MAX_PRIORITIES
    &&& cortex_m7::STACK_CHECK_WORDS <= c.stack@.len()
}

/// Adding a fresh control block keeps everything but the new task's state.
pub proof fn lemma_push_task(k0: &Kernel, k1: &Kernel, c: TCB)
    requires
        k0.wf(),
        k1.tcbs@ == k0.tcbs@.push(c),
        k1.tcbs@.len() <= usize::MAX,
        fresh_tcb(c, k0.tcbs@.len() as int),
        k1.ready_lists == k0.ready_lists,
        k1.delay_lists == k0.delay_lists,
        k1.suspended_list == k0.suspended_list,
        same_scalars(k0, k1),
    ensures
        k1.wf_except(k0.tcbs@.len() as int),
{
    let t = k0.tcbs@.len() as int;
    assert forall|id: ListId| valid_id(id) implies #[trigger] k1.entries_ok(id) by {
        assert(k0.entries_ok(id));
        assert(k1.list_of(id) == k0.list_of(id));
        assert forall|i: int| 0 <= i < k1.items_of(id).len() implies k1.entry_ok(
            id,
            #[trigger] k1.items_of(id)[i],
        ) by {
            assert(k0.entry_ok(id, k0.items_of(id)[i]));
        }
    }
    assert forall|u: int| 0 <= u < k1.tcbs@.len() && u != t implies #[trigger] k1.task_ok(u) by {
        assert(k0.task_ok(u));
        assert(k1.tcbs@[u] == k0.tcbs@[u]);
        match k0.tcbs@[u].state_list_item.ctner {
            None => {},
            Some(id3) => {
                assert(k1.list_of(id3) == k0.list_of(id3));
            },
        }
        assert(k1.task_links_ok(u));
    }
    assert(k1.task_links_ok(t));
}

impl Kernel {
    /// A kernel with empty lists, the tick counter at zero, the first delay
    /// list current, and the idle task (priority 0, `IDLE_STACK_SIZE` words of
    /// stack) created, ready and current.
    pub fn init(idle_fn: StackType, exit_fn: StackType) -> (k: Kernel)
        ensures
            k.wf(),
            k.tcbs@.len() == 1,
            k.current == IDLE_TASK,
            k.tick_count == 0,
            k.current_delay == 0,
            k.tcbs@[IDLE_TASK as int].state == TaskState::Ready,
            k.tcbs@[IDLE_TASK as int].priority == 0,
            k.tcbs@[IDLE_TASK as int].base_priority == 0,
            k.tcbs@[IDLE_TASK as int].ticks_to_delay == 0,
            k.tcbs@[IDLE_TASK as int].state_list_item == (ListItem {
                value: crate::config::PORT_MAX_DELAY,
                owner: Some(IDLE_TASK),
                ctner: Some(ListId::Ready(0)),
            }),
            k.tcbs@[IDLE_TASK as int].event_list_item == (ListItem { owner: Some(IDLE_TASK), ..ListItem::new_spec() }),
            k.tcbs@[IDLE_TASK as int].name@ == crate::task::stored_name(
                Seq::new(NAME_LEN as nat, |i: int| 0u8),
                "IDLE".spec_bytes(),
            ),
            k.tcbs@[IDLE_TASK as int].stack@ == cortex_m7::initial_frame(
                cortex_m7::filled_stack(IDLE_STACK_SIZE as nat),
                IDLE_STACK_SIZE - 1,
                idle_fn,
                exit_fn,
                0,
            ),
            k.tcbs@[IDLE_TASK as int].top_of_stack == IDLE_STACK_SIZE - 1 - cortex_m7::FRAME_WORDS,
            k.top_ready_priority == 1,
            k.ready_lists@[0].items@ == seq![k.tcbs@[IDLE_TASK as int].state_list_item],
            k.ready_lists@[0].index == 1,
            forall|p: int| 1 <= p < MAX_PRIORITIES ==> (#[trigger] k.ready_lists@[p]).items@.len() == 0,
            forall|d: int| 0 <= d < 2 ==> (#[trigger] k.delay_lists@[d]).items@.len() == 0,
            k.suspended_list.items@.len() == 0,
    {
        let mut ready_lists: Vec<List> = Vec::new();
        let mut i: usize = 0;
        while i < MAX_PRIORITIES
            invariant
                i <= MAX_PRIORITIES,
                ready_lists@.len() == i,
                forall|p: int| 0 <= p < i ==> (#[trigger] ready_lists@[p]).wf() && ready_lists@[p].items@.len() == 0,
            decreases MAX_PRIORITIES - i,
        {
            ready_lists.push(List::new());
            i = i + 1;
        }
        let mut delay_lists: Vec<List> = Vec::new();
        delay_lists.push(List::new());
        delay_lists.push(List::new());
        let mut idle = TCB::new();
        idle.init(IDLE_TASK, idle_fn, 0, exit_fn, IDLE_STACK_SIZE, 0, "IDLE");
        let ghost idle0 = idle;
        let mut tcbs: Vec<TCB> = Vec::new();
        tcbs.push(idle);
        let mut k = Kernel {
            tcbs,
            ready_lists,
            delay_lists,
            current_delay: 0,
            suspended_list: List::new(),
            top_ready_priority: 0,
            current: IDLE_TASK,
            tick_count: 0,
        };
        proof {
            assert forall|id: ListId| valid_id(id) implies #[trigger] k.entries_ok(id) by {
                assert(k.items_of(id).len() == 0);
            }
            assert(k.task_links_ok(0));
            assert forall|q: int| 0 <= q < MAX_PRIORITIES implies (ready_bit(
                k.top_ready_priority,
                q,
            ) <==> (#[trigger] k.ready_lists@[q]).items@.len() > 0) by {
                lemma_zero_word(q);
            }
            assert(k.wf_except(0));
        }
        let ghost ka = k;
        k.move_state_item(IDLE_TASK, ListId::Ready(0), Placement::BeforeIndex, crate::config::PORT_MAX_DELAY);
        let ghost kb = k;
        k.set_task_state(IDLE_TASK, TaskState::Ready);
        proof {
            assert forall|id2: ListId| valid_id(id2) implies #[trigger] k.view_of(id2) == kb.view_of(id2) by {
                assert(k.list_of(id2) == kb.list_of(id2));
            }
            assert forall|id2: ListId| valid_id(id2) && id2 != ListId::Ready(0) implies #[trigger] k.view_of(id2).0.len() == 0 by {
                assert(kb.view_of(id2) == ka.view_after_move(0, ListId::Ready(0), Placement::BeforeIndex, crate::config::PORT_MAX_DELAY, id2));
                assert(ka.view_of(id2).0.len() == 0);
            }
            assert(kb.view_of(ListId::Ready(0)) == ka.view_after_move(0, ListId::Ready(0), Placement::BeforeIndex, crate::config::PORT_MAX_DELAY, ListId::Ready(0)));
            assert forall|p: int| 1 <= p < MAX_PRIORITIES implies (#[trigger] k.ready_lists@[p]).items@.len() == 0 by {
                assert(k.view_of(ListId::Ready(p as usize)).0 == k.ready_lists@[p].items@);
                assert(k.view_of(ListId::Ready(p as usize)).0.len() == 0);
            }
            assert forall|d: int| 0 <= d < 2 implies (#[trigger] k.delay_lists@[d]).items@.len() == 0 by {
                assert(k.view_of(ListId::Delay(d as usize)).0 == k.delay_lists@[d].items@);
                assert(k.view_of(ListId::Delay(d as usize)).0.len() == 0);
            }
            assert(k.view_of(ListId::Suspended).0.len() == 0);
            assert(k.view_of(ListId::Suspended).0 == k.suspended_list.items@);
            assert(k.view_of(ListId::Ready(0)).0 == k.ready_lists@[0].items@);
            assert(k.ready_lists@[0].items@ =~= seq![k.tcbs@[IDLE_TASK as int].state_list_item]);
            assert(ka.tcbs@[0] == idle0);
            assert(k.tcbs@[0] == (TCB { state: TaskState::Ready, ..kb.tcbs@[0] }));
            let top = k.top_ready_priority;
            assert(k.ready_lists@[1].items@.len() == 0);
            assert(k.ready_lists@[2].items@.len() == 0);
            assert(k.ready_lists@[3].items@.len() == 0);
            assert(k.ready_lists@[4].items@.len() == 0);
            assert(ready_bit(top, 0));
            assert(!ready_bit(top, 1));
            assert(!ready_bit(top, 2));
            assert(!ready_bit(top, 3));
            assert(!ready_bit(top, 4));
            assert(top == 1) by (bit_vector)
                requires
                    top < 32,
                    (top >> 0u32) & 1u32 == 1u32,
                    (top >> 1u32) & 1u32 != 1u32,
                    (top >> 2u32) & 1u32 != 1u32,
                    (top >> 3u32) & 1u32 != 1u32,
                    (top >> 4u32) & 1u32 != 1u32,
            ;
        }
        k
    }

    /// Creates a task of priority `priority` (capped to the highest one) with
    /// a stack of `stack_depth` words and entry `task_fn`: its control block is
    /// set up as `TCB::init` does, with a null parameter, and it becomes ready,
    /// just before the cursor of its ready list. Returns the new task's index.
    pub fn create_task(
        &mut self,
        task_fn: StackType,
        name: &str,
        priority: UBaseType,
        stack_depth: usize,
        exit_fn: StackType,
    ) -> (t: usize)
        requires
            old(self).wf(),
            old(self).tcbs@.len() < usize::MAX,
            cortex_m7::FRAME_WORDS < stack_depth,
        ensures
            final(self).wf(),
            t == old(self).tcbs@.len(),
            final(self).tcbs@.len() == t + 1,
            forall|u: int| 0 <= u < t ==> #[trigger] final(self).tcbs@[u] == old(self).tcbs@[u],
            ({
                let prio: UBaseType = if priority >= MAX_PRIORITIES { (MAX_PRIORITIES - 1) as UBaseType } else { priority };
                let c = final(self).tcbs@[t as int];
                let item = ListItem {
                    value: crate::config::PORT_MAX_DELAY,
                    owner: Some(t),
                    ctner: Some(ListId::Ready(prio as usize)),
                };
                &&& c.state == TaskState::Ready
                &&& c.priority == prio
                &&& c.base_priority == prio
                &&& c.ticks_to_delay == 0
                &&& c.state_list_item == item
                &&& c.event_list_item == (ListItem { owner: Some(t), ..ListItem::new_spec() })
                &&& c.name@ == crate::task::stored_name(
                    Seq::new(NAME_LEN as nat, |i: int| 0u8),
                    name.spec_bytes(),
                )
                &&& c.stack@ == cortex_m7::initial_frame(
                    cortex_m7::filled_stack(stack_depth as nat),
                    stack_depth - 1,
                    task_fn,
                    exit_fn,
                    0,
                )
                &&& c.top_of_stack == stack_depth - 1 - cortex_m7::FRAME_WORDS
                &&& forall|id2: ListId|
                    valid_id(id2) ==> #[trigger] final(self).view_of(id2) == (if id2 == ListId::Ready(
                        prio as usize,
                    ) {
                        insert_view(old(self).view_of(id2), item, Placement::BeforeIndex)
                    } else {
                        old(self).view_of(id2)
                    })
            }),
            final(self).current == old(self).current,
            final(self).tick_count == old(self).tick_count,
            final(self).current_delay == old(self).current_delay,
    {
        let prio: UBaseType = if priority as usize >= MAX_PRIORITIES {
            (MAX_PRIORITIES - 1) as UBaseType
        } else {
            priority
        };
        let t = self.tcbs.len();
        let mut tcb = TCB::new();
        tcb.init(t, task_fn, 0, exit_fn, stack_depth, prio, name);
        let ghost k0 = *self;
        let ghost c0 = tcb;
        self.tcbs.push(tcb);
        proof {
            lemma_push_task(&k0, self, c0);
        }
        let ghost k1 = *self;
        self.move_state_item(t, ListId::Ready(prio as usize), Placement::BeforeIndex, crate::config::PORT_MAX_DELAY);
        let ghost k2 = *self;
        self.set_task_state(t, TaskState::Ready);
        proof {
            let k3 = *self;
            assert forall|u: int| 0 <= u < t implies #[trigger] k3.tcbs@[u] == k0.tcbs@[u] by {
                assert(k1.tcbs@[u] == k0.tcbs@[u]);
                assert(k2.tcbs@[u] == k1.tcbs@[u]);
            }
            assert forall|id2: ListId| valid_id(id2) implies #[trigger] k3.view_of(id2) == (if id2 == ListId::Ready(
                prio as usize,
            ) {
                insert_view(k0.view_of(id2), k3.tcbs@[t as int].state_list_item, Placement::BeforeIndex)
            } else {
                k0.view_of(id2)
            }) by {
                assert(k3.list_of(id2) == k2.list_of(id2));
                assert(k1.list_of(id2) == k0.list_of(id2));
                assert(k1.tcbs@[t as int].state_list_item.ctner.is_none());
                assert(k2.view_of(id2) == k1.view_after_move(t as int, ListId::Ready(prio as usize), Placement::BeforeIndex, crate::config::PORT_MAX_DELAY, id2));
                assert(k1.view_without(t as int, id2) == k1.view_of(id2));
                assert(k3.tcbs@[t as int].state_list_item == (ListItem {
                    value: crate::config::PORT_MAX_DELAY,
                    owner: Some(t),
                    ctner: Some(ListId::Ready(prio as usize)),
                }));
            }
        }
        t
    }
}

/// Task `c` after a tick woke it: ready, its state item in the ready list of
/// its priority with its priority as sort value.
pub open spec fn woken_tcb(c: TCB) -> TCB {
    TCB {
        state: TaskState::Ready,
        state_list_item: ListItem {
            value: c.priority,
            ctner: Some(ListId::Ready(c.priority as usize)),
            ..c.state_list_item
        },
        ..c
    }
}

/// The owners of the first `n` items of `s`.
pub open spec fn among_first(s: Seq<ListItem>, n: int, u: int) -> bool {
    has_owner(s.take(n), u as usize)
}

impl Kernel {
    /// The ready-list items, in wake order, of the tasks of priority `p` among
    /// the owners of the first `n` items of `s`.
    pub open spec fn woken_items(tcbs: Seq<TCB>, s: Seq<ListItem>, n: nat, p: int) -> Seq<ListItem>
        decreases n,
    {
        if n == 0 {
            Seq::empty()
        } else {
            let prev = Self::woken_items(tcbs, s, (n - 1) as nat, p);
            let t = s[n - 1].owner.unwrap();
            let pr = tcbs[t as int].priority;
            if pr == p {
                prev.push(ListItem { value: pr, owner: Some(t), ctner: Some(ListId::Ready(pr as usize)) })
            } else {
                prev
            }
        }
    }

    /// Ready list `p` once the owners of the first `n` items of `s` are woken:
    /// those of priority `p` stand, in wake order, just before the cursor.
    pub open spec fn ready_after_wake(&self, s: Seq<ListItem>, n: nat, p: int) -> (Seq<ListItem>, int) {
        let r = self.items_of(ListId::Ready(p as usize));
        let c = self.list_of(ListId::Ready(p as usize)).index as int;
        let w = Self::woken_items(self.tcbs@, s, n, p);
        (r.take(c) + w + r.skip(c), c + w.len())
    }

    /// Changing only the tick counter keeps the invariant.
    proof fn lemma_wf_tick(k0: &Kernel, k1: &Kernel)
        requires
            k0.wf(),
            k1.tcbs == k0.tcbs,
            k1.ready_lists == k0.ready_lists,
            k1.delay_lists == k0.delay_lists,
            k1.suspended_list == k0.suspended_list,
            k1.top_ready_priority == k0.top_ready_priority,
            k1.current == k0.current,
            k1.current_delay == k0.current_delay,
        ensures
            k1.wf(),
    {
        assert forall|id: ListId| valid_id(id) implies #[trigger] k1.entries_ok(id) by {
            assert(k0.entries_ok(id));
            assert(k1.list_of(id) == k0.list_of(id));
            assert forall|i: int| 0 <= i < k1.items_of(id).len() implies k1.entry_ok(
                id,
                #[trigger] k1.items_of(id)[i],
            ) by {
                assert(k0.entry_ok(id, k0.items_of(id)[i]));
            }
        }
        assert forall|u: int| 0 <= u < k1.tcbs@.len() implies #[trigger] k1.task_ok(u) by {
            assert(k0.task_ok(u));
            match k0.tcbs@[u].state_list_item.ctner {
                None => {},
                Some(id3) => {
                    assert(k1.list_of(id3) == k0.list_of(id3));
                },
            }
            assert(k1.task_links_ok(u));
        }
    }

    /// The tick handler. The tick counter advances by one, wrapping around;
    /// when it wraps, the delay lists swap roles. Then every task at the head
    /// of the current delay list whose wake time has come (the items before
    /// the first one whose wake time is later) becomes ready, in list order,
    /// each just before the cursor of the ready list of its priority. Returns
    /// whether the caller should yield: when a woken task's priority is at
    /// least that of the running task, or, with time slicing, when the running
    /// task's ready list holds other tasks.
    pub fn tick(&mut self) -> (r: bool)
        requires
            old(self).wf(),
        ensures
            final(self).wf(),
            final(self).tick_count == wake_time(old(self).tick_count, 1),
            final(self).current_delay == (if wake_overflows(old(self).tick_count, 1) {
                1 - old(self).current_delay
            } else {
                old(self).current_delay as int
            }),
            final(self).current == old(self).current,
            final(self).tcbs@.len() == old(self).tcbs@.len(),
            forall|u: int|
                0 <= u < old(self).tcbs@.len() && old(self).tcbs@[u].state != TaskState::Delayed
                    ==> #[trigger] final(self).tcbs@[u] == old(self).tcbs@[u],
            ({
                let cd = final(self).current_delay_id();
                let od = final(self).overflow_delay_id();
                let s = old(self).items_of(cd);
                let n = insert_position(s, final(self).tick_count);
                let cur_prio = old(self).tcbs@[old(self).current as int].priority;
                &&& 0 <= n <= s.len()
                &&& forall|i: int| 0 <= i < n ==> s[i].value <= final(self).tick_count
                &&& final(self).items_of(cd) == s.skip(n)
                &&& forall|i: int|
                    0 <= i < final(self).items_of(cd).len() ==> final(self).items_of(cd)[i].value
                        > final(self).tick_count
                &&& forall|u: int|
                    0 <= u < old(self).tcbs@.len() ==> #[trigger] final(self).tcbs@[u] == (if among_first(
                        s,
                        n,
                        u,
                    ) {
                        woken_tcb(old(self).tcbs@[u])
                    } else {
                        old(self).tcbs@[u]
                    })
                &&& final(self).view_of(od) == old(self).view_of(od)
                &&& final(self).view_of(ListId::Suspended) == old(self).view_of(ListId::Suspended)
                &&& forall|p: int|
                    0 <= p < MAX_PRIORITIES ==> #[trigger] final(self).view_of(ListId::Ready(p as usize))
                        == old(self).ready_after_wake(s, n as nat, p)
                &&& r == ((exists|i: int|
                    0 <= i < n && #[trigger] old(self).tcbs@[s[i].owner.unwrap() as int].priority
                        >= cur_prio) || (USE_TIME_SLICING
                    && final(self).ready_lists@[cur_prio as int].items@.len() > 1))
            }),
    {
        let ghost k_old = *self;
        let (next_tick, overflowed) = overflowing_add(self.tick_count, 1);
        self.tick_count = next_tick;
        proof {
            Kernel::lemma_wf_tick(&k_old, self);
        }
        if overflowed {
            self.switch_delay_lists();
        }
        let ghost ks = *self;
        let cd = self.current_delay;
        let ghost cdid = ListId::Delay(cd);
        let ghost s = ks.items_of(cdid);
        let ghost cur_prio = ks.tcbs@[ks.current as int].priority;
        let mut need_switch = false;
        let ghost mut k: int = 0;
        proof {
            assert(s.skip(0) =~= s);
            assert(ks.delay_lists@[cd as int] == ks.list_of(cdid));
            assert forall|u: int| 0 <= u < ks.tcbs@.len() implies !among_first(s, 0, u) by {
                assert(s.take(0).len() == 0);
            }
            assert forall|p: int| 0 <= p < MAX_PRIORITIES implies #[trigger] ks.view_of(ListId::Ready(p as usize))
                == ks.ready_after_wake(s, 0, p) by {
                let r = ks.items_of(ListId::Ready(p as usize));
                let c = ks.list_of(ListId::Ready(p as usize)).index as int;
                assert(ks.ready_lists@[p].wf());
                assert(r.take(c) + Seq::<ListItem>::empty() + r.skip(c) =~= r);
            }
        }
        while self.delay_lists[cd].items.len() > 0 && self.delay_lists[cd].items[0].value
            <= self.tick_count
            invariant
                self.wf(),
                self.tick_count == ks.tick_count,
                self.current_delay == cd,
                cd < 2,
                cdid == ListId::Delay(cd),
                self.current == ks.current,
                self.tcbs@.len() == ks.tcbs@.len(),
                s == ks.items_of(cdid),
                ks.wf(),
                cur_prio == ks.tcbs@[ks.current as int].priority,
                0 <= k <= s.len(),
                self.items_of(cdid) == s.skip(k),
                forall|i: int| 0 <= i < k ==> s[i].value <= ks.tick_count,
                forall|u: int|
                    0 <= u < ks.tcbs@.len() ==> #[trigger] self.tcbs@[u] == (if among_first(s, k, u) {
                        woken_tcb(ks.tcbs@[u])
                    } else {
                        ks.tcbs@[u]
                    }),
                forall|id2: ListId|
                    valid_id(id2) && !(id2 is Ready) && id2 != cdid ==> #[trigger] self.view_of(id2)
                        == ks.view_of(id2),
                need_switch == (exists|i: int|
                    0 <= i < k && #[trigger] ks.tcbs@[s[i].owner.unwrap() as int].priority >= cur_prio),
                forall|p: int|
                    0 <= p < MAX_PRIORITIES ==> #[trigger] self.view_of(ListId::Ready(p as usize))
                        == ks.ready_after_wake(s, k as nat, p),
            decreases s.len() - k,
        {
            let ghost k0 = *self;
            proof {
                assert(self.delay_lists@[cd as int] == self.list_of(cdid));
                assert(s.skip(k)[0] == s[k]);
                assert(ks.entries_ok(cdid));
                assert(ks.entry_ok(cdid, s[k]));
            }
            let t = self.delay_lists[cd].items[0].owner.unwrap();
            proof {
                assert(!among_first(s, k, t as int)) by {
                    if among_first(s, k, t as int) {
                        let j = choose|j: int| 0 <= j < s.take(k).len() && #[trigger] s.take(k)[j].owner == Some(t);
                        assert(s.take(k)[j] == s[j]);
                    }
                }
                assert(self.tcbs@[t as int] == ks.tcbs@[t as int]);
                assert(ks.task_ok(t as int));
                self.lemma_wf_to_except(t as int);
            }
            let priority = self.tcbs[t].priority;
            self.move_state_item(t, ListId::Ready(priority as usize), Placement::BeforeIndex, priority);
            let ghost k1 = *self;
            self.set_task_state(t, TaskState::Ready);
            if priority >= self.tcbs[self.current].priority {
                need_switch = true;
            }
            proof {
                let k2 = *self;
                assert(k0.entries_ok(cdid));
                lemma_owner_pos(k0.items_of(cdid), t, 0);
                assert(k1.view_of(cdid) == k0.view_after_move(t as int, ListId::Ready(priority as usize), Placement::BeforeIndex, priority, cdid));
                assert(k2.list_of(cdid) == k1.list_of(cdid));
                assert(k2.items_of(cdid) =~= s.skip(k + 1));
                assert forall|id2: ListId|
                    valid_id(id2) && !(id2 is Ready) && id2 != cdid implies #[trigger] k2.view_of(id2)
                        == ks.view_of(id2) by {
                    assert(k2.list_of(id2) == k1.list_of(id2));
                    assert(k1.view_of(id2) == k0.view_after_move(t as int, ListId::Ready(priority as usize), Placement::BeforeIndex, priority, id2));
                    assert(k0.view_of(id2) == ks.view_of(id2));
                }
                assert(s.take(k + 1) =~= s.take(k).push(s[k]));
                assert forall|u: int| 0 <= u < ks.tcbs@.len() implies #[trigger] k2.tcbs@[u] == (if among_first(s, k + 1, u) {
                    woken_tcb(ks.tcbs@[u])
                } else {
                    ks.tcbs@[u]
                }) by {
                    if u == t {
                        assert(s.take(k + 1)[k] == s[k]);
                        assert(among_first(s, k + 1, u));
                        assert(k2.tcbs@[u] =~= woken_tcb(ks.tcbs@[u]));
                    } else {
                        assert(k2.tcbs@[u] == k0.tcbs@[u]);
                        assert(among_first(s, k + 1, u) == among_first(s, k, u)) by {
                            if among_first(s, k + 1, u) {
                                let j = choose|j: int| 0 <= j < s.take(k + 1).len() && #[trigger] s.take(k + 1)[j].owner == Some(u as usize);
                                assert(j < k);
                                assert(s.take(k)[j] == s.take(k + 1)[j]);
                            }
                            if among_first(s, k, u) {
                                let j = choose|j: int| 0 <= j < s.take(k).len() && #[trigger] s.take(k)[j].owner == Some(u as usize);
                                assert(s.take(k)[j] == s.take(k + 1)[j]);
                            }
                        }
                    }
                }
                assert(k2.tcbs@[k2.current as int].priority == cur_prio) by {
                    if k2.current == t {
                    } else {
                        assert(k2.tcbs@[k2.current as int] == k0.tcbs@[k2.current as int]);
                    }
                }
                assert(ks.tcbs@[s[k].owner.unwrap() as int].priority == priority);
                assert forall|p: int| 0 <= p < MAX_PRIORITIES implies #[trigger] k2.view_of(ListId::Ready(p as usize))
                    == ks.ready_after_wake(s, (k + 1) as nat, p) by {
                    let rid = ListId::Ready(p as usize);
                    assert(k2.list_of(rid) == k1.list_of(rid));
                    assert(k1.view_of(rid) == k0.view_after_move(t as int, ListId::Ready(priority as usize), Placement::BeforeIndex, priority, rid));
                    assert(k0.view_without(t as int, rid) == k0.view_of(rid));
                    assert(k0.view_of(rid) == ks.ready_after_wake(s, k as nat, p));
                    let r = ks.items_of(rid);
                    let c = ks.list_of(rid).index as int;
                    let w = Kernel::woken_items(ks.tcbs@, s, k as nat, p);
                    assert(ks.ready_lists@[p].wf());
                    if p == priority as int {
                        let item = ListItem { value: priority, owner: Some(t), ctner: Some(ListId::Ready(priority as usize)) };
                        assert(Kernel::woken_items(ks.tcbs@, s, (k + 1) as nat, p) == w.push(item));
                        assert((r.take(c) + w + r.skip(c)).insert(c + w.len(), item) =~= r.take(c) + w.push(item) + r.skip(c));
                    } else {
                        assert(Kernel::woken_items(ks.tcbs@, s, (k + 1) as nat, p) == w);
                    }
                }
                k = k + 1;
            }
        }
        proof {
            assert(self.delay_lists@[cd as int] == self.list_of(cdid));
            if k < s.len() {
                assert(s.skip(k)[0] == s[k]);
            }
            lemma_insert_position_unique(s, ks.tick_count, k);
            assert(ks.delays_sorted());
            assert(ks.delay_lists@[cd as int] == ks.list_of(cdid));
            assert forall|i: int| 0 <= i < self.items_of(cdid).len() implies self.items_of(cdid)[i].value > self.tick_count by {
                assert(self.items_of(cdid)[i] == s[i + k]);
                assert(sorted(s));
            }
        }
        if USE_TIME_SLICING {
            proof {
                assert(self.task_ok(self.current as int));
            }
            let priority = self.tcbs[self.current].priority;
            if self.ready_lists[priority as usize].items.len() > 1 {
                need_switch = true;
            }
        }
        proof {
            assert(self.tcbs@[self.current as int].priority == cur_prio) by {
                let c = self.current as int;
                assert(self.tcbs@[c] == (if among_first(s, k, c) { woken_tcb(ks.tcbs@[c]) } else { ks.tcbs@[c] }));
            }
            let od = ListId::Delay((1 - cd) as usize);
            assert(self.view_of(od) == ks.view_of(od));
            assert(self.view_of(ListId::Suspended) == ks.view_of(ListId::Suspended));
            if overflowed {
                assert(ks.view_of(od) == k_old.view_of(od));
                assert(ks.view_of(cdid) == k_old.view_of(cdid));
            }
            assert(ks.tcbs@ == k_old.tcbs@);
            assert forall|p: int| 0 <= p < MAX_PRIORITIES implies #[trigger] ks.ready_after_wake(s, k as nat, p)
                == k_old.ready_after_wake(s, k as nat, p) by {
                assert(ks.list_of(ListId::Ready(p as usize)) == k_old.list_of(ListId::Ready(p as usize)));
            }
            // only delayed tasks are woken
            assert forall|u: int|
                0 <= u < k_old.tcbs@.len() && k_old.tcbs@[u].state != TaskState::Delayed implies #[trigger] self.tcbs@[u]
                    == k_old.tcbs@[u] by {
                if among_first(s, k, u) {
                    let i = choose|i: int| 0 <= i < s.take(k).len() && #[trigger] s.take(k)[i].owner == Some(u as usize);
                    assert(s[i] == s.take(k)[i]);
                    assert(ks.entries_ok(cdid));
                    assert(ks.entry_ok(cdid, s[i]));
                    assert(ks.task_ok(u));
                }
            }
        }
        need_switch
    }
}

/// The two delay lists: a task whose wake time does not wrap around goes
/// into the current list, at a wake time not before now; one whose wake time
/// wraps goes into the other list, at a wake time before now, and that list
/// is the one `tick` makes current when the counter wraps to zero.
pub proof fn lemma_delay_epoch(k: &Kernel, ticks: TickType)
    requires
        k.current_delay < 2,
    ensures
        !wake_overflows(k.tick_count, ticks) ==> k.delay_target(ticks) == k.current_delay_id()
            && wake_time(k.tick_count, ticks) >= k.tick_count,
        wake_overflows(k.tick_count, ticks) ==> k.delay_target(ticks) == ListId::Delay(
            (1 - k.current_delay) as usize,
        ) && wake_time(k.tick_count, ticks) < k.tick_count,
        wake_overflows(k.tick_count, 1) <==> wake_time(k.tick_count, 1) == 0,
{
}

/// The position at which an item of value `v` goes into `l` when put as `how` says.
pub open spec fn insert_at(l: List, v: TickType, how: Placement) -> int {
    match how {
        Placement::BeforeIndex => l.index as int,
        Placement::End => l.items@.len() as int,
        Placement::Ordered => insert_position(l.items@, v),
    }
}

/// Where the cursor of `l` ends up after that insertion.
pub open spec fn cursor_after_insert(l: List, v: TickType, how: Placement) -> int {
    if l.index >= insert_at(l, v, how) {
        l.index + 1
    } else {
        l.index as int
    }
}

/// The wake time is the tick count plus the delay, wrapped around at the
/// largest tick value, and it wraps exactly when that sum passes it.
pub proof fn lemma_wake_time(tick: TickType, ticks: TickType)
    ensures
        wake_overflows(tick, ticks) <==> tick as int + ticks as int > 0xffff_ffff,
        tick as int + ticks as int <= 0xffff_ffff ==> wake_time(tick, ticks) == tick + ticks,
        tick as int + ticks as int > 0xffff_ffff ==> wake_time(tick, ticks) == tick as int + ticks as int
            - 0x1_0000_0000,
{
}

/// The selected task has the highest priority among the ready tasks: no
/// task that is ready (or running) has a higher one; with no task ready it
/// is the idle task.
pub proof fn lemma_selected_is_highest(k0: &Kernel, k1: &Kernel)
    requires
        k0.wf(),
        selected(k0, k1),
    ensures
        k0.none_ready() ==> k1.current == IDLE_TASK,
        !k0.none_ready() ==> forall|u: int|
            0 <= u < k0.tcbs@.len() && (k0.tcbs@[u].state == TaskState::Ready || k0.tcbs@[u].state
                == TaskState::Running) ==> #[trigger] k0.tcbs@[u].priority <= k1.tcbs@[k1.current as int].priority,
{
    if !k0.none_ready() {
        assert forall|u: int|
            0 <= u < k0.tcbs@.len() && (k0.tcbs@[u].state == TaskState::Ready || k0.tcbs@[u].state
                == TaskState::Running) implies #[trigger] k0.tcbs@[u].priority <= k1.tcbs@[k1.current as int].priority by {
            assert(k0.task_ok(u));
            let q = k0.tcbs@[u].priority as int;
            assert(has_owner(k0.items_of(ListId::Ready(q as usize)), u as usize));
            assert(k0.ready_lists@[q].items@.len() > 0);
        }
    }
}

/// Suspending a live task (ready, running or delayed) always suspends it:
/// it is then suspended and in the suspended list, whatever task it is.
pub proof fn lemma_suspend_live_task(k0: &Kernel, k1: &Kernel, t: int, r: bool)
    requires
        0 <= t < k0.tcbs@.len(),
        k0.tcbs@[t].state == TaskState::Ready || k0.tcbs@[t].state == TaskState::Running
            || k0.tcbs@[t].state == TaskState::Delayed,
        suspend_outcome(k0, k1, t, r),
    ensures
        k1.tcbs@[t].state == TaskState::Suspended,
        k1.tcbs@[t].state_list_item.ctner == Some(ListId::Suspended),
        r == (t == k0.current),
{
}

} // verus!
