use vstd::prelude::*;
use crate::config::{StackType, TickType, UBaseType};
use crate::list::ListItem;
use crate::port::cortex_m7;
use vstd::string::StringSliceAdditionalSpecFns;

verus! {

/// The life cycle of a task.
#[derive(Clone, Copy, PartialEq, Eq, Structural, Debug)]
pub enum TaskState {
    Ready,
    Running,
    Delayed,
    Suspended,
    NotCreated,
}

/// Length of a task name buffer, its terminating zero included.
pub const NAME_LEN: usize = 16usize;

/// A task control block.
pub struct TCB {
    /// Index of the saved top of stack in `stack`.
    pub top_of_stack: usize,
    /// The item that puts the task in a ready, delay or suspended list.
    pub state_list_item: ListItem,
    /// The item that puts the task in the wait list of a mutex, semaphore or queue.
    pub event_list_item: ListItem,
    /// The task's stack, lowest word first.
    pub stack: Vec<StackType>,
    /// The name, zero terminated.
    pub name: Vec<u8>,
    /// The tick at which a delay ends.
    pub ticks_to_delay: TickType,
    /// The current priority, raised while the task holds a contended mutex.
    pub priority: UBaseType,
    /// The priority the task was created with.
    pub base_priority: UBaseType,
    pub state: TaskState,
}

/// The name buffer after `name` is copied in: at most 15 bytes, then a zero;
/// the bytes after the zero keep their former value.
pub open spec fn stored_name(old_name: Seq<u8>, name: Seq<u8>) -> Seq<u8> {
    let len = if name.len() < 15 { name.len() as int } else { 15 };
    Seq::new(
        old_name.len(),
        |i: int|
            if i < len {
                name[i]
            } else if i == len {
                0u8
            } else {
                old_name[i]
            },
    )
}

impl TCB {
    /// A blank control block: no stack, an all-zero name, detached items.
    pub fn new() -> (r: Self)
        ensures
            r.top_of_stack == 0,
            r.state_list_item == ListItem::new_spec(),
            r.event_list_item == ListItem::new_spec(),
            r.stack@.len() == 0,
            r.name@ == Seq::new(NAME_LEN as nat, |i: int| 0u8),
            r.ticks_to_delay == 0,
            r.priority == 0,
            r.base_priority == 0,
            r.state == TaskState::NotCreated,
    {
        let mut name: Vec<u8> = Vec::new();
        let mut i: usize = 0;
        while i < NAME_LEN
            invariant
                i <= NAME_LEN,
                name@ == Seq::new(i as nat, |k: int| 0u8),
            decreases NAME_LEN - i,
        {
            name.push(0u8);
            i = i + 1;
        }
        TCB {
            top_of_stack: 0,
            state_list_item: ListItem::new(),
            event_list_item: ListItem::new(),
            stack: Vec::new(),
            name,
            ticks_to_delay: 0,
            priority: 0,
            base_priority: 0,
            state: TaskState::NotCreated,
        }
    }

    /// Sets up the control block of task `self_id`: the name, the priorities,
    /// both list items owned by the task, and a stack of `stack_depth` words
    /// filled with the sentinel pattern with the initial frame at its top.
    pub fn init(
        &mut self,
        self_id: usize,
        task_fn: StackType,
        param: StackType,
        exit_fn: StackType,
        stack_depth: usize,
        priority: UBaseType,
        name: &str,
    )
        requires
            old(self).name@.len() == NAME_LEN,
            cortex_m7::FRAME_WORDS < stack_depth,
        ensures
            final(self).stack@ == cortex_m7::initial_frame(
                cortex_m7::filled_stack(stack_depth as nat),
                stack_depth - 1,
                task_fn,
                exit_fn,
                param,
            ),
            final(self).top_of_stack == stack_depth - 1 - cortex_m7::FRAME_WORDS,
            final(self).name@ == stored_name(old(self).name@, name.spec_bytes()),
            final(self).priority == priority,
            final(self).base_priority == priority,
            final(self).ticks_to_delay == 0,
            final(self).state_list_item == (ListItem {
                owner: Some(self_id),
                ..ListItem::new_spec()
            }),
            final(self).event_list_item == (ListItem {
                owner: Some(self_id),
                ..ListItem::new_spec()
            }),
            final(self).state == old(self).state,
    {
        // the name, cut to 15 bytes and zero terminated
        let bytes = name.as_bytes();
        let len: usize = if bytes.len() < 15 { bytes.len() } else { 15 };
        let ghost old_name = self.name@;
        let mut i: usize = 0;
        while i < len
            invariant
                i <= len,
                len <= 15,
                len <= bytes@.len(),
                self.name@.len() == NAME_LEN,
                old_name.len() == NAME_LEN,
                self.state == old(self).state,
                forall|k: int| 0 <= k < i ==> self.name@[k] == bytes@[k],
                forall|k: int| i <= k < NAME_LEN ==> self.name@[k] == old_name[k],
            decreases len - i,
        {
            self.name[i] = bytes[i];
            i = i + 1;
        }
        self.name[len] = 0;
        proof {
            assert(bytes@ == name.spec_bytes());
            assert(self.name@ =~= stored_name(old_name, bytes@));
        }

        self.priority = priority;
        self.ticks_to_delay = 0;

        // list items
        let mut state_item = ListItem::new();
        state_item.set_owner(self_id);
        self.state_list_item = state_item;
        self.base_priority = priority;
        let mut event_item = ListItem::new();
        event_item.set_owner(self_id);
        self.event_list_item = event_item;

        // the stack, filled with the sentinel pattern
        let mut stack: Vec<StackType> = Vec::new();
        let mut j: usize = 0;
        while j < stack_depth
            invariant
                j <= stack_depth,
                stack@ == cortex_m7::filled_stack(j as nat),
            decreases stack_depth - j,
        {
            stack.push(cortex_m7::STACK_FILL_BYTE);
            j = j + 1;
        }
        let top = cortex_m7::initialise_stack(&mut stack, stack_depth - 1, task_fn, exit_fn, param);
        self.stack = stack;
        self.top_of_stack = top;
    }
}

} // verus!
