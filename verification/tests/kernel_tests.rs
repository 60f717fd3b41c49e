use freerustos::config::{MAX_PRIORITIES, PORT_MAX_DELAY};
use freerustos::list::ListId;
use freerustos::port::cortex_m7::{STACK_FILL_BYTE, FRAME_WORDS, HW_FRAME_OFFSET};
use freerustos::scheduler::{Kernel, IDLE_TASK};
use freerustos::task::TaskState;

const STACK: usize = 64;

fn kernel() -> Kernel {
    Kernel::init(0x0800_0101, 0x0800_0201)
}

fn ready_owners(k: &Kernel, p: usize) -> Vec<usize> {
    k.ready_lists[p].items.iter().map(|i| i.owner.unwrap()).collect()
}

fn delay_owners(k: &Kernel, d: usize) -> Vec<usize> {
    k.delay_lists[d].items.iter().map(|i| i.owner.unwrap()).collect()
}

#[test]
fn init_creates_ready_idle_task() {
    let k = kernel();
    assert_eq!(k.tcbs.len(), 1);
    assert_eq!(k.current, IDLE_TASK);
    assert_eq!(k.tcbs[0].state, TaskState::Ready);
    assert_eq!(k.tcbs[0].priority, 0);
    assert_eq!(&k.tcbs[0].name[..5], b"IDLE\0");
    assert_eq!(ready_owners(&k, 0), vec![0]);
    assert_eq!(k.top_ready_priority, 1);
    assert_eq!(k.tcbs[0].stack.len(), 256);
}

#[test]
fn create_task_caps_priority_and_sets_bit() {
    let mut k = kernel();
    let a = k.create_task(0x100, "A", 2, STACK, 0x200);
    let b = k.create_task(0x300, "B", 9, STACK, 0x200);
    assert_eq!((a, b), (1, 2));
    assert_eq!(k.tcbs[a].priority, 2);
    assert_eq!(k.tcbs[b].priority, (MAX_PRIORITIES - 1) as u32);
    assert_eq!(k.tcbs[b].base_priority, 4);
    assert_eq!(k.top_ready_priority, 0b10101);
    assert_eq!(ready_owners(&k, 2), vec![a]);
    assert_eq!(ready_owners(&k, 4), vec![b]);
    assert_eq!(k.tcbs[a].state, TaskState::Ready);
    assert_eq!(k.tcbs[a].state_list_item.value, PORT_MAX_DELAY);
    assert_eq!(k.tcbs[a].state_list_item.ctner, Some(ListId::Ready(2)));
}

#[test]
fn create_task_name_is_cut_to_fifteen_bytes() {
    let mut k = kernel();
    let t = k.create_task(0x100, "a-very-long-task-name", 1, STACK, 0x200);
    assert_eq!(&k.tcbs[t].name[..15], b"a-very-long-tas");
    assert_eq!(k.tcbs[t].name[15], 0);
}

#[test]
fn create_task_stack_frame() {
    let mut k = kernel();
    let t = k.create_task(0x0800_0101, "T", 1, STACK, 0x0800_0201);
    let s = &k.tcbs[t].stack;
    let top = STACK - 1;
    let hw = top - FRAME_WORDS + HW_FRAME_OFFSET;
    assert_eq!(s[hw + 7], 0x0100_0000);
    assert_eq!(s[hw + 6], 0x0800_0100);
    assert_eq!(s[hw + 5], 0x0800_0201);
    // no parameter: r0 is 0
    assert_eq!(s[hw], 0);
    assert_eq!(s[top - 1], 0);
    assert_eq!(s[0], STACK_FILL_BYTE);
    assert_eq!(s[top], STACK_FILL_BYTE);
    assert_eq!(k.tcbs[t].top_of_stack, top - FRAME_WORDS);
}

#[test]
fn start_selects_highest_priority() {
    let mut k = kernel();
    let _a = k.create_task(0x100, "A", 1, STACK, 0x200);
    let b = k.create_task(0x100, "B", 3, STACK, 0x200);
    k.start();
    assert_eq!(k.current, b);
}

#[test]
fn switch_context_runs_highest_and_round_robins() {
    let mut k = kernel();
    let a = k.create_task(0x100, "A", 2, STACK, 0x200);
    let b = k.create_task(0x100, "B", 2, STACK, 0x200);
    assert!(k.switch_context());
    let first = k.current;
    assert_eq!(k.tcbs[first].state, TaskState::Running);
    assert!(k.switch_context());
    let second = k.current;
    assert_ne!(first, second);
    assert!(first == a || first == b);
    assert!(second == a || second == b);
    assert_eq!(k.tcbs[first].state, TaskState::Ready);
    assert_eq!(k.tcbs[second].state, TaskState::Running);
    assert!(k.switch_context());
    assert_eq!(k.current, first);
}

#[test]
fn switch_context_refuses_an_overflowed_stack() {
    let mut k = kernel();
    let _a = k.create_task(0x100, "A", 2, STACK, 0x200);
    assert!(k.switch_context());
    let cur = k.current;
    k.tcbs[cur].stack[1] = 0;
    assert!(!k.switch_context());
    assert_eq!(k.current, cur);
}

#[test]
fn task_delay_moves_to_delay_list_and_tick_wakes() {
    let mut k = kernel();
    let a = k.create_task(0x100, "A", 2, STACK, 0x200);
    k.switch_context();
    assert_eq!(k.current, a);
    assert!(k.task_delay(3));
    assert_eq!(k.tcbs[a].state, TaskState::Delayed);
    assert_eq!(k.tcbs[a].ticks_to_delay, 3);
    assert_eq!(delay_owners(&k, 0), vec![a]);
    assert_eq!(ready_owners(&k, 2), Vec::<usize>::new());
    assert_eq!(k.top_ready_priority & 0b100, 0);
    k.switch_context();
    assert_eq!(k.current, IDLE_TASK);
    k.tick();
    k.tick();
    assert_eq!(k.tcbs[a].state, TaskState::Delayed);
    let y = k.tick();
    assert_eq!(k.tick_count, 3);
    assert!(y);
    assert_eq!(k.tcbs[a].state, TaskState::Ready);
    assert_eq!(k.tcbs[a].state_list_item.value, 2);
    assert_eq!(ready_owners(&k, 2), vec![a]);
    assert_eq!(delay_owners(&k, 0), Vec::<usize>::new());
}

#[test]
fn delay_list_is_sorted_by_wake_time() {
    let mut k = kernel();
    let a = k.create_task(0x100, "A", 3, STACK, 0x200);
    let b = k.create_task(0x100, "B", 2, STACK, 0x200);
    let c = k.create_task(0x100, "C", 1, STACK, 0x200);
    k.switch_context();
    assert_eq!(k.current, a);
    k.task_delay(10);
    k.switch_context();
    assert_eq!(k.current, b);
    k.task_delay(5);
    k.switch_context();
    assert_eq!(k.current, c);
    k.task_delay(7);
    assert_eq!(delay_owners(&k, 0), vec![b, c, a]);
    let wakes: Vec<u32> = k.delay_lists[0].items.iter().map(|i| i.value).collect();
    assert_eq!(wakes, vec![5, 7, 10]);
}

#[test]
fn wrapping_delay_goes_to_overflow_list_and_wakes_after_wrap() {
    let mut k = kernel();
    let a = k.create_task(0x100, "A", 2, STACK, 0x200);
    k.switch_context();
    k.tick_count = u32::MAX - 1;
    k.task_delay(3);
    assert_eq!(k.tcbs[a].ticks_to_delay, 1);
    assert_eq!(delay_owners(&k, 1), vec![a]);
    assert_eq!(delay_owners(&k, 0), Vec::<usize>::new());
    k.switch_context();
    k.tick();
    assert_eq!(k.tick_count, u32::MAX);
    assert_eq!(k.current_delay, 0);
    k.tick();
    assert_eq!(k.tick_count, 0);
    assert_eq!(k.current_delay, 1);
    assert_eq!(k.tcbs[a].state, TaskState::Delayed);
    let y = k.tick();
    assert_eq!(k.tick_count, 1);
    assert!(y);
    assert_eq!(k.tcbs[a].state, TaskState::Ready);
}

#[test]
fn tick_time_slicing_requests_yield() {
    let mut k = kernel();
    let _a = k.create_task(0x100, "A", 2, STACK, 0x200);
    let _b = k.create_task(0x100, "B", 2, STACK, 0x200);
    k.switch_context();
    assert!(k.tick());
}

#[test]
fn tick_without_work_does_not_yield() {
    let mut k = kernel();
    let _a = k.create_task(0x100, "A", 2, STACK, 0x200);
    k.switch_context();
    assert!(!k.tick());
    assert_eq!(k.tick_count, 1);
}

#[test]
fn suspend_and_resume() {
    let mut k = kernel();
    let a = k.create_task(0x100, "A", 2, STACK, 0x200);
    let b = k.create_task(0x100, "B", 1, STACK, 0x200);
    k.switch_context();
    assert_eq!(k.current, a);
    assert!(!k.task_suspend(b));
    assert_eq!(k.tcbs[b].state, TaskState::Suspended);
    assert_eq!(k.top_ready_priority & 0b10, 0);
    assert_eq!(k.suspended_list.items[0].owner, Some(b));
    // suspending again changes nothing
    assert!(!k.task_suspend(b));
    assert_eq!(k.suspended_list.items.len(), 1);
    // resuming a lower priority task does not ask to yield
    assert!(!k.task_resume(b));
    assert_eq!(k.tcbs[b].state, TaskState::Ready);
    assert_eq!(ready_owners(&k, 1), vec![b]);
    // suspending the running task asks to yield
    assert!(k.task_suspend(a));
    assert!(k.task_resume(a));
    // resuming a task that is not suspended does nothing
    assert!(!k.task_resume(a));
}

#[test]
fn suspending_the_idle_task() {
    let mut k = kernel();
    // the idle task is the running one: the caller must yield
    assert!(k.task_suspend(IDLE_TASK));
    assert_eq!(k.tcbs[IDLE_TASK].state, TaskState::Suspended);
    assert_eq!(k.suspended_list.items[0].owner, Some(IDLE_TASK));
    assert_eq!(k.ready_lists[0].items.len(), 0);
    assert_eq!(k.top_ready_priority, 0);
    // with no task ready the idle task still runs, in its state
    assert!(k.switch_context());
    assert_eq!(k.current, IDLE_TASK);
    assert_eq!(k.tcbs[IDLE_TASK].state, TaskState::Suspended);
    // a new task is chosen over it, and resuming it makes it ready again
    let a = k.create_task(0x100, "A", 1, STACK, 0x200);
    assert!(k.switch_context());
    assert_eq!(k.current, a);
    assert!(!k.task_resume(IDLE_TASK));
    assert_eq!(k.tcbs[IDLE_TASK].state, TaskState::Ready);
}

#[test]
fn suspend_a_delayed_task_discards_the_delay() {
    let mut k = kernel();
    let a = k.create_task(0x100, "A", 2, STACK, 0x200);
    k.switch_context();
    k.task_delay(5);
    k.task_suspend(a);
    assert_eq!(k.tcbs[a].state, TaskState::Suspended);
    assert_eq!(delay_owners(&k, 0), Vec::<usize>::new());
    for _ in 0..10 {
        k.tick();
    }
    assert_eq!(k.tcbs[a].state, TaskState::Suspended);
}

#[test]
fn abort_delay_makes_ready() {
    let mut k = kernel();
    let a = k.create_task(0x100, "A", 2, STACK, 0x200);
    k.switch_context();
    k.task_delay(100);
    k.switch_context();
    assert_eq!(k.current, IDLE_TASK);
    assert!(k.abort_delay(a));
    assert_eq!(k.tcbs[a].state, TaskState::Ready);
    assert_eq!(k.tcbs[a].state_list_item.value, 2);
    assert_eq!(delay_owners(&k, 0), Vec::<usize>::new());
    // a task that is not delayed is left alone
    assert!(!k.abort_delay(a));
}

#[test]
fn record_and_clear_ready_priority() {
    let mut k = kernel();
    k.record_ready_priority(3);
    assert_eq!(k.top_ready_priority, 0b1001);
    k.clear_ready_priority(3);
    assert_eq!(k.top_ready_priority, 0b1);
}

#[test]
fn switch_delay_lists_flips() {
    let mut k = kernel();
    k.switch_delay_lists();
    assert_eq!(k.current_delay, 1);
    k.switch_delay_lists();
    assert_eq!(k.current_delay, 0);
}

#[test]
fn remove_state_item_reports_what_is_left() {
    let mut k = kernel();
    let a = k.create_task(0x100, "A", 2, STACK, 0x200);
    let _b = k.create_task(0x100, "B", 2, STACK, 0x200);
    assert_eq!(k.remove_state_item(a), 1);
    assert_eq!(k.tcbs[a].state_list_item.ctner, None);
    // an item in no list: nothing happens
    assert_eq!(k.remove_state_item(a), 0);
    assert_eq!(ready_owners(&k, 2).len(), 1);
}
