use freerustos::config::PORT_MAX_DELAY;
use freerustos::itc::mutex::Mutex;
use freerustos::itc::queue::{Queue, QueueHandle};
use freerustos::itc::semaphore::Semaphore;
use freerustos::itc::wait::{BlockStep, Wait};
use freerustos::scheduler::{Kernel, IDLE_TASK};
use freerustos::task::TaskState;

const STACK: usize = 64;

fn kernel_with(prios: &[u32]) -> (Kernel, Vec<usize>) {
    let mut k = Kernel::init(0x100, 0x200);
    let ids = prios.iter().map(|p| k.create_task(0x300, "T", *p, STACK, 0x200)).collect();
    (k, ids)
}

#[test]
fn binary_semaphore_take_give() {
    let (mut k, _) = kernel_with(&[1]);
    k.switch_context();
    let mut s = Semaphore::new_binary();
    s.init();
    let w = Wait::new(0, k.tick_count);
    assert_eq!(s.take(&mut k, &w), BlockStep::Done(true, false));
    assert_eq!(s.count, 0);
    assert_eq!(s.take(&mut k, &w), BlockStep::Done(false, false));
    assert_eq!(s.give(&mut k), (true, false));
    // a binary semaphore holds one count at most
    assert_eq!(s.give(&mut k), (false, false));
    assert_eq!(s.count, 1);
}

#[test]
fn counting_semaphore_caps_initial_count() {
    let s = Semaphore::new_counting(4, 9);
    assert_eq!(s.count, 4);
    assert_eq!(s.max_count, 4);
    let s = Semaphore::new_counting(4, 2);
    assert_eq!(s.count, 2);
}

#[test]
fn semaphore_blocks_and_is_woken_by_give() {
    let (mut k, ids) = kernel_with(&[3, 1]);
    let (a, b) = (ids[0], ids[1]);
    k.switch_context();
    assert_eq!(k.current, a);
    let mut s = Semaphore::new_counting(2, 0);
    let mut w = Wait::new(PORT_MAX_DELAY, k.tick_count);
    assert_eq!(s.take(&mut k, &w), BlockStep::Yield);
    // no time limit: the task waits in the suspended list, out of reach of the tick
    assert_eq!(k.tcbs[a].state, TaskState::Suspended);
    assert_eq!(s.wait_list.items.len(), 1);
    k.switch_context();
    assert_eq!(k.current, b);
    // the giver has a lower priority: it must yield
    assert_eq!(s.give(&mut k), (true, true));
    assert_eq!(k.tcbs[a].state, TaskState::Ready);
    assert_eq!(k.tcbs[a].event_list_item.ctner, None);
    assert_eq!(s.count, 1);
    k.switch_context();
    assert_eq!(k.current, a);
    assert_eq!(s.take_after_wake(&mut k, &mut w), None);
    assert_eq!(s.take(&mut k, &w), BlockStep::Done(true, false));
    assert_eq!(s.count, 0);
}

#[test]
fn semaphore_wait_times_out() {
    let (mut k, ids) = kernel_with(&[2]);
    let a = ids[0];
    k.switch_context();
    let mut s = Semaphore::new_counting(1, 0);
    let mut w = Wait::new(2, k.tick_count);
    assert_eq!(s.take(&mut k, &w), BlockStep::Yield);
    k.switch_context();
    assert_eq!(k.current, IDLE_TASK);
    k.tick();
    k.tick();
    assert_eq!(k.tcbs[a].state, TaskState::Ready);
    k.switch_context();
    assert_eq!(k.current, a);
    assert_eq!(s.take_after_wake(&mut k, &mut w), Some(false));
    assert_eq!(s.wait_list.items.len(), 0);
    assert_eq!(k.tcbs[a].event_list_item.ctner, None);
}

#[test]
fn wait_still_waiting() {
    let mut w = Wait::new(10, u32::MAX - 2);
    assert!(w.still_waiting(3));
    assert_eq!(w.remaining, 4);
    assert!(!w.still_waiting(8));
    let mut w = Wait::new(PORT_MAX_DELAY, 5);
    assert!(w.still_waiting(1000));
    assert_eq!(w.remaining, PORT_MAX_DELAY);
}

#[test]
fn mutex_is_recursive_and_owned() {
    let (mut k, ids) = kernel_with(&[2, 1]);
    let (a, b) = (ids[0], ids[1]);
    k.switch_context();
    assert_eq!(k.current, a);
    let mut m = Mutex::new();
    m.init();
    let w = Wait::new(0, 0);
    assert_eq!(m.take(&mut k, &w), BlockStep::Done(true, false));
    assert_eq!(m.take(&mut k, &w), BlockStep::Done(true, false));
    assert_eq!(m.owner, Some(a));
    assert_eq!(m.recursive_count, 2);
    assert_eq!(m.give(&mut k), (true, false));
    assert_eq!(m.owner, Some(a));
    // another task may not give it
    k.task_suspend(a);
    k.switch_context();
    assert_eq!(k.current, b);
    assert_eq!(m.give(&mut k), (false, false));
    assert_eq!(m.take(&mut k, &w), BlockStep::Done(false, false));
    k.task_resume(a);
    k.switch_context();
    assert_eq!(k.current, a);
    assert_eq!(m.give(&mut k), (true, false));
    assert_eq!(m.owner, None);
    assert_eq!(m.recursive_count, 0);
}

#[test]
fn mutex_priority_inheritance() {
    let (mut k, ids) = kernel_with(&[1, 3]);
    let (low, high) = (ids[0], ids[1]);
    // let the low priority task take the mutex first
    k.task_suspend(high);
    k.switch_context();
    assert_eq!(k.current, low);
    let mut m = Mutex::new();
    let w = Wait::new(PORT_MAX_DELAY, 0);
    assert_eq!(m.take(&mut k, &w), BlockStep::Done(true, false));
    k.task_resume(high);
    k.switch_context();
    assert_eq!(k.current, high);
    // the high priority task blocks; the owner inherits its priority
    assert_eq!(m.take(&mut k, &w), BlockStep::Yield);
    assert_eq!(k.tcbs[low].priority, 3);
    assert_eq!(k.tcbs[low].base_priority, 1);
    assert_eq!(k.ready_lists[3].items.len(), 1);
    assert_eq!(k.ready_lists[1].items.len(), 0);
    k.switch_context();
    assert_eq!(k.current, low);
    // release: the owner is back at its base priority, the waiter owns it
    assert_eq!(m.give(&mut k), (true, true));
    assert_eq!(k.tcbs[low].priority, 1);
    assert_eq!(m.owner, Some(high));
    assert_eq!(m.recursive_count, 1);
    assert_eq!(k.tcbs[high].state, TaskState::Ready);
    assert_eq!(k.ready_lists[1].items[0].owner, Some(low));
    k.switch_context();
    assert_eq!(k.current, high);
    // the woken task holds the mutex once: one give releases it
    let mut w = w;
    assert_eq!(m.take_after_wake(&mut k, &mut w), Some(true));
    assert_eq!(m.owner, Some(high));
    assert_eq!(m.recursive_count, 1);
    assert_eq!(m.give(&mut k), (true, false));
    assert_eq!(m.owner, None);
    assert_eq!(m.recursive_count, 0);
}

#[test]
fn mutex_handed_over_after_its_timeout_still_succeeds() {
    let (mut k, ids) = kernel_with(&[1, 3]);
    let (low, high) = (ids[0], ids[1]);
    k.task_suspend(high);
    k.switch_context();
    let mut m = Mutex::new();
    assert_eq!(m.take(&mut k, &Wait::new(0, 0)), BlockStep::Done(true, false));
    k.task_resume(high);
    k.switch_context();
    assert_eq!(k.current, high);
    let mut w = Wait::new(2, k.tick_count);
    assert_eq!(m.take(&mut k, &w), BlockStep::Yield);
    k.switch_context();
    assert_eq!(k.current, low);
    // the owner gives just as the waiter's time runs out
    k.tick();
    k.tick();
    assert_eq!(m.give(&mut k).0, true);
    assert_eq!(m.owner, Some(high));
    k.switch_context();
    assert_eq!(k.current, high);
    assert_eq!(m.take_after_wake(&mut k, &mut w), Some(true));
    assert_eq!(m.recursive_count, 1);
}

#[test]
fn binary_semaphore_never_exceeds_one() {
    let (mut k, ids) = kernel_with(&[1, 3, 2]);
    let (giver, high, mid) = (ids[0], ids[1], ids[2]);
    let mut s = Semaphore::new_binary();
    let w = Wait::new(PORT_MAX_DELAY, 0);
    k.switch_context();
    assert_eq!(k.current, high);
    assert_eq!(s.take(&mut k, &w), BlockStep::Done(true, false));
    assert_eq!(s.take(&mut k, &w), BlockStep::Yield);
    k.switch_context();
    assert_eq!(k.current, mid);
    assert_eq!(s.take(&mut k, &w), BlockStep::Yield);
    k.switch_context();
    assert_eq!(k.current, giver);
    // two gives before the woken tasks run
    assert_eq!(s.give(&mut k), (true, true));
    assert_eq!(s.count, 1);
    assert_eq!(s.give(&mut k), (true, true));
    assert_eq!(s.count, 1);
    assert_eq!(s.give(&mut k), (false, false));
    assert_eq!(s.count, 1);
}

#[test]
fn unlimited_wait_is_not_ended_by_the_tick() {
    let (mut k, ids) = kernel_with(&[2]);
    let a = ids[0];
    k.switch_context();
    k.tick_count = 5;
    let mut s = Semaphore::new_counting(1, 0);
    let mut w = Wait::new(PORT_MAX_DELAY, k.tick_count);
    assert_eq!(s.take(&mut k, &w), BlockStep::Yield);
    k.switch_context();
    assert_eq!(k.current, IDLE_TASK);
    // a wake time of tick + PORT_MAX_DELAY would be tick - 1: run past it
    k.tick_count = u32::MAX - 1;
    for _ in 0..8 {
        k.tick();
    }
    assert_eq!(k.tcbs[a].state, TaskState::Suspended);
    assert_eq!(s.wait_list.items.len(), 1);
    // task_resume does not end such a wait either
    assert!(!k.task_resume(a));
    assert_eq!(k.tcbs[a].state, TaskState::Suspended);
    assert_eq!(s.give(&mut k), (true, true));
    k.switch_context();
    assert_eq!(k.current, a);
    assert_eq!(s.take_after_wake(&mut k, &mut w), None);
    assert_eq!(s.take(&mut k, &w), BlockStep::Done(true, false));
}

#[test]
fn suspended_waiter_is_not_woken_by_give() {
    let (mut k, ids) = kernel_with(&[2, 1]);
    let (a, b) = (ids[0], ids[1]);
    k.switch_context();
    assert_eq!(k.current, a);
    let mut s = Semaphore::new_counting(1, 0);
    let w = Wait::new(10, k.tick_count);
    assert_eq!(s.take(&mut k, &w), BlockStep::Yield);
    k.switch_context();
    assert_eq!(k.current, b);
    assert!(!k.suspend_waiter(a, &mut s.wait_list));
    assert_eq!(k.tcbs[a].state, TaskState::Suspended);
    assert_eq!(k.tcbs[a].event_list_item.ctner, None);
    assert_eq!(s.wait_list.items.len(), 0);
    // the give finds no waiter: the count goes up and the task stays suspended
    assert_eq!(s.give(&mut k), (true, false));
    assert_eq!(s.count, 1);
    assert_eq!(k.tcbs[a].state, TaskState::Suspended);
    for _ in 0..20 {
        k.tick();
    }
    assert_eq!(k.tcbs[a].state, TaskState::Suspended);
    assert!(k.task_resume(a));
    assert_eq!(k.tcbs[a].state, TaskState::Ready);
}

#[test]
fn queue_is_fifo() {
    let (mut k, _) = kernel_with(&[1]);
    k.switch_context();
    let mut q: Queue<2, 3, 6> = Queue::new();
    q.init();
    let w = Wait::new(0, 0);
    assert!(q.is_empty());
    assert_eq!(q.send(&mut k, &[1, 2], &w), BlockStep::Done(true, false));
    assert_eq!(q.send(&mut k, &[3, 4], &w), BlockStep::Done(true, false));
    assert_eq!(q.send_to_front(&mut k, &[9, 9], &w), BlockStep::Done(true, false));
    assert!(q.is_full());
    assert_eq!(q.len(), 3);
    assert_eq!(q.send(&mut k, &[5, 6], &w), BlockStep::Done(false, false));
    let mut out = vec![0u8; 2];
    assert_eq!(q.peek(&mut k, &mut out, &w), BlockStep::Done(true, false));
    assert_eq!(out, vec![9, 9]);
    assert_eq!(q.len(), 3);
    let mut got = Vec::new();
    for _ in 0..3 {
        assert_eq!(q.receive(&mut k, &mut out, &w), BlockStep::Done(true, false));
        got.push(out.clone());
    }
    assert_eq!(got, vec![vec![9, 9], vec![1, 2], vec![3, 4]]);
    assert_eq!(q.receive(&mut k, &mut out, &w), BlockStep::Done(false, false));
}

#[test]
fn queue_wraps_around() {
    let (mut k, _) = kernel_with(&[1]);
    k.switch_context();
    let mut q: Queue<1, 2, 2> = Queue::new();
    let w = Wait::new(0, 0);
    let mut out = vec![0u8];
    for v in 0u8..10 {
        assert_eq!(q.send(&mut k, &[v], &w), BlockStep::Done(true, false));
        assert_eq!(q.receive(&mut k, &mut out, &w), BlockStep::Done(true, false));
        assert_eq!(out, vec![v]);
    }
}

#[test]
fn queue_receiver_is_woken_by_send() {
    let (mut k, ids) = kernel_with(&[3, 1]);
    let (rx, tx) = (ids[0], ids[1]);
    k.switch_context();
    assert_eq!(k.current, rx);
    let mut q: Queue<1, 2, 2> = Queue::new();
    let mut w = Wait::new(PORT_MAX_DELAY, 0);
    let mut out = vec![0u8];
    assert_eq!(q.receive(&mut k, &mut out, &w), BlockStep::Yield);
    k.switch_context();
    assert_eq!(k.current, tx);
    assert_eq!(q.send(&mut k, &[7], &Wait::new(0, 0)), BlockStep::Done(true, true));
    k.switch_context();
    assert_eq!(k.current, rx);
    assert_eq!(q.receive_after_wake(&mut k, &mut w), None);
    assert_eq!(q.receive(&mut k, &mut out, &w), BlockStep::Done(true, false));
    assert_eq!(out, vec![7]);
}

#[test]
fn queue_sender_blocks_when_full() {
    let (mut k, ids) = kernel_with(&[3, 1]);
    let (tx, rx) = (ids[0], ids[1]);
    k.switch_context();
    assert_eq!(k.current, tx);
    let mut q: Queue<1, 1, 1> = Queue::new();
    let mut w = Wait::new(PORT_MAX_DELAY, 0);
    assert_eq!(q.send(&mut k, &[1], &w), BlockStep::Done(true, false));
    assert_eq!(q.send(&mut k, &[2], &w), BlockStep::Yield);
    k.switch_context();
    assert_eq!(k.current, rx);
    let mut out = vec![0u8];
    assert_eq!(q.receive(&mut k, &mut out, &Wait::new(0, 0)), BlockStep::Done(true, true));
    assert_eq!(out, vec![1]);
    k.switch_context();
    assert_eq!(k.current, tx);
    assert_eq!(q.send_after_wake(&mut k, &mut w), None);
    assert_eq!(q.send(&mut k, &[2], &w), BlockStep::Done(true, false));
}

#[test]
fn queue_handle_typed() {
    let (mut k, _) = kernel_with(&[1]);
    k.switch_context();
    let mut q: QueueHandle<u32, 4, 3, 12> = QueueHandle::new();
    q.init();
    let w = Wait::new(0, 0);
    assert!(q.is_empty());
    assert_eq!(q.send_t(&mut k, 10, &w), BlockStep::Done(true, false));
    assert_eq!(q.send_t(&mut k, 20, &w), BlockStep::Done(true, false));
    assert_eq!(q.send_to_front_t(&mut k, 5, &w), BlockStep::Done(true, false));
    assert!(q.is_full());
    assert_eq!(q.send_t(&mut k, 30, &w), BlockStep::Done(false, false));
    let mut v = 0u32;
    assert_eq!(q.peek_t(&mut k, &mut v, &w), BlockStep::Done(true, false));
    assert_eq!(v, 5);
    let mut got = Vec::new();
    while q.receive_t(&mut k, &mut v, &w) == BlockStep::Done(true, false) {
        got.push(v);
    }
    assert_eq!(got, vec![5, 10, 20]);
    assert_eq!(q.len(), 0);
}

#[test]
fn semaphore_wakes_highest_priority_waiter_first() {
    let (mut k, ids) = kernel_with(&[1, 3, 2]);
    let (giver, high, mid) = (ids[0], ids[1], ids[2]);
    let mut s = Semaphore::new_counting(2, 0);
    let w = Wait::new(PORT_MAX_DELAY, 0);
    k.switch_context();
    assert_eq!(k.current, high);
    assert_eq!(s.take(&mut k, &w), BlockStep::Yield);
    k.switch_context();
    assert_eq!(k.current, mid);
    assert_eq!(s.take(&mut k, &w), BlockStep::Yield);
    k.switch_context();
    assert_eq!(k.current, giver);
    let order: Vec<Option<usize>> = s.wait_list.items.iter().map(|i| i.owner).collect();
    assert_eq!(order, vec![Some(high), Some(mid)]);
    assert_eq!(s.give(&mut k), (true, true));
    assert_eq!(k.tcbs[high].state, TaskState::Ready);
    assert_eq!(k.tcbs[mid].state, TaskState::Suspended);
    assert_eq!(s.give(&mut k), (true, true));
    assert_eq!(k.tcbs[mid].state, TaskState::Ready);
}

#[test]
fn mutex_take_times_out() {
    let (mut k, ids) = kernel_with(&[1, 3]);
    let (low, high) = (ids[0], ids[1]);
    k.task_suspend(high);
    k.switch_context();
    let mut m = Mutex::new();
    let w0 = Wait::new(0, 0);
    assert_eq!(m.take(&mut k, &w0), BlockStep::Done(true, false));
    k.task_resume(high);
    k.switch_context();
    assert_eq!(k.current, high);
    let mut w = Wait::new(3, k.tick_count);
    assert_eq!(m.take(&mut k, &w), BlockStep::Yield);
    assert_eq!(k.tcbs[low].priority, 3);
    k.switch_context();
    assert_eq!(k.current, low);
    for _ in 0..3 {
        k.tick();
    }
    k.switch_context();
    assert_eq!(k.current, high);
    assert_eq!(m.take_after_wake(&mut k, &mut w), Some(false));
    assert_eq!(m.wait_list.items.len(), 0);
    assert_eq!(m.owner, Some(low));
}

#[test]
fn queue_receive_times_out() {
    let (mut k, ids) = kernel_with(&[2]);
    let rx = ids[0];
    k.switch_context();
    let mut q: Queue<1, 1, 1> = Queue::new();
    let mut w = Wait::new(1, 0);
    let mut out = vec![0u8];
    assert_eq!(q.peek(&mut k, &mut out, &w), BlockStep::Yield);
    k.switch_context();
    k.tick();
    k.switch_context();
    assert_eq!(k.current, rx);
    assert_eq!(q.receive_after_wake(&mut k, &mut w), Some(false));
    assert_eq!(q.recv_wait_list.items.len(), 0);
}
