# freerustos

A small preemptive priority scheduler for Cortex-M microcontrollers, written
as plain data and verified with Verus.

## Layout

- `src/` — the verified library.
  - `config.rs` — types and configuration constants.
  - `list.rs` — the kernel list: items kept in order with a cursor for
    round-robin selection; ordered insertion and its laws.
  - `bitmap.rs` — the ready-priority bitmap (set, clear, highest set bit).
  - `task.rs` — task states and the task control block.
  - `scheduler.rs` — the kernel: task creation, delays with two delay lists
    for tick-counter wrap-around, suspension, the tick handler and the
    context switch; `Kernel::wf` is the invariant every operation keeps.
  - `event.rs` — blocking the running task on a wait list and waking waiters.
  - `itc/` — semaphores, the recursive mutex with priority inheritance, and
    message queues. A blocking call is a sequence of steps (`take`,
    `take_after_wake`, ...) between which the caller yields; a wait of
    `PORT_MAX_DELAY` has no time limit (the task waits in the suspended
    list, where no tick reaches it).
  - `heap/` — the bump allocator.
  - `port/` — the word-level parts of the Cortex-M3 and Cortex-M7 ports:
    initial stack frames, the stack sentinel check, critical-section nesting.
- `tests/` — tests on concrete values.
- `app/` — the blocking loops around those steps (`blocking.rs`), and the demo program: a host simulation of the tick and the context
  switch, and, for Cortex-M7 targets, the inline-assembly port (exception
  handlers, BASEPRI critical sections) around the same kernel calls.
