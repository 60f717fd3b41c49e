use vstd::prelude::*;

verus! {

/// Tick counter type.
pub type TickType = u32;

/// Signed base type.
pub type BaseType = i32;

/// Unsigned base type (priorities, counters).
pub type UBaseType = u32;

/// One word of a task stack.
pub type StackType = u32;

/// Block indefinitely; also the value of an item that sorts last.
pub const PORT_MAX_DELAY: TickType = 0xffff_ffffu32;

/// Interrupts with a numeric priority at or above this value are masked in a critical section.
pub const MAX_SYSCALL_INTERRUPT_PRIORITY: u32 = 191u32;

/// Number of priority levels (0 is the lowest).
pub const MAX_PRIORITIES: usize = 5usize;

/// Round-robin among tasks of equal priority on every tick.
pub const USE_TIME_SLICING: bool = true;

/// The idle task yields immediately.
pub const IDLE_SHOULD_YIELD: bool = true;

/// Stack depth of the idle task, in words.
pub const IDLE_STACK_SIZE: usize = 256usize;

/// CPU frequency in Hz.
pub const CPU_FREQ: u32 = 72_000_000u32;

/// Scheduler tick rate in Hz.
pub const TICK_RATE_HZ: u32 = 72_000u32;

/// CPU cycles per scheduler tick.
pub const SYSTICK_CYCLE: u32 = CPU_FREQ / TICK_RATE_HZ;

} // verus!
