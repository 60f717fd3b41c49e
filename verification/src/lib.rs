//! A small preemptive priority scheduler kernel, its inter-task
//! communication objects and a bump allocator, kept as plain data with
//! the invariants every operation preserves.
pub mod config;
pub mod list;
pub mod bitmap;
pub mod port;
pub mod task;
pub mod scheduler;
pub mod event;
pub mod itc;
pub mod heap;
