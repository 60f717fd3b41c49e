//! The word-level parts of the processor ports: the initial exception frame
//! of a new task, the stack sentinel check and the critical-section counter.
pub mod cortex_m3;
pub mod cortex_m7;
