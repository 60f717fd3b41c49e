//! Memory allocation.
pub mod heap_1;
