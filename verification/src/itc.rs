//! Inter-task communication: a recursive mutex with priority inheritance,
//! binary and counting semaphores, and message queues. A blocking call is a
//! sequence of steps: a step either finishes the call or blocks the running
//! task, which then yields; once it runs again, `after_wake` tells whether
//! the call ends or the next step is due.
pub mod wait;
pub mod semaphore;
pub mod mutex;
pub mod queue;
