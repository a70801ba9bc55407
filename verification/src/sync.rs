//! The primitives on which tasks wait for each other. None of them
//! suspends a task itself: each call says what became of the caller and
//! which task it woke, and the caller's kernel acts on that.

pub mod condvar;
pub mod mutex;
pub mod semaphore;
