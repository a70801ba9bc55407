//! The system calls, as steps of the kernel's state: each takes the
//! records it works on and the id of the calling task, and returns the
//! number that the caller receives.

pub mod process;
pub mod sync;
