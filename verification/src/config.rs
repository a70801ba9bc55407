//! Kernel-wide constants.

use vstd::prelude::*;

verus! {

/// Marks a mutex slot that no task owns. No task ever has this id.
pub const NO_OWNER: usize = usize::MAX;

/// Largest number of tasks that may wait in the ready queue.
pub const MAX_PID: usize = 64;

/// The stride of a task grows by this constant divided by its priority
/// each time the task has been dispatched.
pub const BIG_STRIDE: usize = 65536;

/// Smallest priority a task may have.
pub const MIN_PRIORITY: usize = 2;

/// Priority of a freshly created task.
pub const DEFAULT_PRIORITY: usize = 16;

/// Number of different system calls that the kernel counts for a task.
pub const MAX_SYSCALL_NUM: usize = 500;

/// Result of a request that was refused because granting it could
/// leave tasks waiting for each other forever.
pub const DEADLOCK: isize = -0xDEAD;

} // verus!
