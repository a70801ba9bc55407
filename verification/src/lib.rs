//! Scheduling and synchronisation core of a small kernel for one
//! processor.
//!
//! The kernel is written as a state machine. Every operation takes the
//! records it works on and changes them in one step; none suspends its
//! caller. A call that makes its caller wait leaves the caller's task
//! blocked in the records, and the code around the library switches to
//! the task that [`kernel::dispatch`] picks next.
//!
//! * [`manager`]: the ready queue and the stride-scheduling choice.
//! * [`sync`]: mutex, semaphore and condition variable.
//! * [`task`] and [`process`]: the records of tasks and processes, with
//!   the tables of a process's mutexes, semaphores and condition
//!   variables.
//! * [`deadlock`]: the check that guards requests for semaphores.
//! * [`syscall`]: the system calls on those records.
//! * [`kernel`] and [`timer`]: the steps between system calls.
//! * [`schedule`] and [`history`]: what holds of the records after any
//!   sequence of operations.
//! * [`table`] and [`fs`]: slot tables, and the open files of a task.

pub mod config;
pub mod deadlock;
pub mod fs;
pub mod history;
pub mod kernel;
pub mod manager;
pub mod process;
pub mod schedule;
pub mod sync;
pub mod syscall;
pub mod table;
pub mod task;
pub mod timer;
