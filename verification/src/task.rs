//! The record that the kernel keeps of one task.

use vstd::prelude::*;
use crate::config::{BIG_STRIDE, DEFAULT_PRIORITY, MIN_PRIORITY};

verus! {

/// Where a task stands in its life.
#[derive(Clone, Copy, Debug, PartialEq, Eq, Structural)]
pub enum TaskStatus {
    /// Waits in the ready queue for the processor.
    Ready,
    /// Has the processor.
    Running,
    /// Sleeps until another task or a timer wakes it.
    Blocked,
    /// Has ended.
    Zombie,
}

/// What a task waits for. The number is the slot of the object in the
/// table of its process.
#[derive(Clone, Copy, Debug, PartialEq, Eq, Structural)]
pub enum Wait {
    /// The task waits for nothing.
    Nothing,
    /// The task sleeps in the queue of a blocking mutex.
    Mutex(usize),
    /// The task sleeps in the queue of a semaphore.
    Semaphore(usize),
    /// The task sleeps in the queue of a condition variable.
    Condvar(usize),
    /// The task sleeps until a point in time.
    Timer,
    /// The task does not sleep: it is ready, and when it next runs it
    /// asks again for the spin mutex in this slot.
    Spin(usize),
}

impl Wait {
    /// Whether a task with this entry sleeps.
    pub open spec fn sleeps(self) -> bool {
        self != Wait::Nothing && !(self is Spin)
    }

    /// Whether a task with this entry stands in the queue of an object.
    pub open spec fn queued(self) -> bool {
        self is Mutex || self is Semaphore || self is Condvar
    }
}

/// A task as contracts see it.
pub struct TaskState {
    pub status: TaskStatus,
    pub wait: Wait,
    pub stride: usize,
    pub priority: usize,
    /// For each semaphore slot, the units that the task holds.
    pub held: Seq<usize>,
    /// For each semaphore slot, the units that the task has asked for
    /// and not yet got.
    pub requested: Seq<usize>,
    /// The code with which the task ended; 0 while it lives.
    pub exit_code: i32,
}

/// The stride of a task of the given priority after one more turn on
/// the processor. It stops at the largest number instead of wrapping.
pub open spec fn stride_after_pass(stride: usize, priority: usize) -> usize {
    let step = BIG_STRIDE as int / priority as int;
    if stride + step > usize::MAX {
        usize::MAX
    } else {
        (stride + step) as usize
    }
}

/// Computes the stride of a task of the given priority after one more
/// turn on the processor: `BIG_STRIDE / priority` more than before, and
/// the largest number where that would not fit.
pub fn next_stride(stride: usize, priority: usize) -> (next: usize)
    requires
        priority >= MIN_PRIORITY,
    ensures
        next == stride_after_pass(stride, priority),
        next >= stride,
{
    let step: usize = BIG_STRIDE / priority;
    stride.saturating_add(step)
}

impl TaskState {
    /// A task that was just created in a process with `slots` semaphore
    /// slots.
    pub open spec fn fresh(slots: nat) -> TaskState {
        TaskState {
            status: TaskStatus::Ready,
            wait: Wait::Nothing,
            stride: 0,
            priority: DEFAULT_PRIORITY,
            held: Seq::new(slots, |i: int| 0usize),
            requested: Seq::new(slots, |i: int| 0usize),
            exit_code: 0,
        }
    }

    /// The priority is a valid weight, a task sleeps on something
    /// exactly while it is blocked, and only a ready task waits to ask
    /// again for a spin mutex.
    pub open spec fn wf(self) -> bool {
        &&& self.priority >= MIN_PRIORITY
        &&& self.held.len() == self.requested.len()
        &&& (self.status == TaskStatus::Blocked <==> self.wait.sleeps())
        &&& (self.wait is Spin ==> self.status == TaskStatus::Ready)
    }

    /// The task put to sleep on `wait`.
    pub open spec fn blocked_on(self, wait: Wait) -> TaskState {
        TaskState { status: TaskStatus::Blocked, wait, ..self }
    }

    /// The task woken from its sleep.
    pub open spec fn woken(self) -> TaskState {
        TaskState { status: TaskStatus::Ready, wait: Wait::Nothing, ..self }
    }

    /// The task as it gives up the processor to ask again later for the
    /// spin mutex in `slot`.
    pub open spec fn spinning(self, slot: usize) -> TaskState {
        TaskState { status: TaskStatus::Ready, wait: Wait::Spin(slot), ..self }
    }

    /// The task after it has ended with `exit_code`.
    pub open spec fn ended(self, exit_code: i32) -> TaskState {
        TaskState { status: TaskStatus::Zombie, wait: Wait::Nothing, exit_code, ..self }
    }

    /// The task as it gets the processor: it runs, waits for nothing,
    /// and its stride has grown by one pass.
    pub open spec fn dispatched(self) -> TaskState {
        TaskState {
            status: TaskStatus::Running,
            wait: Wait::Nothing,
            stride: stride_after_pass(self.stride, self.priority),
            ..self
        }
    }

    /// The task with `units` in place of what it holds of semaphore `sem`.
    pub open spec fn with_held(self, sem: int, units: usize) -> TaskState {
        TaskState { held: self.held.update(sem, units), ..self }
    }

    /// The task with an entry for a semaphore that was just created in
    /// `slot`: it holds and awaits nothing of it. The entry of a slot
    /// that is used again is cleared; for a new slot one is added.
    pub open spec fn with_slot(self, slot: int) -> TaskState {
        if slot < self.held.len() {
            TaskState {
                held: self.held.update(slot, 0),
                requested: self.requested.update(slot, 0),
                ..self
            }
        } else {
            TaskState { held: self.held.push(0), requested: self.requested.push(0), ..self }
        }
    }

    /// The task after it has given back a unit of semaphore `sem`: it
    /// holds one less, or none as before.
    pub open spec fn gives_back(self, sem: int) -> TaskState {
        if self.held[sem] > 0 {
            self.with_held(sem, (self.held[sem] - 1) as usize)
        } else {
            self
        }
    }

    /// The task after it has got a unit of semaphore `sem`: it holds
    /// one more and awaits none.
    pub open spec fn granted(self, sem: int) -> TaskState {
        self.with_requested(sem, 0).with_held(sem, (self.held[sem] + 1) as usize)
    }

    /// The task with `units` in place of what it awaits of semaphore `sem`.
    pub open spec fn with_requested(self, sem: int, units: usize) -> TaskState {
        TaskState { requested: self.requested.update(sem, units), ..self }
    }
}

/// The kernel's record of one task.
pub struct TaskControlBlock {
    status: TaskStatus,
    wait: Wait,
    stride: usize,
    priority: usize,
    held: Vec<usize>,
    requested: Vec<usize>,
    exit_code: i32,
}

impl View for TaskControlBlock {
    type V = TaskState;

    closed spec fn view(&self) -> TaskState {
        TaskState {
            status: self.status,
            wait: self.wait,
            stride: self.stride,
            priority: self.priority,
            held: self.held@,
            requested: self.requested@,
            exit_code: self.exit_code,
        }
    }
}

impl TaskControlBlock {
    /// A ready task with stride 0 and the default priority that holds
    /// and awaits nothing of `slots` semaphore slots.
    pub fn new(slots: usize) -> (task: Self)
        ensures
            task@ == TaskState::fresh(slots as nat),
            task@.wf(),
    {
        let mut held: Vec<usize> = Vec::new();
        let mut requested: Vec<usize> = Vec::new();
        let mut i: usize = 0;
        while i < slots
            invariant
                i <= slots,
                held@ == Seq::new(i as nat, |k: int| 0usize),
                requested@ == Seq::new(i as nat, |k: int| 0usize),
            decreases slots - i,
        {
            held.push(0);
            requested.push(0);
            i += 1;
            assert(held@ =~= Seq::new(i as nat, |k: int| 0usize));
            assert(requested@ =~= Seq::new(i as nat, |k: int| 0usize));
        }
        Self {
            status: TaskStatus::Ready,
            wait: Wait::Nothing,
            stride: 0,
            priority: DEFAULT_PRIORITY,
            held,
            requested,
            exit_code: 0,
        }
    }

    /// The code with which the task ended; 0 while it lives.
    pub fn exit_code(&self) -> (code: i32)
        ensures
            code == self@.exit_code,
    {
        self.exit_code
    }

    /// Where the task stands in its life.
    pub fn status(&self) -> (status: TaskStatus)
        ensures
            status == self@.status,
    {
        self.status
    }

    /// What the task sleeps on.
    pub fn wait(&self) -> (wait: Wait)
        ensures
            wait == self@.wait,
    {
        self.wait
    }

    /// The stride by which the scheduler ranks the task.
    pub fn stride(&self) -> (stride: usize)
        ensures
            stride == self@.stride,
    {
        self.stride
    }

    /// The weight of the task: the larger, the more often it runs.
    pub fn priority(&self) -> (priority: usize)
        ensures
            priority == self@.priority,
    {
        self.priority
    }

    /// Units of semaphore `sem` that the task holds; 0 for a slot that
    /// the task has no entry for.
    pub fn held(&self, sem: usize) -> (units: usize)
        ensures
            units == (if sem < self@.held.len() { self@.held[sem as int] } else { 0 }),
    {
        if sem < self.held.len() {
            self.held[sem]
        } else {
            0
        }
    }

    /// Units of semaphore `sem` that the task awaits; 0 for a slot that
    /// the task has no entry for.
    pub fn requested(&self, sem: usize) -> (units: usize)
        ensures
            units == (if sem < self@.requested.len() { self@.requested[sem as int] } else { 0 }),
    {
        if sem < self.requested.len() {
            self.requested[sem]
        } else {
            0
        }
    }

    /// Gives the task a new priority.
    pub(crate) fn set_priority(&mut self, priority: usize)
        requires
            priority >= MIN_PRIORITY,
        ensures
            final(self)@ == (TaskState { priority, ..old(self)@ }),
    {
        self.priority = priority;
    }

    /// Accounts for one turn on the processor: the stride grows by
    /// `BIG_STRIDE / priority`, and stops at the largest number.
    pub(crate) fn pass(&mut self)
        requires
            old(self)@.priority >= MIN_PRIORITY,
        ensures
            final(self)@ == (TaskState {
                stride: stride_after_pass(old(self)@.stride, old(self)@.priority),
                ..old(self)@
            }),
            final(self)@.stride >= old(self)@.stride,
    {
        self.stride = next_stride(self.stride, self.priority);
    }

    /// Ends the task with `exit_code`.
    pub(crate) fn end(&mut self, exit_code: i32)
        ensures
            final(self)@ == old(self)@.ended(exit_code),
    {
        self.status = TaskStatus::Zombie;
        self.wait = Wait::Nothing;
        self.exit_code = exit_code;
    }

    /// Gives the task the processor.
    pub(crate) fn dispatch(&mut self)
        requires
            old(self)@.priority >= MIN_PRIORITY,
        ensures
            final(self)@ == old(self)@.dispatched(),
            final(self)@.stride >= old(self)@.stride,
    {
        self.pass();
        self.status = TaskStatus::Running;
        self.wait = Wait::Nothing;
    }

    /// Changes where the task stands in its life, and what it sleeps on.
    pub(crate) fn set_status(&mut self, status: TaskStatus, wait: Wait)
        ensures
            final(self)@ == (TaskState { status, wait, ..old(self)@ }),
    {
        self.status = status;
        self.wait = wait;
    }

    /// Sets the units of semaphore `sem` that the task holds.
    pub(crate) fn set_held(&mut self, sem: usize, units: usize)
        requires
            sem < old(self)@.held.len(),
        ensures
            final(self)@ == old(self)@.with_held(sem as int, units),
    {
        self.held[sem] = units;
    }

    /// Sets the units of semaphore `sem` that the task awaits.
    pub(crate) fn set_requested(&mut self, sem: usize, units: usize)
        requires
            sem < old(self)@.requested.len(),
        ensures
            final(self)@ == old(self)@.with_requested(sem as int, units),
    {
        self.requested[sem] = units;
    }

    /// Prepares the entry for a semaphore that was just created in `slot`.
    pub(crate) fn open_slot(&mut self, slot: usize)
        requires
            old(self)@.held.len() == old(self)@.requested.len(),
        ensures
            final(self)@ == old(self)@.with_slot(slot as int),
    {
        if slot < self.held.len() {
            self.held[slot] = 0;
            self.requested[slot] = 0;
        } else {
            self.held.push(0);
            self.requested.push(0);
        }
    }
}

} // verus!
