//! The ready queue and the stride-scheduling choice among its tasks.

use std::collections::VecDeque;
use vstd::prelude::*;
use crate::config::MAX_PID;

verus! {

/// What the scheduler keeps of a task that waits to run: the keys under
/// which its records are found, and the stride it had when it was queued.
/// The stride of a task does not change while the task waits.
#[derive(Clone, Copy, Debug, PartialEq, Eq, Structural)]
pub struct TaskHandle {
    /// Process that owns the task.
    pub pid: usize,
    /// Id of the task within its process.
    pub tid: usize,
    /// Stride of the task when it entered the queue.
    pub stride: usize,
}

/// `k` is the place of the task that runs next: no task in `queue` has a
/// smaller stride, and all tasks before `k` have a larger one.
pub open spec fn selects(queue: Seq<TaskHandle>, k: int) -> bool {
    &&& 0 <= k < queue.len()
    &&& forall|j: int| 0 <= j < queue.len() ==> queue[k].stride <= (#[trigger] queue[j]).stride
    &&& forall|j: int| 0 <= j < k ==> queue[k].stride < (#[trigger] queue[j]).stride
}

/// At most one place in a queue is selected.
pub proof fn lemma_selects_unique(queue: Seq<TaskHandle>, a: int, b: int)
    requires
        selects(queue, a),
        selects(queue, b),
    ensures
        a == b,
{
    if a < b {
        assert(queue[b].stride < queue[a].stride);
    } else if b < a {
        assert(queue[a].stride < queue[b].stride);
    }
}

/// The tasks that are ready to run, in the order in which they became ready.
pub struct TaskManager {
    ready_queue: VecDeque<TaskHandle>,
}

impl View for TaskManager {
    type V = Seq<TaskHandle>;

    closed spec fn view(&self) -> Seq<TaskHandle> {
        self.ready_queue@
    }
}

impl TaskManager {
    /// An empty ready queue.
    pub fn new() -> (manager: Self)
        ensures
            manager@ == Seq::<TaskHandle>::empty(),
    {
        Self { ready_queue: VecDeque::new() }
    }

    /// Puts a ready task at the tail of the queue.
    pub fn add(&mut self, task: TaskHandle)
        ensures
            final(self)@ == old(self)@.push(task),
    {
        self.ready_queue.push_back(task);
    }

    /// Takes out the task with the smallest stride; among tasks of equal
    /// stride, the one that has waited longest. `None` when no task is ready.
    pub fn fetch(&mut self) -> (next: Option<TaskHandle>)
        ensures
            match next {
                Some(task) => exists|k: int|
                    {
                        &&& selects(old(self)@, k)
                        &&& task == old(self)@[k]
                        &&& final(self)@ == old(self)@.remove(k)
                    },
                None => old(self)@.len() == 0 && final(self)@ == old(self)@,
            },
    {
        let n: usize = self.ready_queue.len();
        if n == 0 {
            return None;
        }
        let mut tap: usize = 0;
        let mut min_stride: usize = self.ready_queue[0].stride;
        let mut index: usize = 1;
        while index < n
            invariant
                n == self.ready_queue@.len(),
                self.ready_queue@ == old(self).ready_queue@,
                0 <= tap < index <= n,
                min_stride == self.ready_queue@[tap as int].stride,
                forall|j: int|
                    0 <= j < index ==> min_stride <= (#[trigger] self.ready_queue@[j]).stride,
                forall|j: int|
                    0 <= j < tap ==> min_stride < (#[trigger] self.ready_queue@[j]).stride,
            decreases n - index,
        {
            let index_stride: usize = self.ready_queue[index].stride;
            if index_stride < min_stride {
                min_stride = index_stride;
                tap = index;
            }
            index += 1;
        }
        assert(selects(old(self)@, tap as int));
        self.ready_queue.remove(tap)
    }

    /// Number of tasks in the queue.
    pub fn pid_num(&self) -> (num: usize)
        ensures
            num == self@.len(),
    {
        self.ready_queue.len()
    }
}

/// Makes `task` ready to run: it joins the tail of the ready queue.
pub fn add_task(manager: &mut TaskManager, task: TaskHandle)
    ensures
        final(manager)@ == old(manager)@.push(task),
{
    manager.add(task);
}

/// Takes the next task to run out of the ready queue; see [`TaskManager::fetch`].
pub fn fetch_task(manager: &mut TaskManager) -> (next: Option<TaskHandle>)
    ensures
        match next {
            Some(task) => exists|k: int|
                {
                    &&& selects(old(manager)@, k)
                    &&& task == old(manager)@[k]
                    &&& final(manager)@ == old(manager)@.remove(k)
                },
            None => old(manager)@.len() == 0 && final(manager)@ == old(manager)@,
        },
{
    manager.fetch()
}

/// Whether the ready queue holds as many tasks as the kernel admits.
pub fn is_full(manager: &TaskManager) -> (full: bool)
    ensures
        full == (manager@.len() >= MAX_PID),
{
    let num: usize = manager.pid_num();
    MAX_PID <= num
}

} // verus!
