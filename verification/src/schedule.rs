//! How the ready queue and the task records of a process agree: each
//! ready task waits in the queue once, under its present stride, and
//! no other task of the process waits there.

use vstd::prelude::*;
use crate::manager::TaskHandle;
use crate::process::ProcessState;
use crate::table::{allocates, installed, vacated};
use crate::task::{TaskState, TaskStatus, Wait};

verus! {

/// Whether the slot `tid` of a task table holds a ready task.
pub open spec fn is_ready(tasks: Seq<Option<TaskState>>, tid: int) -> bool {
    0 <= tid < tasks.len() && tasks[tid] is Some && tasks[tid].unwrap().status
        == TaskStatus::Ready
}

/// The ready queue `ready` agrees with the tasks of process `pid`.
pub open spec fn agrees(pid: usize, tasks: Seq<Option<TaskState>>, ready: Seq<TaskHandle>) -> bool {
    &&& tasks.len() <= usize::MAX
    &&& forall|k: int|
        0 <= k < ready.len() && (#[trigger] ready[k]).pid == pid ==> is_ready(
            tasks,
            ready[k].tid as int,
        ) && tasks[ready[k].tid as int].unwrap().stride == ready[k].stride
    &&& forall|tid: int| #[trigger]
        is_ready(tasks, tid) ==> ready.contains(
            TaskHandle { pid, tid: tid as usize, stride: tasks[tid].unwrap().stride },
        )
    &&& forall|i: int, j: int|
        0 <= i < j < ready.len() && (#[trigger] ready[i]).pid == pid && (#[trigger] ready[j]).pid
            == pid ==> ready[i].tid != ready[j].tid
}

impl ProcessState {
    /// Every ready task of the process waits in `ready` once, under its
    /// present stride, and no other task of the process waits there.
    pub open spec fn scheduled(self, ready: Seq<TaskHandle>) -> bool {
        agrees(self.pid, self.tasks, ready)
    }
}

/// The queue agrees with the tasks as before when no task becomes or
/// ceases to be ready, and no ready task changes its stride.
pub proof fn lemma_agrees_still(
    pid: usize,
    tasks: Seq<Option<TaskState>>,
    after: Seq<Option<TaskState>>,
    ready: Seq<TaskHandle>,
)
    requires
        agrees(pid, tasks, ready),
        after.len() == tasks.len(),
        forall|tid: int| #[trigger] is_ready(after, tid) <==> is_ready(tasks, tid),
        forall|tid: int| #[trigger]
            is_ready(tasks, tid) ==> after[tid].unwrap().stride == tasks[tid].unwrap().stride,
    ensures
        agrees(pid, after, ready),
{
    assert forall|k: int| 0 <= k < ready.len() && (#[trigger] ready[k]).pid == pid implies is_ready(
        after,
        ready[k].tid as int,
    ) && after[ready[k].tid as int].unwrap().stride == ready[k].stride by {
        assert(is_ready(tasks, ready[k].tid as int));
    }
    assert forall|tid: int| #[trigger] is_ready(after, tid) implies ready.contains(
        TaskHandle { pid, tid: tid as usize, stride: after[tid].unwrap().stride },
    ) by {
        assert(is_ready(tasks, tid));
    }
}

/// The queue agrees with the tasks when a task that was not ready
/// becomes ready and joins the tail of the queue.
pub proof fn lemma_agrees_join(
    pid: usize,
    tasks: Seq<Option<TaskState>>,
    ready: Seq<TaskHandle>,
    tid: usize,
    task: TaskState,
)
    requires
        agrees(pid, tasks, ready),
        0 <= tid < tasks.len(),
        !is_ready(tasks, tid as int),
        task.status == TaskStatus::Ready,
    ensures
        agrees(
            pid,
            tasks.update(tid as int, Some(task)),
            ready.push(TaskHandle { pid, tid, stride: task.stride }),
        ),
{
    let after = tasks.update(tid as int, Some(task));
    let longer = ready.push(TaskHandle { pid, tid, stride: task.stride });
    assert forall|k: int|
        0 <= k < longer.len() && (#[trigger] longer[k]).pid == pid implies is_ready(
        after,
        longer[k].tid as int,
    ) && after[longer[k].tid as int].unwrap().stride == longer[k].stride by {
        if k < ready.len() {
            assert(longer[k] == ready[k]);
            assert(is_ready(tasks, ready[k].tid as int));
        }
    }
    assert forall|t: int| #[trigger] is_ready(after, t) implies longer.contains(
        TaskHandle { pid, tid: t as usize, stride: after[t].unwrap().stride },
    ) by {
        if t == tid {
            assert(longer[ready.len() as int] == TaskHandle { pid, tid, stride: task.stride });
        } else {
            assert(is_ready(tasks, t));
            let h = TaskHandle { pid, tid: t as usize, stride: tasks[t].unwrap().stride };
            let k = choose|k: int| 0 <= k < ready.len() && ready[k] == h;
            assert(longer[k] == h);
        }
    }
    assert forall|i: int, j: int|
        0 <= i < j < longer.len() && (#[trigger] longer[i]).pid == pid && (
        #[trigger] longer[j]).pid == pid implies longer[i].tid != longer[j].tid by {
        assert(longer[i] == ready[i]);
        assert(is_ready(tasks, ready[i].tid as int));
        if j < ready.len() {
            assert(longer[j] == ready[j]);
        }
    }
}

/// The queue agrees with the tasks when the task in place `k` of the
/// queue leaves it and is no longer ready.
pub proof fn lemma_agrees_leave(
    pid: usize,
    tasks: Seq<Option<TaskState>>,
    ready: Seq<TaskHandle>,
    k: int,
    task: TaskState,
)
    requires
        agrees(pid, tasks, ready),
        0 <= k < ready.len(),
        ready[k].pid == pid,
        task.status != TaskStatus::Ready,
    ensures
        agrees(pid, tasks.update(ready[k].tid as int, Some(task)), ready.remove(k)),
{
    let tid = ready[k].tid as int;
    assert(is_ready(tasks, tid));
    let after = tasks.update(tid, Some(task));
    let shorter = ready.remove(k);
    assert forall|i: int|
        0 <= i < shorter.len() && (#[trigger] shorter[i]).pid == pid implies is_ready(
        after,
        shorter[i].tid as int,
    ) && after[shorter[i].tid as int].unwrap().stride == shorter[i].stride by {
        let q = if i < k {
            i
        } else {
            i + 1
        };
        assert(shorter[i] == ready[q]);
        assert(is_ready(tasks, ready[q].tid as int));
        if q < k {
            assert(ready[q].tid != ready[k].tid);
        } else {
            assert(ready[k].tid != ready[q].tid);
        }
    }
    assert forall|t: int| #[trigger] is_ready(after, t) implies shorter.contains(
        TaskHandle { pid, tid: t as usize, stride: after[t].unwrap().stride },
    ) by {
        assert(is_ready(tasks, t));
        let h = TaskHandle { pid, tid: t as usize, stride: tasks[t].unwrap().stride };
        let q = choose|q: int| 0 <= q < ready.len() && ready[q] == h;
        assert(q != k);
        if q < k {
            assert(shorter[q] == h);
        } else {
            assert(shorter[q - 1] == h);
        }
    }
    assert forall|i: int, j: int|
        0 <= i < j < shorter.len() && (#[trigger] shorter[i]).pid == pid && (
        #[trigger] shorter[j]).pid == pid implies shorter[i].tid != shorter[j].tid by {
        let qi = if i < k {
            i
        } else {
            i + 1
        };
        let qj = if j < k {
            j
        } else {
            j + 1
        };
        assert(shorter[i] == ready[qi]);
        assert(shorter[j] == ready[qj]);
    }
}

/// The queue agrees with the tasks of a process when a task of another
/// process leaves it.
pub proof fn lemma_agrees_other_leaves(
    pid: usize,
    tasks: Seq<Option<TaskState>>,
    ready: Seq<TaskHandle>,
    k: int,
)
    requires
        agrees(pid, tasks, ready),
        0 <= k < ready.len(),
        ready[k].pid != pid,
    ensures
        agrees(pid, tasks, ready.remove(k)),
{
    let shorter = ready.remove(k);
    assert forall|i: int|
        0 <= i < shorter.len() && (#[trigger] shorter[i]).pid == pid implies is_ready(
        tasks,
        shorter[i].tid as int,
    ) && tasks[shorter[i].tid as int].unwrap().stride == shorter[i].stride by {
        let q = if i < k {
            i
        } else {
            i + 1
        };
        assert(shorter[i] == ready[q]);
    }
    assert forall|t: int| #[trigger] is_ready(tasks, t) implies shorter.contains(
        TaskHandle { pid, tid: t as usize, stride: tasks[t].unwrap().stride },
    ) by {
        let h = TaskHandle { pid, tid: t as usize, stride: tasks[t].unwrap().stride };
        let q = choose|q: int| 0 <= q < ready.len() && ready[q] == h;
        if q < k {
            assert(shorter[q] == h);
        } else {
            assert(shorter[q - 1] == h);
        }
    }
    assert forall|i: int, j: int|
        0 <= i < j < shorter.len() && (#[trigger] shorter[i]).pid == pid && (
        #[trigger] shorter[j]).pid == pid implies shorter[i].tid != shorter[j].tid by {
        let qi = if i < k {
            i
        } else {
            i + 1
        };
        let qj = if j < k {
            j
        } else {
            j + 1
        };
        assert(shorter[i] == ready[qi]);
        assert(shorter[j] == ready[qj]);
    }
}

/// The queue agrees with the tasks of a process when a task of another
/// process joins it.
pub proof fn lemma_agrees_other_joins(
    pid: usize,
    tasks: Seq<Option<TaskState>>,
    ready: Seq<TaskHandle>,
    joined: TaskHandle,
)
    requires
        agrees(pid, tasks, ready),
        joined.pid != pid,
    ensures
        agrees(pid, tasks, ready.push(joined)),
{
    let longer = ready.push(joined);
    assert forall|k: int|
        0 <= k < longer.len() && (#[trigger] longer[k]).pid == pid implies is_ready(
        tasks,
        longer[k].tid as int,
    ) && tasks[longer[k].tid as int].unwrap().stride == longer[k].stride by {
        assert(longer[k] == ready[k]);
    }
    assert forall|t: int| #[trigger] is_ready(tasks, t) implies longer.contains(
        TaskHandle { pid, tid: t as usize, stride: tasks[t].unwrap().stride },
    ) by {
        let h = TaskHandle { pid, tid: t as usize, stride: tasks[t].unwrap().stride };
        let k = choose|k: int| 0 <= k < ready.len() && ready[k] == h;
        assert(longer[k] == h);
    }
    assert forall|i: int, j: int|
        0 <= i < j < longer.len() && (#[trigger] longer[i]).pid == pid && (
        #[trigger] longer[j]).pid == pid implies longer[i].tid != longer[j].tid by {
        assert(longer[i] == ready[i]);
        assert(longer[j] == ready[j]);
    }
}

/// The queue agrees with the tasks when a new ready task takes a free
/// slot of the task table and joins the tail of the queue.
pub proof fn lemma_agrees_new(
    pid: usize,
    tasks: Seq<Option<TaskState>>,
    ready: Seq<TaskHandle>,
    tid: usize,
    task: TaskState,
)
    requires
        agrees(pid, tasks, ready),
        allocates(tasks, tid as int),
        tasks.len() < usize::MAX,
        task.status == TaskStatus::Ready,
    ensures
        agrees(
            pid,
            installed(tasks, tid as int, task),
            ready.push(TaskHandle { pid, tid, stride: task.stride }),
        ),
{
    let after = installed(tasks, tid as int, task);
    let longer = ready.push(TaskHandle { pid, tid, stride: task.stride });
    assert(!is_ready(tasks, tid as int));
    assert forall|k: int|
        0 <= k < longer.len() && (#[trigger] longer[k]).pid == pid implies is_ready(
        after,
        longer[k].tid as int,
    ) && after[longer[k].tid as int].unwrap().stride == longer[k].stride by {
        if k < ready.len() {
            assert(longer[k] == ready[k]);
            assert(is_ready(tasks, ready[k].tid as int));
        }
    }
    assert forall|t: int| #[trigger] is_ready(after, t) implies longer.contains(
        TaskHandle { pid, tid: t as usize, stride: after[t].unwrap().stride },
    ) by {
        if t == tid {
            assert(longer[ready.len() as int] == TaskHandle { pid, tid, stride: task.stride });
        } else {
            assert(is_ready(tasks, t));
            let h = TaskHandle { pid, tid: t as usize, stride: tasks[t].unwrap().stride };
            let k = choose|k: int| 0 <= k < ready.len() && ready[k] == h;
            assert(longer[k] == h);
        }
    }
    assert forall|i: int, j: int|
        0 <= i < j < longer.len() && (#[trigger] longer[i]).pid == pid && (
        #[trigger] longer[j]).pid == pid implies longer[i].tid != longer[j].tid by {
        assert(longer[i] == ready[i]);
        assert(is_ready(tasks, ready[i].tid as int));
        if j < ready.len() {
            assert(longer[j] == ready[j]);
        }
    }
}

/// The queue agrees with the tasks when a task that is not ready
/// leaves the task table.
pub proof fn lemma_agrees_reaped(
    pid: usize,
    tasks: Seq<Option<TaskState>>,
    ready: Seq<TaskHandle>,
    tid: int,
)
    requires
        agrees(pid, tasks, ready),
        0 <= tid < tasks.len(),
        !is_ready(tasks, tid),
    ensures
        agrees(pid, vacated(tasks, tid), ready),
{
    let after = vacated(tasks, tid);
    assert forall|t: int| #[trigger] is_ready(after, t) <==> is_ready(tasks, t) by {}
    lemma_agrees_still(pid, tasks, after, ready);
}

/// A ready queue that agreed with a process agrees with it after a
/// task has changed that neither became nor ceased to be ready, and
/// kept its stride if it is ready.
pub proof fn lemma_scheduled_still(p: ProcessState, tid: int, task: TaskState)
    requires
        p.has_task(tid),
        p.task(tid).status == TaskStatus::Ready || task.status == TaskStatus::Ready ==> task.status
            == p.task(tid).status && task.stride == p.task(tid).stride,
    ensures
        forall|ready: Seq<TaskHandle>| #[trigger]
            p.scheduled(ready) ==> p.with_task(tid, task).scheduled(ready),
{
    let after = p.tasks.update(tid, Some(task));
    assert forall|ready: Seq<TaskHandle>| #[trigger] p.scheduled(ready) implies p.with_task(
        tid,
        task,
    ).scheduled(ready) by {
        assert forall|t: int| #[trigger] is_ready(after, t) <==> is_ready(p.tasks, t) by {}
        lemma_agrees_still(p.pid, p.tasks, after, ready);
    }
}

/// A ready queue that agreed with a process agrees with it after a
/// task that was not ready has become ready and joined its tail.
pub proof fn lemma_scheduled_join(
    p: ProcessState,
    ready: Seq<TaskHandle>,
    tid: usize,
    task: TaskState,
)
    requires
        p.scheduled(ready),
        p.has_task(tid as int),
        p.task(tid as int).status != TaskStatus::Ready,
        task.status == TaskStatus::Ready,
        task.stride == p.task(tid as int).stride,
    ensures
        p.with_task(tid as int, task).scheduled(ready.push(p.handle(tid as int))),
{
    lemma_agrees_join(p.pid, p.tasks, ready, tid, task);
}

/// Whether the ready queue holds an entry for task `tid` of process `pid`.
pub open spec fn waits_for_processor(ready: Seq<TaskHandle>, pid: usize, tid: usize) -> bool {
    exists|k: int| 0 <= k < ready.len() && (#[trigger] ready[k]).pid == pid && ready[k].tid == tid
}

/// A task is in one place at a time. It stands in the ready queue
/// exactly while it is ready, and in the queue of a mutex, a semaphore
/// or a condition variable exactly while it sleeps on that object; it
/// sleeps on one object at most, and only while it is blocked. A task
/// that runs or has ended stands in no queue.
pub proof fn lemma_one_place(p: ProcessState, ready: Seq<TaskHandle>, tid: usize)
    requires
        p.wf(),
        p.scheduled(ready),
        p.has_task(tid as int),
    ensures
        waits_for_processor(ready, p.pid, tid) <==> p.task(tid as int).status == TaskStatus::Ready,
        forall|slot: int| #[trigger]
            p.has_mutex(slot) ==> (p.mutex(slot).mutex.waiters.contains(tid) <==> p.task(
                tid as int,
            ).wait == Wait::Mutex(slot as usize)),
        forall|slot: int| #[trigger]
            p.has_semaphore(slot) ==> (p.semaphore(slot).waiters.contains(tid) <==> p.task(
                tid as int,
            ).wait == Wait::Semaphore(slot as usize)),
        forall|slot: int| #[trigger]
            p.has_condvar(slot) ==> (p.condvar(slot).contains(tid) <==> p.task(tid as int).wait
                == Wait::Condvar(slot as usize)),
        p.task(tid as int).wait.queued() ==> p.task(tid as int).status == TaskStatus::Blocked,
{
    let task = p.task(tid as int);
    assert(p.task_wf(tid as int));
    if task.status == TaskStatus::Ready {
        assert(is_ready(p.tasks, tid as int));
        let h = TaskHandle { pid: p.pid, tid, stride: task.stride };
        let k = choose|k: int| 0 <= k < ready.len() && ready[k] == h;
        assert(ready[k].pid == p.pid && ready[k].tid == tid);
    }
    if waits_for_processor(ready, p.pid, tid) {
        let k = choose|k: int|
            0 <= k < ready.len() && (#[trigger] ready[k]).pid == p.pid && ready[k].tid == tid;
        assert(is_ready(p.tasks, ready[k].tid as int));
    }
    assert forall|slot: int| #[trigger] p.has_mutex(slot) implies (p.mutex(
        slot,
    ).mutex.waiters.contains(tid) <==> task.wait == Wait::Mutex(slot as usize)) by {
        assert(p.mutex_wf(slot));
        let queue = p.mutex(slot).mutex.waiters;
        if queue.contains(tid) {
            let k = choose|k: int| 0 <= k < queue.len() && queue[k] == tid;
            assert(p.waits_on(queue[k] as int, Wait::Mutex(slot as usize)));
        }
    }
    assert forall|slot: int| #[trigger] p.has_semaphore(slot) implies (p.semaphore(
        slot,
    ).waiters.contains(tid) <==> task.wait == Wait::Semaphore(slot as usize)) by {
        assert(p.semaphore_wf(slot));
        let queue = p.semaphore(slot).waiters;
        if queue.contains(tid) {
            let k = choose|k: int| 0 <= k < queue.len() && queue[k] == tid;
            assert(p.waits_on(queue[k] as int, Wait::Semaphore(slot as usize)));
        }
    }
    assert forall|slot: int| #[trigger] p.has_condvar(slot) implies (p.condvar(slot).contains(
        tid,
    ) <==> task.wait == Wait::Condvar(slot as usize)) by {
        assert(p.condvar_wf(slot));
        let queue = p.condvar(slot);
        if queue.contains(tid) {
            let k = choose|k: int| 0 <= k < queue.len() && queue[k] == tid;
            assert(p.waits_on(queue[k] as int, Wait::Condvar(slot as usize)));
        }
    }
}

} // verus!
