//! System calls on the calling task and its place in the schedule.

use vstd::prelude::*;
use crate::config::{MAX_PID, MAX_SYSCALL_NUM};
use crate::manager::{is_full, TaskHandle, TaskManager};
use crate::process::{lemma_task_change_wf, ProcessControlBlock, ProcessState};
use crate::schedule::{lemma_agrees_reaped, lemma_scheduled_still};
use crate::table::{allocates, installed, vacated};
use crate::task::{TaskState, TaskStatus, Wait};

verus! {

/// A point in time, in seconds and the microseconds of the second
/// begun.
#[derive(Debug)]
pub struct TimeVal {
    pub sec: usize,
    pub usec: usize,
}

/// What a task can learn about itself.
pub struct TaskInfo {
    /// Where the task stands in its life.
    pub status: TaskStatus,
    /// How often the task has made each system call.
    pub syscall_times: [u32; MAX_SYSCALL_NUM],
    /// For how long the task has run, in milliseconds.
    pub time: usize,
}

/// A time of `run_time_us` microseconds in milliseconds, where the
/// seconds count up to 65535 and start again from 0.
pub open spec fn run_time_ms(run_time_us: usize) -> int {
    ((run_time_us / 1_000_000) % 65536) * 1000 + (run_time_us % 1_000_000) / 1000
}

/// Writes to `ti` where task `tid` stands in its life, the counts
/// `syscall_times` of its system calls, and the time `run_time_us` for
/// which it has run, in milliseconds. The result is 0.
pub fn sys_task_info(
    process: &ProcessControlBlock,
    tid: usize,
    syscall_times: [u32; MAX_SYSCALL_NUM],
    run_time_us: usize,
    ti: &mut TaskInfo,
) -> (code: isize)
    requires
        process@.has_task(tid as int),
    ensures
        code == 0,
        final(ti).status == process@.task(tid as int).status,
        final(ti).syscall_times == syscall_times,
        final(ti).time == run_time_ms(run_time_us),
{
    let status = match process.task(tid) {
        Some(task) => task.status(),
        None => TaskStatus::Zombie,
    };
    let seconds: usize = (run_time_us / 1_000_000) & 0xffff;
    assert(seconds == (run_time_us / 1_000_000) % 65536) by (bit_vector)
        requires
            seconds == (run_time_us / 1_000_000) & 0xffff,
    ;
    ti.status = status;
    ti.syscall_times = syscall_times;
    ti.time = seconds * 1000 + run_time_us % 1_000_000 / 1000;
    0
}

/// The task `tid` ends with `exit_code`. It never runs again.
pub fn sys_exit(process: &mut ProcessControlBlock, tid: usize, exit_code: i32)
    requires
        old(process)@.wf(),
        old(process)@.runs(tid as int),
    ensures
        final(process)@ == old(process)@.with_task(
            tid as int,
            old(process)@.task(tid as int).ended(exit_code),
        ),
        final(process)@.wf(),
        forall|ready: Seq<TaskHandle>| #[trigger]
            old(process)@.scheduled(ready) ==> final(process)@.scheduled(ready),
{
    process.exit(tid, exit_code);
}

/// The running task `tid` gives up the processor for other tasks: it is
/// ready again and joins the tail of the ready queue. The result is 0.
pub fn sys_yield(process: &mut ProcessControlBlock, manager: &mut TaskManager, tid: usize) -> (code:
    isize)
    requires
        old(process)@.wf(),
        old(process)@.runs(tid as int),
    ensures
        code == 0,
        final(process)@ == old(process)@.with_task(
            tid as int,
            old(process)@.task(tid as int).woken(),
        ),
        final(manager)@ == old(manager)@.push(old(process)@.handle(tid as int)),
        final(process)@.wf(),
        old(process)@.scheduled(old(manager)@) ==> final(process)@.scheduled(final(manager)@),
{
    process.suspend(manager, tid);
    0
}

/// The id of the process.
pub fn sys_getpid(process: &ProcessControlBlock) -> (pid: isize)
    ensures
        pid == process@.pid as isize,
{
    process.getpid() as isize
}

/// Writes the time `now_us`, given in microseconds, to `ts` as seconds
/// and microseconds, and returns 0.
pub fn sys_get_time(now_us: usize, ts: &mut TimeVal, _tz: usize) -> (code: isize)
    ensures
        code == 0,
        final(ts).sec == now_us / 1_000_000,
        final(ts).usec == now_us % 1_000_000,
{
    ts.sec = now_us / 1_000_000;
    ts.usec = now_us % 1_000_000;
    0
}

/// The running task `tid` makes a copy of itself. What the scheduler
/// sees of it is a new task: it is created ready in the lowest free slot
/// of the task table, with stride 0 and the default priority, and joins
/// the tail of the ready queue. Its id is the result.
pub fn sys_fork(process: &mut ProcessControlBlock, manager: &mut TaskManager, tid: usize) -> (id:
    isize)
    requires
        old(process)@.wf(),
        old(process)@.runs(tid as int),
        old(process)@.tasks.len() < isize::MAX,
    ensures
        allocates(old(process)@.tasks, id as int),
        final(process)@ == (ProcessState {
            tasks: installed(
                old(process)@.tasks,
                id as int,
                TaskState::fresh(old(process)@.semaphores.len()),
            ),
            ..old(process)@
        }),
        final(manager)@ == old(manager)@.push(
            TaskHandle { pid: old(process)@.pid, tid: id as usize, stride: 0 },
        ),
        final(process)@.wf(),
        old(process)@.scheduled(old(manager)@) ==> final(process)@.scheduled(final(manager)@),
{
    let new_tid: usize = process.spawn_task(manager);
    new_tid as isize
}

/// Starts a new task, unless the kernel has as many ready tasks as it
/// admits or the program to run was not found: the result is then -1
/// and nothing changes. Otherwise the task is created ready in the
/// lowest free slot of the task table, joins the tail of the ready
/// queue, and its id is the result.
pub fn sys_spawn(
    process: &mut ProcessControlBlock,
    manager: &mut TaskManager,
    image_found: bool,
) -> (id: isize)
    requires
        old(process)@.wf(),
        old(process)@.tasks.len() < isize::MAX,
    ensures
        spawn_refused(old(manager)@, image_found) ==> id == -1 && final(process)@ == old(process)@
            && final(manager)@ == old(manager)@,
        !spawn_refused(old(manager)@, image_found) ==> {
            &&& allocates(old(process)@.tasks, id as int)
            &&& final(process)@ == (ProcessState {
                tasks: installed(
                    old(process)@.tasks,
                    id as int,
                    TaskState::fresh(old(process)@.semaphores.len()),
                ),
                ..old(process)@
            })
            &&& final(manager)@ == old(manager)@.push(
                TaskHandle { pid: old(process)@.pid, tid: id as usize, stride: 0 },
            )
        },
        final(process)@.wf(),
        old(process)@.scheduled(old(manager)@) ==> final(process)@.scheduled(final(manager)@),
{
    if is_full(manager) {
        return -1;
    }
    if !image_found {
        return -1;
    }
    let tid: usize = process.spawn_task(manager);
    tid as isize
}

/// Whether a new task is refused: the ready queue is full, or there is
/// no program for the task.
pub open spec fn spawn_refused(ready: Seq<TaskHandle>, image_found: bool) -> bool {
    ready.len() >= MAX_PID || !image_found
}

/// Gives task `tid` the priority `prio` and returns it. A priority
/// below 2 is refused with -1, and nothing changes.
pub fn sys_set_priority(process: &mut ProcessControlBlock, tid: usize, prio: isize) -> (code: isize)
    requires
        old(process)@.wf(),
        old(process)@.runs(tid as int),
    ensures
        code == (if prio < 2 {
            -1isize
        } else {
            prio
        }),
        final(process)@ == (if prio < 2 {
            old(process)@
        } else {
            old(process)@.with_task(
                tid as int,
                (TaskState { priority: prio as usize, ..old(process)@.task(tid as int) }),
            )
        }),
        final(process)@.wf(),
        forall|ready: Seq<TaskHandle>| #[trigger]
            old(process)@.scheduled(ready) ==> final(process)@.scheduled(ready),
{
    if prio < 2 {
        return -1;
    }
    proof {
        assert(old(process)@.task_wf(tid as int));
        lemma_task_change_wf(
            old(process)@,
            tid as int,
            TaskState { priority: prio as usize, ..old(process)@.task(tid as int) },
        );
        lemma_scheduled_still(
            old(process)@,
            tid as int,
            TaskState { priority: prio as usize, ..old(process)@.task(tid as int) },
        );
    }
    match &mut process.tasks[tid] {
        Some(task) => {
            task.set_priority(prio as usize);
        },
        None => {},
    }
    proof {
        process.lemma_only_tasks_changed(old(process));
        assert(process@.tasks =~= old(process)@.tasks.update(
            tid as int,
            Some(TaskState { priority: prio as usize, ..old(process)@.task(tid as int) }),
        ));
    }
    prio
}

/// Whether task `child` is one that the caller `tid` waits for with
/// `pid`: another task of the process, any with -1, else the one whose
/// id is `pid`.
pub open spec fn waited_for(pre: ProcessState, tid: usize, pid: isize, child: int) -> bool {
    pre.has_task(child) && child != tid && (pid == -1 || pid == child)
}

/// Whether task `child` has ended and is waited for.
pub open spec fn ended_child(pre: ProcessState, tid: usize, pid: isize, child: int) -> bool {
    waited_for(pre, tid, pid, child) && pre.task(child).status == TaskStatus::Zombie
}

/// Task `tid` collects a task of its process that has ended.
///
/// With `pid` -1 any other task is meant, else the task with the id
/// `pid`. Where there is no such task the result is -1; where there is
/// one but none has ended, -2. Otherwise the task with the lowest id
/// among those that have ended leaves the task table, its exit code is
/// written to `exit_code`, and its id is the result.
pub fn sys_waitpid(
    process: &mut ProcessControlBlock,
    tid: usize,
    pid: isize,
    exit_code: &mut i32,
) -> (code: isize)
    requires
        old(process)@.wf(),
        old(process)@.tasks.len() <= isize::MAX,
    ensures
        code == -1 <==> forall|c: int| !waited_for(old(process)@, tid, pid, c),
        code == -2 <==> (exists|c: int| waited_for(old(process)@, tid, pid, c)) && forall|c: int|
            !ended_child(old(process)@, tid, pid, c),
        code == -1 || code == -2 ==> final(process)@ == old(process)@ && *final(exit_code) == *old(
            exit_code,
        ),
        code != -1 && code != -2 ==> {
            &&& ended_child(old(process)@, tid, pid, code as int)
            &&& forall|c: int| 0 <= c < code ==> !ended_child(old(process)@, tid, pid, c)
            &&& final(process)@ == (ProcessState {
                tasks: vacated(old(process)@.tasks, code as int),
                ..old(process)@
            })
            &&& *final(exit_code) == old(process)@.task(code as int).exit_code
        },
        final(process)@.wf(),
        forall|ready: Seq<TaskHandle>| #[trigger]
            old(process)@.scheduled(ready) ==> final(process)@.scheduled(ready),
{
    let n: usize = process.tasks.len();
    let mut any = false;
    let mut found: Option<usize> = None;
    let mut c: usize = 0;
    while c < n && found.is_none()
        invariant
            c <= n,
            n == process.tasks@.len(),
            n <= isize::MAX,
            *process == *old(process),
            any <==> exists|j: int| 0 <= j < c && waited_for(process@, tid, pid, j),
            found is None ==> forall|j: int| 0 <= j < c ==> !ended_child(process@, tid, pid, j),
            found is Some ==> {
                &&& found.unwrap() + 1 == c
                &&& ended_child(process@, tid, pid, found.unwrap() as int)
                &&& forall|j: int|
                    0 <= j < found.unwrap() ==> !ended_child(process@, tid, pid, j)
            },
        decreases n - c, (if found is None { 1int } else { 0int }),
    {
        let wanted = c != tid && (pid == -1 || (pid >= 0 && pid as usize == c));
        match &process.tasks[c] {
            Some(task) => {
                if wanted {
                    assert(waited_for(process@, tid, pid, c as int));
                    any = true;
                    if task.status() == TaskStatus::Zombie {
                        found = Some(c);
                    }
                }
            },
            None => {},
        }
        c += 1;
    }
    match found {
        Some(child) => {
            let code: i32 = match &process.tasks[child] {
                Some(task) => task.exit_code(),
                None => 0,
            };
            process.tasks[child] = None;
            *exit_code = code;
            proof {
                process.lemma_only_tasks_changed(old(process));
                assert(process@.tasks =~= vacated(old(process)@.tasks, child as int));
                lemma_reaped_wf(old(process)@, child as int);
                assert forall|ready: Seq<TaskHandle>| #[trigger]
                    old(process)@.scheduled(ready) implies process@.scheduled(ready) by {
                    lemma_agrees_reaped(
                        old(process)@.pid,
                        old(process)@.tasks,
                        ready,
                        child as int,
                    );
                }
            }
            child as isize
        },
        None => {
            if any {
                -2
            } else {
                -1
            }
        },
    }
}

/// The records of a process stay sound when a task that has ended
/// leaves the task table.
proof fn lemma_reaped_wf(pre: ProcessState, child: int)
    requires
        pre.wf(),
        pre.has_task(child),
        pre.task(child).status == TaskStatus::Zombie,
    ensures
        (ProcessState { tasks: vacated(pre.tasks, child), ..pre }).wf(),
{
    let post = ProcessState { tasks: vacated(pre.tasks, child), ..pre };
    assert(pre.task_wf(child));
    assert forall|t: int| #[trigger] post.has_task(t) implies post.task_wf(t) by {
        assert(pre.has_task(t));
        assert(pre.task_wf(t));
    }
    assert forall|i: int| #[trigger] post.has_mutex(i) implies post.mutex_wf(i) by {
        assert(pre.has_mutex(i));
        assert(pre.mutex_wf(i));
        let queue = pre.mutex(i).mutex.waiters;
        assert forall|k: int| 0 <= k < queue.len() implies post.waits_on(
            #[trigger] queue[k] as int,
            Wait::Mutex(i as usize),
        ) by {
            assert(pre.waits_on(queue[k] as int, Wait::Mutex(i as usize)));
        }
    }
    assert forall|i: int| #[trigger] post.has_semaphore(i) implies post.semaphore_wf(i) by {
        assert(pre.has_semaphore(i));
        assert(pre.semaphore_wf(i));
        let queue = pre.semaphore(i).waiters;
        assert forall|k: int| 0 <= k < queue.len() implies post.waits_on(
            #[trigger] queue[k] as int,
            Wait::Semaphore(i as usize),
        ) by {
            assert(pre.waits_on(queue[k] as int, Wait::Semaphore(i as usize)));
        }
    }
    assert forall|i: int| #[trigger] post.has_condvar(i) implies post.condvar_wf(i) by {
        assert(pre.has_condvar(i));
        assert(pre.condvar_wf(i));
        let queue = pre.condvar(i);
        assert forall|k: int| 0 <= k < queue.len() implies post.waits_on(
            #[trigger] queue[k] as int,
            Wait::Condvar(i as usize),
        ) by {
            assert(pre.waits_on(queue[k] as int, Wait::Condvar(i as usize)));
        }
    }
}

} // verus!
