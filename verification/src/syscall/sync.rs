//! System calls on mutexes, semaphores and condition variables.

use vstd::prelude::*;
use crate::config::{DEADLOCK, NO_OWNER};
use crate::deadlock::safe;
use crate::manager::{TaskHandle, TaskManager};
use crate::process::{
    lemma_drop_first_contains, lemma_push_contains, lemma_queue_frame, lemma_queue_pop,
    lemma_queue_push, lemma_task_change_wf, MutexSlot, ProcessControlBlock, ProcessState,
};
use crate::schedule::{is_ready, lemma_agrees_still};
use crate::task::{TaskState, Wait};
use crate::timer::{Timer, TimerList};
use crate::sync::condvar::{after_signal, signalled, Condvar};
use crate::sync::mutex::{Mutex, MutexKind, MutexState};
use crate::sync::semaphore::{Semaphore, SemaphoreState};
use crate::table::{allocates, find_free, installed};

verus! {

/// The running task `tid` sleeps for `ms` milliseconds from `now_ms`,
/// the time at the call: a timer is set for the end of the sleep, and
/// the task is blocked until the timer wakes it. The result is 0.
pub fn sys_sleep(
    process: &mut ProcessControlBlock,
    timers: &mut TimerList,
    tid: usize,
    now_ms: usize,
    ms: usize,
) -> (code: isize)
    requires
        old(process)@.wf(),
        old(process)@.runs(tid as int),
        now_ms + ms <= usize::MAX,
    ensures
        code == 0,
        final(timers)@ == old(timers)@.push(
            Timer { expire_ms: (now_ms + ms) as usize, pid: old(process)@.pid, tid },
        ),
        final(process)@ == old(process)@.with_task(
            tid as int,
            old(process)@.task(tid as int).blocked_on(Wait::Timer),
        ),
        final(process)@.wf(),
        forall|ready: Seq<TaskHandle>| #[trigger]
            old(process)@.scheduled(ready) ==> final(process)@.scheduled(ready),
{
    let expire_ms: usize = now_ms + ms;
    proof {
        assert(old(process)@.task_wf(tid as int));
        lemma_task_change_wf(
            old(process)@,
            tid as int,
            old(process)@.task(tid as int).blocked_on(Wait::Timer),
        );
    }
    timers.add_timer(expire_ms, process.getpid(), tid);
    process.block_task(tid, Wait::Timer);
    0
}

/// The kind of mutex that a caller asks for.
pub open spec fn kind_for(blocking: bool) -> MutexKind {
    if blocking {
        MutexKind::Blocking
    } else {
        MutexKind::Spin
    }
}

/// Creates an unlocked mutex without owner, blocking or spinning as
/// asked, in the lowest free slot of the mutex table, and returns the slot.
pub fn sys_mutex_create(process: &mut ProcessControlBlock, blocking: bool) -> (id: isize)
    requires
        old(process)@.wf(),
        old(process)@.mutexes.len() < isize::MAX,
    ensures
        allocates(old(process)@.mutexes, id as int),
        final(process)@ == (ProcessState {
            mutexes: installed(
                old(process)@.mutexes,
                id as int,
                MutexSlot { owner: NO_OWNER, mutex: MutexState::fresh(kind_for(blocking)) },
            ),
            ..old(process)@
        }),
        final(process)@.wf(),
        forall|ready: Seq<TaskHandle>| #[trigger]
            old(process)@.scheduled(ready) ==> final(process)@.scheduled(ready),
{
    let mutex = if !blocking {
        Mutex::new(MutexKind::Spin)
    } else {
        Mutex::new(MutexKind::Blocking)
    };
    let slot: usize = find_free(&process.mutex_list);
    proof {
        assert(allocates(old(process)@.mutexes, slot as int));
    }
    if slot < process.mutex_list.len() {
        process.mutex_list[slot] = Some((NO_OWNER, mutex));
    } else {
        process.mutex_list.push(Some((NO_OWNER, mutex)));
    }
    proof {
        let entry = MutexSlot { owner: NO_OWNER, mutex: MutexState::fresh(kind_for(blocking)) };
        assert(process@.mutexes =~= installed(old(process)@.mutexes, slot as int, entry));
        assert(process@.tasks =~= old(process)@.tasks);
        assert(process@.semaphores =~= old(process)@.semaphores);
        assert(process@.condvars =~= old(process)@.condvars);
        lemma_install_mutex_wf(old(process)@, slot as int, kind_for(blocking));
    }
    slot as isize
}

/// A new mutex leaves the records of a process sound.
proof fn lemma_install_mutex_wf(pre: ProcessState, slot: int, kind: MutexKind)
    requires
        pre.wf(),
        allocates(pre.mutexes, slot),
        pre.mutexes.len() < usize::MAX,
    ensures
        (ProcessState {
            mutexes: installed(
                pre.mutexes,
                slot,
                MutexSlot { owner: NO_OWNER, mutex: MutexState::fresh(kind) },
            ),
            ..pre
        }).wf(),
{
    let post = ProcessState {
        mutexes: installed(
            pre.mutexes,
            slot,
            MutexSlot { owner: NO_OWNER, mutex: MutexState::fresh(kind) },
        ),
        ..pre
    };
    assert forall|tid: int| #[trigger] post.has_task(tid) implies post.task_wf(tid) by {
        assert(pre.has_task(tid));
        assert(pre.task_wf(tid));
        match pre.task(tid).wait {
            crate::task::Wait::Mutex(m) => {
                assert(pre.has_mutex(m as int));
                assert(post.has_mutex(m as int));
            },
            _ => {},
        }
    }
    assert forall|i: int| #[trigger] post.has_mutex(i) implies post.mutex_wf(i) by {
        if i != slot {
            assert(pre.has_mutex(i));
            assert(pre.mutex_wf(i));
            assert(post.mutex(i) == pre.mutex(i));
        }
    }
    assert forall|i: int| #[trigger] post.has_semaphore(i) implies post.semaphore_wf(i) by {
        assert(pre.has_semaphore(i));
        assert(pre.semaphore_wf(i));
    }
    assert forall|i: int| #[trigger] post.has_condvar(i) implies post.condvar_wf(i) by {
        assert(pre.has_condvar(i));
        assert(pre.condvar_wf(i));
    }
}

/// How a request of task `tid` for the mutex in `slot` ends.
pub enum LockCase {
    /// The mutex had no owner: the task owns it now.
    Taken,
    /// A blocking mutex has an owner: the task sleeps in its queue.
    Sleeps,
    /// A spin mutex is owned by another task: the caller gives up the
    /// processor and asks again when it next runs.
    Spins,
    /// A spin mutex is owned by the caller, who would wait for itself.
    Refused,
}

pub open spec fn lock_case(pre: ProcessState, tid: usize, slot: usize) -> LockCase {
    let entry = pre.mutex(slot as int);
    if entry.owner == NO_OWNER {
        LockCase::Taken
    } else if entry.mutex.kind == MutexKind::Blocking {
        LockCase::Sleeps
    } else if entry.owner != tid {
        LockCase::Spins
    } else {
        LockCase::Refused
    }
}

/// The process after task `tid` has asked for the mutex in `slot`.
pub open spec fn after_mutex_lock(pre: ProcessState, tid: usize, slot: usize) -> ProcessState {
    let entry = pre.mutex(slot as int);
    let task = pre.task(tid as int);
    match lock_case(pre, tid, slot) {
        LockCase::Taken => pre.with_mutex(
            slot as int,
            MutexSlot { owner: tid, mutex: entry.mutex.lock(tid) },
        ),
        LockCase::Sleeps => pre.with_mutex(
            slot as int,
            MutexSlot { owner: entry.owner, mutex: entry.mutex.lock(tid) },
        ).with_task(tid as int, task.blocked_on(Wait::Mutex(slot))),
        LockCase::Spins => pre.with_task(tid as int, task.spinning(slot)),
        LockCase::Refused => pre,
    }
}

/// Task `tid` asks for the mutex in slot `mutex_id`.
///
/// A mutex without owner is locked and the caller recorded as its owner.
/// A blocking mutex that has an owner queues the caller, who is blocked
/// from then on; the release that reaches it in the queue makes it the
/// owner. A spin mutex that another task owns leaves the caller ready at
/// the tail of the ready queue, marked to ask again. A spin mutex that
/// the caller owns itself is refused with `DEADLOCK` and nothing changes.
/// In every other case the result is 0.
pub fn sys_mutex_lock(
    process: &mut ProcessControlBlock,
    manager: &mut TaskManager,
    tid: usize,
    mutex_id: usize,
) -> (code: isize)
    requires
        old(process)@.wf(),
        old(process)@.runs(tid as int),
        old(process)@.has_mutex(mutex_id as int),
    ensures
        code == (if lock_case(old(process)@, tid, mutex_id) is Refused {
            DEADLOCK
        } else {
            0
        }),
        final(process)@ == after_mutex_lock(old(process)@, tid, mutex_id),
        final(manager)@ == (if lock_case(old(process)@, tid, mutex_id) is Spins {
            old(manager)@.push(old(process)@.handle(tid as int))
        } else {
            old(manager)@
        }),
        final(process)@.wf(),
        old(process)@.scheduled(old(manager)@) ==> final(process)@.scheduled(final(manager)@),
{
    proof {
        assert(old(process)@.mutex_wf(mutex_id as int));
        assert(old(process)@.task_wf(tid as int));
        lemma_mutex_lock_wf(old(process)@, tid, mutex_id);
    }
    let (owner, locktype) = match &process.mutex_list[mutex_id] {
        Some(node) => (node.0, node.1.get_locktype()),
        None => (NO_OWNER, 0),
    };
    let sleeps = owner != NO_OWNER && locktype == 1;
    let spins = owner != NO_OWNER && locktype != 1 && owner != tid;
    if owner != NO_OWNER && !sleeps && !spins {
        return DEADLOCK;
    }
    if !spins {
        match &mut process.mutex_list[mutex_id] {
            Some(node) => {
                if !sleeps {
                    node.0 = tid;
                }
                node.1.lock(tid);
            },
            None => {},
        }
    }
    proof {
        let entry = old(process)@.mutex(mutex_id as int);
        assert(process@.tasks =~= old(process)@.tasks);
        assert(process@.semaphores =~= old(process)@.semaphores);
        assert(process@.condvars =~= old(process)@.condvars);
        if spins {
            assert(process@.mutexes =~= old(process)@.mutexes);
        } else {
            assert(process@.mutexes =~= old(process)@.mutexes.update(
                mutex_id as int,
                Some(
                    MutexSlot {
                        owner: if sleeps {
                            entry.owner
                        } else {
                            tid
                        },
                        mutex: entry.mutex.lock(tid),
                    },
                ),
            ));
        }
    }
    proof {
        if old(process)@.scheduled(old(manager)@) {
            assert(process@.scheduled(old(manager)@));
        }
    }
    if sleeps {
        process.block_task(tid, Wait::Mutex(mutex_id));
    } else if spins {
        process.yield_task(manager, tid, Wait::Spin(mutex_id));
    }
    0
}

/// A request for a mutex leaves the records of a process sound.
proof fn lemma_mutex_lock_wf(pre: ProcessState, tid: usize, slot: usize)
    requires
        pre.wf(),
        pre.runs(tid as int),
        pre.has_mutex(slot as int),
    ensures
        after_mutex_lock(pre, tid, slot).wf(),
{
    let post = after_mutex_lock(pre, tid, slot);
    let entry = pre.mutex(slot as int);
    assert(pre.mutex_wf(slot as int));
    assert(pre.task_wf(tid as int));
    assert(pre.task(tid as int).wait == Wait::Nothing);
    assert forall|t: int| #[trigger] post.has_task(t) implies post.task_wf(t) by {
        assert(pre.has_task(t));
        assert(pre.task_wf(t));
        if post.task(t).wait == Wait::Mutex(slot) {
            lemma_push_contains(pre.mutex(slot as int).mutex.waiters, tid, t as usize);
        }
    }
    assert forall|i: int| #[trigger] post.has_mutex(i) implies post.mutex_wf(i) by {
        assert(pre.has_mutex(i));
        assert(pre.mutex_wf(i));
        let queue = pre.mutex(i).mutex.waiters;
        if i == slot && lock_case(pre, tid, slot) is Sleeps {
            lemma_queue_push(pre, post, queue, Wait::Mutex(slot), tid);
        } else {
            lemma_queue_frame(pre, post, queue, Wait::Mutex(i as usize), tid as int);
        }
    }
    assert forall|i: int| #[trigger] post.has_semaphore(i) implies post.semaphore_wf(i) by {
        assert(pre.has_semaphore(i));
        assert(pre.semaphore_wf(i));
        lemma_queue_frame(
            pre,
            post,
            pre.semaphore(i).waiters,
            Wait::Semaphore(i as usize),
            tid as int,
        );
    }
    assert forall|i: int| #[trigger] post.has_condvar(i) implies post.condvar_wf(i) by {
        assert(pre.has_condvar(i));
        assert(pre.condvar_wf(i));
        lemma_queue_frame(pre, post, pre.condvar(i), Wait::Condvar(i as usize), tid as int);
    }
}

/// The ready queue after the task `woken`, if there is one, has joined it.
pub open spec fn with_woken(
    ready: Seq<TaskHandle>,
    pre: ProcessState,
    woken: Option<usize>,
) -> Seq<TaskHandle> {
    match woken {
        Some(tid) => ready.push(pre.handle(tid as int)),
        None => ready,
    }
}

/// The process after the mutex in `slot` was released: its oldest
/// waiter is ready and owns it; without a waiter it is free and has no
/// owner.
pub open spec fn released(pre: ProcessState, slot: usize) -> ProcessState {
    let entry = pre.mutex(slot as int);
    match entry.mutex.next_waiter() {
        Some(next) => pre.with_mutex(
            slot as int,
            MutexSlot { owner: next, mutex: entry.mutex.unlock() },
        ).with_task(next as int, pre.task(next as int).woken()),
        None => pre.with_mutex(
            slot as int,
            MutexSlot { owner: NO_OWNER, mutex: entry.mutex.unlock() },
        ),
    }
}

/// Releases the mutex in `slot` and makes the task ready to which the
/// release hands it.
fn release_mutex(process: &mut ProcessControlBlock, manager: &mut TaskManager, slot: usize)
    requires
        old(process)@.wf(),
        old(process)@.has_mutex(slot as int),
    ensures
        final(process)@ == released(old(process)@, slot),
        final(manager)@ == with_woken(
            old(manager)@,
            old(process)@,
            old(process)@.mutex(slot as int).mutex.next_waiter(),
        ),
        final(process)@.wf(),
        old(process)@.scheduled(old(manager)@) ==> final(process)@.scheduled(final(manager)@),
{
    proof {
        lemma_released_wf(old(process)@, slot);
    }
    let mut woken: Option<usize> = None;
    match &mut process.mutex_list[slot] {
        Some(node) => {
            match node.1.get_next_task() {
                Some(taskid) => {
                    node.0 = taskid;
                },
                None => {
                    node.0 = NO_OWNER;
                },
            }
            woken = node.1.unlock();
        },
        None => {},
    }
    proof {
        let entry = old(process)@.mutex(slot as int);
        assert(process@.tasks =~= old(process)@.tasks);
        assert(process@.semaphores =~= old(process)@.semaphores);
        assert(process@.condvars =~= old(process)@.condvars);
        assert(process@.mutexes =~= old(process)@.mutexes.update(
            slot as int,
            Some(
                MutexSlot {
                    owner: match woken {
                        Some(next) => next,
                        None => NO_OWNER,
                    },
                    mutex: entry.mutex.unlock(),
                },
            ),
        ));
        assert(old(process)@.mutex_wf(slot as int));
    }
    match woken {
        Some(next) => {
            proof {
                assert(old(process)@.mutex(slot as int).mutex.waiters[0] == next);
                assert(old(process)@.waits_on(next as int, Wait::Mutex(slot)));
            }
            process.wake_task(manager, next);
        },
        None => {},
    }
}

/// The release of a mutex leaves the records of a process sound.
proof fn lemma_released_wf(pre: ProcessState, slot: usize)
    requires
        pre.wf(),
        pre.has_mutex(slot as int),
    ensures
        released(pre, slot).wf(),
{
    let post = released(pre, slot);
    let entry = pre.mutex(slot as int);
    assert(pre.mutex_wf(slot as int));
    match entry.mutex.next_waiter() {
        Some(next) => {
            assert(entry.mutex.waiters[0] == next);
            assert(pre.waits_on(next as int, Wait::Mutex(slot)));
            assert(pre.task_wf(next as int));
            assert forall|t: int| #[trigger] post.has_task(t) implies post.task_wf(t) by {
                assert(pre.has_task(t));
                assert(pre.task_wf(t));
                if post.task(t).wait == Wait::Mutex(slot) {
                    lemma_drop_first_contains(pre.mutex(slot as int).mutex.waiters, t as usize);
                }
            }
            assert forall|i: int| #[trigger] post.has_mutex(i) implies post.mutex_wf(i) by {
                assert(pre.has_mutex(i));
                assert(pre.mutex_wf(i));
                let queue = pre.mutex(i).mutex.waiters;
                if i == slot {
                    lemma_queue_pop(pre, post, queue, Wait::Mutex(slot));
                } else {
                    lemma_queue_frame(pre, post, queue, Wait::Mutex(i as usize), next as int);
                }
            }
            assert forall|i: int| #[trigger] post.has_semaphore(i) implies post.semaphore_wf(
                i,
            ) by {
                assert(pre.has_semaphore(i));
                assert(pre.semaphore_wf(i));
                lemma_queue_frame(
                    pre,
                    post,
                    pre.semaphore(i).waiters,
                    Wait::Semaphore(i as usize),
                    next as int,
                );
            }
            assert forall|i: int| #[trigger] post.has_condvar(i) implies post.condvar_wf(i) by {
                assert(pre.has_condvar(i));
                assert(pre.condvar_wf(i));
                lemma_queue_frame(
                    pre,
                    post,
                    pre.condvar(i),
                    Wait::Condvar(i as usize),
                    next as int,
                );
            }
        },
        None => {
            assert forall|t: int| #[trigger] post.has_task(t) implies post.task_wf(t) by {
                assert(pre.has_task(t));
                assert(pre.task_wf(t));
            }
            assert forall|i: int| #[trigger] post.has_mutex(i) implies post.mutex_wf(i) by {
                assert(pre.has_mutex(i));
                assert(pre.mutex_wf(i));
            }
            assert forall|i: int| #[trigger] post.has_semaphore(i) implies post.semaphore_wf(
                i,
            ) by {
                assert(pre.has_semaphore(i));
                assert(pre.semaphore_wf(i));
            }
            assert forall|i: int| #[trigger] post.has_condvar(i) implies post.condvar_wf(i) by {
                assert(pre.has_condvar(i));
                assert(pre.condvar_wf(i));
            }
        },
    }
}

/// Whether the mutex table has an owned mutex in `slot`.
pub open spec fn owned(pre: ProcessState, slot: usize) -> bool {
    pre.has_mutex(slot as int) && pre.mutex(slot as int).owner != NO_OWNER
}

/// Releases the mutex in slot `mutex_id` and returns 0.
///
/// The oldest task in the mutex's queue, if there is one, becomes ready,
/// joins the ready queue and is recorded as the owner; without a waiter
/// the mutex is free and its owner `NO_OWNER`. Nothing changes where the
/// table has no such slot, the slot is empty or the mutex has no owner.
pub fn sys_mutex_unlock(
    process: &mut ProcessControlBlock,
    manager: &mut TaskManager,
    mutex_id: usize,
) -> (code: isize)
    requires
        old(process)@.wf(),
    ensures
        code == 0,
        final(process)@ == (if owned(old(process)@, mutex_id) {
            released(old(process)@, mutex_id)
        } else {
            old(process)@
        }),
        final(manager)@ == (if owned(old(process)@, mutex_id) {
            with_woken(
                old(manager)@,
                old(process)@,
                old(process)@.mutex(mutex_id as int).mutex.next_waiter(),
            )
        } else {
            old(manager)@
        }),
        final(process)@.wf(),
        old(process)@.scheduled(old(manager)@) ==> final(process)@.scheduled(final(manager)@),
{
    let has_owner = mutex_id < process.mutex_list.len() && match &process.mutex_list[mutex_id] {
        Some(node) => node.0 != NO_OWNER,
        None => false,
    };
    if has_owner {
        release_mutex(process, manager, mutex_id);
    }
    0
}

/// Creates a condition variable without waiters in the lowest free
/// slot of the table of condition variables, and returns the slot.
pub fn sys_condvar_create(process: &mut ProcessControlBlock) -> (id: isize)
    requires
        old(process)@.wf(),
        old(process)@.condvars.len() < isize::MAX,
    ensures
        allocates(old(process)@.condvars, id as int),
        final(process)@ == (ProcessState {
            condvars: installed(old(process)@.condvars, id as int, Seq::<usize>::empty()),
            ..old(process)@
        }),
        final(process)@.wf(),
        forall|ready: Seq<TaskHandle>| #[trigger]
            old(process)@.scheduled(ready) ==> final(process)@.scheduled(ready),
{
    let slot: usize = find_free(&process.condvar_list);
    proof {
        assert(allocates(old(process)@.condvars, slot as int));
    }
    if slot < process.condvar_list.len() {
        process.condvar_list[slot] = Some(Condvar::new());
    } else {
        process.condvar_list.push(Some(Condvar::new()));
    }
    proof {
        assert(process@.condvars =~= installed(
            old(process)@.condvars,
            slot as int,
            Seq::<usize>::empty(),
        ));
        assert(process@.tasks =~= old(process)@.tasks);
        assert(process@.semaphores =~= old(process)@.semaphores);
        assert(process@.mutexes =~= old(process)@.mutexes);
        lemma_install_condvar_wf(old(process)@, slot as int);
    }
    slot as isize
}

/// A new condition variable leaves the records of a process sound.
proof fn lemma_install_condvar_wf(pre: ProcessState, slot: int)
    requires
        pre.wf(),
        allocates(pre.condvars, slot),
        pre.condvars.len() < usize::MAX,
    ensures
        (ProcessState {
            condvars: installed(pre.condvars, slot, Seq::<usize>::empty()),
            ..pre
        }).wf(),
{
    let post = ProcessState {
        condvars: installed(pre.condvars, slot, Seq::<usize>::empty()),
        ..pre
    };
    assert forall|tid: int| #[trigger] post.has_task(tid) implies post.task_wf(tid) by {
        assert(pre.has_task(tid));
        assert(pre.task_wf(tid));
        match pre.task(tid).wait {
            Wait::Condvar(c) => {
                assert(pre.has_condvar(c as int));
                assert(post.has_condvar(c as int));
            },
            _ => {},
        }
    }
    assert forall|i: int| #[trigger] post.has_mutex(i) implies post.mutex_wf(i) by {
        assert(pre.has_mutex(i));
        assert(pre.mutex_wf(i));
    }
    assert forall|i: int| #[trigger] post.has_semaphore(i) implies post.semaphore_wf(i) by {
        assert(pre.has_semaphore(i));
        assert(pre.semaphore_wf(i));
    }
    assert forall|i: int| #[trigger] post.has_condvar(i) implies post.condvar_wf(i) by {
        if i != slot {
            assert(pre.has_condvar(i));
            assert(pre.condvar_wf(i));
            assert(post.condvar(i) == pre.condvar(i));
        }
    }
}

/// The process after a signal on the condition variable in `slot`: its
/// oldest waiter has left the queue and is ready. Without a waiter the
/// process is as before.
pub open spec fn after_condvar_signal(pre: ProcessState, slot: usize) -> ProcessState {
    let waiters = pre.condvar(slot as int);
    match signalled(waiters) {
        Some(next) => pre.with_condvar(slot as int, after_signal(waiters)).with_task(
            next as int,
            pre.task(next as int).woken(),
        ),
        None => pre,
    }
}

/// Signals the condition variable in slot `condvar_id` and returns 0.
///
/// The task that has waited longest on it becomes ready and joins the
/// ready queue. Where no task waits, nothing changes.
pub fn sys_condvar_signal(
    process: &mut ProcessControlBlock,
    manager: &mut TaskManager,
    condvar_id: usize,
) -> (code: isize)
    requires
        old(process)@.wf(),
        old(process)@.has_condvar(condvar_id as int),
    ensures
        code == 0,
        final(process)@ == after_condvar_signal(old(process)@, condvar_id),
        final(manager)@ == with_woken(
            old(manager)@,
            old(process)@,
            signalled(old(process)@.condvar(condvar_id as int)),
        ),
        old(process)@.condvar(condvar_id as int).len() == 0 ==> final(process)@ == old(process)@
            && final(manager)@ == old(manager)@,
        final(process)@.wf(),
        old(process)@.scheduled(old(manager)@) ==> final(process)@.scheduled(final(manager)@),
{
    proof {
        lemma_condvar_signal_wf(old(process)@, condvar_id);
    }
    let mut woken: Option<usize> = None;
    match &mut process.condvar_list[condvar_id] {
        Some(condvar) => {
            woken = condvar.signal();
        },
        None => {},
    }
    proof {
        let waiters = old(process)@.condvar(condvar_id as int);
        assert(process@.tasks =~= old(process)@.tasks);
        assert(process@.semaphores =~= old(process)@.semaphores);
        assert(process@.mutexes =~= old(process)@.mutexes);
        if woken is Some {
            assert(process@.condvars =~= old(process)@.condvars.update(
                condvar_id as int,
                Some(after_signal(waiters)),
            ));
        } else {
            assert(process@.condvars =~= old(process)@.condvars);
        }
        assert(old(process)@.condvar_wf(condvar_id as int));
    }
    match woken {
        Some(next) => {
            proof {
                assert(old(process)@.condvar(condvar_id as int)[0] == next);
                assert(old(process)@.waits_on(next as int, Wait::Condvar(condvar_id)));
            }
            process.wake_task(manager, next);
        },
        None => {},
    }
    0
}

/// A signal leaves the records of a process sound.
proof fn lemma_condvar_signal_wf(pre: ProcessState, slot: usize)
    requires
        pre.wf(),
        pre.has_condvar(slot as int),
    ensures
        after_condvar_signal(pre, slot).wf(),
{
    let post = after_condvar_signal(pre, slot);
    let waiters = pre.condvar(slot as int);
    assert(pre.condvar_wf(slot as int));
    match signalled(waiters) {
        Some(next) => {
            assert(waiters[0] == next);
            assert(pre.waits_on(next as int, Wait::Condvar(slot)));
            assert(pre.task_wf(next as int));
            assert forall|t: int| #[trigger] post.has_task(t) implies post.task_wf(t) by {
                assert(pre.has_task(t));
                assert(pre.task_wf(t));
                if post.task(t).wait == Wait::Condvar(slot) {
                    lemma_drop_first_contains(pre.condvar(slot as int), t as usize);
                }
            }
            assert forall|i: int| #[trigger] post.has_mutex(i) implies post.mutex_wf(i) by {
                assert(pre.has_mutex(i));
                assert(pre.mutex_wf(i));
                lemma_queue_frame(
                    pre,
                    post,
                    pre.mutex(i).mutex.waiters,
                    Wait::Mutex(i as usize),
                    next as int,
                );
            }
            assert forall|i: int| #[trigger] post.has_semaphore(i) implies post.semaphore_wf(
                i,
            ) by {
                assert(pre.has_semaphore(i));
                assert(pre.semaphore_wf(i));
                lemma_queue_frame(
                    pre,
                    post,
                    pre.semaphore(i).waiters,
                    Wait::Semaphore(i as usize),
                    next as int,
                );
            }
            assert forall|i: int| #[trigger] post.has_condvar(i) implies post.condvar_wf(i) by {
                assert(pre.has_condvar(i));
                assert(pre.condvar_wf(i));
                if i == slot {
                    lemma_queue_pop(pre, post, waiters, Wait::Condvar(slot));
                } else {
                    lemma_queue_frame(
                        pre,
                        post,
                        pre.condvar(i),
                        Wait::Condvar(i as usize),
                        next as int,
                    );
                }
            }
        },
        None => {},
    }
}

/// The process after task `tid` has begun to wait on the condition
/// variable in slot `condvar`: the mutex in slot `mutex` is released as
/// by an unlock, and the task sleeps at the tail of the condition's queue.
pub open spec fn after_condvar_wait(
    pre: ProcessState,
    tid: usize,
    condvar: usize,
    mutex: usize,
) -> ProcessState {
    let mid = released(pre, mutex);
    mid.with_condvar(condvar as int, mid.condvar(condvar as int).push(tid)).with_task(
        tid as int,
        mid.task(tid as int).blocked_on(Wait::Condvar(condvar)),
    )
}

/// Task `tid` waits on the condition variable in slot `condvar_id` and
/// gives up the mutex in slot `mutex_id`; the result is 0.
///
/// Release and wait are one step. The mutex passes to its oldest waiter,
/// who becomes ready, or is free. The caller is blocked until a signal
/// reaches it in the queue, and does not own the mutex when it wakes.
pub fn sys_condvar_wait(
    process: &mut ProcessControlBlock,
    manager: &mut TaskManager,
    tid: usize,
    condvar_id: usize,
    mutex_id: usize,
) -> (code: isize)
    requires
        old(process)@.wf(),
        old(process)@.runs(tid as int),
        old(process)@.has_condvar(condvar_id as int),
        old(process)@.has_mutex(mutex_id as int),
    ensures
        code == 0,
        final(process)@ == after_condvar_wait(old(process)@, tid, condvar_id, mutex_id),
        final(manager)@ == with_woken(
            old(manager)@,
            old(process)@,
            old(process)@.mutex(mutex_id as int).mutex.next_waiter(),
        ),
        final(process)@.wf(),
        old(process)@.scheduled(old(manager)@) ==> final(process)@.scheduled(final(manager)@),
{
    release_mutex(process, manager, mutex_id);
    let ghost mid = process@;
    proof {
        assert(old(process)@.task_wf(tid as int));
        assert(old(process)@.mutex_wf(mutex_id as int));
        if old(process)@.mutex(mutex_id as int).mutex.waiters.len() > 0 {
            assert(old(process)@.waits_on(
                old(process)@.mutex(mutex_id as int).mutex.waiters[0] as int,
                Wait::Mutex(mutex_id),
            ));
        }
        assert(mid.runs(tid as int));
        assert(mid.has_condvar(condvar_id as int));
        lemma_condvar_wait_wf(mid, tid, condvar_id);
    }
    match &mut process.condvar_list[condvar_id] {
        Some(condvar) => {
            condvar.enqueue(tid);
        },
        None => {},
    }
    proof {
        assert(process@.tasks =~= mid.tasks);
        assert(process@.semaphores =~= mid.semaphores);
        assert(process@.mutexes =~= mid.mutexes);
        assert(process@.condvars =~= mid.condvars.update(
            condvar_id as int,
            Some(mid.condvar(condvar_id as int).push(tid)),
        ));
        if mid.scheduled(manager@) {
            assert(process@.scheduled(manager@));
        }
    }
    process.block_task(tid, Wait::Condvar(condvar_id));
    0
}

/// A running task that joins the queue of a condition variable and
/// sleeps on it leaves the records of a process sound.
proof fn lemma_condvar_wait_wf(pre: ProcessState, tid: usize, slot: usize)
    requires
        pre.wf(),
        pre.runs(tid as int),
        pre.has_condvar(slot as int),
    ensures
        pre.with_condvar(slot as int, pre.condvar(slot as int).push(tid)).with_task(
            tid as int,
            pre.task(tid as int).blocked_on(Wait::Condvar(slot)),
        ).wf(),
{
    let post = pre.with_condvar(slot as int, pre.condvar(slot as int).push(tid)).with_task(
        tid as int,
        pre.task(tid as int).blocked_on(Wait::Condvar(slot)),
    );
    assert(pre.task_wf(tid as int));
    assert(pre.task(tid as int).wait == Wait::Nothing);
    assert forall|t: int| #[trigger] post.has_task(t) implies post.task_wf(t) by {
        assert(pre.has_task(t));
        assert(pre.task_wf(t));
        if post.task(t).wait == Wait::Condvar(slot) {
            lemma_push_contains(pre.condvar(slot as int), tid, t as usize);
        }
    }
    assert forall|i: int| #[trigger] post.has_mutex(i) implies post.mutex_wf(i) by {
        assert(pre.has_mutex(i));
        assert(pre.mutex_wf(i));
        lemma_queue_frame(
            pre,
            post,
            pre.mutex(i).mutex.waiters,
            Wait::Mutex(i as usize),
            tid as int,
        );
    }
    assert forall|i: int| #[trigger] post.has_semaphore(i) implies post.semaphore_wf(i) by {
        assert(pre.has_semaphore(i));
        assert(pre.semaphore_wf(i));
        lemma_queue_frame(
            pre,
            post,
            pre.semaphore(i).waiters,
            Wait::Semaphore(i as usize),
            tid as int,
        );
    }
    assert forall|i: int| #[trigger] post.has_condvar(i) implies post.condvar_wf(i) by {
        assert(pre.has_condvar(i));
        assert(pre.condvar_wf(i));
        if i == slot {
            lemma_queue_push(pre, post, pre.condvar(i), Wait::Condvar(slot), tid);
        } else {
            lemma_queue_frame(pre, post, pre.condvar(i), Wait::Condvar(i as usize), tid as int);
        }
    }
}

/// The tasks of a process after a semaphore was created in `slot`.
pub open spec fn with_slot_opened(
    tasks: Seq<Option<TaskState>>,
    slot: int,
) -> Seq<Option<TaskState>> {
    Seq::new(
        tasks.len(),
        |t: int|
            match tasks[t] {
                Some(task) => Some(task.with_slot(slot)),
                None => None,
            },
    )
}

/// The process after a semaphore with `res_count` units was created in
/// `slot`.
pub open spec fn after_semaphore_create(
    pre: ProcessState,
    slot: int,
    res_count: usize,
) -> ProcessState {
    ProcessState {
        semaphores: installed(pre.semaphores, slot, SemaphoreState::fresh(res_count as int)),
        tasks: with_slot_opened(pre.tasks, slot),
        ..pre
    }
}

/// Creates a semaphore with `res_count` free units in the lowest free
/// slot of the semaphore table, and returns the slot. Every task of the
/// process holds and awaits nothing of the new semaphore.
pub fn sys_semaphore_create(process: &mut ProcessControlBlock, res_count: usize) -> (id: isize)
    requires
        old(process)@.wf(),
        old(process)@.semaphores.len() < isize::MAX,
    ensures
        allocates(old(process)@.semaphores, id as int),
        final(process)@ == after_semaphore_create(old(process)@, id as int, res_count),
        final(process)@.wf(),
        forall|ready: Seq<TaskHandle>| #[trigger]
            old(process)@.scheduled(ready) ==> final(process)@.scheduled(ready),
{
    let slot: usize = find_free(&process.semaphore_list);
    proof {
        assert(allocates(old(process)@.semaphores, slot as int));
        lemma_semaphore_create_wf(old(process)@, slot as int, res_count);
    }
    if slot < process.semaphore_list.len() {
        process.semaphore_list[slot] = Some(Semaphore::new(res_count));
    } else {
        process.semaphore_list.push(Some(Semaphore::new(res_count)));
    }
    let n: usize = process.tasks.len();
    let mut t: usize = 0;
    while t < n
        invariant
            t <= n,
            n == process.tasks@.len(),
            n == old(process).tasks@.len(),
            old(process)@.wf(),
            process.pid == old(process).pid,
            process.mutex_list == old(process).mutex_list,
            process.condvar_list == old(process).condvar_list,
            process.deadlock_detected == old(process).deadlock_detected,
            process@.semaphores == installed(
                old(process)@.semaphores,
                slot as int,
                SemaphoreState::fresh(res_count as int),
            ),
            forall|i: int|
                0 <= i < t ==> #[trigger] process@.tasks[i] == with_slot_opened(
                    old(process)@.tasks,
                    slot as int,
                )[i],
            forall|i: int| t <= i < n ==> #[trigger] process.tasks@[i] == old(process).tasks@[i],
        decreases n - t,
    {
        let ghost before = process@;
        let ghost before_tasks = process.tasks@;
        proof {
            assert(process.tasks@[t as int] == old(process).tasks@[t as int]);
            if old(process)@.has_task(t as int) {
                assert(old(process)@.task_wf(t as int));
            }
        }
        match &mut process.tasks[t] {
            Some(task) => {
                task.open_slot(slot);
            },
            None => {},
        }
        proof {
            assert(process@.semaphores =~= before.semaphores);
            assert forall|i: int| 0 <= i < t + 1 implies #[trigger] process@.tasks[i]
                == with_slot_opened(old(process)@.tasks, slot as int)[i] by {
                if i < t {
                    assert(process.tasks@[i] == before_tasks[i]);
                    assert(process@.tasks[i] == before.tasks[i]);
                }
            }
        }
        t += 1;
    }
    proof {
        assert(process@.tasks =~= with_slot_opened(old(process)@.tasks, slot as int));
        assert(process@.mutexes =~= old(process)@.mutexes);
        assert(process@.condvars =~= old(process)@.condvars);
        assert forall|ready: Seq<TaskHandle>| #[trigger]
            old(process)@.scheduled(ready) implies process@.scheduled(ready) by {
            assert forall|t: int| #[trigger]
                is_ready(process@.tasks, t) <==> is_ready(old(process)@.tasks, t) by {}
            lemma_agrees_still(old(process)@.pid, old(process)@.tasks, process@.tasks, ready);
        }
    }
    slot as isize
}

/// A new semaphore leaves the records of a process sound.
proof fn lemma_semaphore_create_wf(pre: ProcessState, slot: int, res_count: usize)
    requires
        pre.wf(),
        allocates(pre.semaphores, slot),
        pre.semaphores.len() < usize::MAX,
    ensures
        after_semaphore_create(pre, slot, res_count).wf(),
{
    let post = after_semaphore_create(pre, slot, res_count);
    assert forall|t: int| post.has_task(t) implies pre.has_task(t) && post.task(t) == pre.task(
        t,
    ).with_slot(slot) && post.task(t).wait == pre.task(t).wait by {}
    assert forall|t: int| #[trigger] post.has_task(t) implies post.task_wf(t) by {
        assert(pre.has_task(t));
        assert(pre.task_wf(t));
        let old_task = pre.task(t);
        let task = post.task(t);
        assert(task == old_task.with_slot(slot));
        match old_task.wait {
            Wait::Semaphore(x) => {
                assert(pre.has_semaphore(x as int));
                assert(post.has_semaphore(x as int));
                assert(x != slot);
            },
            _ => {},
        }
        assert forall|s: int| 0 <= s < post.semaphores.len() implies #[trigger] task.requested[s]
            == (if task.wait == Wait::Semaphore(s as usize) {
            1usize
        } else {
            0usize
        }) by {
            if s != slot {
                assert(task.requested[s] == old_task.requested[s]);
            }
        }
    }
    assert forall|i: int| #[trigger] post.has_mutex(i) implies post.mutex_wf(i) by {
        assert(pre.has_mutex(i));
        assert(pre.mutex_wf(i));
        let queue = pre.mutex(i).mutex.waiters;
        assert forall|k: int| 0 <= k < queue.len() implies post.waits_on(
            #[trigger] queue[k] as int,
            Wait::Mutex(i as usize),
        ) by {
            assert(pre.waits_on(queue[k] as int, Wait::Mutex(i as usize)));
        }
    }
    assert forall|i: int| #[trigger] post.has_semaphore(i) implies post.semaphore_wf(i) by {
        if i != slot {
            assert(pre.has_semaphore(i));
            assert(pre.semaphore_wf(i));
            assert(post.semaphore(i) == pre.semaphore(i));
            let queue = pre.semaphore(i).waiters;
            assert forall|k: int| 0 <= k < queue.len() implies post.waits_on(
                #[trigger] queue[k] as int,
                Wait::Semaphore(i as usize),
            ) by {
                assert(pre.waits_on(queue[k] as int, Wait::Semaphore(i as usize)));
            }
        }
    }
    assert forall|i: int| #[trigger] post.has_condvar(i) implies post.condvar_wf(i) by {
        assert(pre.has_condvar(i));
        assert(pre.condvar_wf(i));
        let queue = pre.condvar(i);
        assert forall|k: int| 0 <= k < queue.len() implies post.waits_on(
            #[trigger] queue[k] as int,
            Wait::Condvar(i as usize),
        ) by {
            assert(pre.waits_on(queue[k] as int, Wait::Condvar(i as usize)));
        }
    }
}

/// The process with the request of task `tid` for one unit of
/// semaphore `sem` on record.
pub open spec fn wanting(pre: ProcessState, tid: usize, sem: usize) -> ProcessState {
    pre.with_task(tid as int, pre.task(tid as int).with_requested(sem as int, 1))
}

/// Whether a request of task `tid` for semaphore `sem` is refused: the
/// process checks for deadlock, and with the request on record its
/// tasks cannot finish in any order.
pub open spec fn down_refused(pre: ProcessState, tid: usize, sem: usize) -> bool {
    pre.detect && !safe(wanting(pre, tid, sem))
}

/// The process after task `tid` has asked for a unit of semaphore `sem`.
pub open spec fn after_semaphore_down(pre: ProcessState, tid: usize, sem: usize) -> ProcessState {
    let task = pre.task(tid as int);
    let semaphore = pre.semaphore(sem as int);
    if down_refused(pre, tid, sem) {
        pre
    } else if semaphore.exhausted() {
        pre.with_semaphore(sem as int, semaphore.down(tid)).with_task(
            tid as int,
            task.with_requested(sem as int, 1).blocked_on(Wait::Semaphore(sem)),
        )
    } else {
        pre.with_semaphore(sem as int, semaphore.down(tid)).with_task(
            tid as int,
            task.granted(sem as int),
        )
    }
}

/// Task `tid` asks for a unit of the semaphore in slot `sem_id`.
///
/// The request is put on record first. Where the process checks for
/// deadlock and its tasks could then no longer finish in any order, the
/// record is taken back and the result is `DEADLOCK`: nothing has
/// changed. Otherwise the result is 0. The caller then takes a unit at
/// once where one is free, and holds one more. Where none is free it is
/// blocked at the tail of the semaphore's queue, with its request on
/// record, until an `up` hands it a unit.
pub fn sys_semaphore_down(process: &mut ProcessControlBlock, tid: usize, sem_id: usize) -> (code:
    isize)
    requires
        old(process)@.wf(),
        old(process)@.runs(tid as int),
        old(process)@.has_semaphore(sem_id as int),
        old(process)@.task(tid as int).held[sem_id as int] < usize::MAX,
    ensures
        code == (if down_refused(old(process)@, tid, sem_id) {
            DEADLOCK
        } else {
            0
        }),
        final(process)@ == after_semaphore_down(old(process)@, tid, sem_id),
        final(process)@.wf(),
        forall|ready: Seq<TaskHandle>| #[trigger]
            old(process)@.scheduled(ready) ==> final(process)@.scheduled(ready),
{
    let ghost pre = process@;
    proof {
        assert(pre.task_wf(tid as int));
        assert(pre.task(tid as int).requested[sem_id as int] == 0);
        lemma_semaphore_down_wf(pre, tid, sem_id);
    }
    let held: usize = match &process.tasks[tid] {
        Some(task) => task.held(sem_id),
        None => 0,
    };
    process.edit_task(tid, held, 1, sem_id);
    proof {
        assert(pre.task(tid as int).with_requested(sem_id as int, 1).with_held(
            sem_id as int,
            held,
        ).held =~= pre.task(tid as int).held);
        assert(process@ == wanting(pre, tid, sem_id));
        assert forall|t: int| #[trigger] process@.has_task(t) implies process@.task(t).held.len()
            == process@.semaphores.len() && process@.task(t).requested.len()
            == process@.semaphores.len() by {
            assert(pre.has_task(t));
            assert(pre.task_wf(t));
        }
    }
    if process.detect_deadlock() {
        let ghost wants = process@;
        process.edit_task(tid, held, 0, sem_id);
        proof {
            assert forall|ready: Seq<TaskHandle>| #[trigger]
                pre.scheduled(ready) implies process@.scheduled(ready) by {
                assert(wants.scheduled(ready));
            }
            assert(process@.task(tid as int).requested =~= pre.task(tid as int).requested);
            assert(process@.task(tid as int).held =~= pre.task(tid as int).held);
            assert(process@.tasks =~= pre.tasks);
        }
        return DEADLOCK;
    }
    let ghost wants = process@;
    let mut taken = false;
    match &mut process.semaphore_list[sem_id] {
        Some(sem) => {
            taken = sem.down(tid);
        },
        None => {},
    }
    let ghost asked = process@;
    proof {
        assert(process@.tasks =~= wants.tasks);
        assert(process@.mutexes =~= wants.mutexes);
        assert(process@.condvars =~= wants.condvars);
        assert(process@.semaphores =~= wants.semaphores.update(
            sem_id as int,
            Some(pre.semaphore(sem_id as int).down(tid)),
        ));
        assert forall|ready: Seq<TaskHandle>| #[trigger]
            pre.scheduled(ready) implies asked.scheduled(ready) by {
            assert(wants.scheduled(ready));
        }
    }
    if taken {
        process.edit_task(tid, held + 1, 0, sem_id);
        proof {
            assert forall|ready: Seq<TaskHandle>| #[trigger]
                pre.scheduled(ready) implies process@.scheduled(ready) by {
                assert(asked.scheduled(ready));
            }
            assert(process@.tasks =~= pre.tasks.update(
                tid as int,
                Some(pre.task(tid as int).granted(sem_id as int)),
            )) by {
                assert(process@.task(tid as int).requested =~= pre.task(tid as int).granted(
                    sem_id as int,
                ).requested);
                assert(process@.task(tid as int).held =~= pre.task(tid as int).granted(
                    sem_id as int,
                ).held);
            }
        }
    } else {
        process.block_task(tid, Wait::Semaphore(sem_id));
        proof {
            assert forall|ready: Seq<TaskHandle>| #[trigger]
                pre.scheduled(ready) implies process@.scheduled(ready) by {
                assert(asked.scheduled(ready));
            }
            assert(process@.tasks =~= pre.tasks.update(
                tid as int,
                Some(
                    pre.task(tid as int).with_requested(sem_id as int, 1).blocked_on(
                        Wait::Semaphore(sem_id),
                    ),
                ),
            ));
        }
    }
    0
}

/// A request for a semaphore leaves the records of a process sound.
proof fn lemma_semaphore_down_wf(pre: ProcessState, tid: usize, sem: usize)
    requires
        pre.wf(),
        pre.runs(tid as int),
        pre.has_semaphore(sem as int),
        pre.task(tid as int).held[sem as int] < usize::MAX,
    ensures
        after_semaphore_down(pre, tid, sem).wf(),
{
    let post = after_semaphore_down(pre, tid, sem);
    if !down_refused(pre, tid, sem) {
        assert(pre.semaphore_wf(sem as int));
        assert(pre.task_wf(tid as int));
        assert(pre.task(tid as int).wait == Wait::Nothing);
        assert forall|t: int| #[trigger] post.has_task(t) implies post.task_wf(t) by {
            assert(pre.has_task(t));
            assert(pre.task_wf(t));
            if post.task(t).wait == Wait::Semaphore(sem) {
                lemma_push_contains(pre.semaphore(sem as int).waiters, tid, t as usize);
            }
        }
        assert forall|i: int| #[trigger] post.has_mutex(i) implies post.mutex_wf(i) by {
            assert(pre.has_mutex(i));
            assert(pre.mutex_wf(i));
            lemma_queue_frame(
                pre,
                post,
                pre.mutex(i).mutex.waiters,
                Wait::Mutex(i as usize),
                tid as int,
            );
        }
        assert forall|i: int| #[trigger] post.has_semaphore(i) implies post.semaphore_wf(i) by {
            assert(pre.has_semaphore(i));
            assert(pre.semaphore_wf(i));
            let queue = pre.semaphore(i).waiters;
            if i == sem && pre.semaphore(sem as int).exhausted() {
                lemma_queue_push(pre, post, queue, Wait::Semaphore(sem), tid);
            } else {
                lemma_queue_frame(pre, post, queue, Wait::Semaphore(i as usize), tid as int);
            }
        }
        assert forall|i: int| #[trigger] post.has_condvar(i) implies post.condvar_wf(i) by {
            assert(pre.has_condvar(i));
            assert(pre.condvar_wf(i));
            lemma_queue_frame(pre, post, pre.condvar(i), Wait::Condvar(i as usize), tid as int);
        }
    }
}

/// The process after task `tid` has given back a unit of semaphore
/// `sem`: the caller holds one less, if it held any. The unit goes to
/// the oldest waiter, who is ready and holds it; without a waiter it is
/// free.
pub open spec fn after_semaphore_up(pre: ProcessState, tid: usize, sem: usize) -> ProcessState {
    let given = pre.with_task(tid as int, pre.task(tid as int).gives_back(sem as int));
    let semaphore = pre.semaphore(sem as int);
    match semaphore.next_waiter() {
        Some(next) => given.with_semaphore(sem as int, semaphore.up()).with_task(
            next as int,
            pre.task(next as int).woken().granted(sem as int),
        ),
        None => given.with_semaphore(sem as int, semaphore.up()),
    }
}

/// Task `tid` gives back a unit of the semaphore in slot `sem_id`; the
/// result is 0.
///
/// The caller holds one unit less, or none as before. The task that has
/// waited longest for the semaphore gets the unit: it leaves the queue,
/// holds one more and awaits none, is ready and joins the ready queue.
/// Where no task waits, the semaphore has one more free unit.
pub fn sys_semaphore_up(
    process: &mut ProcessControlBlock,
    manager: &mut TaskManager,
    tid: usize,
    sem_id: usize,
) -> (code: isize)
    requires
        old(process)@.wf(),
        old(process)@.runs(tid as int),
        old(process)@.has_semaphore(sem_id as int),
        old(process)@.semaphore(sem_id as int).count < usize::MAX,
    ensures
        code == 0,
        final(process)@ == after_semaphore_up(old(process)@, tid, sem_id),
        final(manager)@ == with_woken(
            old(manager)@,
            old(process)@,
            old(process)@.semaphore(sem_id as int).next_waiter(),
        ),
        final(process)@.wf(),
        old(process)@.scheduled(old(manager)@) ==> final(process)@.scheduled(final(manager)@),
{
    let ghost pre = process@;
    proof {
        assert(pre.task_wf(tid as int));
        assert(pre.semaphore_wf(sem_id as int));
        lemma_semaphore_up_wf(pre, tid, sem_id);
    }
    let held: usize = match &process.tasks[tid] {
        Some(task) => task.held(sem_id),
        None => 0,
    };
    if held > 0 {
        process.edit_task(tid, held - 1, 0, sem_id);
    }
    let ghost given = process@;
    proof {
        assert(given.tasks =~= pre.tasks.update(
            tid as int,
            Some(pre.task(tid as int).gives_back(sem_id as int)),
        )) by {
            if held > 0 {
                assert(given.task(tid as int).requested =~= pre.task(tid as int).requested);
            }
        }
    }
    let mut woken: Option<usize> = None;
    match &mut process.semaphore_list[sem_id] {
        Some(sem) => {
            woken = sem.up();
        },
        None => {},
    }
    proof {
        assert(process@.tasks =~= given.tasks);
        assert(process@.mutexes =~= given.mutexes);
        assert(process@.condvars =~= given.condvars);
        assert(process@.semaphores =~= given.semaphores.update(
            sem_id as int,
            Some(pre.semaphore(sem_id as int).up()),
        ));
        if pre.scheduled(manager@) {
            assert(given.scheduled(manager@));
            assert(process@.scheduled(manager@));
        }
    }
    match woken {
        Some(next) => {
            proof {
                assert(pre.semaphore(sem_id as int).waiters[0] == next);
                assert(pre.waits_on(next as int, Wait::Semaphore(sem_id)));
                assert(pre.task_wf(next as int));
                assert(next != tid);
                assert(process@.task(next as int) == pre.task(next as int));
                assert(pre.task(next as int).held[sem_id as int] < usize::MAX);
            }
            let units: usize = match &process.tasks[next] {
                Some(task) => task.held(sem_id),
                None => 0,
            };
            let ghost upped = process@;
            process.edit_task(next, units + 1, 0, sem_id);
            proof {
                if upped.scheduled(manager@) {
                    assert(process@.scheduled(manager@));
                }
            }
            process.wake_task(manager, next);
            proof {
                assert(process@.tasks =~= given.tasks.update(
                    next as int,
                    Some(pre.task(next as int).woken().granted(sem_id as int)),
                ));
            }
        },
        None => {},
    }
    0
}

/// A unit given back leaves the records of a process sound.
proof fn lemma_semaphore_up_wf(pre: ProcessState, tid: usize, sem: usize)
    requires
        pre.wf(),
        pre.runs(tid as int),
        pre.has_semaphore(sem as int),
    ensures
        after_semaphore_up(pre, tid, sem).wf(),
{
    let given = pre.with_task(tid as int, pre.task(tid as int).gives_back(sem as int));
    let post = after_semaphore_up(pre, tid, sem);
    let semaphore = pre.semaphore(sem as int);
    assert(pre.semaphore_wf(sem as int));
    assert(pre.task_wf(tid as int));
    assert(pre.task(tid as int).wait == Wait::Nothing);
    assert(given.wf()) by {
        assert forall|t: int| #[trigger] given.has_task(t) implies given.task_wf(t) by {
            assert(pre.has_task(t));
            assert(pre.task_wf(t));
        }
        assert forall|i: int| #[trigger] given.has_mutex(i) implies given.mutex_wf(i) by {
            assert(pre.has_mutex(i));
            assert(pre.mutex_wf(i));
            lemma_queue_frame(
                pre,
                given,
                pre.mutex(i).mutex.waiters,
                Wait::Mutex(i as usize),
                tid as int,
            );
        }
        assert forall|i: int| #[trigger] given.has_semaphore(i) implies given.semaphore_wf(i) by {
            assert(pre.has_semaphore(i));
            assert(pre.semaphore_wf(i));
            lemma_queue_frame(
                pre,
                given,
                pre.semaphore(i).waiters,
                Wait::Semaphore(i as usize),
                tid as int,
            );
        }
        assert forall|i: int| #[trigger] given.has_condvar(i) implies given.condvar_wf(i) by {
            assert(pre.has_condvar(i));
            assert(pre.condvar_wf(i));
            lemma_queue_frame(pre, given, pre.condvar(i), Wait::Condvar(i as usize), tid as int);
        }
    }
    match semaphore.next_waiter() {
        Some(next) => {
            assert(semaphore.waiters[0] == next);
            assert(pre.waits_on(next as int, Wait::Semaphore(sem)));
            assert(given.waits_on(next as int, Wait::Semaphore(sem)));
            assert(given.task_wf(next as int));
            assert(given.task(next as int) == pre.task(next as int));
            assert forall|t: int| #[trigger] post.has_task(t) implies post.task_wf(t) by {
                assert(given.has_task(t));
                assert(given.task_wf(t));
                if post.task(t).wait == Wait::Semaphore(sem) {
                    lemma_drop_first_contains(semaphore.waiters, t as usize);
                }
            }
            assert forall|i: int| #[trigger] post.has_mutex(i) implies post.mutex_wf(i) by {
                assert(given.has_mutex(i));
                assert(given.mutex_wf(i));
                lemma_queue_frame(
                    given,
                    post,
                    given.mutex(i).mutex.waiters,
                    Wait::Mutex(i as usize),
                    next as int,
                );
            }
            assert forall|i: int| #[trigger] post.has_semaphore(i) implies post.semaphore_wf(
                i,
            ) by {
                assert(given.has_semaphore(i));
                assert(given.semaphore_wf(i));
                if i == sem {
                    lemma_queue_pop(given, post, semaphore.waiters, Wait::Semaphore(sem));
                } else {
                    lemma_queue_frame(
                        given,
                        post,
                        given.semaphore(i).waiters,
                        Wait::Semaphore(i as usize),
                        next as int,
                    );
                }
            }
            assert forall|i: int| #[trigger] post.has_condvar(i) implies post.condvar_wf(i) by {
                assert(given.has_condvar(i));
                assert(given.condvar_wf(i));
                lemma_queue_frame(
                    given,
                    post,
                    given.condvar(i),
                    Wait::Condvar(i as usize),
                    next as int,
                );
            }
        },
        None => {
            assert forall|t: int| #[trigger] post.has_task(t) implies post.task_wf(t) by {
                assert(given.has_task(t));
                assert(given.task_wf(t));
            }
            assert forall|i: int| #[trigger] post.has_mutex(i) implies post.mutex_wf(i) by {
                assert(given.has_mutex(i));
                assert(given.mutex_wf(i));
            }
            assert forall|i: int| #[trigger] post.has_semaphore(i) implies post.semaphore_wf(
                i,
            ) by {
                assert(given.has_semaphore(i));
                assert(given.semaphore_wf(i));
            }
            assert forall|i: int| #[trigger] post.has_condvar(i) implies post.condvar_wf(i) by {
                assert(given.has_condvar(i));
                assert(given.condvar_wf(i));
            }
        },
    }
}

/// Switches the check for deadlock on (`enabled` is 1) or off (0) for
/// requests to come, and returns 0. Any other number changes nothing
/// and gives -1.
pub fn sys_enable_deadlock_detect(process: &mut ProcessControlBlock, enabled: usize) -> (code:
    isize)
    ensures
        code == (if enabled <= 1 {
            0isize
        } else {
            -1isize
        }),
        final(process)@ == (if enabled <= 1 {
            ProcessState { detect: enabled == 1, ..old(process)@ }
        } else {
            old(process)@
        }),
        old(process)@.wf() ==> final(process)@.wf(),
        forall|ready: Seq<TaskHandle>| #[trigger]
            old(process)@.scheduled(ready) ==> final(process)@.scheduled(ready),
{
    let ghost pre = process@;
    let code: isize = match enabled {
        0usize => {
            process.deadlock_detected = false;
            0
        },
        1usize => {
            process.deadlock_detected = true;
            0
        },
        _ => -1,
    };
    proof {
        assert(process@.tasks =~= pre.tasks);
        assert(process@.mutexes =~= pre.mutexes);
        assert(process@.semaphores =~= pre.semaphores);
        assert(process@.condvars =~= pre.condvars);
        if pre.wf() {
            let post = process@;
            assert forall|t: int| #[trigger] post.has_task(t) implies post.task_wf(t) by {
                assert(pre.has_task(t));
                assert(pre.task_wf(t));
            }
            assert forall|i: int| #[trigger] post.has_mutex(i) implies post.mutex_wf(i) by {
                assert(pre.has_mutex(i));
                assert(pre.mutex_wf(i));
            }
            assert forall|i: int| #[trigger] post.has_semaphore(i) implies post.semaphore_wf(
                i,
            ) by {
                assert(pre.has_semaphore(i));
                assert(pre.semaphore_wf(i));
            }
            assert forall|i: int| #[trigger] post.has_condvar(i) implies post.condvar_wf(i) by {
                assert(pre.has_condvar(i));
                assert(pre.condvar_wf(i));
            }
        }
    }
    code
}

} // verus!
