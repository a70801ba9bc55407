//! What holds of every sequence of calls on one mutex and on one
//! semaphore.

use vstd::prelude::*;
use crate::config::NO_OWNER;
use crate::process::{MutexSlot, ProcessState};
use crate::sync::mutex::{MutexKind, MutexState};
use crate::sync::semaphore::SemaphoreState;
use crate::syscall::sync::{
    after_mutex_lock, after_semaphore_create, after_semaphore_down, after_semaphore_up,
    down_refused, kind_for, owned, released, with_slot_opened,
};
use crate::table::{allocates, installed};
use crate::task::{TaskState, Wait};

verus! {

/// A call on a mutex.
pub enum MutexOp {
    /// The task with this id asks for the lock.
    Lock(usize),
    /// The lock is released.
    Unlock,
}

/// The entry of a mutex after one call on it.
pub open spec fn mutex_step(slot: MutexSlot, op: MutexOp) -> MutexSlot {
    match op {
        MutexOp::Lock(tid) => {
            if slot.owner == NO_OWNER {
                MutexSlot { owner: tid, mutex: slot.mutex.lock(tid) }
            } else if slot.mutex.kind == MutexKind::Blocking {
                MutexSlot { owner: slot.owner, mutex: slot.mutex.lock(tid) }
            } else {
                slot
            }
        },
        MutexOp::Unlock => {
            if slot.owner == NO_OWNER {
                slot
            } else {
                match slot.mutex.next_waiter() {
                    Some(next) => MutexSlot { owner: next, mutex: slot.mutex.unlock() },
                    None => MutexSlot { owner: NO_OWNER, mutex: slot.mutex.unlock() },
                }
            }
        },
    }
}

/// The entry of a mutex after the calls `ops`, in their order.
pub open spec fn mutex_run(slot: MutexSlot, ops: Seq<MutexOp>) -> MutexSlot
    decreases ops.len(),
{
    if ops.len() == 0 {
        slot
    } else {
        mutex_run(mutex_step(slot, ops[0]), ops.drop_first())
    }
}

/// Number of releases among `ops`.
pub open spec fn unlocks(ops: Seq<MutexOp>) -> nat
    decreases ops.len(),
{
    if ops.len() == 0 {
        0
    } else {
        unlocks(ops.drop_first()) + (if ops[0] is Unlock {
            1nat
        } else {
            0nat
        })
    }
}

/// A mutex has an owner exactly while it is locked, only a locked
/// blocking mutex has waiters, and no task id is the mark for "no owner".
pub open spec fn slot_wf(slot: MutexSlot) -> bool {
    &&& slot.mutex.wf()
    &&& (slot.owner == NO_OWNER <==> !slot.mutex.locked)
    &&& forall|k: int| 0 <= k < slot.mutex.waiters.len() ==> slot.mutex.waiters[k] != NO_OWNER
}

/// Every mutex of a sound process is sound by itself.
pub proof fn lemma_slot_of_sound_process(p: ProcessState, slot: int)
    requires
        p.wf(),
        p.has_mutex(slot),
    ensures
        slot_wf(p.mutex(slot)),
{
    assert(p.mutex_wf(slot));
    let queue = p.mutex(slot).mutex.waiters;
    assert forall|k: int| 0 <= k < queue.len() implies queue[k] != NO_OWNER by {
        assert(p.waits_on(queue[k] as int, Wait::Mutex(slot as usize)));
    }
}

/// What `sys_mutex_lock` does to the entry of the mutex is one `Lock`
/// step.
pub proof fn lemma_lock_is_step(pre: ProcessState, tid: usize, slot: usize)
    requires
        pre.has_mutex(slot as int),
        pre.has_task(tid as int),
    ensures
        after_mutex_lock(pre, tid, slot).mutex(slot as int) == mutex_step(
            pre.mutex(slot as int),
            MutexOp::Lock(tid),
        ),
{
}

/// What `sys_mutex_unlock` does to the entry of the mutex is one
/// `Unlock` step.
pub proof fn lemma_unlock_is_step(pre: ProcessState, slot: usize)
    requires
        pre.has_mutex(slot as int),
    ensures
        (if owned(pre, slot) {
            released(pre, slot)
        } else {
            pre
        }).mutex(slot as int) == mutex_step(pre.mutex(slot as int), MutexOp::Unlock),
{
}

/// A call on a sound mutex leaves it sound, and a request for a mutex
/// that has an owner does not change the owner: a task becomes the owner
/// only of a mutex without one, or by a release that reaches it in the
/// queue.
pub proof fn lemma_mutex_step_exclusive(slot: MutexSlot, op: MutexOp)
    requires
        slot_wf(slot),
        op matches MutexOp::Lock(tid) ==> tid != NO_OWNER,
    ensures
        slot_wf(mutex_step(slot, op)),
        op is Lock && slot.owner != NO_OWNER ==> mutex_step(slot, op).owner == slot.owner,
        op is Unlock && slot.mutex.waiters.len() > 0 ==> mutex_step(slot, op).owner
            == slot.mutex.waiters[0],
        op is Unlock && slot.mutex.waiters.len() == 0 ==> mutex_step(slot, op).owner == NO_OWNER,
{
    let after = mutex_step(slot, op);
    match op {
        MutexOp::Lock(tid) => {
            assert forall|k: int| 0 <= k < after.mutex.waiters.len() implies after.mutex.waiters[k]
                != NO_OWNER by {
                if k < slot.mutex.waiters.len() {
                    assert(after.mutex.waiters[k] == slot.mutex.waiters[k]);
                }
            }
        },
        MutexOp::Unlock => {
            assert forall|k: int| 0 <= k < after.mutex.waiters.len() implies after.mutex.waiters[k]
                != NO_OWNER by {
                if slot.mutex.waiters.len() > 0 {
                    assert(after.mutex.waiters[k] == slot.mutex.waiters[k + 1]);
                }
            }
            if slot.mutex.waiters.len() > 0 {
                assert(slot.mutex.waiters[0] != NO_OWNER);
            }
        },
    }
}

/// No waiter starves: whatever calls are made on a mutex, the task in
/// place `k` of its queue is the owner once the queue has been served
/// `k + 1` times.
pub proof fn lemma_waiter_acquires(slot: MutexSlot, ops: Seq<MutexOp>, k: int)
    requires
        slot_wf(slot),
        0 <= k < slot.mutex.waiters.len(),
        forall|i: int|
            0 <= i < ops.len() ==> ((#[trigger] ops[i]) matches MutexOp::Lock(tid) ==> tid
                != NO_OWNER),
        ops.len() > 0,
        ops.last() is Unlock,
        unlocks(ops) == k + 1,
    ensures
        mutex_run(slot, ops).owner == slot.mutex.waiters[k],
    decreases ops.len(),
{
    let op = ops[0];
    let rest = ops.drop_first();
    let after = mutex_step(slot, op);
    lemma_mutex_step_exclusive(slot, op);
    assert forall|i: int| 0 <= i < rest.len() implies ((#[trigger] rest[i]) matches MutexOp::Lock(
        tid,
    ) ==> tid != NO_OWNER) by {
        assert(rest[i] == ops[i + 1]);
    }
    match op {
        MutexOp::Lock(tid) => {
            assert(rest.len() > 0) by {
                if rest.len() == 0 {
                    assert(ops.last() == ops[0]);
                }
            }
            assert(rest.last() == ops.last());
            assert(after.mutex.waiters[k] == slot.mutex.waiters[k]);
            lemma_waiter_acquires(after, rest, k);
        },
        MutexOp::Unlock => {
            if k == 0 {
                if rest.len() > 0 {
                    assert(rest.last() == ops.last());
                    lemma_last_unlock_counts(rest);
                }
                assert(mutex_run(after, rest) == after);
            } else {
                assert(rest.len() > 0) by {
                    if rest.len() == 0 {
                        assert(unlocks(rest) == 0);
                    }
                }
                assert(rest.last() == ops.last());
                assert(after.mutex.waiters[k - 1] == slot.mutex.waiters[k]);
                lemma_waiter_acquires(after, rest, k - 1);
            }
        },
    }
}

proof fn lemma_last_unlock_counts(ops: Seq<MutexOp>)
    requires
        ops.len() > 0,
        ops.last() is Unlock,
    ensures
        unlocks(ops) >= 1,
    decreases ops.len(),
{
    if ops.len() > 1 {
        assert(ops.drop_first().last() == ops.last());
        lemma_last_unlock_counts(ops.drop_first());
    }
}

/// A mutex that was just created, is locked by a task and released
/// again has no owner and is free, and had that task as its owner in
/// between.
pub proof fn lemma_lock_unlock_leaves_no_owner(
    pre: ProcessState,
    blocking: bool,
    id: int,
    tid: usize,
)
    requires
        allocates(pre.mutexes, id),
        pre.mutexes.len() < usize::MAX,
        pre.has_task(tid as int),
        tid != NO_OWNER,
    ensures
        ({
            let created = ProcessState {
                mutexes: installed(
                    pre.mutexes,
                    id,
                    MutexSlot { owner: NO_OWNER, mutex: MutexState::fresh(kind_for(blocking)) },
                ),
                ..pre
            };
            let locked = after_mutex_lock(created, tid, id as usize);
            let unlocked = if owned(locked, id as usize) {
                released(locked, id as usize)
            } else {
                locked
            };
            &&& locked.mutex(id).owner == tid
            &&& locked.mutex(id).mutex.locked
            &&& unlocked.mutex(id).owner == NO_OWNER
            &&& !unlocked.mutex(id).mutex.locked
            &&& unlocked.mutex(id).mutex.waiters.len() == 0
        }),
{
}

/// A call on a semaphore.
pub enum SemaphoreOp {
    /// The task with this id asks for a unit.
    Down(usize),
    /// A unit is given back.
    Up,
}

/// The semaphore after one call on it.
pub open spec fn semaphore_step(sem: SemaphoreState, op: SemaphoreOp) -> SemaphoreState {
    match op {
        SemaphoreOp::Down(tid) => sem.down(tid),
        SemaphoreOp::Up => sem.up(),
    }
}

/// The semaphore after the calls `ops`, in their order.
pub open spec fn semaphore_run(sem: SemaphoreState, ops: Seq<SemaphoreOp>) -> SemaphoreState
    decreases ops.len(),
{
    if ops.len() == 0 {
        sem
    } else {
        semaphore_run(semaphore_step(sem, ops[0]), ops.drop_first())
    }
}

/// Number of requests among `ops`.
pub open spec fn downs(ops: Seq<SemaphoreOp>) -> nat
    decreases ops.len(),
{
    if ops.len() == 0 {
        0
    } else {
        downs(ops.drop_first()) + (if ops[0] is Down {
            1nat
        } else {
            0nat
        })
    }
}

/// Number of units given back among `ops`.
pub open spec fn ups(ops: Seq<SemaphoreOp>) -> nat
    decreases ops.len(),
{
    if ops.len() == 0 {
        0
    } else {
        ups(ops.drop_first()) + (if ops[0] is Up {
            1nat
        } else {
            0nat
        })
    }
}

/// Tasks wait for a semaphore only while it has no unit left.
pub open spec fn semaphore_sound(sem: SemaphoreState) -> bool {
    &&& sem.count >= 0
    &&& sem.waiters.len() > 0 ==> sem.count == 0
}

/// Every semaphore of a sound process is sound by itself.
pub proof fn lemma_semaphore_of_sound_process(p: ProcessState, slot: int)
    requires
        p.wf(),
        p.has_semaphore(slot),
    ensures
        semaphore_sound(p.semaphore(slot)),
{
    assert(p.semaphore_wf(slot));
}

/// What `sys_semaphore_down` does to the semaphore, where the request
/// is not refused, is one `Down` step, and what `sys_semaphore_up` does
/// to it is one `Up` step.
pub proof fn lemma_down_up_are_steps(pre: ProcessState, tid: usize, sem: usize)
    requires
        pre.has_semaphore(sem as int),
        pre.has_task(tid as int),
    ensures
        !down_refused(pre, tid, sem) ==> after_semaphore_down(pre, tid, sem).semaphore(sem as int)
            == semaphore_step(pre.semaphore(sem as int), SemaphoreOp::Down(tid)),
        down_refused(pre, tid, sem) ==> after_semaphore_down(pre, tid, sem) == pre,
        after_semaphore_up(pre, tid, sem).semaphore(sem as int) == semaphore_step(
            pre.semaphore(sem as int),
            SemaphoreOp::Up,
        ),
{
}

/// Whatever calls are made on a semaphore, the requests less the units
/// given back are the units that were taken from it and the tasks that
/// now wait, less those that waited before. With `c` units and no
/// waiter at the start, the requests that were granted never exceed the
/// units given back by more than `c`: what goes beyond is a task that
/// waits.
pub proof fn lemma_semaphore_balance(sem: SemaphoreState, ops: Seq<SemaphoreOp>)
    requires
        semaphore_sound(sem),
    ensures
        semaphore_sound(semaphore_run(sem, ops)),
        downs(ops) - ups(ops) == sem.balance() - semaphore_run(sem, ops).balance(),
        sem.waiters.len() == 0 ==> downs(ops) - semaphore_run(sem, ops).waiters.len() - ups(ops)
            <= sem.count,
    decreases ops.len(),
{
    if ops.len() > 0 {
        lemma_semaphore_balance(semaphore_step(sem, ops[0]), ops.drop_first());
    }
}

/// Units of semaphore `sem` that the first `n` tasks of a task table
/// hold together.
pub open spec fn held_by_first(tasks: Seq<Option<TaskState>>, sem: int, n: int) -> int
    decreases n,
{
    if n <= 0 {
        0
    } else {
        held_by_first(tasks, sem, n - 1) + (if tasks[n - 1] is Some {
            tasks[n - 1].unwrap().held[sem] as int
        } else {
            0
        })
    }
}

/// The units of semaphore `sem` that there are in a process: those that
/// its tasks hold and those that are free.
pub open spec fn units(p: ProcessState, sem: int) -> int {
    held_by_first(p.tasks, sem, p.tasks.len() as int) + p.semaphore(sem).count
}

proof fn lemma_held_after_change(
    tasks: Seq<Option<TaskState>>,
    tid: int,
    task: TaskState,
    sem: int,
    n: int,
)
    requires
        0 <= tid < tasks.len(),
        tasks[tid] is Some,
        0 <= n <= tasks.len(),
    ensures
        held_by_first(tasks.update(tid, Some(task)), sem, n) == held_by_first(tasks, sem, n) + (
        if tid < n {
            task.held[sem] - tasks[tid].unwrap().held[sem]
        } else {
            0
        }),
    decreases n,
{
    if n > 0 {
        lemma_held_after_change(tasks, tid, task, sem, n - 1);
    }
}

proof fn lemma_held_of_new_slot(tasks: Seq<Option<TaskState>>, slot: int, n: int)
    requires
        0 <= n <= tasks.len(),
        forall|t: int|
            0 <= t < tasks.len() && tasks[t] is Some ==> 0 <= slot <= (
            #[trigger] tasks[t]).unwrap().held.len(),
    ensures
        held_by_first(with_slot_opened(tasks, slot), slot, n) == 0,
    decreases n,
{
    if n > 0 {
        lemma_held_of_new_slot(tasks, slot, n - 1);
        if tasks[n - 1] is Some {
            let task = tasks[n - 1].unwrap();
            assert(task.with_slot(slot).held[slot] == 0);
        }
    }
}

/// A semaphore that was just created with `res_count` units has
/// `res_count` units: all of them free.
pub proof fn lemma_units_at_creation(pre: ProcessState, slot: int, res_count: usize)
    requires
        pre.wf(),
        allocates(pre.semaphores, slot),
    ensures
        units(after_semaphore_create(pre, slot, res_count), slot) == res_count,
{
    assert forall|t: int| 0 <= t < pre.tasks.len() && pre.tasks[t] is Some implies 0 <= slot <= (
    #[trigger] pre.tasks[t]).unwrap().held.len() by {
        assert(pre.has_task(t));
        assert(pre.task_wf(t));
    }
    lemma_held_of_new_slot(pre.tasks, slot, pre.tasks.len() as int);
}

/// A request for a semaphore, granted, queued or refused, leaves the
/// units of the semaphore as many as they were: a unit that a task
/// takes is no longer free.
pub proof fn lemma_down_conserves_units(pre: ProcessState, tid: usize, sem: usize)
    requires
        pre.wf(),
        pre.has_task(tid as int),
        pre.has_semaphore(sem as int),
        pre.task(tid as int).held[sem as int] < usize::MAX,
    ensures
        units(after_semaphore_down(pre, tid, sem), sem as int) == units(pre, sem as int),
{
    let task = pre.task(tid as int);
    assert(pre.task_wf(tid as int));
    if !down_refused(pre, tid, sem) {
        if pre.semaphore(sem as int).exhausted() {
            lemma_held_after_change(
                pre.tasks,
                tid as int,
                task.with_requested(sem as int, 1).blocked_on(Wait::Semaphore(sem)),
                sem as int,
                pre.tasks.len() as int,
            );
        } else {
            lemma_held_after_change(
                pre.tasks,
                tid as int,
                task.granted(sem as int),
                sem as int,
                pre.tasks.len() as int,
            );
        }
    }
}

/// A unit given back by a task that holds one leaves the units of the
/// semaphore as many as they were, whether it goes to a waiter or is
/// free. Given by a task that holds none, it is one unit more.
pub proof fn lemma_up_conserves_units(pre: ProcessState, tid: usize, sem: usize)
    requires
        pre.wf(),
        pre.runs(tid as int),
        pre.has_semaphore(sem as int),
    ensures
        units(after_semaphore_up(pre, tid, sem), sem as int) == units(pre, sem as int) + (
        if pre.task(tid as int).held[sem as int] > 0 {
            0int
        } else {
            1int
        }),
{
    let task = pre.task(tid as int);
    let n = pre.tasks.len() as int;
    assert(pre.task_wf(tid as int));
    assert(pre.semaphore_wf(sem as int));
    let given = pre.tasks.update(tid as int, Some(task.gives_back(sem as int)));
    lemma_held_after_change(pre.tasks, tid as int, task.gives_back(sem as int), sem as int, n);
    match pre.semaphore(sem as int).next_waiter() {
        Some(next) => {
            assert(pre.semaphore(sem as int).waiters[0] == next);
            assert(pre.waits_on(next as int, Wait::Semaphore(sem)));
            assert(pre.task_wf(next as int));
            assert(next != tid);
            lemma_held_after_change(
                given,
                next as int,
                pre.task(next as int).woken().granted(sem as int),
                sem as int,
                n,
            );
        },
        None => {},
    }
}

} // verus!
