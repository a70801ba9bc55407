//! The steps of the kernel between system calls: a timer that has run
//! out wakes its task, and the task that the scheduler picks gets the
//! processor.

use vstd::prelude::*;
use crate::config::DEADLOCK;
use crate::manager::{selects, TaskHandle, TaskManager};
use crate::process::{ProcessControlBlock, ProcessState};
use crate::schedule::{agrees, lemma_agrees_other_joins, lemma_agrees_other_leaves};
use crate::syscall::sync::{after_mutex_lock, lock_case, sys_mutex_lock, LockCase};
use crate::task::{TaskStatus, Wait};
use crate::timer::{due_first, Timer, TimerList};

verus! {

/// The processes of the kernel as contracts see them. A process is
/// found by its id.
pub open spec fn states(processes: Seq<ProcessControlBlock>) -> Seq<ProcessState> {
    Seq::new(processes.len(), |i: int| processes[i]@)
}

/// The records of the kernel agree with each other: every process is
/// sound, stands at the place of its id, and agrees with the ready
/// queue, and every entry of the ready queue names a process.
pub open spec fn sound(processes: Seq<ProcessState>, ready: Seq<TaskHandle>) -> bool {
    &&& forall|i: int|
        0 <= i < processes.len() ==> (#[trigger] processes[i]).wf() && processes[i].pid == i
            && processes[i].scheduled(ready)
    &&& forall|k: int| 0 <= k < ready.len() ==> (#[trigger] ready[k]).pid < processes.len()
}

/// No task of any process has the processor.
pub open spec fn nobody_runs(processes: Seq<ProcessState>) -> bool {
    forall|i: int, tid: int|
        0 <= i < processes.len() ==> !(#[trigger] processes[i].runs(tid))
}

/// Task `tid` of process `pid` has the processor, and no other task has.
pub open spec fn only_runs(processes: Seq<ProcessState>, pid: usize, tid: usize) -> bool {
    &&& pid < processes.len()
    &&& processes[pid as int].runs(tid as int)
    &&& forall|i: int, t: int|
        0 <= i < processes.len() && #[trigger] processes[i].runs(t) ==> i == pid && t == tid
}

/// What became of the processor.
#[derive(Clone, Copy, Debug, PartialEq, Eq, Structural)]
pub enum Dispatch {
    /// No task is ready.
    Idle,
    /// The task has the processor. Where it had given up the processor
    /// for a spin mutex it has asked for the mutex again, and `retried`
    /// is the result of that call.
    Runs { pid: usize, tid: usize, retried: Option<isize> },
    /// The task got the processor, asked again for a spin mutex that
    /// is still taken, and gave the processor up once more.
    Spins { pid: usize, tid: usize },
}

/// The process after its ready task `tid` was given the processor.
pub open spec fn after_turn(p: ProcessState, tid: usize) -> ProcessState {
    let running = p.with_task(tid as int, p.task(tid as int).dispatched());
    match p.task(tid as int).wait {
        Wait::Spin(slot) => after_mutex_lock(running, tid, slot),
        _ => running,
    }
}

/// Whether the ready task `tid` gives the processor up at once when it
/// gets it: the spin mutex for which it asks again is still taken.
pub open spec fn spins_again(p: ProcessState, tid: usize) -> bool {
    match p.task(tid as int).wait {
        Wait::Spin(slot) => lock_case(
            p.with_task(tid as int, p.task(tid as int).dispatched()),
            tid,
            slot,
        ) is Spins,
        _ => false,
    }
}

/// What is reported of the turn of the ready task `tid`.
pub open spec fn turn_outcome(p: ProcessState, tid: usize) -> Dispatch {
    let running = p.with_task(tid as int, p.task(tid as int).dispatched());
    match p.task(tid as int).wait {
        Wait::Spin(slot) => match lock_case(running, tid, slot) {
            LockCase::Spins => Dispatch::Spins { pid: p.pid, tid },
            LockCase::Refused => Dispatch::Runs { pid: p.pid, tid, retried: Some(DEADLOCK) },
            _ => Dispatch::Runs { pid: p.pid, tid, retried: Some(0) },
        },
        _ => Dispatch::Runs { pid: p.pid, tid, retried: None },
    }
}

/// The ready queue after the task in place `k` had its turn.
pub open spec fn ready_after_turn(
    processes: Seq<ProcessState>,
    ready: Seq<TaskHandle>,
    k: int,
) -> Seq<TaskHandle> {
    let p = processes[ready[k].pid as int];
    let tid = ready[k].tid;
    if spins_again(p, tid) {
        ready.remove(k).push(
            p.with_task(tid as int, p.task(tid as int).dispatched()).handle(tid as int),
        )
    } else {
        ready.remove(k)
    }
}

/// Gives the processor to the task that the scheduler picks: the ready
/// task with the smallest stride, and the one that has waited longest
/// among those. The task leaves the ready queue and runs, and its
/// stride grows by one pass. A task that had given up the processor for
/// a spin mutex asks for the mutex again at once: it then owns the
/// mutex, or is refused, or goes back to the tail of the ready queue.
/// Without a ready task nothing changes.
pub fn dispatch(processes: &mut Vec<ProcessControlBlock>, manager: &mut TaskManager) -> (outcome:
    Dispatch)
    requires
        sound(states(old(processes)@), old(manager)@),
    ensures
        old(manager)@.len() == 0 ==> outcome is Idle && states(final(processes)@) == states(
            old(processes)@,
        ) && final(manager)@ == old(manager)@,
        old(manager)@.len() > 0 ==> exists|k: int|
            {
                &&& selects(old(manager)@, k)
                &&& states(final(processes)@) == states(old(processes)@).update(
                    old(manager)@[k].pid as int,
                    after_turn(
                        states(old(processes)@)[old(manager)@[k].pid as int],
                        old(manager)@[k].tid,
                    ),
                )
                &&& final(manager)@ == ready_after_turn(
                    states(old(processes)@),
                    old(manager)@,
                    k,
                )
                &&& outcome == turn_outcome(
                    states(old(processes)@)[old(manager)@[k].pid as int],
                    old(manager)@[k].tid,
                )
            },
        sound(states(final(processes)@), final(manager)@),
        nobody_runs(states(old(processes)@)) ==> match outcome {
            Dispatch::Runs { pid, tid, .. } => only_runs(states(final(processes)@), pid, tid),
            _ => nobody_runs(states(final(processes)@)),
        },
{
    let ghost before = states(processes@);
    let ghost ready = manager@;
    let next = manager.fetch();
    match next {
        None => Dispatch::Idle,
        Some(handle) => {
            let ghost k = choose|k: int|
                selects(ready, k) && handle == ready[k] && manager@ == ready.remove(k);
            let pid: usize = handle.pid;
            let tid: usize = handle.tid;
            let ghost p = before[pid as int];
            proof {
                assert(ready[k].pid < before.len());
                assert(before[pid as int].scheduled(ready));
                assert(crate::schedule::is_ready(p.tasks, ready[k].tid as int));
                assert(processes@[pid as int]@ == p);
                assert(p.wf());
                assert(p.has_task(tid as int));
                assert(p.task_wf(tid as int));
            }
            let process = &mut processes[pid];
            let retry = process.run(tid);
            let ghost running = process@;
            proof {
                assert(running.scheduled(ready.remove(k)));
                assert(running.has_task(tid as int));
            }
            let outcome = match retry {
                Some(slot) => {
                    proof {
                        assert(running.has_mutex(slot as int));
                    }
                    let code = sys_mutex_lock(process, manager, tid, slot);
                    let runs = match process.task(tid) {
                        Some(task) => task.status() == TaskStatus::Running,
                        None => false,
                    };
                    proof {
                        assert(running.mutex(slot as int).mutex.kind
                            == crate::sync::mutex::MutexKind::Spin);
                    }
                    if runs {
                        Dispatch::Runs { pid, tid, retried: Some(code) }
                    } else {
                        Dispatch::Spins { pid, tid }
                    }
                },
                None => Dispatch::Runs { pid, tid, retried: None },
            };
            proof {
                let after = states(processes@);
                let turned = after_turn(p, tid);
                assert(processes@[pid as int]@ == turned);
                assert(after =~= before.update(pid as int, turned));
                assert(manager@ == ready_after_turn(before, ready, k));
                assert forall|i: int| 0 <= i < after.len() implies (#[trigger] after[i]).wf()
                    && after[i].pid == i && after[i].scheduled(manager@) by {
                    if i != pid {
                        assert(after[i] == before[i]);
                        lemma_agrees_other_leaves(before[i].pid, before[i].tasks, ready, k);
                        if spins_again(p, tid) {
                            lemma_agrees_other_joins(
                                before[i].pid,
                                before[i].tasks,
                                ready.remove(k),
                                running.handle(tid as int),
                            );
                        }
                    }
                }
                assert forall|j: int| 0 <= j < manager@.len() implies (#[trigger] manager@[j]).pid
                    < after.len() by {
                    let rest = ready.remove(k);
                    if j < rest.len() {
                        let q = if j < k {
                            j
                        } else {
                            j + 1
                        };
                        assert(rest[j] == ready[q]);
                        assert(manager@[j] == rest[j]);
                    }
                }
                if nobody_runs(before) {
                    assert forall|i: int, t: int|
                        0 <= i < after.len() && #[trigger] after[i].runs(t) implies i == pid && t
                        == tid && outcome is Runs by {
                        if i != pid {
                            assert(after[i] == before[i]);
                            assert(!before[i].runs(t));
                        } else if t != tid {
                            assert(!before[i].runs(t));
                        }
                    }
                }
            }
            outcome
        },
    }
}

/// Creates a process with one ready task and returns its id: the
/// number of processes before. The task has the id 0 and joins the tail
/// of the ready queue.
pub fn spawn_process(processes: &mut Vec<ProcessControlBlock>, manager: &mut TaskManager) -> (pid:
    usize)
    requires
        sound(states(old(processes)@), old(manager)@),
    ensures
        pid == old(processes)@.len(),
        states(final(processes)@) == states(old(processes)@).push(
            ProcessState {
                tasks: seq![Some(crate::task::TaskState::fresh(0))],
                ..ProcessState::fresh(pid)
            },
        ),
        final(manager)@ == old(manager)@.push(TaskHandle { pid, tid: 0, stride: 0 }),
        sound(states(final(processes)@), final(manager)@),
        nobody_runs(states(old(processes)@)) ==> nobody_runs(states(final(processes)@)),
{
    let ghost before = states(processes@);
    let ghost ready = manager@;
    let pid: usize = processes.len();
    let mut process = ProcessControlBlock::new(pid);
    proof {
        assert forall|k: int| 0 <= k < ready.len() implies (#[trigger] ready[k]).pid != pid by {}
        assert(process@.scheduled(ready)) by {
            assert(agrees(pid, process@.tasks, ready));
        }
    }
    let tid = process.spawn_task(manager);
    processes.push(process);
    proof {
        let after = states(processes@);
        let created = ProcessState {
            tasks: seq![Some(crate::task::TaskState::fresh(0))],
            ..ProcessState::fresh(pid)
        };
        assert(tid == 0);
        assert(processes@[pid as int]@.tasks =~= created.tasks);
        assert(after =~= before.push(created));
        assert forall|i: int| 0 <= i < after.len() implies (#[trigger] after[i]).wf()
            && after[i].pid == i && after[i].scheduled(manager@) by {
            if i != pid {
                assert(after[i] == before[i]);
                lemma_agrees_other_joins(
                    before[i].pid,
                    before[i].tasks,
                    ready,
                    TaskHandle { pid, tid: 0, stride: 0 },
                );
            }
        }
        assert forall|j: int| 0 <= j < manager@.len() implies (#[trigger] manager@[j]).pid
            < after.len() by {
            if j < ready.len() {
                assert(manager@[j] == ready[j]);
            }
        }
        if nobody_runs(before) {
            assert forall|i: int, t: int| 0 <= i < after.len() implies !(#[trigger] after[i].runs(
                t,
            )) by {
                if i != pid {
                    assert(after[i] == before[i]);
                    assert(!before[i].runs(t));
                }
            }
        }
    }
    pid
}

/// Whether the timer names a task that sleeps until a point in time.
pub open spec fn names_sleeper(processes: Seq<ProcessState>, pid: usize, tid: usize) -> bool {
    pid < processes.len() && processes[pid as int].sleeper(tid)
}

/// The processes after the timer `due` has run out: the task that it
/// names is ready, if it slept until a point in time.
pub open spec fn processes_after_wake(processes: Seq<ProcessState>, due: Timer) -> Seq<
    ProcessState,
> {
    if names_sleeper(processes, due.pid, due.tid) {
        processes.update(
            due.pid as int,
            processes[due.pid as int].with_task(
                due.tid as int,
                processes[due.pid as int].task(due.tid as int).woken(),
            ),
        )
    } else {
        processes
    }
}

/// The ready queue after the timer `due` has run out: the task that it
/// names has joined the queue, if it slept until a point in time.
pub open spec fn ready_after_wake(
    processes: Seq<ProcessState>,
    ready: Seq<TaskHandle>,
    due: Timer,
) -> Seq<TaskHandle> {
    if names_sleeper(processes, due.pid, due.tid) {
        ready.push(processes[due.pid as int].handle(due.tid as int))
    } else {
        ready
    }
}

/// Serves the timer that runs out first, if it has run out at `now_ms`,
/// and says whether there was one. The timer is taken out, and the task
/// that it names becomes ready and joins the tail of the ready queue,
/// if it still sleeps until a point in time. Where no timer has run out
/// nothing changes.
pub fn check_timer(
    timers: &mut TimerList,
    processes: &mut Vec<ProcessControlBlock>,
    manager: &mut TaskManager,
    now_ms: usize,
) -> (served: bool)
    requires
        sound(states(old(processes)@), old(manager)@),
    ensures
        !served ==> {
            &&& forall|j: int|
                0 <= j < old(timers)@.len() ==> (#[trigger] old(timers)@[j]).expire_ms > now_ms
            &&& final(timers)@ == old(timers)@
            &&& states(final(processes)@) == states(old(processes)@)
            &&& final(manager)@ == old(manager)@
        },
        served ==> exists|k: int|
            {
                &&& #[trigger] due_first(old(timers)@, k)
                &&& old(timers)@[k].expire_ms <= now_ms
                &&& final(timers)@ == old(timers)@.remove(k)
                &&& states(final(processes)@) == processes_after_wake(
                    states(old(processes)@),
                    old(timers)@[k],
                )
                &&& final(manager)@ == ready_after_wake(
                    states(old(processes)@),
                    old(manager)@,
                    old(timers)@[k],
                )
            },
        sound(states(final(processes)@), final(manager)@),
        nobody_runs(states(old(processes)@)) ==> nobody_runs(states(final(processes)@)),
        forall|pid: usize, tid: usize|
            only_runs(states(old(processes)@), pid, tid) ==> only_runs(
                states(final(processes)@),
                pid,
                tid,
            ),
{
    let ghost before = states(processes@);
    let ghost ready = manager@;
    match timers.pop_expired(now_ms) {
        None => false,
        Some(due) => {
            if due.pid < processes.len() {
                let ghost p = before[due.pid as int];
                proof {
                    assert(p.wf());
                    assert(p.scheduled(ready));
                    assert(processes@[due.pid as int]@ == p);
                }
                let process = &mut processes[due.pid];
                let woken = process.wake_sleeper(manager, due.tid);
                proof {
                    let after = states(processes@);
                    if woken {
                        let q = p.with_task(due.tid as int, p.task(due.tid as int).woken());
                        assert(processes@[due.pid as int]@ == q);
                        assert(after =~= before.update(due.pid as int, q));
                    } else {
                        assert(processes@[due.pid as int]@ == p);
                        assert(after =~= before);
                    }
                    assert forall|i: int| 0 <= i < after.len() implies (#[trigger] after[i]).wf()
                        && after[i].pid == i && after[i].scheduled(manager@) by {
                        if i != due.pid {
                            assert(after[i] == before[i]);
                            if woken {
                                lemma_agrees_other_joins(
                                    before[i].pid,
                                    before[i].tasks,
                                    ready,
                                    p.handle(due.tid as int),
                                );
                            }
                        }
                    }
                    assert forall|j: int| 0 <= j < manager@.len() implies (
                    #[trigger] manager@[j]).pid < after.len() by {
                        if j < ready.len() {
                            assert(manager@[j] == ready[j]);
                        }
                    }
                    assert forall|i: int, t: int|
                        0 <= i < after.len() && #[trigger] after[i].runs(t) implies before[i].runs(
                        t,
                    ) by {
                        if i != due.pid {
                            assert(after[i] == before[i]);
                        } else if woken {
                            assert(p.task_wf(due.tid as int));
                        }
                    }
                    assert forall|i: int, t: int|
                        0 <= i < after.len() && #[trigger] before[i].runs(t) implies after[i].runs(
                        t,
                    ) by {
                        if i != due.pid {
                            assert(after[i] == before[i]);
                        } else if woken {
                            assert(p.task_wf(due.tid as int));
                        }
                    }
                }
            } else {
                proof {
                    assert(states(processes@) =~= before);
                }
            }
            true
        },
    }
}

} // verus!
