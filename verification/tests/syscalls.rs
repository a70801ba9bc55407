use kernel_sched::config::{DEADLOCK, MAX_PID, MAX_SYSCALL_NUM, NO_OWNER};
use kernel_sched::manager::{TaskHandle, TaskManager};
use kernel_sched::process::ProcessControlBlock;
use kernel_sched::syscall::process::{
    sys_exit, sys_fork, sys_get_time, sys_getpid, sys_set_priority, sys_spawn, sys_task_info,
    sys_waitpid, sys_yield, TaskInfo, TimeVal,
};
use kernel_sched::syscall::sync::{
    sys_condvar_create, sys_condvar_signal, sys_condvar_wait, sys_enable_deadlock_detect,
    sys_mutex_create, sys_mutex_lock, sys_mutex_unlock, sys_semaphore_create, sys_semaphore_down,
    sys_semaphore_up, sys_sleep,
};
use kernel_sched::task::{TaskStatus, Wait};
use kernel_sched::timer::{Timer, TimerList};

/// A process with `n` tasks, all of them dispatched once, and an empty
/// ready queue.
fn running(n: usize) -> (ProcessControlBlock, TaskManager) {
    let mut manager = TaskManager::new();
    let mut process = ProcessControlBlock::new(1);
    for _ in 0..n {
        let tid = process.spawn_task(&mut manager);
        assert_eq!(manager.fetch().map(|h| h.tid), Some(tid));
        process.run(tid);
    }
    (process, manager)
}

fn status(process: &ProcessControlBlock, tid: usize) -> TaskStatus {
    process.task(tid).unwrap().status()
}

fn wait(process: &ProcessControlBlock, tid: usize) -> Wait {
    process.task(tid).unwrap().wait()
}

/// Lets the next ready task run and returns its id.
fn dispatch(process: &mut ProcessControlBlock, manager: &mut TaskManager) -> usize {
    let next = manager.fetch().unwrap();
    process.run(next.tid);
    next.tid
}

#[test]
fn mutex_slots_are_numbered_from_zero() {
    let (mut process, _) = running(1);
    assert_eq!(sys_mutex_create(&mut process, true), 0);
    assert_eq!(sys_mutex_create(&mut process, false), 1);
    assert_eq!(sys_mutex_create(&mut process, true), 2);
    assert_eq!(process.mutex(0).unwrap().get_locktype(), 1);
    assert_eq!(process.mutex(1).unwrap().get_locktype(), 2);
    assert_eq!(process.mutex_owner(0), Some(NO_OWNER));
    assert!(!process.mutex(0).unwrap().is_locked());
    assert!(process.mutex(3).is_none());
    assert_eq!(process.mutex_owner(3), None);
}

#[test]
fn freed_mutex_slot_is_reused_once() {
    let (mut process, _) = running(1);
    for id in 0..5 {
        assert_eq!(sys_mutex_create(&mut process, true), id);
    }
    assert!(process.remove_mutex(2));
    assert!(process.mutex(2).is_none());
    assert_eq!(sys_mutex_create(&mut process, false), 2);
    assert_eq!(process.mutex(2).unwrap().get_locktype(), 2);
    assert_eq!(sys_mutex_create(&mut process, true), 5);
    assert_eq!(sys_mutex_create(&mut process, true), 6);
}

#[test]
fn lowest_of_several_freed_slots_is_taken_first() {
    let (mut process, _) = running(1);
    for id in 0..4 {
        assert_eq!(sys_condvar_create(&mut process), id);
    }
    assert!(process.remove_condvar(3));
    assert!(process.remove_condvar(1));
    assert!(!process.remove_condvar(1));
    assert!(!process.remove_condvar(9));
    assert_eq!(sys_condvar_create(&mut process), 1);
    assert_eq!(sys_condvar_create(&mut process), 3);
    assert_eq!(sys_condvar_create(&mut process), 4);
}

#[test]
fn freed_semaphore_slot_is_reused_once_with_cleared_entries() {
    let (mut process, mut manager) = running(2);
    for id in 0..3 {
        assert_eq!(sys_semaphore_create(&mut process, 1), id);
    }
    assert_eq!(sys_semaphore_down(&mut process, 0, 1), 0);
    assert_eq!(process.task(0).unwrap().held(1), 1);
    assert!(process.remove_semaphore(1));
    assert!(process.semaphore(1).is_none());
    assert_eq!(sys_semaphore_create(&mut process, 4), 1);
    assert_eq!(process.semaphore(1).unwrap().count(), 4);
    assert_eq!(process.task(0).unwrap().held(1), 0);
    assert_eq!(process.task(0).unwrap().requested(1), 0);
    assert_eq!(process.task(1).unwrap().held(1), 0);
    assert_eq!(sys_semaphore_create(&mut process, 0), 3);
    assert_eq!(manager.pid_num(), 0);
}

#[test]
fn a_mutex_in_use_is_not_removed() {
    let (mut process, mut manager) = running(1);
    assert_eq!(sys_mutex_create(&mut process, true), 0);
    assert_eq!(sys_mutex_lock(&mut process, &mut manager, 0, 0), 0);
    assert!(!process.remove_mutex(0));
    assert!(process.mutex(0).is_some());
    assert_eq!(sys_mutex_unlock(&mut process, &mut manager, 0), 0);
    assert!(process.remove_mutex(0));
}

#[test]
fn lock_then_unlock_leaves_no_owner() {
    for blocking in [true, false] {
        let (mut process, mut manager) = running(1);
        let id = sys_mutex_create(&mut process, blocking) as usize;
        assert_eq!(sys_mutex_lock(&mut process, &mut manager, 0, id), 0);
        assert_eq!(process.mutex_owner(id), Some(0));
        assert!(process.mutex(id).unwrap().is_locked());
        assert_eq!(status(&process, 0), TaskStatus::Running);
        assert_eq!(sys_mutex_unlock(&mut process, &mut manager, id), 0);
        assert_eq!(process.mutex_owner(id), Some(NO_OWNER));
        assert!(!process.mutex(id).unwrap().is_locked());
        assert_eq!(manager.pid_num(), 0);
    }
}

#[test]
fn unlock_without_owner_is_a_no_op() {
    let (mut process, mut manager) = running(1);
    let id = sys_mutex_create(&mut process, true) as usize;
    assert_eq!(sys_mutex_unlock(&mut process, &mut manager, id), 0);
    assert_eq!(process.mutex_owner(id), Some(NO_OWNER));
    assert!(!process.mutex(id).unwrap().is_locked());
    assert!(process.remove_mutex(id));
    assert_eq!(sys_mutex_unlock(&mut process, &mut manager, id), 0);
    assert!(process.mutex(id).is_none());
    assert_eq!(sys_mutex_unlock(&mut process, &mut manager, 99), 0);
    assert!(process.mutex(99).is_none());
    assert_eq!(manager.pid_num(), 0);
}

#[test]
fn blocking_mutex_hands_the_lock_to_waiters_in_order() {
    let (mut process, mut manager) = running(4);
    let id = sys_mutex_create(&mut process, true) as usize;
    assert_eq!(sys_mutex_lock(&mut process, &mut manager, 0, id), 0);
    for tid in 1..4 {
        assert_eq!(sys_mutex_lock(&mut process, &mut manager, tid, id), 0);
        assert_eq!(status(&process, tid), TaskStatus::Blocked);
        assert_eq!(wait(&process, tid), Wait::Mutex(id));
        assert_eq!(process.mutex_owner(id), Some(0));
    }
    assert_eq!(process.mutex(id).unwrap().waiting(), 3);
    assert_eq!(manager.pid_num(), 0);
    for tid in 1..4 {
        assert_eq!(sys_mutex_unlock(&mut process, &mut manager, id), 0);
        assert_eq!(process.mutex_owner(id), Some(tid));
        assert!(process.mutex(id).unwrap().is_locked());
        assert_eq!(status(&process, tid), TaskStatus::Ready);
        assert_eq!(wait(&process, tid), Wait::Nothing);
        assert_eq!(dispatch(&mut process, &mut manager), tid);
        for later in tid + 1..4 {
            assert_eq!(status(&process, later), TaskStatus::Blocked);
        }
    }
    assert_eq!(sys_mutex_unlock(&mut process, &mut manager, id), 0);
    assert_eq!(process.mutex_owner(id), Some(NO_OWNER));
    assert!(!process.mutex(id).unwrap().is_locked());
}

#[test]
fn spin_mutex_makes_the_caller_yield_and_ask_again() {
    let (mut process, mut manager) = running(2);
    let id = sys_mutex_create(&mut process, false) as usize;
    assert_eq!(sys_mutex_lock(&mut process, &mut manager, 0, id), 0);
    let stride = process.task(1).unwrap().stride();
    assert_eq!(sys_mutex_lock(&mut process, &mut manager, 1, id), 0);
    assert_eq!(status(&process, 1), TaskStatus::Ready);
    assert_eq!(wait(&process, 1), Wait::Spin(id));
    assert_eq!(process.mutex_owner(id), Some(0));
    assert_eq!(process.mutex(id).unwrap().waiting(), 0);
    let queued = manager.fetch().unwrap();
    assert_eq!(queued, TaskHandle { pid: 1, tid: 1, stride });
    // Still taken: the task asks again and yields again.
    assert_eq!(process.run(1), Some(id));
    assert_eq!(status(&process, 1), TaskStatus::Running);
    assert_eq!(sys_mutex_lock(&mut process, &mut manager, 1, id), 0);
    assert_eq!(status(&process, 1), TaskStatus::Ready);
    assert_eq!(sys_mutex_unlock(&mut process, &mut manager, id), 0);
    assert_eq!(process.mutex_owner(id), Some(NO_OWNER));
    manager.fetch().unwrap();
    assert_eq!(process.run(1), Some(id));
    assert_eq!(sys_mutex_lock(&mut process, &mut manager, 1, id), 0);
    assert_eq!(status(&process, 1), TaskStatus::Running);
    assert_eq!(process.mutex_owner(id), Some(1));
    assert!(process.mutex(id).unwrap().is_locked());
}

#[test]
fn spin_mutex_refuses_its_owner() {
    let (mut process, mut manager) = running(1);
    let id = sys_mutex_create(&mut process, false) as usize;
    assert_eq!(sys_mutex_lock(&mut process, &mut manager, 0, id), 0);
    assert_eq!(sys_mutex_lock(&mut process, &mut manager, 0, id), DEADLOCK);
    assert_eq!(DEADLOCK, -0xDEAD);
    assert_eq!(status(&process, 0), TaskStatus::Running);
    assert_eq!(process.mutex_owner(id), Some(0));
    assert_eq!(manager.pid_num(), 0);
}

#[test]
fn semaphore_create_gives_every_task_an_entry() {
    let (mut process, mut manager) = running(2);
    assert_eq!(sys_semaphore_create(&mut process, 3), 0);
    assert_eq!(sys_semaphore_create(&mut process, 0), 1);
    for tid in 0..2 {
        for sem in 0..2 {
            assert_eq!(process.task(tid).unwrap().held(sem), 0);
            assert_eq!(process.task(tid).unwrap().requested(sem), 0);
        }
    }
    let late = process.spawn_task(&mut manager);
    assert_eq!(late, 2);
    assert_eq!(sys_semaphore_create(&mut process, 1), 2);
    assert_eq!(process.task(late).unwrap().held(2), 0);
    assert_eq!(process.semaphore(0).unwrap().count(), 3);
    assert_eq!(process.semaphore(1).unwrap().count(), 0);
}

#[test]
fn semaphore_down_and_up_keep_the_books() {
    let (mut process, mut manager) = running(3);
    let sem = sys_semaphore_create(&mut process, 1) as usize;
    assert_eq!(sys_semaphore_down(&mut process, 0, sem), 0);
    assert_eq!(status(&process, 0), TaskStatus::Running);
    assert_eq!(process.task(0).unwrap().held(sem), 1);
    assert_eq!(process.task(0).unwrap().requested(sem), 0);
    assert_eq!(process.semaphore(sem).unwrap().count(), 0);

    assert_eq!(sys_semaphore_down(&mut process, 1, sem), 0);
    assert_eq!(status(&process, 1), TaskStatus::Blocked);
    assert_eq!(wait(&process, 1), Wait::Semaphore(sem));
    assert_eq!(process.task(1).unwrap().held(sem), 0);
    assert_eq!(process.task(1).unwrap().requested(sem), 1);
    assert_eq!(sys_semaphore_down(&mut process, 2, sem), 0);
    assert_eq!(status(&process, 2), TaskStatus::Blocked);
    assert_eq!(process.semaphore(sem).unwrap().waiting(), 2);

    assert_eq!(sys_semaphore_up(&mut process, &mut manager, 0, sem), 0);
    assert_eq!(process.task(0).unwrap().held(sem), 0);
    assert_eq!(status(&process, 1), TaskStatus::Ready);
    assert_eq!(process.task(1).unwrap().held(sem), 1);
    assert_eq!(process.task(1).unwrap().requested(sem), 0);
    assert_eq!(status(&process, 2), TaskStatus::Blocked);
    assert_eq!(process.semaphore(sem).unwrap().count(), 0);
    assert_eq!(dispatch(&mut process, &mut manager), 1);

    assert_eq!(sys_semaphore_up(&mut process, &mut manager, 1, sem), 0);
    assert_eq!(process.task(2).unwrap().held(sem), 1);
    assert_eq!(dispatch(&mut process, &mut manager), 2);
    assert_eq!(sys_semaphore_up(&mut process, &mut manager, 2, sem), 0);
    assert_eq!(process.semaphore(sem).unwrap().count(), 1);
    assert_eq!(process.task(2).unwrap().held(sem), 0);
    // A task that holds nothing may still give a unit.
    assert_eq!(sys_semaphore_up(&mut process, &mut manager, 2, sem), 0);
    assert_eq!(process.semaphore(sem).unwrap().count(), 2);
    assert_eq!(process.task(2).unwrap().held(sem), 0);
    assert_eq!(manager.pid_num(), 0);
}

#[test]
fn condvar_signal_without_waiter_changes_nothing() {
    let (mut process, mut manager) = running(1);
    let id = sys_condvar_create(&mut process) as usize;
    assert_eq!(sys_condvar_signal(&mut process, &mut manager, id), 0);
    assert_eq!(process.condvar(id).unwrap().waiting(), 0);
    assert_eq!(status(&process, 0), TaskStatus::Running);
    assert_eq!(manager.pid_num(), 0);
}

#[test]
fn condvar_wait_releases_mutex_and_signal_wakes_oldest() {
    let (mut process, mut manager) = running(3);
    let mutex = sys_mutex_create(&mut process, true) as usize;
    let condvar = sys_condvar_create(&mut process) as usize;
    assert_eq!(sys_mutex_lock(&mut process, &mut manager, 0, mutex), 0);
    assert_eq!(sys_mutex_lock(&mut process, &mut manager, 1, mutex), 0);
    assert_eq!(status(&process, 1), TaskStatus::Blocked);

    assert_eq!(sys_condvar_wait(&mut process, &mut manager, 0, condvar, mutex), 0);
    assert_eq!(status(&process, 0), TaskStatus::Blocked);
    assert_eq!(wait(&process, 0), Wait::Condvar(condvar));
    // The mutex went to the task that waited for it.
    assert_eq!(process.mutex_owner(mutex), Some(1));
    assert_eq!(status(&process, 1), TaskStatus::Ready);
    assert_eq!(dispatch(&mut process, &mut manager), 1);

    assert_eq!(sys_condvar_wait(&mut process, &mut manager, 1, condvar, mutex), 0);
    assert_eq!(process.mutex_owner(mutex), Some(NO_OWNER));
    assert!(!process.mutex(mutex).unwrap().is_locked());
    assert_eq!(process.condvar(condvar).unwrap().waiting(), 2);

    assert_eq!(sys_condvar_signal(&mut process, &mut manager, condvar), 0);
    assert_eq!(status(&process, 0), TaskStatus::Ready);
    assert_eq!(status(&process, 1), TaskStatus::Blocked);
    // The woken task does not own the mutex.
    assert_eq!(process.mutex_owner(mutex), Some(NO_OWNER));
    assert_eq!(sys_condvar_signal(&mut process, &mut manager, condvar), 0);
    assert_eq!(status(&process, 1), TaskStatus::Ready);
    assert_eq!(sys_condvar_signal(&mut process, &mut manager, condvar), 0);
    assert_eq!(manager.fetch().map(|h| h.tid), Some(0));
    assert_eq!(manager.fetch().map(|h| h.tid), Some(1));
    assert_eq!(manager.fetch(), None);
}

#[test]
fn deadlock_detect_flag_takes_zero_and_one_only() {
    let (mut process, _) = running(1);
    assert!(!process.deadlock_detect_enabled());
    assert_eq!(sys_enable_deadlock_detect(&mut process, 1), 0);
    assert!(process.deadlock_detect_enabled());
    assert_eq!(sys_enable_deadlock_detect(&mut process, 2), -1);
    assert!(process.deadlock_detect_enabled());
    assert_eq!(sys_enable_deadlock_detect(&mut process, usize::MAX), -1);
    assert_eq!(sys_enable_deadlock_detect(&mut process, 0), 0);
    assert!(!process.deadlock_detect_enabled());
    assert_eq!(sys_enable_deadlock_detect(&mut process, 7), -1);
    assert!(!process.deadlock_detect_enabled());
}

#[test]
fn sleep_blocks_until_the_timer_runs_out() {
    let (mut process, mut manager) = running(2);
    let mut timers = TimerList::new();
    assert_eq!(sys_sleep(&mut process, &mut timers, 0, 100, 50), 0);
    assert_eq!(status(&process, 0), TaskStatus::Blocked);
    assert_eq!(wait(&process, 0), Wait::Timer);
    assert_eq!(sys_sleep(&mut process, &mut timers, 1, 100, 20), 0);
    assert_eq!(timers.len(), 2);
    assert_eq!(timers.pop_expired(119), None);
    let due = timers.pop_expired(120).unwrap();
    assert_eq!(due, Timer { expire_ms: 120, pid: 1, tid: 1 });
    assert!(process.wake_sleeper(&mut manager, due.tid));
    assert_eq!(status(&process, 1), TaskStatus::Ready);
    assert_eq!(status(&process, 0), TaskStatus::Blocked);
    // A task that does not sleep is not woken a second time.
    assert!(!process.wake_sleeper(&mut manager, due.tid));
    assert!(!process.wake_sleeper(&mut manager, 17));
    assert_eq!(manager.pid_num(), 1);
    let due = timers.pop_expired(1000).unwrap();
    assert_eq!(due, Timer { expire_ms: 150, pid: 1, tid: 0 });
    assert!(process.wake_sleeper(&mut manager, due.tid));
    assert_eq!(manager.pid_num(), 2);
}

#[test]
fn set_priority_refuses_weights_below_two() {
    let (mut process, _) = running(1);
    for prio in [1isize, 0, -1, isize::MIN] {
        assert_eq!(sys_set_priority(&mut process, 0, prio), -1);
        assert_eq!(process.task(0).unwrap().priority(), 16);
    }
    assert_eq!(sys_set_priority(&mut process, 0, 2), 2);
    assert_eq!(process.task(0).unwrap().priority(), 2);
    assert_eq!(sys_set_priority(&mut process, 0, isize::MAX), isize::MAX);
    assert_eq!(process.task(0).unwrap().priority(), isize::MAX as usize);
}

#[test]
fn yield_puts_the_caller_behind_the_ready_tasks() {
    let mut manager = TaskManager::new();
    let mut process = ProcessControlBlock::new(1);
    let a = process.spawn_task(&mut manager);
    let b = process.spawn_task(&mut manager);
    assert_eq!(dispatch(&mut process, &mut manager), a);
    assert_eq!(sys_yield(&mut process, &mut manager, a), 0);
    assert_eq!(status(&process, a), TaskStatus::Ready);
    // b has the smaller stride: it has not run yet.
    assert_eq!(dispatch(&mut process, &mut manager), b);
    assert_eq!(sys_yield(&mut process, &mut manager, b), 0);
    assert_eq!(dispatch(&mut process, &mut manager), a);
}

#[test]
fn exit_makes_a_zombie_with_its_code() {
    let (mut process, _) = running(1);
    sys_exit(&mut process, 0, -3);
    assert_eq!(status(&process, 0), TaskStatus::Zombie);
    assert_eq!(process.task(0).unwrap().exit_code(), -3);
}

#[test]
fn getpid_returns_the_process_id() {
    assert_eq!(sys_getpid(&ProcessControlBlock::new(0)), 0);
    assert_eq!(sys_getpid(&ProcessControlBlock::new(41)), 41);
}

#[test]
fn get_time_splits_microseconds() {
    let mut ts = TimeVal { sec: 9, usec: 9 };
    assert_eq!(sys_get_time(3_000_017, &mut ts, 0), 0);
    assert_eq!(ts.sec, 3);
    assert_eq!(ts.usec, 17);
    assert_eq!(sys_get_time(999_999, &mut ts, 0), 0);
    assert_eq!(ts.sec, 0);
    assert_eq!(ts.usec, 999_999);
    assert_eq!(sys_get_time(0, &mut ts, 0), 0);
    assert_eq!(ts.sec, 0);
    assert_eq!(ts.usec, 0);
}

#[test]
fn spawn_is_refused_when_full_or_without_image() {
    let mut manager = TaskManager::new();
    let mut process = ProcessControlBlock::new(1);
    assert_eq!(sys_spawn(&mut process, &mut manager, false), -1);
    assert_eq!(manager.pid_num(), 0);
    for tid in 0..MAX_PID {
        assert_eq!(sys_spawn(&mut process, &mut manager, true), tid as isize);
    }
    assert_eq!(manager.pid_num(), MAX_PID);
    assert_eq!(sys_spawn(&mut process, &mut manager, true), -1);
    assert!(process.task(MAX_PID).is_none());
    assert_eq!(manager.pid_num(), MAX_PID);
    manager.fetch();
    assert_eq!(sys_spawn(&mut process, &mut manager, true), MAX_PID as isize);
}

#[test]
fn waitpid_without_such_a_task_returns_minus_one() {
    let (mut process, _) = running(1);
    let mut code = 77;
    assert_eq!(sys_waitpid(&mut process, 0, -1, &mut code), -1);
    assert_eq!(sys_waitpid(&mut process, 0, 5, &mut code), -1);
    // The caller does not wait for itself.
    assert_eq!(sys_waitpid(&mut process, 0, 0, &mut code), -1);
    assert_eq!(sys_waitpid(&mut process, 0, -2, &mut code), -1);
    assert_eq!(code, 77);
}

#[test]
fn waitpid_on_a_living_task_returns_minus_two() {
    let (mut process, _) = running(3);
    let mut code = 77;
    assert_eq!(sys_waitpid(&mut process, 0, -1, &mut code), -2);
    assert_eq!(sys_waitpid(&mut process, 0, 2, &mut code), -2);
    sys_exit(&mut process, 1, 5);
    assert_eq!(sys_waitpid(&mut process, 0, 2, &mut code), -2);
    assert_eq!(code, 77);
    assert_eq!(status(&process, 1), TaskStatus::Zombie);
}

#[test]
fn waitpid_collects_the_lowest_ended_task() {
    let (mut process, mut manager) = running(4);
    let mut code = 0;
    sys_exit(&mut process, 3, 30);
    sys_exit(&mut process, 1, 10);
    assert_eq!(sys_waitpid(&mut process, 0, 3, &mut code), 3);
    assert_eq!(code, 30);
    assert!(process.task(3).is_none());
    assert_eq!(sys_waitpid(&mut process, 0, 3, &mut code), -1);
    assert_eq!(sys_waitpid(&mut process, 0, -1, &mut code), 1);
    assert_eq!(code, 10);
    assert!(process.task(1).is_none());
    assert_eq!(sys_waitpid(&mut process, 0, -1, &mut code), -2);
    assert_eq!(code, 10);
    // The freed ids are given out again, lowest first.
    assert_eq!(process.spawn_task(&mut manager), 1);
    assert_eq!(process.spawn_task(&mut manager), 3);
    assert_eq!(process.spawn_task(&mut manager), 4);
}

#[test]
fn owner_that_asks_again_for_a_blocking_mutex_waits_for_itself() {
    let (mut process, mut manager) = running(1);
    let id = sys_mutex_create(&mut process, true) as usize;
    assert_eq!(sys_mutex_lock(&mut process, &mut manager, 0, id), 0);
    assert_eq!(sys_mutex_lock(&mut process, &mut manager, 0, id), 0);
    assert_eq!(status(&process, 0), TaskStatus::Blocked);
    assert_eq!(wait(&process, 0), Wait::Mutex(id));
    assert_eq!(process.mutex_owner(id), Some(0));
    assert_eq!(process.mutex(id).unwrap().get_next_task(), Some(0));
}

#[test]
fn condvar_wait_releases_the_mutex_whoever_owns_it() {
    let (mut process, mut manager) = running(2);
    let mutex = sys_mutex_create(&mut process, true) as usize;
    let condvar = sys_condvar_create(&mut process) as usize;
    assert_eq!(sys_mutex_lock(&mut process, &mut manager, 0, mutex), 0);
    assert_eq!(sys_condvar_wait(&mut process, &mut manager, 1, condvar, mutex), 0);
    assert_eq!(status(&process, 1), TaskStatus::Blocked);
    assert_eq!(process.mutex_owner(mutex), Some(NO_OWNER));
    assert!(!process.mutex(mutex).unwrap().is_locked());
    // Waiting with a mutex that is free leaves the mutex free.
    let (mut process, mut manager) = running(1);
    let mutex = sys_mutex_create(&mut process, false) as usize;
    let condvar = sys_condvar_create(&mut process) as usize;
    assert_eq!(sys_condvar_wait(&mut process, &mut manager, 0, condvar, mutex), 0);
    assert_eq!(process.mutex_owner(mutex), Some(NO_OWNER));
    assert_eq!(process.condvar(condvar).unwrap().waiting(), 1);
}

#[test]
fn fork_creates_a_ready_task_and_returns_its_id() {
    let (mut process, mut manager) = running(1);
    assert_eq!(sys_set_priority(&mut process, 0, 5), 5);
    assert_eq!(sys_fork(&mut process, &mut manager, 0), 1);
    assert_eq!(status(&process, 1), TaskStatus::Ready);
    assert_eq!(process.task(1).unwrap().stride(), 0);
    assert_eq!(process.task(1).unwrap().priority(), 16);
    assert_eq!(manager.fetch(), Some(TaskHandle { pid: 1, tid: 1, stride: 0 }));
    assert_eq!(status(&process, 0), TaskStatus::Running);
}

#[test]
fn task_info_reports_status_counts_and_time() {
    let (process, _) = running(1);
    let mut counts = [0u32; MAX_SYSCALL_NUM];
    counts[64] = 3;
    counts[169] = 1;
    let mut info =
        TaskInfo { status: TaskStatus::Ready, syscall_times: [9; MAX_SYSCALL_NUM], time: 0 };
    assert_eq!(sys_task_info(&process, 0, counts, 2_345_678, &mut info), 0);
    assert_eq!(info.status, TaskStatus::Running);
    assert_eq!(info.syscall_times[64], 3);
    assert_eq!(info.syscall_times[169], 1);
    assert_eq!(info.syscall_times[0], 0);
    assert_eq!(info.time, 2345);
    assert_eq!(sys_task_info(&process, 0, counts, 999, &mut info), 0);
    assert_eq!(info.time, 0);
    // The seconds start again from 0 after 65535.
    assert_eq!(sys_task_info(&process, 0, counts, 65_536_000_000 + 7_000, &mut info), 0);
    assert_eq!(info.time, 7);
    assert_eq!(sys_task_info(&process, 0, counts, 65_535_999_999, &mut info), 0);
    assert_eq!(info.time, 65_535_999);
}
