use kernel_sched::config::DEADLOCK;
use kernel_sched::kernel::{check_timer, dispatch, spawn_process, Dispatch};
use kernel_sched::manager::TaskManager;
use kernel_sched::process::ProcessControlBlock;
use kernel_sched::syscall::process::sys_yield;
use kernel_sched::syscall::sync::{sys_mutex_create, sys_mutex_lock, sys_mutex_unlock, sys_sleep};
use kernel_sched::task::{TaskStatus, Wait};
use kernel_sched::timer::TimerList;

fn runs(pid: usize, tid: usize) -> Dispatch {
    Dispatch::Runs { pid, tid, retried: None }
}

#[test]
fn dispatch_without_ready_task_is_idle() {
    let mut processes: Vec<ProcessControlBlock> = Vec::new();
    let mut manager = TaskManager::new();
    assert_eq!(dispatch(&mut processes, &mut manager), Dispatch::Idle);
    assert_eq!(manager.pid_num(), 0);
}

#[test]
fn processes_are_numbered_in_order_of_creation() {
    let mut processes: Vec<ProcessControlBlock> = Vec::new();
    let mut manager = TaskManager::new();
    assert_eq!(spawn_process(&mut processes, &mut manager), 0);
    assert_eq!(spawn_process(&mut processes, &mut manager), 1);
    assert_eq!(processes[1].getpid(), 1);
    assert_eq!(processes[1].task(0).unwrap().status(), TaskStatus::Ready);
    assert!(processes[1].task(1).is_none());
    assert_eq!(manager.pid_num(), 2);
}

#[test]
fn dispatch_takes_turns_between_processes() {
    let mut processes: Vec<ProcessControlBlock> = Vec::new();
    let mut manager = TaskManager::new();
    spawn_process(&mut processes, &mut manager);
    spawn_process(&mut processes, &mut manager);
    let second = processes[0].spawn_task(&mut manager);
    assert_eq!(second, 1);
    let mut order = Vec::new();
    for _ in 0..6 {
        match dispatch(&mut processes, &mut manager) {
            Dispatch::Runs { pid, tid, retried: None } => {
                assert_eq!(processes[pid].task(tid).unwrap().status(), TaskStatus::Running);
                order.push((pid, tid));
                assert_eq!(sys_yield(&mut processes[pid], &mut manager, tid), 0);
            },
            other => panic!("unexpected {:?}", other),
        }
    }
    assert_eq!(order, vec![(0, 0), (1, 0), (0, 1), (0, 0), (1, 0), (0, 1)]);
}

#[test]
fn dispatch_retries_the_spin_mutex() {
    let mut processes: Vec<ProcessControlBlock> = Vec::new();
    let mut manager = TaskManager::new();
    spawn_process(&mut processes, &mut manager);
    processes[0].spawn_task(&mut manager);
    assert_eq!(dispatch(&mut processes, &mut manager), runs(0, 0));
    let id = sys_mutex_create(&mut processes[0], false) as usize;
    assert_eq!(sys_mutex_lock(&mut processes[0], &mut manager, 0, id), 0);
    assert_eq!(sys_yield(&mut processes[0], &mut manager, 0), 0);

    assert_eq!(dispatch(&mut processes, &mut manager), runs(0, 1));
    assert_eq!(sys_mutex_lock(&mut processes[0], &mut manager, 1, id), 0);
    assert_eq!(processes[0].task(1).unwrap().wait(), Wait::Spin(id));
    // A mutex for which a task waits to ask again stays in the table.
    assert!(!processes[0].remove_mutex(id));

    assert_eq!(dispatch(&mut processes, &mut manager), runs(0, 0));
    // The owner keeps the lock while the other task takes its turn.
    assert_eq!(sys_yield(&mut processes[0], &mut manager, 0), 0);
    let stride = processes[0].task(1).unwrap().stride();
    assert_eq!(dispatch(&mut processes, &mut manager), Dispatch::Spins { pid: 0, tid: 1 });
    assert_eq!(processes[0].task(1).unwrap().status(), TaskStatus::Ready);
    assert_eq!(processes[0].task(1).unwrap().wait(), Wait::Spin(id));
    assert_eq!(processes[0].task(1).unwrap().stride(), stride + 4096);
    assert_eq!(manager.pid_num(), 2);

    assert_eq!(dispatch(&mut processes, &mut manager), runs(0, 0));
    assert_eq!(sys_mutex_unlock(&mut processes[0], &mut manager, id), 0);
    assert_eq!(sys_yield(&mut processes[0], &mut manager, 0), 0);
    assert_eq!(
        dispatch(&mut processes, &mut manager),
        Dispatch::Runs { pid: 0, tid: 1, retried: Some(0) }
    );
    assert_eq!(processes[0].mutex_owner(id), Some(1));
    assert_eq!(processes[0].task(1).unwrap().wait(), Wait::Nothing);
    assert_eq!(sys_mutex_lock(&mut processes[0], &mut manager, 1, id), DEADLOCK);
}

#[test]
fn check_timer_wakes_one_sleeper_per_call() {
    let mut processes: Vec<ProcessControlBlock> = Vec::new();
    let mut manager = TaskManager::new();
    let mut timers = TimerList::new();
    spawn_process(&mut processes, &mut manager);
    spawn_process(&mut processes, &mut manager);
    assert_eq!(dispatch(&mut processes, &mut manager), runs(0, 0));
    assert_eq!(sys_sleep(&mut processes[0], &mut timers, 0, 0, 30), 0);
    assert_eq!(dispatch(&mut processes, &mut manager), runs(1, 0));
    assert_eq!(sys_sleep(&mut processes[1], &mut timers, 0, 5, 10), 0);
    assert_eq!(dispatch(&mut processes, &mut manager), Dispatch::Idle);

    assert!(!check_timer(&mut timers, &mut processes, &mut manager, 14));
    assert_eq!(manager.pid_num(), 0);
    assert!(check_timer(&mut timers, &mut processes, &mut manager, 40));
    assert_eq!(processes[1].task(0).unwrap().status(), TaskStatus::Ready);
    assert_eq!(processes[0].task(0).unwrap().status(), TaskStatus::Blocked);
    assert!(check_timer(&mut timers, &mut processes, &mut manager, 40));
    assert_eq!(processes[0].task(0).unwrap().status(), TaskStatus::Ready);
    assert!(!check_timer(&mut timers, &mut processes, &mut manager, 40));
    assert_eq!(timers.len(), 0);
    // Both have run once; the task that was woken first goes first.
    assert_eq!(dispatch(&mut processes, &mut manager), runs(1, 0));
}

#[test]
fn a_timer_for_a_task_that_no_longer_sleeps_is_dropped() {
    let mut processes: Vec<ProcessControlBlock> = Vec::new();
    let mut manager = TaskManager::new();
    let mut timers = TimerList::new();
    spawn_process(&mut processes, &mut manager);
    timers.add_timer(1, 0, 0);
    timers.add_timer(2, 9, 0);
    timers.add_timer(3, 0, 9);
    for _ in 0..3 {
        assert!(check_timer(&mut timers, &mut processes, &mut manager, 10));
    }
    assert!(!check_timer(&mut timers, &mut processes, &mut manager, 10));
    assert_eq!(manager.pid_num(), 1);
    assert_eq!(processes[0].task(0).unwrap().status(), TaskStatus::Ready);
}
