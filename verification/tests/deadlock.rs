use kernel_sched::config::DEADLOCK;
use kernel_sched::manager::TaskManager;
use kernel_sched::process::ProcessControlBlock;
use kernel_sched::syscall::sync::{
    sys_enable_deadlock_detect, sys_semaphore_create, sys_semaphore_down, sys_semaphore_up,
};
use kernel_sched::task::{TaskStatus, Wait};

fn running(n: usize) -> (ProcessControlBlock, TaskManager) {
    let mut manager = TaskManager::new();
    let mut process = ProcessControlBlock::new(1);
    for _ in 0..n {
        let tid = process.spawn_task(&mut manager);
        manager.fetch();
        process.run(tid);
    }
    (process, manager)
}

#[test]
fn crossed_requests_are_refused_without_side_effect() {
    let (mut process, _manager) = running(2);
    let (a, b) = (0usize, 1usize);
    let s1 = sys_semaphore_create(&mut process, 1) as usize;
    let s2 = sys_semaphore_create(&mut process, 1) as usize;
    assert_eq!(sys_semaphore_down(&mut process, a, s1), 0);
    assert_eq!(sys_semaphore_down(&mut process, b, s2), 0);
    // b asks for what a holds, and sleeps.
    assert_eq!(sys_semaphore_down(&mut process, b, s1), 0);
    assert_eq!(process.task(b).unwrap().status(), TaskStatus::Blocked);
    assert_eq!(process.task(b).unwrap().requested(s1), 1);

    assert_eq!(sys_enable_deadlock_detect(&mut process, 1), 0);
    assert_eq!(process.task(a).unwrap().requested(s2), 0);
    assert_eq!(sys_semaphore_down(&mut process, a, s2), DEADLOCK);
    assert_eq!(sys_semaphore_down(&mut process, a, s2), -0xDEAD);
    assert_eq!(process.task(a).unwrap().status(), TaskStatus::Running);
    assert_eq!(process.task(a).unwrap().wait(), Wait::Nothing);
    assert_eq!(process.task(a).unwrap().requested(s2), 0);
    assert_eq!(process.task(a).unwrap().held(s1), 1);
    assert_eq!(process.task(a).unwrap().held(s2), 0);
    assert_eq!(process.semaphore(s2).unwrap().count(), 0);
    assert_eq!(process.semaphore(s2).unwrap().waiting(), 0);
    assert_eq!(process.semaphore(s1).unwrap().waiting(), 1);
    assert_eq!(process.task(b).unwrap().requested(s1), 1);
    assert_eq!(process.task(b).unwrap().held(s2), 1);
}

#[test]
fn without_detection_the_crossed_request_blocks() {
    let (mut process, _manager) = running(2);
    let s1 = sys_semaphore_create(&mut process, 1) as usize;
    let s2 = sys_semaphore_create(&mut process, 1) as usize;
    assert_eq!(sys_semaphore_down(&mut process, 0, s1), 0);
    assert_eq!(sys_semaphore_down(&mut process, 1, s2), 0);
    assert_eq!(sys_semaphore_down(&mut process, 1, s1), 0);
    assert!(!process.detect_deadlock());
    assert_eq!(sys_semaphore_down(&mut process, 0, s2), 0);
    assert_eq!(process.task(0).unwrap().status(), TaskStatus::Blocked);
    assert_eq!(process.task(0).unwrap().requested(s2), 1);
    // Switched on now, the check finds the two tasks stuck.
    assert_eq!(sys_enable_deadlock_detect(&mut process, 1), 0);
    assert!(process.detect_deadlock());
    assert_eq!(sys_enable_deadlock_detect(&mut process, 0), 0);
    assert!(!process.detect_deadlock());
}

#[test]
fn a_request_that_can_be_met_later_is_granted() {
    let (mut process, mut manager) = running(2);
    assert_eq!(sys_enable_deadlock_detect(&mut process, 1), 0);
    let s1 = sys_semaphore_create(&mut process, 1) as usize;
    let s2 = sys_semaphore_create(&mut process, 1) as usize;
    assert_eq!(sys_semaphore_down(&mut process, 0, s1), 0);
    assert_eq!(sys_semaphore_down(&mut process, 0, s2), 0);
    // Task 1 must wait, but task 0 awaits nothing and can finish.
    assert_eq!(sys_semaphore_down(&mut process, 1, s1), 0);
    assert_eq!(process.task(1).unwrap().status(), TaskStatus::Blocked);
    assert!(!process.detect_deadlock());
    assert_eq!(sys_semaphore_up(&mut process, &mut manager, 0, s1), 0);
    assert_eq!(process.task(1).unwrap().status(), TaskStatus::Ready);
    assert_eq!(process.task(1).unwrap().held(s1), 1);
    assert!(!process.detect_deadlock());
}

#[test]
fn a_lone_request_for_an_empty_semaphore_is_refused() {
    let (mut process, _manager) = running(1);
    assert_eq!(sys_enable_deadlock_detect(&mut process, 1), 0);
    let sem = sys_semaphore_create(&mut process, 0) as usize;
    assert_eq!(sys_semaphore_down(&mut process, 0, sem), DEADLOCK);
    assert_eq!(process.task(0).unwrap().status(), TaskStatus::Running);
    assert_eq!(process.task(0).unwrap().requested(sem), 0);
    assert_eq!(process.semaphore(sem).unwrap().waiting(), 0);
}

#[test]
fn three_tasks_in_a_ring_are_detected() {
    let (mut process, _manager) = running(3);
    let sems: Vec<usize> =
        (0..3).map(|_| sys_semaphore_create(&mut process, 1) as usize).collect();
    for tid in 0..3 {
        assert_eq!(sys_semaphore_down(&mut process, tid, sems[tid]), 0);
    }
    assert_eq!(sys_semaphore_down(&mut process, 0, sems[1]), 0);
    assert_eq!(sys_semaphore_down(&mut process, 1, sems[2]), 0);
    assert_eq!(sys_enable_deadlock_detect(&mut process, 1), 0);
    // Two tasks wait in a chain that the third can still resolve.
    assert!(!process.detect_deadlock());
    assert_eq!(sys_semaphore_down(&mut process, 2, sems[0]), DEADLOCK);
    assert_eq!(process.task(2).unwrap().status(), TaskStatus::Running);
    assert!(!process.detect_deadlock());
}

#[test]
fn a_process_without_tasks_or_semaphores_is_safe() {
    let mut process = ProcessControlBlock::new(0);
    assert_eq!(sys_enable_deadlock_detect(&mut process, 1), 0);
    assert!(!process.detect_deadlock());
    let (mut process, _manager) = running(3);
    assert_eq!(sys_enable_deadlock_detect(&mut process, 1), 0);
    assert!(!process.detect_deadlock());
}
