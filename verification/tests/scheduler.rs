use kernel_sched::config::{BIG_STRIDE, DEFAULT_PRIORITY, MAX_PID};
use kernel_sched::manager::{add_task, fetch_task, is_full, TaskHandle, TaskManager};
use kernel_sched::process::ProcessControlBlock;
use kernel_sched::task::{next_stride, TaskStatus};
use kernel_sched::timer::{Timer, TimerList};

fn handle(tid: usize, stride: usize) -> TaskHandle {
    TaskHandle { pid: 0, tid, stride }
}

#[test]
fn fetch_on_empty_queue_returns_none() {
    let mut manager = TaskManager::new();
    assert_eq!(manager.pid_num(), 0);
    assert_eq!(manager.fetch(), None);
    assert_eq!(manager.pid_num(), 0);
}

#[test]
fn fetch_picks_smallest_stride_earliest_first() {
    let mut manager = TaskManager::new();
    for (tid, stride) in [5usize, 2, 2, 9].iter().enumerate() {
        manager.add(handle(tid, *stride));
    }
    assert_eq!(manager.pid_num(), 4);
    assert_eq!(manager.fetch(), Some(handle(1, 2)));
    assert_eq!(manager.fetch(), Some(handle(2, 2)));
    assert_eq!(manager.fetch(), Some(handle(0, 5)));
    assert_eq!(manager.fetch(), Some(handle(3, 9)));
    assert_eq!(manager.fetch(), None);
}

#[test]
fn equal_strides_are_served_in_arrival_order() {
    let mut manager = TaskManager::new();
    for tid in 0..5 {
        add_task(&mut manager, handle(tid, 7));
    }
    for tid in 0..5 {
        assert_eq!(fetch_task(&mut manager), Some(handle(tid, 7)));
    }
    assert_eq!(fetch_task(&mut manager), None);
}

#[test]
fn fetch_keeps_the_order_of_the_rest() {
    let mut manager = TaskManager::new();
    manager.add(handle(0, 3));
    manager.add(handle(1, 1));
    manager.add(handle(2, 3));
    assert_eq!(manager.fetch(), Some(handle(1, 1)));
    manager.add(handle(3, 3));
    assert_eq!(manager.fetch(), Some(handle(0, 3)));
    assert_eq!(manager.fetch(), Some(handle(2, 3)));
    assert_eq!(manager.fetch(), Some(handle(3, 3)));
}

#[test]
fn largest_stride_is_still_fetched() {
    let mut manager = TaskManager::new();
    manager.add(handle(0, usize::MAX));
    manager.add(handle(1, usize::MAX));
    assert_eq!(manager.fetch(), Some(handle(0, usize::MAX)));
    assert_eq!(manager.fetch(), Some(handle(1, usize::MAX)));
}

#[test]
fn queue_is_full_at_the_configured_maximum() {
    let mut manager = TaskManager::new();
    for tid in 0..MAX_PID - 1 {
        manager.add(handle(tid, 0));
    }
    assert!(!is_full(&manager));
    manager.add(handle(MAX_PID - 1, 0));
    assert!(is_full(&manager));
    manager.add(handle(MAX_PID, 0));
    assert!(is_full(&manager));
    assert_eq!(manager.pid_num(), MAX_PID + 1);
}

#[test]
fn dispatch_advances_stride_by_big_stride_over_priority() {
    let mut manager = TaskManager::new();
    let mut process = ProcessControlBlock::new(3);
    let tid = process.spawn_task(&mut manager);
    assert_eq!(tid, 0);
    assert_eq!(manager.fetch(), Some(TaskHandle { pid: 3, tid: 0, stride: 0 }));
    assert_eq!(process.task(tid).unwrap().status(), TaskStatus::Ready);
    assert_eq!(process.task(tid).unwrap().priority(), DEFAULT_PRIORITY);
    assert_eq!(process.run(tid), None);
    assert_eq!(process.task(tid).unwrap().status(), TaskStatus::Running);
    assert_eq!(process.task(tid).unwrap().stride(), BIG_STRIDE / DEFAULT_PRIORITY);
    assert_eq!(process.task(tid).unwrap().stride(), 4096);
    process.suspend(&mut manager, tid);
    assert_eq!(process.task(tid).unwrap().status(), TaskStatus::Ready);
    assert_eq!(manager.fetch(), Some(TaskHandle { pid: 3, tid: 0, stride: 4096 }));
    assert_eq!(process.run(tid), None);
    assert_eq!(process.task(tid).unwrap().stride(), 8192);
}

#[test]
fn higher_priority_runs_more_often() {
    let mut manager = TaskManager::new();
    let mut process = ProcessControlBlock::new(0);
    let slow = process.spawn_task(&mut manager);
    let fast = process.spawn_task(&mut manager);
    // Both run once so that each may set its own priority.
    let first = manager.fetch().unwrap();
    assert_eq!(first.tid, slow);
    process.run(slow);
    assert_eq!(kernel_sched::syscall::process::sys_set_priority(&mut process, slow, 2), 2);
    process.suspend(&mut manager, slow);
    let second = manager.fetch().unwrap();
    assert_eq!(second.tid, fast);
    process.run(fast);
    assert_eq!(kernel_sched::syscall::process::sys_set_priority(&mut process, fast, 32), 32);
    process.suspend(&mut manager, fast);
    let mut runs = [0usize; 2];
    for _ in 0..170 {
        let next = manager.fetch().unwrap();
        process.run(next.tid);
        runs[next.tid] += 1;
        process.suspend(&mut manager, next.tid);
    }
    // A pass of the slow task is 32768, one of the fast task 2048.
    assert_eq!(runs[slow], 10);
    assert_eq!(runs[fast], 160);
}

#[test]
fn stride_stops_at_the_largest_number() {
    let mut manager = TaskManager::new();
    let mut process = ProcessControlBlock::new(0);
    let tid = process.spawn_task(&mut manager);
    manager.fetch();
    process.run(tid);
    assert_eq!(kernel_sched::syscall::process::sys_set_priority(&mut process, tid, 2), 2);
    let mut last = process.task(tid).unwrap().stride();
    for _ in 0..1000 {
        process.suspend(&mut manager, tid);
        manager.fetch();
        process.run(tid);
        let now = process.task(tid).unwrap().stride();
        assert!(now >= last);
        assert_eq!(now, last + BIG_STRIDE / 2);
        last = now;
    }
}

#[test]
fn timers_run_out_earliest_first() {
    let mut timers = TimerList::new();
    timers.add_timer(30, 0, 1);
    timers.add_timer(10, 0, 2);
    timers.add_timer(10, 0, 3);
    timers.add_timer(50, 0, 4);
    assert_eq!(timers.len(), 4);
    assert_eq!(timers.pop_expired(9), None);
    assert_eq!(timers.len(), 4);
    assert_eq!(timers.pop_expired(10), Some(Timer { expire_ms: 10, pid: 0, tid: 2 }));
    assert_eq!(timers.pop_expired(10), Some(Timer { expire_ms: 10, pid: 0, tid: 3 }));
    assert_eq!(timers.pop_expired(10), None);
    assert_eq!(timers.pop_expired(40), Some(Timer { expire_ms: 30, pid: 0, tid: 1 }));
    assert_eq!(timers.pop_expired(40), None);
    assert_eq!(timers.pop_expired(usize::MAX), Some(Timer { expire_ms: 50, pid: 0, tid: 4 }));
    assert_eq!(timers.pop_expired(usize::MAX), None);
    assert_eq!(timers.len(), 0);
}

#[test]
fn next_stride_adds_big_stride_over_priority() {
    assert_eq!(BIG_STRIDE, 65536);
    assert_eq!(next_stride(0, 2), 32768);
    assert_eq!(next_stride(0, 16), 4096);
    assert_eq!(next_stride(100, 3), 100 + 21845);
    assert_eq!(next_stride(7, 65536), 8);
    assert_eq!(next_stride(7, 65537), 7);
    assert_eq!(next_stride(7, usize::MAX), 7);
}

#[test]
fn next_stride_saturates_instead_of_wrapping() {
    assert_eq!(next_stride(usize::MAX, 2), usize::MAX);
    assert_eq!(next_stride(usize::MAX - 1, 2), usize::MAX);
    assert_eq!(next_stride(usize::MAX - 32768, 2), usize::MAX);
    assert_eq!(next_stride(usize::MAX - 32769, 2), usize::MAX - 1);
}
