use kernel_sched::sync::condvar::Condvar;
use kernel_sched::sync::mutex::{Acquire, Mutex, MutexKind};
use kernel_sched::sync::semaphore::Semaphore;

#[test]
fn new_mutex_is_unlocked() {
    for kind in [MutexKind::Spin, MutexKind::Blocking] {
        let mutex = Mutex::new(kind);
        assert!(!mutex.is_locked());
        assert_eq!(mutex.kind(), kind);
        assert_eq!(mutex.waiting(), 0);
        assert_eq!(mutex.get_next_task(), None);
    }
}

#[test]
fn lock_type_tags() {
    assert_eq!(Mutex::new(MutexKind::Blocking).get_locktype(), 1);
    assert_eq!(Mutex::new(MutexKind::Spin).get_locktype(), 2);
}

#[test]
fn blocking_mutex_queues_waiters_in_order() {
    let mut mutex = Mutex::new(MutexKind::Blocking);
    assert_eq!(mutex.lock(1), Acquire::Acquired);
    assert!(mutex.is_locked());
    assert_eq!(mutex.lock(2), Acquire::Blocked);
    assert_eq!(mutex.lock(3), Acquire::Blocked);
    assert_eq!(mutex.waiting(), 2);
    assert_eq!(mutex.get_next_task(), Some(2));
    assert_eq!(mutex.unlock(), Some(2));
    assert!(mutex.is_locked());
    assert_eq!(mutex.get_next_task(), Some(3));
    assert_eq!(mutex.unlock(), Some(3));
    assert!(mutex.is_locked());
    assert_eq!(mutex.get_next_task(), None);
    assert_eq!(mutex.unlock(), None);
    assert!(!mutex.is_locked());
    assert_eq!(mutex.lock(4), Acquire::Acquired);
}

#[test]
fn spin_mutex_never_queues() {
    let mut mutex = Mutex::new(MutexKind::Spin);
    assert_eq!(mutex.lock(1), Acquire::Acquired);
    assert_eq!(mutex.lock(2), Acquire::Busy);
    assert_eq!(mutex.lock(2), Acquire::Busy);
    assert_eq!(mutex.waiting(), 0);
    assert_eq!(mutex.get_next_task(), None);
    assert_eq!(mutex.unlock(), None);
    assert!(!mutex.is_locked());
    assert_eq!(mutex.lock(2), Acquire::Acquired);
}

#[test]
fn unlock_of_a_free_mutex_changes_nothing() {
    let mut mutex = Mutex::new(MutexKind::Blocking);
    assert_eq!(mutex.unlock(), None);
    assert!(!mutex.is_locked());
    assert_eq!(mutex.waiting(), 0);
}

#[test]
fn semaphore_counts_down_then_queues() {
    let mut sem = Semaphore::new(2);
    assert_eq!(sem.count(), 2);
    assert!(sem.down(1));
    assert!(sem.down(2));
    assert_eq!(sem.count(), 0);
    assert!(!sem.down(3));
    assert!(!sem.down(4));
    assert_eq!(sem.count(), 0);
    assert_eq!(sem.waiting(), 2);
    assert_eq!(sem.up(), Some(3));
    assert_eq!(sem.count(), 0);
    assert_eq!(sem.up(), Some(4));
    assert_eq!(sem.waiting(), 0);
    assert_eq!(sem.up(), None);
    assert_eq!(sem.count(), 1);
    assert_eq!(sem.up(), None);
    assert_eq!(sem.count(), 2);
}

#[test]
fn semaphore_without_units_blocks_the_first_down() {
    let mut sem = Semaphore::new(0);
    assert!(!sem.down(7));
    assert_eq!(sem.waiting(), 1);
    assert_eq!(sem.up(), Some(7));
    assert_eq!(sem.count(), 0);
}

#[test]
fn semaphore_granted_downs_never_exceed_ups_plus_initial_count() {
    let initial = 3usize;
    let mut sem = Semaphore::new(initial);
    let mut downs = 0usize;
    let mut ups = 0usize;
    let pattern = [true, true, true, true, false, true, true, false, false, false, true, false];
    for (step, is_down) in pattern.iter().cycle().take(120).enumerate() {
        if *is_down {
            sem.down(step);
            downs += 1;
        } else {
            sem.up();
            ups += 1;
        }
        let granted = downs - sem.waiting();
        assert!(granted <= ups + initial);
        assert_eq!(granted + sem.count(), ups + initial);
        if sem.waiting() > 0 {
            assert_eq!(sem.count(), 0);
        }
    }
}

#[test]
fn signal_without_waiter_is_a_no_op() {
    let mut condvar = Condvar::new();
    assert_eq!(condvar.waiting(), 0);
    assert_eq!(condvar.signal(), None);
    assert_eq!(condvar.waiting(), 0);
    assert_eq!(condvar.signal(), None);
}

#[test]
fn condvar_wait_releases_the_mutex_and_queues_the_caller() {
    let mut mutex = Mutex::new(MutexKind::Blocking);
    let mut condvar = Condvar::new();
    assert_eq!(mutex.lock(1), Acquire::Acquired);
    assert_eq!(condvar.wait(1, &mut mutex), None);
    assert!(!mutex.is_locked());
    assert_eq!(condvar.waiting(), 1);
    assert_eq!(mutex.lock(2), Acquire::Acquired);
    assert_eq!(mutex.lock(3), Acquire::Blocked);
    assert_eq!(condvar.wait(2, &mut mutex), Some(3));
    assert!(mutex.is_locked());
    assert_eq!(condvar.waiting(), 2);
    assert_eq!(condvar.signal(), Some(1));
    assert_eq!(condvar.signal(), Some(2));
    assert_eq!(condvar.signal(), None);
}
