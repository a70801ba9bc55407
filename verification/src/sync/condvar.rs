//! A condition variable: a queue of tasks that sleep until signalled.

use std::collections::VecDeque;
use vstd::prelude::*;
use crate::sync::mutex::Mutex;

verus! {

/// A condition variable. Its view is the queue of sleeping tasks, oldest
/// first.
pub struct Condvar {
    wait_queue: VecDeque<usize>,
}

impl View for Condvar {
    type V = Seq<usize>;

    closed spec fn view(&self) -> Seq<usize> {
        self.wait_queue@
    }
}

/// The task that a signal wakes from `waiters`.
pub open spec fn signalled(waiters: Seq<usize>) -> Option<usize> {
    if waiters.len() > 0 {
        Some(waiters[0])
    } else {
        None
    }
}

/// The queue that a signal leaves of `waiters`.
pub open spec fn after_signal(waiters: Seq<usize>) -> Seq<usize> {
    if waiters.len() > 0 {
        waiters.drop_first()
    } else {
        waiters
    }
}

impl Condvar {
    /// A condition variable on which no task waits.
    pub fn new() -> (condvar: Self)
        ensures
            condvar@ == Seq::<usize>::empty(),
    {
        Self { wait_queue: VecDeque::new() }
    }

    /// Number of tasks that sleep on the condition.
    pub fn waiting(&self) -> (num: usize)
        ensures
            num == self@.len(),
    {
        self.wait_queue.len()
    }

    /// Wakes the oldest waiter and returns it. Without a waiter nothing
    /// changes and `None` is returned.
    pub fn signal(&mut self) -> (woken: Option<usize>)
        ensures
            woken == signalled(old(self)@),
            final(self)@ == after_signal(old(self)@),
            old(self)@.len() == 0 ==> final(self)@ == old(self)@ && woken is None,
    {
        let woken = self.wait_queue.pop_front();
        proof {
            assert(old(self)@.len() > 0 ==> old(self)@.drop_first() =~= old(self)@.subrange(
                1,
                old(self)@.len() as int,
            ));
        }
        woken
    }

    /// Task `tid` joins the waiters.
    pub(crate) fn enqueue(&mut self, tid: usize)
        ensures
            final(self)@ == old(self)@.push(tid),
    {
        self.wait_queue.push_back(tid);
    }

    /// Task `tid` releases `mutex` and joins the waiters, in one step:
    /// no signal can fall between the two. The task must sleep until it
    /// is signalled; it does not hold `mutex` when it wakes. Returns the
    /// task to which the release handed the mutex, if one waited for it.
    pub fn wait(&mut self, tid: usize, mutex: &mut Mutex) -> (handed_to: Option<usize>)
        ensures
            final(self)@ == old(self)@.push(tid),
            handed_to == old(mutex)@.next_waiter(),
            final(mutex)@ == old(mutex)@.unlock(),
            old(mutex)@.wf() ==> final(mutex)@.wf(),
    {
        let handed_to = mutex.unlock();
        self.wait_queue.push_back(tid);
        handed_to
    }
}

} // verus!
