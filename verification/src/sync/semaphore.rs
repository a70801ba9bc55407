//! A counting semaphore whose waiters are served in the order in which
//! they came.

use std::collections::VecDeque;
use vstd::prelude::*;

verus! {

/// A semaphore as contracts see it.
pub struct SemaphoreState {
    /// Units that a `down` can still take without waiting.
    pub count: int,
    /// The tasks that sleep in `down`, oldest first.
    pub waiters: Seq<usize>,
}

impl SemaphoreState {
    /// A semaphore with `count` free units and no waiter.
    pub open spec fn fresh(count: int) -> SemaphoreState {
        SemaphoreState { count, waiters: Seq::empty() }
    }

    /// The units that are left less the tasks that wait for one: the
    /// count of the classic semaphore, negative while tasks wait.
    pub open spec fn balance(self) -> int {
        self.count - self.waiters.len()
    }

    /// Whether a `down` has to wait: no unit is left.
    pub open spec fn exhausted(self) -> bool {
        self.count <= 0
    }

    /// The semaphore after task `tid` has called `down`: it takes a unit
    /// where one is left, and joins the queue where none is.
    pub open spec fn down(self, tid: usize) -> SemaphoreState {
        if self.exhausted() {
            SemaphoreState { waiters: self.waiters.push(tid), ..self }
        } else {
            SemaphoreState { count: self.count - 1, ..self }
        }
    }

    /// The task that the next `up` wakes.
    pub open spec fn next_waiter(self) -> Option<usize> {
        if self.waiters.len() > 0 {
            Some(self.waiters[0])
        } else {
            None
        }
    }

    /// The semaphore after an `up`. The released unit goes to the oldest
    /// waiter, whose `down` is thereby complete; without a waiter it is
    /// added to the count.
    pub open spec fn up(self) -> SemaphoreState {
        if self.waiters.len() > 0 {
            SemaphoreState { waiters: self.waiters.drop_first(), ..self }
        } else {
            SemaphoreState { count: self.count + 1, ..self }
        }
    }
}

/// A counting semaphore.
pub struct Semaphore {
    count: usize,
    wait_queue: VecDeque<usize>,
}

impl View for Semaphore {
    type V = SemaphoreState;

    closed spec fn view(&self) -> SemaphoreState {
        SemaphoreState { count: self.count as int, waiters: self.wait_queue@ }
    }
}

impl Semaphore {
    /// A semaphore with `initial_count` free units.
    pub fn new(initial_count: usize) -> (sem: Self)
        ensures
            sem@ == SemaphoreState::fresh(initial_count as int),
    {
        Self { count: initial_count, wait_queue: VecDeque::new() }
    }

    /// Units that are free.
    pub fn count(&self) -> (count: usize)
        ensures
            count == self@.count,
    {
        self.count
    }

    /// Number of tasks that sleep in `down`.
    pub fn waiting(&self) -> (num: usize)
        ensures
            num == self@.waiters.len(),
    {
        self.wait_queue.len()
    }

    /// Task `tid` takes a unit. Returns `true` when it got one at once,
    /// and `false` when none was left: the task is then queued behind the
    /// earlier waiters and must sleep until an `up` wakes it.
    pub fn down(&mut self, tid: usize) -> (taken: bool)
        ensures
            taken == !old(self)@.exhausted(),
            final(self)@ == old(self)@.down(tid),
    {
        if self.count > 0 {
            self.count = self.count - 1;
            true
        } else {
            self.wait_queue.push_back(tid);
            false
        }
    }

    /// Releases a unit. Where tasks wait, the oldest of them is taken from
    /// the queue and returned: the unit is its own from now on, whatever
    /// the count, and the caller makes it ready. Otherwise the count goes
    /// up by one.
    pub fn up(&mut self) -> (woken: Option<usize>)
        requires
            old(self)@.count < usize::MAX,
        ensures
            woken == old(self)@.next_waiter(),
            final(self)@ == old(self)@.up(),
    {
        let woken = self.wait_queue.pop_front();
        if woken.is_none() {
            self.count = self.count + 1;
        }
        proof {
            assert(old(self)@.waiters.drop_first() =~= old(self)@.waiters.subrange(
                1,
                old(self)@.waiters.len() as int,
            ));
        }
        woken
    }
}

} // verus!
