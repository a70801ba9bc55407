//! A binary lock, in a variant that parks its waiters and one that has
//! them try again.

use std::collections::VecDeque;
use vstd::prelude::*;

verus! {

/// How a mutex treats a task that finds it taken.
#[derive(Clone, Copy, Debug, PartialEq, Eq, Structural)]
pub enum MutexKind {
    /// The task gives up the processor and tries again later.
    Spin,
    /// The task joins the mutex's queue and sleeps until the lock is
    /// handed to it.
    Blocking,
}

/// What became of a task that asked for a lock.
#[derive(Clone, Copy, Debug, PartialEq, Eq, Structural)]
pub enum Acquire {
    /// The task holds the lock.
    Acquired,
    /// The task is queued on the lock and must sleep; it will hold the
    /// lock when it is woken.
    Blocked,
    /// The lock is taken; the task must yield and ask again.
    Busy,
}

/// A mutex as contracts see it.
pub struct MutexState {
    pub kind: MutexKind,
    pub locked: bool,
    /// The tasks that sleep on the lock, oldest first.
    pub waiters: Seq<usize>,
}

impl MutexState {
    /// A lock that nobody holds.
    pub open spec fn fresh(kind: MutexKind) -> MutexState {
        MutexState { kind, locked: false, waiters: Seq::empty() }
    }

    /// Only a taken blocking mutex has waiters.
    pub open spec fn wf(self) -> bool {
        self.waiters.len() > 0 ==> self.locked && self.kind == MutexKind::Blocking
    }

    /// What a task that asks for the lock is told.
    pub open spec fn lock_outcome(self) -> Acquire {
        if !self.locked {
            Acquire::Acquired
        } else if self.kind == MutexKind::Blocking {
            Acquire::Blocked
        } else {
            Acquire::Busy
        }
    }

    /// The mutex after task `tid` has asked for the lock.
    pub open spec fn lock(self, tid: usize) -> MutexState {
        match self.lock_outcome() {
            Acquire::Acquired => MutexState { locked: true, ..self },
            Acquire::Blocked => MutexState { waiters: self.waiters.push(tid), ..self },
            Acquire::Busy => self,
        }
    }

    /// The task to which a release hands the lock.
    pub open spec fn next_waiter(self) -> Option<usize> {
        if self.waiters.len() > 0 {
            Some(self.waiters[0])
        } else {
            None
        }
    }

    /// The mutex after its holder has released it: the oldest waiter
    /// leaves the queue and holds the lock; without a waiter the lock is free.
    pub open spec fn unlock(self) -> MutexState {
        if self.waiters.len() > 0 {
            MutexState { waiters: self.waiters.drop_first(), ..self }
        } else {
            MutexState { locked: false, ..self }
        }
    }
}

/// A binary lock. It does not record who holds it.
pub struct Mutex {
    kind: MutexKind,
    locked: bool,
    wait_queue: VecDeque<usize>,
}

impl View for Mutex {
    type V = MutexState;

    closed spec fn view(&self) -> MutexState {
        MutexState { kind: self.kind, locked: self.locked, waiters: self.wait_queue@ }
    }
}

impl Mutex {
    /// An unlocked mutex of the given kind.
    pub fn new(kind: MutexKind) -> (mutex: Self)
        ensures
            mutex@ == MutexState::fresh(kind),
    {
        Self { kind, locked: false, wait_queue: VecDeque::new() }
    }

    /// The variant of this mutex.
    pub fn kind(&self) -> (kind: MutexKind)
        ensures
            kind == self@.kind,
    {
        self.kind
    }

    /// The variant as a number: 1 for a blocking mutex, 2 for a spin mutex.
    pub fn get_locktype(&self) -> (tag: usize)
        ensures
            tag == (if self@.kind == MutexKind::Blocking { 1usize } else { 2usize }),
    {
        match self.kind {
            MutexKind::Blocking => 1,
            MutexKind::Spin => 2,
        }
    }

    /// Whether some task holds the lock.
    pub fn is_locked(&self) -> (locked: bool)
        ensures
            locked == self@.locked,
    {
        self.locked
    }

    /// Number of tasks that sleep on the lock.
    pub fn waiting(&self) -> (num: usize)
        ensures
            num == self@.waiters.len(),
    {
        self.wait_queue.len()
    }

    /// The task that the next release will wake, if any task waits.
    pub fn get_next_task(&self) -> (next: Option<usize>)
        ensures
            next == self@.next_waiter(),
    {
        if self.wait_queue.len() > 0 {
            Some(self.wait_queue[0])
        } else {
            None
        }
    }

    /// Task `tid` asks for the lock. A free lock is taken at once. A taken
    /// blocking mutex queues the task behind the earlier waiters; a taken
    /// spin mutex is left as it is.
    pub fn lock(&mut self, tid: usize) -> (outcome: Acquire)
        ensures
            outcome == old(self)@.lock_outcome(),
            final(self)@ == old(self)@.lock(tid),
            old(self)@.wf() ==> final(self)@.wf(),
    {
        if !self.locked {
            self.locked = true;
            Acquire::Acquired
        } else {
            match self.kind {
                MutexKind::Blocking => {
                    self.wait_queue.push_back(tid);
                    Acquire::Blocked
                },
                MutexKind::Spin => Acquire::Busy,
            }
        }
    }

    /// The holder releases the lock. The oldest waiter, if there is one,
    /// leaves the queue, holds the lock from now on, and is returned so
    /// that the caller can make it ready and record it as the owner.
    /// Without a waiter the lock becomes free.
    pub fn unlock(&mut self) -> (woken: Option<usize>)
        ensures
            woken == old(self)@.next_waiter(),
            final(self)@ == old(self)@.unlock(),
            old(self)@.wf() ==> final(self)@.wf(),
    {
        let woken = self.wait_queue.pop_front();
        if woken.is_none() {
            self.locked = false;
        }
        proof {
            assert(old(self)@.waiters.drop_first() =~= old(self)@.waiters.subrange(
                1,
                old(self)@.waiters.len() as int,
            ));
        }
        woken
    }
}

} // verus!
