//! The tasks that sleep until a point in time.

use vstd::prelude::*;

verus! {

/// A task that sleeps, and the time in milliseconds at which it is to
/// be woken.
#[derive(Clone, Copy, Debug, PartialEq, Eq, Structural)]
pub struct Timer {
    pub expire_ms: usize,
    pub pid: usize,
    pub tid: usize,
}

/// `k` is the place of the timer that runs out first; among timers of
/// the same time, of the one that was set first.
pub open spec fn due_first(timers: Seq<Timer>, k: int) -> bool {
    &&& 0 <= k < timers.len()
    &&& forall|j: int|
        0 <= j < timers.len() ==> timers[k].expire_ms <= (#[trigger] timers[j]).expire_ms
    &&& forall|j: int| 0 <= j < k ==> timers[k].expire_ms < (#[trigger] timers[j]).expire_ms
}

/// The timers that are set, in the order in which they were set.
pub struct TimerList {
    timers: Vec<Timer>,
}

impl View for TimerList {
    type V = Seq<Timer>;

    closed spec fn view(&self) -> Seq<Timer> {
        self.timers@
    }
}

impl TimerList {
    /// No timer is set.
    pub fn new() -> (list: Self)
        ensures
            list@ == Seq::<Timer>::empty(),
    {
        Self { timers: Vec::new() }
    }

    /// Number of timers that are set.
    pub fn len(&self) -> (num: usize)
        ensures
            num == self@.len(),
    {
        self.timers.len()
    }

    /// Sets a timer that wakes task `tid` of process `pid` at `expire_ms`.
    pub fn add_timer(&mut self, expire_ms: usize, pid: usize, tid: usize)
        ensures
            final(self)@ == old(self)@.push(Timer { expire_ms, pid, tid }),
    {
        self.timers.push(Timer { expire_ms, pid, tid });
    }

    /// Takes out the timer that runs out first, if it has run out at
    /// `now_ms`. `None` when no timer has run out; the list is then as
    /// it was.
    pub fn pop_expired(&mut self, now_ms: usize) -> (timer: Option<Timer>)
        ensures
            match timer {
                Some(due) => exists|k: int|
                    {
                        &&& due_first(old(self)@, k)
                        &&& due == old(self)@[k]
                        &&& due.expire_ms <= now_ms
                        &&& final(self)@ == old(self)@.remove(k)
                    },
                None => {
                    &&& final(self)@ == old(self)@
                    &&& forall|j: int|
                        0 <= j < old(self)@.len() ==> (#[trigger] old(self)@[j]).expire_ms > now_ms
                },
            },
    {
        let n: usize = self.timers.len();
        if n == 0 {
            return None;
        }
        let mut first: usize = 0;
        let mut i: usize = 1;
        while i < n
            invariant
                n == self.timers@.len(),
                self.timers@ == old(self).timers@,
                0 <= first < i <= n,
                forall|j: int|
                    0 <= j < i ==> self.timers@[first as int].expire_ms <= (
                    #[trigger] self.timers@[j]).expire_ms,
                forall|j: int|
                    0 <= j < first ==> self.timers@[first as int].expire_ms < (
                    #[trigger] self.timers@[j]).expire_ms,
            decreases n - i,
        {
            if self.timers[i].expire_ms < self.timers[first].expire_ms {
                first = i;
            }
            i += 1;
        }
        if self.timers[first].expire_ms <= now_ms {
            assert(due_first(old(self)@, first as int));
            Some(self.timers.remove(first))
        } else {
            None
        }
    }
}

} // verus!
