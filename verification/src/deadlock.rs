//! The check that guards a request for a semaphore: can every task
//! still get what it waits for, one after the other?

use vstd::prelude::*;
use crate::process::{ProcessControlBlock, ProcessState};

verus! {

/// Units of semaphore `sem` that nobody holds. An empty slot has none.
pub open spec fn available(p: ProcessState, sem: int) -> int {
    if p.has_semaphore(sem) {
        p.semaphore(sem).count
    } else {
        0
    }
}

/// Units of semaphore `sem` that the tasks of `done` hold together.
pub open spec fn freed(p: ProcessState, done: Seq<int>, sem: int) -> int
    decreases done.len(),
{
    if done.len() == 0 {
        0
    } else {
        freed(p, done.drop_last(), sem) + p.task(done.last()).held[sem]
    }
}

/// Units of semaphore `sem` at hand once the tasks of `done` have
/// finished and given back what they hold.
pub open spec fn pool(p: ProcessState, done: Seq<int>, sem: int) -> int {
    available(p, sem) + freed(p, done, sem)
}

/// Whether task `tid` can get all it awaits once the tasks of `done`
/// have finished.
pub open spec fn can_finish(p: ProcessState, done: Seq<int>, tid: int) -> bool {
    forall|sem: int|
        0 <= sem < p.semaphores.len() ==> #[trigger] p.task(tid).requested[sem] <= pool(
            p,
            done,
            sem,
        )
}

/// `order` names every task of the process once, and each task in it
/// can get what it awaits once the tasks before it have finished.
pub open spec fn safe_order(p: ProcessState, order: Seq<int>) -> bool {
    &&& order.no_duplicates()
    &&& forall|tid: int| #[trigger] p.has_task(tid) <==> order.contains(tid)
    &&& forall|k: int|
        0 <= k < order.len() ==> #[trigger] can_finish(p, order.take(k), order[k])
}

/// Whether the tasks of the process can finish one after the other in
/// some order.
pub open spec fn safe(p: ProcessState) -> bool {
    exists|order: Seq<int>| safe_order(p, order)
}

/// Every task has one entry for each semaphore slot.
pub open spec fn shaped(p: ProcessState) -> bool {
    forall|tid: int| #[trigger]
        p.has_task(tid) ==> p.task(tid).held.len() == p.semaphores.len() && p.task(
            tid,
        ).requested.len() == p.semaphores.len()
}

/// Number of entries of `finish` that are `false`.
pub open spec fn unfinished(finish: Seq<bool>) -> nat
    decreases finish.len(),
{
    if finish.len() == 0 {
        0
    } else {
        unfinished(finish.drop_last()) + (if finish.last() {
            0nat
        } else {
            1nat
        })
    }
}

proof fn lemma_unfinished_update(finish: Seq<bool>, t: int)
    requires
        0 <= t < finish.len(),
        !finish[t],
    ensures
        unfinished(finish.update(t, true)) + 1 == unfinished(finish),
    decreases finish.len(),
{
    let after = finish.update(t, true);
    if t == finish.len() - 1 {
        assert(after.drop_last() =~= finish.drop_last());
    } else {
        assert(after.drop_last() =~= finish.drop_last().update(t, true));
        lemma_unfinished_update(finish.drop_last(), t);
    }
}

proof fn lemma_freed_nonnegative(p: ProcessState, done: Seq<int>, sem: int)
    ensures
        freed(p, done, sem) >= 0,
    decreases done.len(),
{
    if done.len() > 0 {
        lemma_freed_nonnegative(p, done.drop_last(), sem);
    }
}

proof fn lemma_freed_remove(p: ProcessState, done: Seq<int>, i: int, sem: int)
    requires
        0 <= i < done.len(),
    ensures
        freed(p, done, sem) == freed(p, done.remove(i), sem) + p.task(done[i]).held[sem],
    decreases done.len(),
{
    if i == done.len() - 1 {
        assert(done.remove(i) =~= done.drop_last());
    } else {
        assert(done.remove(i).drop_last() =~= done.drop_last().remove(i));
        assert(done.remove(i).last() == done.last());
        lemma_freed_remove(p, done.drop_last(), i, sem);
    }
}

/// Tasks hold together no more than a larger group of tasks does.
proof fn lemma_freed_subset(p: ProcessState, part: Seq<int>, all: Seq<int>, sem: int)
    requires
        part.no_duplicates(),
        forall|i: int| 0 <= i < part.len() ==> all.contains(#[trigger] part[i]),
    ensures
        freed(p, part, sem) <= freed(p, all, sem),
    decreases part.len(),
{
    if part.len() == 0 {
        lemma_freed_nonnegative(p, all, sem);
    } else {
        let x = part.last();
        let rest = part.drop_last();
        assert(all.contains(part[part.len() - 1]));
        let i = choose|i: int| 0 <= i < all.len() && all[i] == x;
        let others = all.remove(i);
        assert forall|j: int| 0 <= j < rest.len() implies others.contains(#[trigger] rest[j]) by {
            assert(rest[j] == part[j]);
            assert(all.contains(part[j]));
            let q = choose|q: int| 0 <= q < all.len() && all[q] == part[j];
            assert(part[j] != part[part.len() - 1]);
            if q < i {
                assert(others[q] == all[q]);
            } else {
                assert(others[q - 1] == all[q]);
            }
        }
        lemma_freed_subset(p, rest, others, sem);
        lemma_freed_remove(p, all, i, sem);
    }
}

/// The first place in `order` of a task that is not in `done`.
proof fn lemma_first_outside(order: Seq<int>, done: Seq<int>, upto: int) -> (k: int)
    requires
        0 <= upto < order.len(),
        !done.contains(order[upto]),
    ensures
        0 <= k <= upto,
        !done.contains(order[k]),
        forall|j: int| 0 <= j < k ==> done.contains(#[trigger] order[j]),
    decreases upto,
{
    if exists|j: int| 0 <= j < upto && !done.contains(order[j]) {
        let j = choose|j: int| 0 <= j < upto && !done.contains(order[j]);
        lemma_first_outside(order, done, j)
    } else {
        upto
    }
}

/// Where the tasks of `done` can finish and none of the others can
/// get what it awaits even then, the tasks of the process cannot finish
/// in any order.
proof fn lemma_stuck_is_unsafe(p: ProcessState, done: Seq<int>, left: int)
    requires
        p.has_task(left),
        !done.contains(left),
        forall|tid: int| p.has_task(tid) && !done.contains(tid) ==> !can_finish(p, done, tid),
    ensures
        !safe(p),
{
    assert forall|order: Seq<int>| safe_order(p, order) implies false by {
        assert(order.contains(left));
        let at = choose|at: int| 0 <= at < order.len() && order[at] == left;
        let k = lemma_first_outside(order, done, at);
        let before = order.take(k);
        assert(can_finish(p, order.take(k), order[k]));
        assert(order.contains(order[k]));
        assert(p.has_task(order[k]));
        assert forall|sem: int| 0 <= sem < p.semaphores.len() implies #[trigger] p.task(
            order[k],
        ).requested[sem] <= pool(p, done, sem) by {
            assert forall|i: int| 0 <= i < before.len() implies done.contains(
                #[trigger] before[i],
            ) by {
                assert(before[i] == order[i]);
            }
            lemma_freed_subset(p, before, done, sem);
        }
        assert(can_finish(p, done, order[k]));
    }
}

/// The number at which the check stops counting the units at hand. It
/// is larger than any number of units that a task can await.
pub open spec fn capped(units: int) -> int {
    if units > u128::MAX {
        u128::MAX as int
    } else {
        units
    }
}

impl ProcessControlBlock {
    /// Whether a request would leave the tasks of the process waiting
    /// for each other forever: the process checks for deadlock, and its
    /// tasks cannot finish in any order. The units that each task
    /// awaits and holds are taken as recorded, and the free units of
    /// each semaphore as they are.
    pub fn detect_deadlock(&self) -> (deadlock: bool)
        requires
            shaped(self@),
        ensures
            deadlock == (self@.detect && !safe(self@)),
    {
        if !self.deadlock_detected {
            return false;
        }
        let ghost p = self@;
        let n: usize = self.tasks.len();
        let m: usize = self.semaphore_list.len();
        let mut work: Vec<u128> = Vec::new();
        let mut s: usize = 0;
        while s < m
            invariant
                p == self@,
                m == self.semaphore_list@.len(),
                s <= m,
                work@.len() == s,
                forall|i: int| 0 <= i < s ==> #[trigger] work@[i] == available(p, i),
            decreases m - s,
        {
            let units: u128 = match &self.semaphore_list[s] {
                Some(sem) => sem.count() as u128,
                None => 0,
            };
            work.push(units);
            s += 1;
        }
        let mut finish: Vec<bool> = Vec::new();
        let mut t: usize = 0;
        while t < n
            invariant
                p == self@,
                n == self.tasks@.len(),
                t <= n,
                finish@.len() == t,
                forall|i: int| 0 <= i < t ==> #[trigger] finish@[i] == !p.has_task(i),
            decreases n - t,
        {
            finish.push(self.tasks[t].is_none());
            t += 1;
        }
        let ghost mut order: Seq<int> = Seq::empty();
        let mut progress = true;
        while progress
            invariant
                p == self@,
                shaped(p),
                n == self.tasks@.len(),
                m == self.semaphore_list@.len(),
                work@.len() == m,
                finish@.len() == n,
                order.no_duplicates(),
                forall|i: int|
                    0 <= i < n ==> (#[trigger] finish@[i] <==> (!p.has_task(i) || order.contains(
                        i,
                    ))),
                forall|i: int| 0 <= i < order.len() ==> p.has_task(#[trigger] order[i]),
                forall|k: int|
                    0 <= k < order.len() ==> #[trigger] can_finish(p, order.take(k), order[k]),
                forall|i: int| 0 <= i < m ==> #[trigger] work@[i] == capped(pool(p, order, i)),
                !progress ==> forall|i: int|
                    0 <= i < n && !finish@[i] ==> !can_finish(p, order, i),
            decreases unfinished(finish@), (if progress { 1int } else { 0int }),
        {
            progress = false;
            let ghost finish_before = finish@;
            let mut t: usize = 0;
            while t < n
                invariant
                    p == self@,
                    shaped(p),
                    n == self.tasks@.len(),
                    m == self.semaphore_list@.len(),
                    t <= n,
                    work@.len() == m,
                    finish@.len() == n,
                    order.no_duplicates(),
                    forall|i: int|
                        0 <= i < n ==> (#[trigger] finish@[i] <==> (!p.has_task(i)
                            || order.contains(i))),
                    forall|i: int| 0 <= i < order.len() ==> p.has_task(#[trigger] order[i]),
                    forall|k: int|
                        0 <= k < order.len() ==> #[trigger] can_finish(
                            p,
                            order.take(k),
                            order[k],
                        ),
                    forall|i: int|
                        0 <= i < m ==> #[trigger] work@[i] == capped(pool(p, order, i)),
                    !progress ==> forall|i: int|
                        0 <= i < t && !finish@[i] ==> !can_finish(p, order, i),
                    !progress ==> unfinished(finish@) == unfinished(finish_before),
                    progress ==> unfinished(finish@) < unfinished(finish_before),
                decreases n - t,
            {
                if !finish[t] {
                    let fits = self.fits(t, &work, Ghost(order));
                    if fits {
                        self.collect(t, &mut work, Ghost(order));
                        proof {
                            lemma_unfinished_update(finish@, t as int);
                        }
                        finish.set(t, true);
                        proof {
                            let longer = order.push(t as int);
                            assert forall|k: int|
                                0 <= k < longer.len() implies #[trigger] can_finish(
                                p,
                                longer.take(k),
                                longer[k],
                            ) by {
                                if k < order.len() {
                                    assert(longer.take(k) =~= order.take(k));
                                    assert(can_finish(p, order.take(k), order[k]));
                                } else {
                                    assert(longer.take(k) =~= order);
                                }
                            }
                            assert forall|i: int| 0 <= i < n implies (#[trigger] finish@[i] <==> (
                            !p.has_task(i) || longer.contains(i))) by {
                                if i == t {
                                    assert(longer[order.len() as int] == i);
                                } else if order.contains(i) {
                                    let q = choose|q: int| 0 <= q < order.len() && order[q] == i;
                                    assert(longer[q] == i);
                                }
                            }
                            order = longer;
                        }
                        progress = true;
                    }
                }
                t += 1;
            }
        }
        let mut left: Option<usize> = None;
        let mut t: usize = 0;
        while t < n
            invariant
                t <= n,
                finish@.len() == n,
                left is None ==> forall|i: int| 0 <= i < t ==> #[trigger] finish@[i],
                left is Some ==> left.unwrap() < n && !finish@[left.unwrap() as int],
            decreases n - t,
        {
            if !finish[t] {
                left = Some(t);
            }
            t += 1;
        }
        proof {
            match left {
                Some(i) => {
                    assert(!finish@[i as int]);
                    assert forall|tid: int|
                        p.has_task(tid) && !order.contains(tid) implies !can_finish(
                        p,
                        order,
                        tid,
                    ) by {
                        assert(!finish@[tid]);
                    }
                    lemma_stuck_is_unsafe(p, order, i as int);
                },
                None => {
                    assert forall|tid: int| #[trigger] p.has_task(tid) <==> order.contains(
                        tid,
                    ) by {
                        if p.has_task(tid) {
                            assert(finish@[tid]);
                        }
                        if order.contains(tid) {
                            let q = choose|q: int| 0 <= q < order.len() && order[q] == tid;
                            assert(p.has_task(order[q]));
                        }
                    }
                    assert(safe_order(p, order));
                },
            }
        }
        left.is_some()
    }

    /// Whether task `tid` awaits no more of any semaphore than `work` holds.
    fn fits(&self, tid: usize, work: &Vec<u128>, Ghost(done): Ghost<Seq<int>>) -> (fits: bool)
        requires
            shaped(self@),
            self@.has_task(tid as int),
            work@.len() == self@.semaphores.len(),
            forall|i: int|
                0 <= i < work@.len() ==> #[trigger] work@[i] == capped(pool(self@, done, i)),
        ensures
            fits == can_finish(self@, done, tid as int),
    {
        let m: usize = work.len();
        let mut s: usize = 0;
        while s < m
            invariant
                shaped(self@),
                self@.has_task(tid as int),
                m == work@.len(),
                m == self@.semaphores.len(),
                s <= m,
                forall|i: int|
                    0 <= i < work@.len() ==> #[trigger] work@[i] == capped(pool(self@, done, i)),
                forall|i: int|
                    0 <= i < s ==> #[trigger] self@.task(tid as int).requested[i] <= pool(
                        self@,
                        done,
                        i,
                    ),
            decreases m - s,
        {
            let wanted: usize = match &self.tasks[tid] {
                Some(task) => task.requested(s),
                None => 0,
            };
            if wanted as u128 > work[s] {
                proof {
                    assert(work@[s as int] == capped(pool(self@, done, s as int)));
                    assert(self@.task(tid as int).requested[s as int] > pool(
                        self@,
                        done,
                        s as int,
                    ));
                }
                return false;
            }
            proof {
                assert(work@[s as int] == capped(pool(self@, done, s as int)));
            }
            s += 1;
        }
        true
    }

    /// Adds to `work` what task `tid` holds of each semaphore.
    fn collect(&self, tid: usize, work: &mut Vec<u128>, Ghost(done): Ghost<Seq<int>>)
        requires
            shaped(self@),
            self@.has_task(tid as int),
            old(work)@.len() == self@.semaphores.len(),
            forall|i: int|
                0 <= i < old(work)@.len() ==> #[trigger] old(work)@[i] == capped(
                    pool(self@, done, i),
                ),
        ensures
            final(work)@.len() == old(work)@.len(),
            forall|i: int|
                0 <= i < final(work)@.len() ==> #[trigger] final(work)@[i] == capped(
                    pool(self@, done.push(tid as int), i),
                ),
    {
        let m: usize = work.len();
        let ghost longer = done.push(tid as int);
        proof {
            assert(longer.drop_last() =~= done);
        }
        let mut s: usize = 0;
        while s < m
            invariant
                shaped(self@),
                self@.has_task(tid as int),
                m == work@.len(),
                m == self@.semaphores.len(),
                s <= m,
                longer == done.push(tid as int),
                longer.drop_last() == done,
                forall|i: int|
                    s <= i < m ==> #[trigger] work@[i] == capped(pool(self@, done, i)),
                forall|i: int|
                    0 <= i < s ==> #[trigger] work@[i] == capped(pool(self@, longer, i)),
            decreases m - s,
        {
            let units: usize = match &self.tasks[tid] {
                Some(task) => task.held(s),
                None => 0,
            };
            let sum: u128 = work[s].saturating_add(units as u128);
            proof {
                assert(work@[s as int] == capped(pool(self@, done, s as int)));
                assert(freed(self@, longer, s as int) == freed(self@, done, s as int)
                    + self@.task(tid as int).held[s as int]);
            }
            work.set(s, sum);
            s += 1;
        }
    }
}

} // verus!
