//! A process: its tasks and the tables of the objects on which they
//! wait for each other.

use vstd::prelude::*;
use crate::config::NO_OWNER;
use crate::manager::{TaskHandle, TaskManager};
use crate::sync::condvar::Condvar;
use crate::sync::mutex::{Mutex, MutexKind, MutexState};
use crate::sync::semaphore::{Semaphore, SemaphoreState};
use crate::schedule::{
    lemma_agrees_leave, lemma_agrees_new, lemma_scheduled_join, lemma_scheduled_still,
};
use crate::table::{allocates, find_free, installed, vacated};
use crate::task::{TaskControlBlock, TaskState, TaskStatus, Wait};

verus! {

/// An entry of the mutex table: the mutex and the task that holds it.
pub struct MutexSlot {
    /// Id of the holder, or `NO_OWNER`.
    pub owner: usize,
    pub mutex: MutexState,
}

/// A process as contracts see it. Tasks and objects are found by their
/// slot; a slot that holds nothing is `None`.
pub struct ProcessState {
    pub pid: usize,
    pub tasks: Seq<Option<TaskState>>,
    pub mutexes: Seq<Option<MutexSlot>>,
    pub semaphores: Seq<Option<SemaphoreState>>,
    /// Each condition variable is the queue of its sleeping tasks.
    pub condvars: Seq<Option<Seq<usize>>>,
    /// Whether requests for semaphores are checked for deadlock.
    pub detect: bool,
}

impl ProcessState {
    /// Whether the task table holds a task in slot `tid`.
    pub open spec fn has_task(self, tid: int) -> bool {
        0 <= tid < self.tasks.len() && self.tasks[tid] is Some
    }

    /// The task in slot `tid`.
    pub open spec fn task(self, tid: int) -> TaskState {
        self.tasks[tid].unwrap()
    }

    /// Whether task `tid` has the processor.
    pub open spec fn runs(self, tid: int) -> bool {
        self.has_task(tid) && self.task(tid).status == TaskStatus::Running
    }

    /// Whether the mutex table holds a mutex in `slot`.
    pub open spec fn has_mutex(self, slot: int) -> bool {
        0 <= slot < self.mutexes.len() && self.mutexes[slot] is Some
    }

    /// The entry of the mutex in `slot`.
    pub open spec fn mutex(self, slot: int) -> MutexSlot {
        self.mutexes[slot].unwrap()
    }

    /// Whether the semaphore table holds a semaphore in `slot`.
    pub open spec fn has_semaphore(self, slot: int) -> bool {
        0 <= slot < self.semaphores.len() && self.semaphores[slot] is Some
    }

    /// The semaphore in `slot`.
    pub open spec fn semaphore(self, slot: int) -> SemaphoreState {
        self.semaphores[slot].unwrap()
    }

    /// Whether the table of condition variables holds one in `slot`.
    pub open spec fn has_condvar(self, slot: int) -> bool {
        0 <= slot < self.condvars.len() && self.condvars[slot] is Some
    }

    /// The queue of the condition variable in `slot`.
    pub open spec fn condvar(self, slot: int) -> Seq<usize> {
        self.condvars[slot].unwrap()
    }

    /// The entry under which the scheduler keeps task `tid`.
    pub open spec fn handle(self, tid: int) -> TaskHandle {
        TaskHandle { pid: self.pid, tid: tid as usize, stride: self.task(tid).stride }
    }

    /// The process with `task` in place of task `tid`.
    pub open spec fn with_task(self, tid: int, task: TaskState) -> ProcessState {
        ProcessState { tasks: self.tasks.update(tid, Some(task)), ..self }
    }

    /// The process with `entry` in place of the mutex in `slot`.
    pub open spec fn with_mutex(self, slot: int, entry: MutexSlot) -> ProcessState {
        ProcessState { mutexes: self.mutexes.update(slot, Some(entry)), ..self }
    }

    /// The process with `sem` in place of the semaphore in `slot`.
    pub open spec fn with_semaphore(self, slot: int, sem: SemaphoreState) -> ProcessState {
        ProcessState { semaphores: self.semaphores.update(slot, Some(sem)), ..self }
    }

    /// The process with `waiters` as the queue of the condition
    /// variable in `slot`.
    pub open spec fn with_condvar(self, slot: int, waiters: Seq<usize>) -> ProcessState {
        ProcessState { condvars: self.condvars.update(slot, Some(waiters)), ..self }
    }

    /// Whether task `tid` exists and waits on `wait`.
    pub open spec fn waits_on(self, tid: int, wait: Wait) -> bool {
        self.has_task(tid) && self.task(tid).wait == wait
    }

    /// A wait queue is sound: no task stands in it twice, and each of
    /// its tasks sleeps on the object `wait` that the queue belongs to.
    pub open spec fn queue_wf(self, queue: Seq<usize>, wait: Wait) -> bool {
        &&& queue.no_duplicates()
        &&& forall|k: int| 0 <= k < queue.len() ==> self.waits_on(#[trigger] queue[k] as int, wait)
    }

    /// The record of task `tid` is sound: it has one entry for each
    /// semaphore slot, awaits one unit of the semaphore on which it
    /// sleeps and nothing else, and stands in the queue of what it
    /// sleeps on.
    pub open spec fn task_wf(self, tid: int) -> bool {
        let task = self.task(tid);
        &&& task.wf()
        &&& task.held.len() == self.semaphores.len()
        &&& forall|s: int|
            0 <= s < self.semaphores.len() ==> #[trigger] task.requested[s] == (if task.wait
                == Wait::Semaphore(s as usize) {
                1usize
            } else {
                0usize
            })
        &&& match task.wait {
            Wait::Mutex(slot) => self.has_mutex(slot as int) && self.mutex(
                slot as int,
            ).mutex.waiters.contains(tid as usize),
            Wait::Semaphore(slot) => self.has_semaphore(slot as int) && task.held[slot as int]
                < usize::MAX && self.semaphore(slot as int).waiters.contains(tid as usize),
            Wait::Condvar(slot) => self.has_condvar(slot as int) && self.condvar(
                slot as int,
            ).contains(tid as usize),
            Wait::Spin(slot) => self.has_mutex(slot as int) && self.mutex(slot as int).mutex.kind
                == MutexKind::Spin,
            _ => true,
        }
    }

    /// Whether some task waits to ask again for the mutex in `slot`.
    pub open spec fn has_spinner(self, slot: usize) -> bool {
        exists|tid: int| #[trigger] self.has_task(tid) && self.task(tid).wait == Wait::Spin(slot)
    }

    /// The mutex in `slot` has an owner exactly while it is locked,
    /// and its queue is sound.
    pub open spec fn mutex_wf(self, slot: int) -> bool {
        let entry = self.mutex(slot);
        &&& entry.mutex.wf()
        &&& (entry.owner == NO_OWNER <==> !entry.mutex.locked)
        &&& self.queue_wf(entry.mutex.waiters, Wait::Mutex(slot as usize))
    }

    /// Tasks wait on the semaphore in `slot` only while it has no unit
    /// left, and its queue is sound.
    pub open spec fn semaphore_wf(self, slot: int) -> bool {
        let sem = self.semaphore(slot);
        &&& sem.count >= 0
        &&& sem.waiters.len() > 0 ==> sem.count == 0
        &&& self.queue_wf(sem.waiters, Wait::Semaphore(slot as usize))
    }

    /// The queue of the condition variable in `slot` is sound.
    pub open spec fn condvar_wf(self, slot: int) -> bool {
        self.queue_wf(self.condvar(slot), Wait::Condvar(slot as usize))
    }

    /// The records of the process agree with each other.
    pub open spec fn wf(self) -> bool {
        &&& self.tasks.len() <= usize::MAX
        &&& self.mutexes.len() <= usize::MAX
        &&& self.semaphores.len() <= usize::MAX
        &&& self.condvars.len() <= usize::MAX
        &&& forall|tid: int| #[trigger] self.has_task(tid) ==> self.task_wf(tid)
        &&& forall|slot: int| #[trigger] self.has_mutex(slot) ==> self.mutex_wf(slot)
        &&& forall|slot: int| #[trigger] self.has_semaphore(slot) ==> self.semaphore_wf(slot)
        &&& forall|slot: int| #[trigger] self.has_condvar(slot) ==> self.condvar_wf(slot)
    }

    /// Whether the mutex in `slot` can leave the table: the slot holds a
    /// mutex, it has no owner, and no task waits to ask for it again.
    pub open spec fn mutex_idle(self, slot: usize) -> bool {
        &&& self.has_mutex(slot as int)
        &&& self.mutex(slot as int).owner == NO_OWNER
        &&& !self.has_spinner(slot)
    }

    /// Whether the semaphore in `slot` can leave the table: the slot
    /// holds a semaphore, and no task waits for it.
    pub open spec fn semaphore_idle(self, slot: usize) -> bool {
        self.has_semaphore(slot as int) && self.semaphore(slot as int).waiters.len() == 0
    }

    /// Whether the condition variable in `slot` can leave the table: the
    /// slot holds one, and no task waits on it.
    pub open spec fn condvar_idle(self, slot: usize) -> bool {
        self.has_condvar(slot as int) && self.condvar(slot as int).len() == 0
    }

    /// Whether task `tid` sleeps until a point in time.
    pub open spec fn sleeper(self, tid: usize) -> bool {
        self.has_task(tid as int) && self.task(tid as int).wait == Wait::Timer
    }

    /// A process without tasks and objects, which does not check for
    /// deadlock.
    pub open spec fn fresh(pid: usize) -> ProcessState {
        ProcessState {
            pid,
            tasks: Seq::empty(),
            mutexes: Seq::empty(),
            semaphores: Seq::empty(),
            condvars: Seq::empty(),
            detect: false,
        }
    }
}

/// A task that stands in a queue stands in it after another has joined,
/// and so does the one that joined.
pub(crate) proof fn lemma_push_contains(queue: Seq<usize>, joined: usize, tid: usize)
    requires
        queue.contains(tid) || tid == joined,
    ensures
        queue.push(joined).contains(tid),
{
    let longer = queue.push(joined);
    if tid == joined {
        assert(longer[queue.len() as int] == tid);
    } else {
        let k = choose|k: int| 0 <= k < queue.len() && queue[k] == tid;
        assert(longer[k] == tid);
    }
}

/// A task that stands in a queue behind its head stands in it after the
/// head has left.
pub(crate) proof fn lemma_drop_first_contains(queue: Seq<usize>, tid: usize)
    requires
        queue.contains(tid),
        queue[0] != tid,
    ensures
        queue.drop_first().contains(tid),
{
    let k = choose|k: int| 0 <= k < queue.len() && queue[k] == tid;
    assert(queue.drop_first()[k - 1] == tid);
}

/// A sound queue stays sound when a task that does not wait on its
/// object changes.
pub(crate) proof fn lemma_queue_frame(
    pre: ProcessState,
    post: ProcessState,
    queue: Seq<usize>,
    wait: Wait,
    tid: int,
)
    requires
        pre.queue_wf(queue, wait),
        !pre.waits_on(tid, wait),
        post.tasks.len() == pre.tasks.len(),
        forall|t: int| 0 <= t < pre.tasks.len() && t != tid ==> post.tasks[t] == pre.tasks[t],
    ensures
        post.queue_wf(queue, wait),
{
    assert forall|k: int| 0 <= k < queue.len() implies post.waits_on(
        #[trigger] queue[k] as int,
        wait,
    ) by {
        assert(pre.waits_on(queue[k] as int, wait));
    }
}

/// A sound queue stays sound when a task that did not wait on its
/// object joins it and waits on the object from then on.
pub(crate) proof fn lemma_queue_push(
    pre: ProcessState,
    post: ProcessState,
    queue: Seq<usize>,
    wait: Wait,
    tid: usize,
)
    requires
        pre.queue_wf(queue, wait),
        !pre.waits_on(tid as int, wait),
        post.waits_on(tid as int, wait),
        post.tasks.len() == pre.tasks.len(),
        forall|t: int| 0 <= t < pre.tasks.len() && t != tid ==> post.tasks[t] == pre.tasks[t],
    ensures
        post.queue_wf(queue.push(tid), wait),
{
    let longer = queue.push(tid);
    assert forall|k: int| 0 <= k < longer.len() implies post.waits_on(
        #[trigger] longer[k] as int,
        wait,
    ) by {
        if k < queue.len() {
            assert(longer[k] == queue[k]);
            assert(pre.waits_on(queue[k] as int, wait));
        }
    }
    assert forall|i: int, j: int|
        0 <= i < longer.len() && 0 <= j < longer.len() && i != j implies longer[i]
        != longer[j] by {
        if i < queue.len() {
            assert(pre.waits_on(queue[i] as int, wait));
        }
        if j < queue.len() {
            assert(pre.waits_on(queue[j] as int, wait));
        }
    }
}

/// A sound queue without its head is sound, whatever becomes of the
/// task that was its head, and that task is not in it.
pub(crate) proof fn lemma_queue_pop(
    pre: ProcessState,
    post: ProcessState,
    queue: Seq<usize>,
    wait: Wait,
)
    requires
        pre.queue_wf(queue, wait),
        queue.len() > 0,
        post.tasks.len() == pre.tasks.len(),
        forall|t: int| 0 <= t < pre.tasks.len() && t != queue[0] ==> post.tasks[t] == pre.tasks[t],
    ensures
        post.queue_wf(queue.drop_first(), wait),
        !queue.drop_first().contains(queue[0]),
{
    let rest = queue.drop_first();
    assert forall|k: int| 0 <= k < rest.len() implies post.waits_on(
        #[trigger] rest[k] as int,
        wait,
    ) by {
        assert(rest[k] == queue[k + 1]);
        assert(pre.waits_on(queue[k + 1] as int, wait));
        assert(queue[k + 1] != queue[0]);
    }
    assert forall|i: int, j: int|
        0 <= i < rest.len() && 0 <= j < rest.len() && i != j implies rest[i] != rest[j] by {
        assert(rest[i] == queue[i + 1]);
        assert(rest[j] == queue[j + 1]);
    }
    if rest.contains(queue[0]) {
        let k = choose|k: int| 0 <= k < rest.len() && rest[k] == queue[0];
        assert(rest[k] == queue[k + 1]);
    }
}

/// The records of a process stay sound when a task that stands in no
/// queue changes, as long as its own record is sound, it waits for no
/// object afterwards and awaits what it awaited.
pub(crate) proof fn lemma_task_change_wf(pre: ProcessState, tid: int, task: TaskState)
    requires
        pre.wf(),
        pre.has_task(tid),
        !pre.task(tid).wait.queued(),
        !task.wait.queued(),
        !(task.wait is Spin),
        task.wf(),
        task.held.len() == pre.task(tid).held.len(),
        task.requested == pre.task(tid).requested,
    ensures
        pre.with_task(tid, task).wf(),
{
    let post = pre.with_task(tid, task);
    assert(pre.task_wf(tid));
    assert forall|t: int| #[trigger] post.has_task(t) implies post.task_wf(t) by {
        assert(pre.has_task(t));
        assert(pre.task_wf(t));
    }
    assert forall|i: int| #[trigger] post.has_mutex(i) implies post.mutex_wf(i) by {
        assert(pre.has_mutex(i));
        assert(pre.mutex_wf(i));
        lemma_queue_frame(pre, post, pre.mutex(i).mutex.waiters, Wait::Mutex(i as usize), tid);
    }
    assert forall|i: int| #[trigger] post.has_semaphore(i) implies post.semaphore_wf(i) by {
        assert(pre.has_semaphore(i));
        assert(pre.semaphore_wf(i));
        lemma_queue_frame(pre, post, pre.semaphore(i).waiters, Wait::Semaphore(i as usize), tid);
    }
    assert forall|i: int| #[trigger] post.has_condvar(i) implies post.condvar_wf(i) by {
        assert(pre.has_condvar(i));
        assert(pre.condvar_wf(i));
        lemma_queue_frame(pre, post, pre.condvar(i), Wait::Condvar(i as usize), tid);
    }
}

/// The records of a process stay sound when a task joins it that
/// stands in no queue.
pub(crate) proof fn lemma_new_task_wf(pre: ProcessState, tid: int, task: TaskState)
    requires
        pre.wf(),
        allocates(pre.tasks, tid),
        pre.tasks.len() < usize::MAX,
        task == TaskState::fresh(pre.semaphores.len()),
    ensures
        (ProcessState { tasks: installed(pre.tasks, tid, task), ..pre }).wf(),
{
    let post = ProcessState { tasks: installed(pre.tasks, tid, task), ..pre };
    assert(!pre.has_task(tid));
    assert forall|t: int| #[trigger] post.has_task(t) implies post.task_wf(t) by {
        if t != tid {
            assert(pre.has_task(t));
            assert(pre.task_wf(t));
        }
    }
    assert forall|i: int| #[trigger] post.has_mutex(i) implies post.mutex_wf(i) by {
        assert(pre.has_mutex(i));
        assert(pre.mutex_wf(i));
        let queue = pre.mutex(i).mutex.waiters;
        assert forall|k: int| 0 <= k < queue.len() implies post.waits_on(
            #[trigger] queue[k] as int,
            Wait::Mutex(i as usize),
        ) by {
            assert(pre.waits_on(queue[k] as int, Wait::Mutex(i as usize)));
        }
    }
    assert forall|i: int| #[trigger] post.has_semaphore(i) implies post.semaphore_wf(i) by {
        assert(pre.has_semaphore(i));
        assert(pre.semaphore_wf(i));
        let queue = pre.semaphore(i).waiters;
        assert forall|k: int| 0 <= k < queue.len() implies post.waits_on(
            #[trigger] queue[k] as int,
            Wait::Semaphore(i as usize),
        ) by {
            assert(pre.waits_on(queue[k] as int, Wait::Semaphore(i as usize)));
        }
    }
    assert forall|i: int| #[trigger] post.has_condvar(i) implies post.condvar_wf(i) by {
        assert(pre.has_condvar(i));
        assert(pre.condvar_wf(i));
        let queue = pre.condvar(i);
        assert forall|k: int| 0 <= k < queue.len() implies post.waits_on(
            #[trigger] queue[k] as int,
            Wait::Condvar(i as usize),
        ) by {
            assert(pre.waits_on(queue[k] as int, Wait::Condvar(i as usize)));
        }
    }
}

/// The records of a process stay sound when an object leaves it on
/// which no task waits.
pub(crate) proof fn lemma_vacated_wf(pre: ProcessState, post: ProcessState)
    requires
        pre.wf(),
        post.tasks == pre.tasks,
        post.mutexes.len() == pre.mutexes.len(),
        post.semaphores.len() == pre.semaphores.len(),
        post.condvars.len() == pre.condvars.len(),
        forall|i: int|
            0 <= i < pre.mutexes.len() ==> #[trigger] post.mutexes[i] == pre.mutexes[i] || (
            post.mutexes[i] is None && pre.mutex(i).mutex.waiters.len() == 0 && !pre.has_spinner(
                i as usize,
            )),
        forall|i: int|
            0 <= i < pre.semaphores.len() ==> #[trigger] post.semaphores[i] == pre.semaphores[i]
                || (post.semaphores[i] is None && pre.semaphore(i).waiters.len() == 0),
        forall|i: int|
            0 <= i < pre.condvars.len() ==> #[trigger] post.condvars[i] == pre.condvars[i] || (
            post.condvars[i] is None && pre.condvar(i).len() == 0),
    ensures
        post.wf(),
{
    assert forall|t: int| #[trigger] post.has_task(t) implies post.task_wf(t) by {
        assert(pre.has_task(t));
        assert(pre.task_wf(t));
        match pre.task(t).wait {
            Wait::Mutex(x) => {
                assert(post.mutexes[x as int] == pre.mutexes[x as int]);
            },
            Wait::Semaphore(x) => {
                assert(post.semaphores[x as int] == pre.semaphores[x as int]);
            },
            Wait::Condvar(x) => {
                assert(post.condvars[x as int] == pre.condvars[x as int]);
            },
            Wait::Spin(x) => {
                assert(post.mutexes[x as int] == pre.mutexes[x as int]);
            },
            _ => {},
        }
    }
    assert forall|i: int| #[trigger] post.has_mutex(i) implies post.mutex_wf(i) by {
        assert(post.mutexes[i] == pre.mutexes[i]);
        assert(pre.has_mutex(i));
        assert(pre.mutex_wf(i));
        let queue = pre.mutex(i).mutex.waiters;
        assert forall|k: int| 0 <= k < queue.len() implies post.waits_on(
            #[trigger] queue[k] as int,
            Wait::Mutex(i as usize),
        ) by {
            assert(pre.waits_on(queue[k] as int, Wait::Mutex(i as usize)));
        }
    }
    assert forall|i: int| #[trigger] post.has_semaphore(i) implies post.semaphore_wf(i) by {
        assert(post.semaphores[i] == pre.semaphores[i]);
        assert(pre.has_semaphore(i));
        assert(pre.semaphore_wf(i));
        let queue = pre.semaphore(i).waiters;
        assert forall|k: int| 0 <= k < queue.len() implies post.waits_on(
            #[trigger] queue[k] as int,
            Wait::Semaphore(i as usize),
        ) by {
            assert(pre.waits_on(queue[k] as int, Wait::Semaphore(i as usize)));
        }
    }
    assert forall|i: int| #[trigger] post.has_condvar(i) implies post.condvar_wf(i) by {
        assert(post.condvars[i] == pre.condvars[i]);
        assert(pre.has_condvar(i));
        assert(pre.condvar_wf(i));
        let queue = pre.condvar(i);
        assert forall|k: int| 0 <= k < queue.len() implies post.waits_on(
            #[trigger] queue[k] as int,
            Wait::Condvar(i as usize),
        ) by {
            assert(pre.waits_on(queue[k] as int, Wait::Condvar(i as usize)));
        }
    }
}

/// A process.
pub struct ProcessControlBlock {
    pub(crate) pid: usize,
    pub(crate) tasks: Vec<Option<TaskControlBlock>>,
    pub(crate) mutex_list: Vec<Option<(usize, Mutex)>>,
    pub(crate) semaphore_list: Vec<Option<Semaphore>>,
    pub(crate) condvar_list: Vec<Option<Condvar>>,
    pub(crate) deadlock_detected: bool,
}

/// A slot of the task table as contracts see it.
pub open spec fn task_view(entry: Option<TaskControlBlock>) -> Option<TaskState> {
    match entry {
        Some(task) => Some(task@),
        None => None,
    }
}

/// A slot of the mutex table as contracts see it.
pub open spec fn mutex_view(entry: Option<(usize, Mutex)>) -> Option<MutexSlot> {
    match entry {
        Some(pair) => Some(MutexSlot { owner: pair.0, mutex: pair.1@ }),
        None => None,
    }
}

/// A slot of the semaphore table as contracts see it.
pub open spec fn semaphore_view(entry: Option<Semaphore>) -> Option<SemaphoreState> {
    match entry {
        Some(sem) => Some(sem@),
        None => None,
    }
}

/// A slot of the table of condition variables as contracts see it.
pub open spec fn condvar_view(entry: Option<Condvar>) -> Option<Seq<usize>> {
    match entry {
        Some(condvar) => Some(condvar@),
        None => None,
    }
}

impl View for ProcessControlBlock {
    type V = ProcessState;

    open(crate) spec fn view(&self) -> ProcessState {
        ProcessState {
            pid: self.pid,
            tasks: Seq::new(self.tasks@.len(), |i: int| task_view(self.tasks@[i])),
            mutexes: Seq::new(self.mutex_list@.len(), |i: int| mutex_view(self.mutex_list@[i])),
            semaphores: Seq::new(
                self.semaphore_list@.len(),
                |i: int| semaphore_view(self.semaphore_list@[i]),
            ),
            condvars: Seq::new(
                self.condvar_list@.len(),
                |i: int| condvar_view(self.condvar_list@[i]),
            ),
            detect: self.deadlock_detected,
        }
    }
}

impl ProcessControlBlock {
    /// A process without tasks and objects, which does not check for
    /// deadlock.
    pub fn new(pid: usize) -> (process: Self)
        ensures
            process@ == ProcessState::fresh(pid),
            process@.wf(),
            process@.scheduled(Seq::<TaskHandle>::empty()),
    {
        let process = Self {
            pid,
            tasks: Vec::new(),
            mutex_list: Vec::new(),
            semaphore_list: Vec::new(),
            condvar_list: Vec::new(),
            deadlock_detected: false,
        };
        proof {
            assert(process@.tasks =~= Seq::empty());
            assert(process@.mutexes =~= Seq::empty());
            assert(process@.semaphores =~= Seq::empty());
            assert(process@.condvars =~= Seq::empty());
        }
        process
    }

    /// The id of the process.
    pub fn getpid(&self) -> (pid: usize)
        ensures
            pid == self@.pid,
    {
        self.pid
    }

    /// Whether the process checks requests for semaphores for deadlock.
    pub fn deadlock_detect_enabled(&self) -> (enabled: bool)
        ensures
            enabled == self@.detect,
    {
        self.deadlock_detected
    }

    /// The record of task `tid`, if there is such a task.
    pub fn task(&self, tid: usize) -> (task: Option<&TaskControlBlock>)
        ensures
            task is Some <==> self@.has_task(tid as int),
            task is Some ==> task.unwrap()@ == self@.task(tid as int),
    {
        if tid < self.tasks.len() {
            self.tasks[tid].as_ref()
        } else {
            None
        }
    }

    /// The mutex in `slot`, if the slot holds one.
    pub fn mutex(&self, slot: usize) -> (mutex: Option<&Mutex>)
        ensures
            mutex is Some <==> self@.has_mutex(slot as int),
            mutex is Some ==> mutex.unwrap()@ == self@.mutex(slot as int).mutex,
    {
        if slot < self.mutex_list.len() {
            match &self.mutex_list[slot] {
                Some(node) => Some(&node.1),
                None => None,
            }
        } else {
            None
        }
    }

    /// The task recorded as the owner of the mutex in `slot`; `NO_OWNER`
    /// where it has none. `None` where the slot holds no mutex.
    pub fn mutex_owner(&self, slot: usize) -> (owner: Option<usize>)
        ensures
            owner is Some <==> self@.has_mutex(slot as int),
            owner is Some ==> owner.unwrap() == self@.mutex(slot as int).owner,
    {
        if slot < self.mutex_list.len() {
            match &self.mutex_list[slot] {
                Some(node) => Some(node.0),
                None => None,
            }
        } else {
            None
        }
    }

    /// The semaphore in `slot`, if the slot holds one.
    pub fn semaphore(&self, slot: usize) -> (sem: Option<&Semaphore>)
        ensures
            sem is Some <==> self@.has_semaphore(slot as int),
            sem is Some ==> sem.unwrap()@ == self@.semaphore(slot as int),
    {
        if slot < self.semaphore_list.len() {
            self.semaphore_list[slot].as_ref()
        } else {
            None
        }
    }

    /// The condition variable in `slot`, if the slot holds one.
    pub fn condvar(&self, slot: usize) -> (condvar: Option<&Condvar>)
        ensures
            condvar is Some <==> self@.has_condvar(slot as int),
            condvar is Some ==> condvar.unwrap()@ == self@.condvar(slot as int),
    {
        if slot < self.condvar_list.len() {
            self.condvar_list[slot].as_ref()
        } else {
            None
        }
    }

    /// Creates a task in the lowest free slot of the task table and
    /// queues it for the processor. The task is ready, has stride 0 and
    /// the default priority, and holds and awaits nothing. Returns its id.
    pub fn spawn_task(&mut self, manager: &mut TaskManager) -> (tid: usize)
        requires
            old(self)@.wf(),
            old(self)@.tasks.len() < usize::MAX,
        ensures
            allocates(old(self)@.tasks, tid as int),
            final(self)@ == (ProcessState {
                tasks: installed(
                    old(self)@.tasks,
                    tid as int,
                    TaskState::fresh(old(self)@.semaphores.len()),
                ),
                ..old(self)@
            }),
            final(manager)@ == old(manager)@.push(
                TaskHandle { pid: old(self)@.pid, tid, stride: 0 },
            ),
            final(self)@.wf(),
            old(self)@.scheduled(old(manager)@) ==> final(self)@.scheduled(final(manager)@),
    {
        let tid: usize = find_free(&self.tasks);
        let task = TaskControlBlock::new(self.semaphore_list.len());
        proof {
            assert(allocates(old(self)@.tasks, tid as int));
            lemma_new_task_wf(old(self)@, tid as int, task@);
            if old(self)@.scheduled(old(manager)@) {
                lemma_agrees_new(old(self)@.pid, old(self)@.tasks, old(manager)@, tid, task@);
            }
        }
        if tid < self.tasks.len() {
            self.tasks[tid] = Some(task);
        } else {
            self.tasks.push(Some(task));
        }
        manager.add(TaskHandle { pid: self.pid, tid, stride: 0 });
        proof {
            self.lemma_only_tasks_changed(old(self));
            assert(self@.tasks =~= installed(
                old(self)@.tasks,
                tid as int,
                TaskState::fresh(old(self)@.semaphores.len()),
            ));
        }
        tid
    }

    /// Gives the processor to the ready task `tid`, which the scheduler
    /// has chosen: the task runs, and its stride grows by one pass.
    /// Returns the slot of the spin mutex for which the task must ask
    /// again before it goes on, if it gave up the processor for one.
    pub fn run(&mut self, tid: usize) -> (retry: Option<usize>)
        requires
            old(self)@.wf(),
            old(self)@.has_task(tid as int),
            old(self)@.task(tid as int).status == TaskStatus::Ready,
        ensures
            final(self)@ == old(self)@.with_task(
                tid as int,
                old(self)@.task(tid as int).dispatched(),
            ),
            retry == (match old(self)@.task(tid as int).wait {
                Wait::Spin(slot) => Some(slot),
                _ => None,
            }),
            final(self)@.task(tid as int).stride >= old(self)@.task(tid as int).stride,
            final(self)@.wf(),
            forall|ready: Seq<TaskHandle>, k: int|
                old(self)@.scheduled(ready) && 0 <= k < ready.len() && ready[k].pid == old(
                    self,
                )@.pid && ready[k].tid == tid ==> #[trigger] final(self)@.scheduled(
                    ready.remove(k),
                ),
    {
        proof {
            assert(old(self)@.task_wf(tid as int));
            lemma_task_change_wf(
                old(self)@,
                tid as int,
                old(self)@.task(tid as int).dispatched(),
            );
            assert forall|ready: Seq<TaskHandle>, k: int|
                old(self)@.scheduled(ready) && 0 <= k < ready.len() && ready[k].pid == old(
                    self,
                )@.pid && ready[k].tid == tid implies #[trigger] old(self)@.with_task(
                tid as int,
                old(self)@.task(tid as int).dispatched(),
            ).scheduled(ready.remove(k)) by {
                lemma_agrees_leave(
                    old(self)@.pid,
                    old(self)@.tasks,
                    ready,
                    k,
                    old(self)@.task(tid as int).dispatched(),
                );
            }
        }
        let mut retry: Option<usize> = None;
        match &mut self.tasks[tid] {
            Some(task) => {
                retry =
                match task.wait() {
                    Wait::Spin(slot) => Some(slot),
                    _ => None,
                };
                task.dispatch();
            },
            None => {},
        }
        proof {
            self.lemma_only_tasks_changed(old(self));
            assert(self@.tasks =~= old(self)@.tasks.update(
                tid as int,
                Some(old(self)@.task(tid as int).dispatched()),
            ));
        }
        retry
    }

    /// The running task `tid` gives up the processor: it is ready and
    /// joins the tail of the ready queue.
    pub fn suspend(&mut self, manager: &mut TaskManager, tid: usize)
        requires
            old(self)@.wf(),
            old(self)@.runs(tid as int),
        ensures
            final(self)@ == old(self)@.with_task(
                tid as int,
                old(self)@.task(tid as int).woken(),
            ),
            final(manager)@ == old(manager)@.push(old(self)@.handle(tid as int)),
            final(self)@.wf(),
            old(self)@.scheduled(old(manager)@) ==> final(self)@.scheduled(final(manager)@),
    {
        proof {
            assert(old(self)@.task_wf(tid as int));
            lemma_task_change_wf(old(self)@, tid as int, old(self)@.task(tid as int).woken());
        }
        self.wake_task(manager, tid);
    }

    /// The running task `tid` ends with `exit_code`.
    pub fn exit(&mut self, tid: usize, exit_code: i32)
        requires
            old(self)@.wf(),
            old(self)@.runs(tid as int),
        ensures
            final(self)@ == old(self)@.with_task(
                tid as int,
                old(self)@.task(tid as int).ended(exit_code),
            ),
            final(self)@.wf(),
            forall|ready: Seq<TaskHandle>| #[trigger]
                old(self)@.scheduled(ready) ==> final(self)@.scheduled(ready),
    {
        proof {
            lemma_scheduled_still(
                old(self)@,
                tid as int,
                old(self)@.task(tid as int).ended(exit_code),
            );
            assert(old(self)@.task_wf(tid as int));
            lemma_task_change_wf(
                old(self)@,
                tid as int,
                old(self)@.task(tid as int).ended(exit_code),
            );
        }
        match &mut self.tasks[tid] {
            Some(task) => {
                task.end(exit_code);
            },
            None => {},
        }
        proof {
            self.lemma_only_tasks_changed(old(self));
            assert(self@.tasks =~= old(self)@.tasks.update(
                tid as int,
                Some(old(self)@.task(tid as int).ended(exit_code)),
            ));
        }
    }

    /// Whether some task waits to ask again for the mutex in `slot`.
    fn spins_on(&self, slot: usize) -> (found: bool)
        ensures
            found == self@.has_spinner(slot),
    {
        let n: usize = self.tasks.len();
        let mut t: usize = 0;
        while t < n
            invariant
                t <= n,
                n == self.tasks@.len(),
                forall|i: int|
                    0 <= i < t ==> !(#[trigger] self@.has_task(i) && self@.task(i).wait
                        == Wait::Spin(slot)),
            decreases n - t,
        {
            let spins = match &self.tasks[t] {
                Some(task) => task.wait() == Wait::Spin(slot),
                None => false,
            };
            if spins {
                assert(self@.has_task(t as int) && self@.task(t as int).wait == Wait::Spin(slot));
                return true;
            }
            t += 1;
        }
        false
    }

    /// Frees the slot of a mutex that is not in use, and says whether it
    /// did. A slot that holds no mutex, or a mutex that has an owner or
    /// for which a task waits to ask again, is left as it is.
    pub fn remove_mutex(&mut self, slot: usize) -> (removed: bool)
        requires
            old(self)@.wf(),
        ensures
            removed == old(self)@.mutex_idle(slot),
            final(self)@ == (if removed {
                ProcessState { mutexes: vacated(old(self)@.mutexes, slot as int), ..old(self)@ }
            } else {
                old(self)@
            }),
            final(self)@.wf(),
            forall|ready: Seq<TaskHandle>| #[trigger]
                old(self)@.scheduled(ready) ==> final(self)@.scheduled(ready),
    {
        let idle = slot < self.mutex_list.len() && match &self.mutex_list[slot] {
            Some(node) => node.0 == NO_OWNER,
            None => false,
        } && !self.spins_on(slot);
        if idle {
            self.mutex_list[slot] = None;
            proof {
                assert(old(self)@.has_mutex(slot as int));
                assert(old(self)@.mutex_wf(slot as int));
                assert(self@.tasks =~= old(self)@.tasks);
                assert(self@.semaphores =~= old(self)@.semaphores);
                assert(self@.condvars =~= old(self)@.condvars);
                assert(self@.mutexes =~= vacated(old(self)@.mutexes, slot as int));
                lemma_vacated_wf(old(self)@, self@);
            }
        }
        idle
    }

    /// Frees the slot of a semaphore for which no task waits, and says
    /// whether it did. A slot that holds no semaphore, or one with
    /// waiters, is left as it is.
    pub fn remove_semaphore(&mut self, slot: usize) -> (removed: bool)
        requires
            old(self)@.wf(),
        ensures
            removed == old(self)@.semaphore_idle(slot),
            final(self)@ == (if removed {
                ProcessState {
                    semaphores: vacated(old(self)@.semaphores, slot as int),
                    ..old(self)@
                }
            } else {
                old(self)@
            }),
            final(self)@.wf(),
            forall|ready: Seq<TaskHandle>| #[trigger]
                old(self)@.scheduled(ready) ==> final(self)@.scheduled(ready),
    {
        let idle = slot < self.semaphore_list.len() && match &self.semaphore_list[slot] {
            Some(sem) => sem.waiting() == 0,
            None => false,
        };
        if idle {
            self.semaphore_list[slot] = None;
            proof {
                assert(self@.tasks =~= old(self)@.tasks);
                assert(self@.mutexes =~= old(self)@.mutexes);
                assert(self@.condvars =~= old(self)@.condvars);
                assert(self@.semaphores =~= vacated(old(self)@.semaphores, slot as int));
                lemma_vacated_wf(old(self)@, self@);
            }
        }
        idle
    }

    /// Frees the slot of a condition variable on which no task waits,
    /// and says whether it did. A slot that holds none, or one with
    /// waiters, is left as it is.
    pub fn remove_condvar(&mut self, slot: usize) -> (removed: bool)
        requires
            old(self)@.wf(),
        ensures
            removed == old(self)@.condvar_idle(slot),
            final(self)@ == (if removed {
                ProcessState { condvars: vacated(old(self)@.condvars, slot as int), ..old(self)@ }
            } else {
                old(self)@
            }),
            final(self)@.wf(),
            forall|ready: Seq<TaskHandle>| #[trigger]
                old(self)@.scheduled(ready) ==> final(self)@.scheduled(ready),
    {
        let idle = slot < self.condvar_list.len() && match &self.condvar_list[slot] {
            Some(condvar) => condvar.waiting() == 0,
            None => false,
        };
        if idle {
            self.condvar_list[slot] = None;
            proof {
                assert(self@.tasks =~= old(self)@.tasks);
                assert(self@.mutexes =~= old(self)@.mutexes);
                assert(self@.semaphores =~= old(self)@.semaphores);
                assert(self@.condvars =~= vacated(old(self)@.condvars, slot as int));
                lemma_vacated_wf(old(self)@, self@);
            }
        }
        idle
    }

    /// Wakes task `tid` when its timer has run out, and says whether it
    /// did: the task is ready and joins the tail of the ready queue.
    /// Nothing changes where there is no such task, or it does not
    /// sleep until a point in time.
    pub fn wake_sleeper(&mut self, manager: &mut TaskManager, tid: usize) -> (woken: bool)
        requires
            old(self)@.wf(),
        ensures
            woken == old(self)@.sleeper(tid),
            final(self)@ == (if woken {
                old(self)@.with_task(tid as int, old(self)@.task(tid as int).woken())
            } else {
                old(self)@
            }),
            final(manager)@ == (if woken {
                old(manager)@.push(old(self)@.handle(tid as int))
            } else {
                old(manager)@
            }),
            final(self)@.wf(),
            old(self)@.scheduled(old(manager)@) ==> final(self)@.scheduled(final(manager)@),
    {
        let sleeps = tid < self.tasks.len() && match &self.tasks[tid] {
            Some(task) => task.wait() == Wait::Timer,
            None => false,
        };
        if sleeps {
            proof {
                assert(old(self)@.has_task(tid as int));
                assert(old(self)@.task_wf(tid as int));
                lemma_task_change_wf(
                    old(self)@,
                    tid as int,
                    old(self)@.task(tid as int).woken(),
                );
            }
            self.wake_task(manager, tid);
        }
        sleeps
    }

    /// Puts task `tid` to sleep on `wait`.
    pub(crate) fn block_task(&mut self, tid: usize, wait: Wait)
        requires
            old(self)@.has_task(tid as int),
        ensures
            final(self)@ == old(self)@.with_task(
                tid as int,
                old(self)@.task(tid as int).blocked_on(wait),
            ),
            old(self)@.task(tid as int).status != TaskStatus::Ready ==> forall|
                ready: Seq<TaskHandle>,
            | #[trigger] old(self)@.scheduled(ready) ==> final(self)@.scheduled(ready),
    {
        match &mut self.tasks[tid] {
            Some(task) => {
                task.set_status(TaskStatus::Blocked, wait);
            },
            None => {},
        }
        proof {
            if old(self)@.task(tid as int).status != TaskStatus::Ready {
                lemma_scheduled_still(
                    old(self)@,
                    tid as int,
                    old(self)@.task(tid as int).blocked_on(wait),
                );
            }
            self.lemma_only_tasks_changed(old(self));
            assert(self@.tasks =~= old(self)@.tasks.update(
                tid as int,
                Some(old(self)@.task(tid as int).blocked_on(wait)),
            ));
        }
    }

    /// Makes task `tid` ready, waiting for nothing, and queues it for
    /// the processor.
    pub(crate) fn wake_task(&mut self, manager: &mut TaskManager, tid: usize)
        requires
            old(self)@.has_task(tid as int),
        ensures
            final(self)@ == old(self)@.with_task(tid as int, old(self)@.task(tid as int).woken()),
            final(manager)@ == old(manager)@.push(old(self)@.handle(tid as int)),
            old(self)@.task(tid as int).status != TaskStatus::Ready && old(self)@.scheduled(
                old(manager)@,
            ) ==> final(self)@.scheduled(final(manager)@),
    {
        proof {
            if old(self)@.task(tid as int).status != TaskStatus::Ready && old(self)@.scheduled(
                old(manager)@,
            ) {
                lemma_scheduled_join(
                    old(self)@,
                    old(manager)@,
                    tid,
                    old(self)@.task(tid as int).woken(),
                );
            }
        }
        let mut stride: usize = 0;
        match &mut self.tasks[tid] {
            Some(task) => {
                task.set_status(TaskStatus::Ready, Wait::Nothing);
                stride = task.stride();
            },
            None => {},
        }
        manager.add(TaskHandle { pid: self.pid, tid, stride });
        proof {
            self.lemma_only_tasks_changed(old(self));
            assert(self@.tasks =~= old(self)@.tasks.update(
                tid as int,
                Some(old(self)@.task(tid as int).woken()),
            ));
        }
    }

    /// Sets what task `tid` holds and awaits of semaphore `sem`.
    pub(crate) fn edit_task(&mut self, tid: usize, held: usize, requested: usize, sem: usize)
        requires
            old(self)@.has_task(tid as int),
            sem < old(self)@.task(tid as int).held.len(),
            sem < old(self)@.task(tid as int).requested.len(),
        ensures
            final(self)@ == old(self)@.with_task(
                tid as int,
                old(self)@.task(tid as int).with_requested(sem as int, requested).with_held(
                    sem as int,
                    held,
                ),
            ),
            forall|ready: Seq<TaskHandle>| #[trigger]
                old(self)@.scheduled(ready) ==> final(self)@.scheduled(ready),
    {
        match &mut self.tasks[tid] {
            Some(task) => {
                task.set_requested(sem, requested);
                task.set_held(sem, held);
            },
            None => {},
        }
        proof {
            lemma_scheduled_still(
                old(self)@,
                tid as int,
                old(self)@.task(tid as int).with_requested(sem as int, requested).with_held(
                    sem as int,
                    held,
                ),
            );
            self.lemma_only_tasks_changed(old(self));
            assert(self@.tasks =~= old(self)@.tasks.update(
                tid as int,
                Some(
                    old(self)@.task(tid as int).with_requested(sem as int, requested).with_held(
                        sem as int,
                        held,
                    ),
                ),
            ));
        }
    }

    /// Task `tid` gives up the processor and is queued for it again,
    /// with `wait` as the note of what it does when it next runs.
    pub(crate) fn yield_task(&mut self, manager: &mut TaskManager, tid: usize, wait: Wait)
        requires
            old(self)@.has_task(tid as int),
        ensures
            final(self)@ == old(self)@.with_task(
                tid as int,
                (TaskState { status: TaskStatus::Ready, wait, ..old(self)@.task(tid as int) }),
            ),
            final(manager)@ == old(manager)@.push(old(self)@.handle(tid as int)),
            old(self)@.task(tid as int).status != TaskStatus::Ready && old(self)@.scheduled(
                old(manager)@,
            ) ==> final(self)@.scheduled(final(manager)@),
    {
        proof {
            if old(self)@.task(tid as int).status != TaskStatus::Ready && old(self)@.scheduled(
                old(manager)@,
            ) {
                lemma_scheduled_join(
                    old(self)@,
                    old(manager)@,
                    tid,
                    TaskState { status: TaskStatus::Ready, wait, ..old(self)@.task(tid as int) },
                );
            }
        }
        let mut stride: usize = 0;
        match &mut self.tasks[tid] {
            Some(task) => {
                task.set_status(TaskStatus::Ready, wait);
                stride = task.stride();
            },
            None => {},
        }
        manager.add(TaskHandle { pid: self.pid, tid, stride });
        proof {
            self.lemma_only_tasks_changed(old(self));
            assert(self@.tasks =~= old(self)@.tasks.update(
                tid as int,
                Some(TaskState { status: TaskStatus::Ready, wait, ..old(self)@.task(tid as int) }),
            ));
        }
    }

    /// Where only the task table differs, only the tasks of the view do.
    pub(crate) proof fn lemma_only_tasks_changed(&self, before: &Self)
        requires
            self.pid == before.pid,
            self.mutex_list == before.mutex_list,
            self.semaphore_list == before.semaphore_list,
            self.condvar_list == before.condvar_list,
            self.deadlock_detected == before.deadlock_detected,
        ensures
            self@ == (ProcessState { tasks: self@.tasks, ..before@ }),
    {
        assert(self@.mutexes =~= before@.mutexes);
        assert(self@.semaphores =~= before@.semaphores);
        assert(self@.condvars =~= before@.condvars);
    }
}

} // verus!
