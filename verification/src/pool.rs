//! The tasks of a walk and how workers share them.
//!
//! Every worker keeps a stack of the directories that it has found. A worker whose stack is
//! empty takes from the shared queue that the walk started with, and then from the stacks of
//! the others.

use vstd::prelude::*;

use crossbeam_deque::{Injector, Stealer, Worker};

use crate::paths::copy_bytes;

verus! {

// ── Tasks ───────────────────────────────────────────────────────────────

/// A directory that is to be read, and the walk's root that it was reached from.
#[derive(Debug)]
pub struct RootedDir {
    pub root_idx: u32,
    pub path: Vec<u8>,
}

impl View for RootedDir {
    type V = (u32, Seq<u8>);

    open spec fn view(&self) -> (u32, Seq<u8>) {
        (self.root_idx, self.path@)
    }
}

pub open spec fn tasks_of(dirs: Seq<RootedDir>) -> Seq<(u32, Seq<u8>)> {
    dirs.map_values(|d: RootedDir| d@)
}

/// `crossbeam_deque::Worker`, opaque here.
#[verifier::external_type_specification]
#[verifier::external_body]
#[verifier::reject_recursive_types(T)]
pub struct ExWorker<T>(Worker<T>);

/// `crossbeam_deque::Stealer`, opaque here.
#[verifier::external_type_specification]
#[verifier::external_body]
#[verifier::reject_recursive_types(T)]
pub struct ExStealer<T>(Stealer<T>);

/// `crossbeam_deque::Injector`, opaque here.
#[verifier::external_type_specification]
#[verifier::external_body]
#[verifier::reject_recursive_types(T)]
pub struct ExInjector<T>(Injector<T>);

/// The tasks that the owner of a worker deque has pushed and not popped, oldest first, since
/// it last found the deque empty. Others may have stolen the oldest of them.
pub uninterp spec fn worker_tasks(worker: Worker<(u32, Vec<u8>)>) -> Seq<(u32, Seq<u8>)>;

/// The tasks that the owner of a worker deque has popped, in order.
pub uninterp spec fn worker_popped(worker: Worker<(u32, Vec<u8>)>) -> Seq<(u32, Seq<u8>)>;

/// The worker deque pops what was pushed last.
pub uninterp spec fn worker_is_lifo(worker: Worker<(u32, Vec<u8>)>) -> bool;

/// Which deque a worker owns.
pub uninterp spec fn worker_deque(worker: Worker<(u32, Vec<u8>)>) -> int;

/// Which deque a stealer takes from.
pub uninterp spec fn stealer_deque(stealer: Stealer<(u32, Vec<u8>)>) -> int;

/// The tasks that are pushed onto a worker's deque at any time, from its making to its end.
pub uninterp spec fn worker_pushed(worker: Worker<(u32, Vec<u8>)>) -> Set<(u32, Seq<u8>)>;

/// The tasks that are pushed at any time onto the deque that a stealer takes from.
pub uninterp spec fn stealer_pushed(stealer: Stealer<(u32, Vec<u8>)>) -> Set<(u32, Seq<u8>)>;

/// The tasks that were pushed to an injector through an exclusive reference, in order.
pub uninterp spec fn injector_tasks(injector: Injector<(u32, Vec<u8>)>) -> Seq<(u32, Seq<u8>)>;

/// `Worker::new_lifo`: an empty deque that pops what was pushed last. Nothing has been popped.
#[verifier::external_body]
fn worker_new_lifo() -> (worker: Worker<(u32, Vec<u8>)>)
    ensures
        worker_tasks(worker) == Seq::<(u32, Seq<u8>)>::empty(),
        worker_popped(worker) == Seq::<(u32, Seq<u8>)>::empty(),
        worker_is_lifo(worker),
{
    Worker::new_lifo()
}

/// `Worker::push`: the task becomes the newest one, and is one of those that are pushed onto
/// the deque. The deque stays the same, and nothing is popped.
#[verifier::external_body]
fn worker_push(worker: &mut Worker<(u32, Vec<u8>)>, task: (u32, Vec<u8>))
    ensures
        worker_tasks(*final(worker)) == worker_tasks(*old(worker)).push((task.0, task.1@)),
        worker_popped(*final(worker)) == worker_popped(*old(worker)),
        worker_is_lifo(*final(worker)) == worker_is_lifo(*old(worker)),
        worker_deque(*final(worker)) == worker_deque(*old(worker)),
        worker_pushed(*final(worker)) == worker_pushed(*old(worker)),
        worker_pushed(*final(worker)).contains((task.0, task.1@)),
{
    worker.push(task)
}

/// `Worker::pop` on a deque of the last-in first-out flavour: the newest task, or nothing
/// where all of them are gone. Stealers take the oldest tasks first, so whatever is left is
/// newest. A task that is handed out joins those that were popped; where none is, none was popped.
/// Whether something is left depends on the other threads and is not stated. The deque stays the
/// same.
#[verifier::external_body]
fn worker_pop(worker: &mut Worker<(u32, Vec<u8>)>) -> (task: Option<(u32, Vec<u8>)>)
    requires
        worker_is_lifo(*old(worker)),
    ensures
        worker_is_lifo(*final(worker)),
        worker_deque(*final(worker)) == worker_deque(*old(worker)),
        worker_pushed(*final(worker)) == worker_pushed(*old(worker)),
        match task {
            Some(task) => worker_tasks(*old(worker)).len() > 0 && worker_tasks(
                *old(worker),
            ).last() == (task.0, task.1@) && worker_tasks(*final(worker)) == worker_tasks(
                *old(worker),
            ).drop_last() && worker_popped(*final(worker)) == worker_popped(*old(worker)).push(
                (task.0, task.1@),
            ),
            None => worker_tasks(*final(worker)) == Seq::<(u32, Seq<u8>)>::empty()
                && worker_popped(*final(worker)) == worker_popped(*old(worker)),
        },
{
    worker.pop()
}

/// `Worker::stealer`: a handle through which others steal from the worker's deque.
#[verifier::external_body]
fn worker_stealer(worker: &Worker<(u32, Vec<u8>)>) -> (stealer: Stealer<(u32, Vec<u8>)>)
    ensures
        stealer_deque(stealer) == worker_deque(*worker),
        stealer_pushed(stealer) == worker_pushed(*worker),
{
    worker.stealer()
}

/// `Injector::new`: an empty queue.
#[verifier::external_body]
fn injector_new() -> (injector: Injector<(u32, Vec<u8>)>)
    ensures
        injector_tasks(injector) == Seq::<(u32, Seq<u8>)>::empty(),
{
    Injector::new()
}

/// `Injector::push`: the task joins those that were pushed.
#[verifier::external_body]
fn injector_push(injector: &mut Injector<(u32, Vec<u8>)>, task: (u32, Vec<u8>))
    ensures
        injector_tasks(*final(injector)) == injector_tasks(*old(injector)).push(
            (task.0, task.1@),
        ),
{
    injector.push(task)
}

/// `Injector::steal`: a stolen task is one that was pushed, and an injector to which nothing
/// was pushed is found empty. Which task comes, whether any is left, and whether another thread
/// is in the way depends on the other threads and is not stated.
#[verifier::external_body]
fn injector_steal(injector: &Injector<(u32, Vec<u8>)>) -> (stolen: Stolen)
    ensures
        stolen matches Stolen::Task(task) ==> injector_tasks(*injector).contains(task@),
        injector_tasks(*injector).len() == 0 ==> stolen is Empty,
{
    match injector.steal() {
        crossbeam_deque::Steal::Success(t) => Stolen::Task(RootedDir { root_idx: t.0, path: t.1 }),
        crossbeam_deque::Steal::Empty => Stolen::Empty,
        crossbeam_deque::Steal::Retry => Stolen::Retry,
    }
}

/// `Stealer::steal`: a stolen task is one that is pushed onto the deque. Which one comes,
/// whether any is left, and whether another thread is in the way depends on the owner of the
/// deque and the other threads and is not stated.
#[verifier::external_body]
fn stealer_steal(stealer: &Stealer<(u32, Vec<u8>)>) -> (stolen: Stolen)
    ensures
        stolen matches Stolen::Task(task) ==> stealer_pushed(*stealer).contains(task@),
{
    match stealer.steal() {
        crossbeam_deque::Steal::Success(t) => Stolen::Task(RootedDir { root_idx: t.0, path: t.1 }),
        crossbeam_deque::Steal::Empty => Stolen::Empty,
        crossbeam_deque::Steal::Retry => Stolen::Retry,
    }
}

/// A worker's own stack of tasks.
pub struct TaskStack {
    worker: Worker<(u32, Vec<u8>)>,
}

/// The queue that a walk starts with.
pub struct TaskQueue {
    injector: Injector<(u32, Vec<u8>)>,
}

/// Access to another worker's stack.
pub struct TaskStealer {
    stealer: Stealer<(u32, Vec<u8>)>,
}

/// What an attempt to steal came to.
#[derive(Debug)]
pub enum Stolen {
    Task(RootedDir),
    Empty,
    /// Another thread was in the way.
    Retry,
}

/// The tasks that a walk of these roots starts with, numbered in order. The numbers have 32 bits.
pub open spec fn seeds(roots: Seq<Seq<u8>>) -> Seq<(u32, Seq<u8>)> {
    Seq::new(roots.len(), |i: int| ((i % 0x1_0000_0000) as u32, roots[i]))
}

impl TaskQueue {
    /// The tasks that the walk started with.
    pub closed spec fn tasks(self) -> Seq<(u32, Seq<u8>)> {
        injector_tasks(self.injector)
    }

    /// A queue of the roots of a walk.
    pub fn seed(roots: &[Vec<u8>]) -> (queue: TaskQueue)
        ensures
            queue.tasks() == seeds(roots@.map_values(|root: Vec<u8>| root@)),
    {
        let mut injector = injector_new();
        let mut i: usize = 0;
        let mut root_idx: u32 = 0;
        let ghost numbered = |i: int| ((i % 0x1_0000_0000) as u32, roots@[i]@);
        assert(injector_tasks(injector) =~= Seq::new(0, numbered));
        while i < roots.len()
            invariant
                i <= roots@.len(),
                root_idx == (i as int) % 0x1_0000_0000,
                numbered == (|i: int| ((i % 0x1_0000_0000) as u32, roots@[i]@)),
                injector_tasks(injector) == Seq::new(i as nat, numbered),
            decreases roots@.len() - i,
        {
            injector_push(&mut injector, (root_idx, copy_bytes(roots[i].as_slice())));
            root_idx = if root_idx == u32::MAX {
                0
            } else {
                root_idx + 1
            };
            i = i + 1;
            assert(injector_tasks(injector) =~= Seq::new(i as nat, numbered));
        }
        assert(injector_tasks(injector) =~= seeds(roots@.map_values(|root: Vec<u8>| root@)));
        TaskQueue { injector }
    }

    /// Tries to take a task. What is taken is one of those that the walk started with; where it
    /// started with none, the queue is found empty.
    pub fn steal(&self) -> (stolen: Stolen)
        ensures
            stolen matches Stolen::Task(task) ==> self.tasks().contains(task@),
            self.tasks().len() == 0 ==> stolen is Empty,
    {
        injector_steal(&self.injector)
    }
}

impl TaskStealer {
    /// Which stack it takes from.
    pub closed spec fn source(self) -> int {
        stealer_deque(self.stealer)
    }

    /// The tasks that are pushed at any time onto the stack that it takes from.
    pub closed spec fn pushed(self) -> Set<(u32, Seq<u8>)> {
        stealer_pushed(self.stealer)
    }

    /// Tries to take a task from the other worker. What is taken is one of those that are pushed
    /// onto its stack. Which one comes, and whether any is left, depends on what the owner and
    /// the other threads have done by then.
    pub fn steal(&self) -> (stolen: Stolen)
        ensures
            stolen matches Stolen::Task(task) ==> self.pushed().contains(task@),
    {
        stealer_steal(&self.stealer)
    }
}

impl TaskStack {
    pub closed spec fn wf(self) -> bool {
        worker_is_lifo(self.worker)
    }

    /// The tasks that were pushed and not popped, the newest last. Others may have taken the
    /// oldest of them.
    pub closed spec fn tasks(self) -> Seq<(u32, Seq<u8>)> {
        worker_tasks(self.worker)
    }

    /// Which stack it is.
    pub closed spec fn source(self) -> int {
        worker_deque(self.worker)
    }

    /// The tasks that are pushed onto the stack at any time, from its making to its end.
    pub closed spec fn pushed(self) -> Set<(u32, Seq<u8>)> {
        worker_pushed(self.worker)
    }

    /// The tasks that were popped, in order.
    pub closed spec fn popped(self) -> Seq<(u32, Seq<u8>)> {
        worker_popped(self.worker)
    }

    pub fn new() -> (stack: TaskStack)
        ensures
            stack.wf(),
            stack.tasks() == Seq::<(u32, Seq<u8>)>::empty(),
            stack.popped() == Seq::<(u32, Seq<u8>)>::empty(),
    {
        TaskStack { worker: worker_new_lifo() }
    }

    /// Access to this stack for others.
    pub fn stealer(&self) -> (stealer: TaskStealer)
        ensures
            stealer.source() == self.source(),
            stealer.pushed() == self.pushed(),
    {
        TaskStealer { stealer: worker_stealer(&self.worker) }
    }

    pub fn push(&mut self, task: RootedDir)
        requires
            old(self).wf(),
        ensures
            final(self).wf(),
            final(self).source() == old(self).source(),
            final(self).pushed() == old(self).pushed(),
            final(self).pushed().contains(task@),
            final(self).tasks() == old(self).tasks().push(task@),
            final(self).popped() == old(self).popped(),
    {
        worker_push(&mut self.worker, (task.root_idx, task.path));
    }

    /// Pushes all of `tasks`, in order.
    pub fn push_all(&mut self, tasks: Vec<RootedDir>)
        requires
            old(self).wf(),
        ensures
            final(self).wf(),
            final(self).source() == old(self).source(),
            final(self).pushed() == old(self).pushed(),
            forall|i: int|
                0 <= i < tasks@.len() ==> final(self).pushed().contains((#[trigger] tasks@[i])@),
            final(self).tasks() == old(self).tasks() + tasks_of(tasks@),
            final(self).popped() == old(self).popped(),
    {
        let ghost before = self.tasks();
        let ghost all = tasks@;
        let mut reversed: Vec<RootedDir> = Vec::with_capacity(tasks.len());
        let mut rest: Vec<RootedDir> = tasks;
        while rest.len() > 0
            invariant
                rest@.len() <= all.len(),
                rest@ == all.take(rest@.len() as int),
                reversed@.len() == all.len() - rest@.len(),
                forall|i: int|
                    0 <= i < reversed@.len() ==> #[trigger] reversed@[i] == all[all.len() - 1 - i],
            decreases rest@.len(),
        {
            match rest.pop() {
                Some(task) => {
                    reversed.push(task);
                },
                None => {},
            }
        }
        assert(before + tasks_of(all.take(0)) =~= before);
        while reversed.len() > 0
            invariant
                self.wf(),
                self.source() == old(self).source(),
                self.pushed() == old(self).pushed(),
                self.popped() == old(self).popped(),
                forall|i: int|
                    0 <= i < all.len() - reversed@.len() ==> self.pushed().contains(
                        (#[trigger] all[i])@,
                    ),
                reversed@.len() <= all.len(),
                forall|i: int|
                    0 <= i < reversed@.len() ==> #[trigger] reversed@[i] == all[all.len() - 1 - i],
                self.tasks() == before + tasks_of(all.take(all.len() - reversed@.len())),
            decreases reversed@.len(),
        {
            let ghost k = all.len() - reversed@.len();
            match reversed.pop() {
                Some(task) => {
                    assert(task == all[k]);
                    proof {
                        assert(tasks_of(all.take(k + 1)) =~= tasks_of(all.take(k)).push(task@));
                        assert((before + tasks_of(all.take(k))).push(task@) =~= before + tasks_of(
                            all.take(k + 1),
                        ));
                    }
                    self.push(task);
                },
                None => {},
            }
        }
        assert(all.take(all.len() as int) =~= all);
    }

    /// The newest task, or nothing where all of them are gone. Nothing but what is given out is
    /// popped.
    pub fn pop(&mut self) -> (task: Option<RootedDir>)
        requires
            old(self).wf(),
        ensures
            final(self).wf(),
            final(self).source() == old(self).source(),
            final(self).pushed() == old(self).pushed(),
            match task {
                Some(task) => old(self).tasks().len() > 0 && task@ == old(self).tasks().last()
                    && final(self).tasks() == old(self).tasks().drop_last()
                    && final(self).popped() == old(self).popped().push(task@),
                None => final(self).tasks() == Seq::<(u32, Seq<u8>)>::empty()
                    && final(self).popped() == old(self).popped(),
            },
    {
        match worker_pop(&mut self.worker) {
            Some(task) => Some(RootedDir { root_idx: task.0, path: task.1 }),
            None => None,
        }
    }
}

/// As many stacks as a walk has workers.
pub fn new_stacks(count: usize) -> (stacks: Vec<TaskStack>)
    ensures
        stacks@.len() == count,
        forall|i: int|
            0 <= i < count ==> (#[trigger] stacks@[i]).wf() && stacks@[i].tasks() == Seq::<
                (u32, Seq<u8>),
            >::empty() && stacks@[i].popped() == Seq::<(u32, Seq<u8>)>::empty(),
{
    let mut stacks: Vec<TaskStack> = Vec::new();
    let mut i: usize = 0;
    while i < count
        invariant
            i <= count,
            stacks@.len() == i,
            forall|i: int|
                0 <= i < stacks@.len() ==> (#[trigger] stacks@[i]).wf() && stacks@[i].tasks()
                    == Seq::<(u32, Seq<u8>)>::empty() && stacks@[i].popped() == Seq::<
                    (u32, Seq<u8>),
                >::empty(),
        decreases count - i,
    {
        stacks.push(TaskStack::new());
        i = i + 1;
    }
    stacks
}

/// Access to each of the stacks, in order.
pub fn stealers_of(stacks: &[TaskStack]) -> (stealers: Vec<TaskStealer>)
    ensures
        stealers@.len() == stacks@.len(),
        forall|i: int|
            0 <= i < stacks@.len() ==> (#[trigger] stealers@[i]).source() == stacks@[i].source()
                && stealers@[i].pushed() == stacks@[i].pushed(),
{
    let mut stealers: Vec<TaskStealer> = Vec::new();
    let mut i: usize = 0;
    while i < stacks.len()
        invariant
            i <= stacks@.len(),
            stealers@.len() == i,
            forall|k: int|
                0 <= k < i ==> (#[trigger] stealers@[k]).source() == stacks@[k].source()
                    && stealers@[k].pushed() == stacks@[k].pushed(),
        decreases stacks@.len() - i,
    {
        stealers.push(stacks[i].stealer());
        i = i + 1;
    }
    stealers
}

// ── Finding a task ──────────────────────────────────────────────────────

/// What a search for a task came to.
#[derive(Debug)]
pub enum Search {
    Found(RootedDir),
    /// Another thread was in the way: search again.
    Contended,
    /// There was nothing to take.
    Exhausted,
}

/// The worker that is tried at `offset`, out of `n` workers.
pub open spec fn victim(own: int, offset: int, n: int) -> int {
    (own + offset) % n
}

/// The worker that is tried at `offset`.
pub fn victim_at(own_idx: usize, offset: usize, n: usize) -> (idx: usize)
    requires
        n > 0,
        own_idx + offset <= usize::MAX,
    ensures
        idx == victim(own_idx as int, offset as int, n as int),
        idx < n,
{
    (own_idx + offset) % n
}

/// The first task among the attempts, if there is one.
pub open spec fn first_task(tried: Seq<Stolen>) -> Option<(u32, Seq<u8>)>
    decreases tried.len(),
{
    if tried.len() == 0 {
        None
    } else {
        match first_task(tried.drop_last()) {
            Some(task) => Some(task),
            None => match tried.last() {
                Stolen::Task(task) => Some(task@),
                _ => None,
            },
        }
    }
}

pub open spec fn has_retry(tried: Seq<Stolen>) -> bool {
    exists|i: int| 0 <= i < tried.len() && #[trigger] tried[i] is Retry
}

/// What one round comes to: the shared queue, and then, where that is empty, the others.
pub open spec fn comes_to(search: Search, queue: Stolen, tried: Seq<Stolen>) -> bool {
    match queue {
        Stolen::Task(task) => search matches Search::Found(found) && found@ == task@,
        Stolen::Retry => search is Contended,
        Stolen::Empty => match first_task(tried) {
            Some(task) => search matches Search::Found(found) && found@ == task,
            None => if has_retry(tried) {
                search is Contended
            } else {
                search is Exhausted
            },
        },
    }
}

pub(crate) proof fn lemma_first_task(tried: Seq<Stolen>, k: int)
    requires
        0 <= k <= tried.len(),
        forall|i: int| 0 <= i < k ==> !(#[trigger] tried[i] is Task),
    ensures
        first_task(tried.take(k)) is None,
        k < tried.len() ==> (tried[k] matches Stolen::Task(task) ==> first_task(tried) == Some(
            task@,
        )),
    decreases tried.len(), k,
{
    if k > 0 {
        assert(tried.take(k).drop_last() =~= tried.take(k - 1));
        assert(!(tried[k - 1] is Task));
        lemma_first_task(tried, k - 1);
    }
    if k < tried.len() {
        if let Stolen::Task(task) = tried[k] {
            if k == tried.len() - 1 {
                assert(tried.drop_last() =~= tried.take(k));
            } else {
                assert(tried.drop_last()[k] == tried[k]);
                assert forall|i: int| 0 <= i < k implies !(#[trigger] tried.drop_last()[i] is Task) by {
                    assert(!(tried[i] is Task));
                }
                lemma_first_task(tried.drop_last(), k);
            }
        }
    }
}

/// What a round comes to, from what the attempts of the round came to.
pub fn settle_round(queue: Stolen, tried: Vec<Stolen>) -> (search: Search)
    ensures
        comes_to(search, queue, tried@),
{
    match queue {
        Stolen::Task(task) => {
            return Search::Found(task);
        },
        Stolen::Retry => {
            return Search::Contended;
        },
        Stolen::Empty => {},
    }
    let ghost all = tried@;
    let mut rest: Vec<Stolen> = tried;
    let mut contended: bool = false;
    let mut i: usize = 0;
    while i < rest.len()
        invariant
            i <= rest@.len(),
            rest@ == all,
            all == tried@,
            queue is Empty,
            forall|j: int| 0 <= j < i ==> !(#[trigger] all[j] is Task),
            contended == exists|j: int| 0 <= j < i && #[trigger] all[j] is Retry,
        decreases rest@.len() - i,
    {
        let is_task: bool = match &rest[i] {
            Stolen::Task(_) => true,
            Stolen::Retry => {
                assert(all[i as int] is Retry);
                contended = true;
                false
            },
            Stolen::Empty => false,
        };
        if is_task {
            proof {
                lemma_first_task(all, i as int);
            }
            match rest.swap_remove(i) {
                Stolen::Task(task) => {
                    return Search::Found(task);
                },
                _ => {},
            }
        }
        i = i + 1;
    }
    proof {
        lemma_first_task(all, all.len() as int);
        assert(all.take(all.len() as int) =~= all);
    }
    if contended {
        Search::Contended
    } else {
        Search::Exhausted
    }
}

/// `first` can come of the shared queue, and each of `tried` of the stack that is tried at its
/// place in the round.
pub open spec fn can_come_of(
    first: Stolen,
    tried: Seq<Stolen>,
    queue: TaskQueue,
    stealers: Seq<TaskStealer>,
    own: int,
) -> bool {
    &&& first matches Stolen::Task(task) ==> queue.tasks().contains(task@)
    &&& queue.tasks().len() == 0 ==> first is Empty
    &&& forall|i: int|
        0 <= i < tried.len() ==> (#[trigger] tried[i] matches Stolen::Task(task)
            ==> stealers[victim(own, i + 1, stealers.len() as int)].pushed().contains(task@))
}

/// The worker that a round tries next, after what the attempts so far came to: the others are
/// tried in turn once the shared queue was empty, up to the first task.
pub open spec fn next_of(first: Stolen, tried: Seq<Stolen>, own: int, n: int) -> Option<int> {
    if first is Empty && (tried.len() == 0 || !(tried.last() is Task)) && tried.len() + 1 < n {
        Some(victim(own, tried.len() as int + 1, n))
    } else {
        None
    }
}

/// The worker that a round tries next, if it goes on.
pub fn next_victim(first: &Stolen, tried: &[Stolen], own_idx: usize, n: usize) -> (next: Option<
    usize,
>)
    requires
        own_idx + n <= usize::MAX + 1,
    ensures
        next == (match next_of(*first, tried@, own_idx as int, n as int) {
            Some(idx) => Some(idx as usize),
            None => None,
        }),
        next matches Some(idx) ==> idx < n && Some(idx as int) == next_of(
            *first,
            tried@,
            own_idx as int,
            n as int,
        ),
{
    match first {
        Stolen::Empty => {},
        _ => {
            return None;
        },
    }
    let done: usize = tried.len();
    if done > 0 {
        match &tried[done - 1] {
            Stolen::Task(_) => {
                return None;
            },
            _ => {},
        }
    }
    if n > 0 && done < n - 1 {
        Some(victim_at(own_idx, done + 1, n))
    } else {
        None
    }
}

/// What the attempts of a whole round came to: the shared queue first, then the stacks of the
/// other workers in turn, up to the first task.
pub open spec fn is_round(
    first: Stolen,
    tried: Seq<Stolen>,
    queue: TaskQueue,
    stealers: Seq<TaskStealer>,
    own: int,
) -> bool {
    &&& can_come_of(first, tried, queue, stealers, own)
    &&& forall|k: int|
        0 <= k < tried.len() ==> #[trigger] next_of(
            first,
            tried.take(k),
            own,
            stealers.len() as int,
        ) is Some
    &&& next_of(first, tried, own, stealers.len() as int) is None
}

/// One round: the shared queue first, then every other worker's stack in turn, up to the first
/// task.
pub fn steal_round(queue: &TaskQueue, stealers: &[TaskStealer], own_idx: usize) -> (search: Search)
    requires
        own_idx + stealers@.len() <= usize::MAX + 1,
    ensures
        exists|first: Stolen, tried: Seq<Stolen>|
            {
                &&& #[trigger] comes_to(search, first, tried)
                &&& is_round(first, tried, *queue, stealers@, own_idx as int)
            },
{
    let first = queue.steal();
    let n: usize = stealers.len();
    let mut tried: Vec<Stolen> = Vec::new();
    let mut next: Option<usize> = next_victim(&first, tried.as_slice(), own_idx, n);
    while next.is_some()
        invariant
            n == stealers@.len(),
            own_idx + n <= usize::MAX + 1,
            tried@.len() == 0 || tried@.len() < n,
            can_come_of(first, tried@, *queue, stealers@, own_idx as int),
            forall|k: int|
                0 <= k < tried@.len() ==> #[trigger] next_of(
                    first,
                    tried@.take(k),
                    own_idx as int,
                    n as int,
                ) is Some,
            next is None <==> next_of(first, tried@, own_idx as int, n as int) is None,
            next matches Some(idx) ==> idx < n && Some(idx as int) == next_of(
                first,
                tried@,
                own_idx as int,
                n as int,
            ),
        decreases n - tried@.len(),
    {
        let ghost before = tried@;
        if let Some(idx) = next {
            tried.push(stealers[idx].steal());
        }
        next = next_victim(&first, tried.as_slice(), own_idx, n);
        proof {
            assert forall|k: int| 0 <= k < tried@.len() implies #[trigger] next_of(
                first,
                tried@.take(k),
                own_idx as int,
                n as int,
            ) is Some by {
                if k < before.len() {
                    assert(tried@.take(k) =~= before.take(k));
                } else {
                    assert(tried@.take(k) =~= before);
                }
            }
        }
    }
    let ghost all = tried@;
    let ghost begun = first;
    let search = settle_round(first, tried);
    assert(comes_to(search, begun, all));
    search
}

/// The search took the newest task off the stack, and nothing else.
pub open spec fn takes_own(search: Search, before: TaskStack, after: TaskStack) -> bool {
    &&& before.tasks().len() > 0
    &&& search matches Search::Found(task) && task@ == before.tasks().last()
    &&& after.tasks() == before.tasks().drop_last()
    &&& after.popped() == before.popped().push(before.tasks().last())
}

/// The search took nothing off the stack, which was found empty, and went through the others.
pub open spec fn takes_from_others(
    search: Search,
    before: TaskStack,
    after: TaskStack,
    queue: TaskQueue,
    stealers: Seq<TaskStealer>,
    own: int,
) -> bool {
    &&& after.tasks() == Seq::<(u32, Seq<u8>)>::empty()
    &&& after.popped() == before.popped()
    &&& exists|first: Stolen, tried: Seq<Stolen>|
        #[trigger] comes_to(search, first, tried) && is_round(
            first,
            tried,
            queue,
            stealers,
            own,
        )
}

/// Looks for a task: the worker's own stack first, then one round through the others. A round
/// that comes to [`Search::Contended`] is to be repeated with [`steal_round`]. Whether the stack
/// is found empty though tasks were pushed onto it depends on the other threads, which may have
/// stolen them, and is not stated.
pub fn find_task(
    stack: &mut TaskStack,
    queue: &TaskQueue,
    stealers: &[TaskStealer],
    own_idx: usize,
) -> (search: Search)
    requires
        old(stack).wf(),
        own_idx + stealers@.len() <= usize::MAX + 1,
    ensures
        final(stack).wf(),
        final(stack).source() == old(stack).source(),
        final(stack).pushed() == old(stack).pushed(),
        takes_own(search, *old(stack), *final(stack)) || takes_from_others(
            search,
            *old(stack),
            *final(stack),
            *queue,
            stealers@,
            own_idx as int,
        ),
{
    match stack.pop() {
        Some(task) => Search::Found(task),
        None => steal_round(queue, stealers, own_idx),
    }
}

proof fn lemma_no_task(tried: Seq<Stolen>, i: int)
    requires
        first_task(tried) is None,
        0 <= i < tried.len(),
    ensures
        !(tried[i] is Task),
    decreases tried.len(),
{
    if i < tried.len() - 1 {
        lemma_no_task(tried.drop_last(), i);
    }
}

/// A search ends for want of tasks only where the shared queue and the stack of every other
/// worker were found empty.
pub proof fn search_ends_when_all_are_empty(
    search: Search,
    first: Stolen,
    tried: Seq<Stolen>,
    queue: TaskQueue,
    stealers: Seq<TaskStealer>,
    own: int,
)
    requires
        comes_to(search, first, tried),
        is_round(first, tried, queue, stealers, own),
        search is Exhausted,
    ensures
        first is Empty,
        tried.len() + 1 >= stealers.len(),
        forall|i: int| 0 <= i < tried.len() ==> #[trigger] tried[i] is Empty,
{
    assert forall|i: int| 0 <= i < tried.len() implies #[trigger] tried[i] is Empty by {
        lemma_no_task(tried, i);
    }
}

/// A round tries every other worker exactly once and never the worker itself.
pub proof fn round_tries_each_other_worker_once(own: int, idx: int, n: int)
    requires
        0 <= own < n,
        0 <= idx < n,
    ensures
        idx != own ==> exists|offset: int|
            1 <= offset < n && #[trigger] victim(own, offset, n) == idx,
        forall|offset: int| 1 <= offset < n ==> #[trigger] victim(own, offset, n) != own,
        forall|a: int, b: int|
            1 <= a < n && 1 <= b < n && #[trigger] victim(own, a, n) == #[trigger] victim(own, b, n)
                ==> a == b,
{
    assert forall|offset: int| 1 <= offset < n implies #[trigger] victim(own, offset, n) == if own
        + offset < n {
        own + offset
    } else {
        own + offset - n
    } by {
        if own + offset < n {
            vstd::arithmetic::div_mod::lemma_small_mod((own + offset) as nat, n as nat);
        } else {
            vstd::arithmetic::div_mod::lemma_small_mod((own + offset - n) as nat, n as nat);
            vstd::arithmetic::div_mod::lemma_mod_add_multiples_vanish(own + offset - n, n);
        }
    }
    if idx > own {
        assert(victim(own, idx - own, n) == idx);
    } else if idx < own {
        assert(victim(own, idx - own + n, n) == idx);
    }
}

/// Where no other thread is in the way, so that each attempt gives a task exactly where there is
/// one, a round finds a task unless the shared queue and the stacks of all other workers are
/// empty, and the shared queue comes first.
pub proof fn undisturbed_round_finds_what_is_there(
    search: Search,
    first: Stolen,
    tried: Seq<Stolen>,
    queue: TaskQueue,
    stealers: Seq<TaskStealer>,
    own: int,
    queue_has: bool,
    filled: Seq<bool>,
)
    requires
        0 <= own < stealers.len(),
        filled.len() == stealers.len(),
        comes_to(search, first, tried),
        is_round(first, tried, queue, stealers, own),
        if queue_has {
            first is Task
        } else {
            first is Empty
        },
        forall|i: int|
            0 <= i < tried.len() ==> if filled[victim(own, i + 1, filled.len() as int)] {
                #[trigger] tried[i] is Task
            } else {
                tried[i] is Empty
            },
    ensures
        search is Exhausted <==> !queue_has && forall|j: int|
            0 <= j < filled.len() && j != own ==> !#[trigger] filled[j],
        search is Exhausted || search is Found,
        queue_has ==> search->Found_0@ == first->Task_0@,
{
    let n = stealers.len() as int;
    if !queue_has {
        if exists|j: int| 0 <= j < filled.len() && j != own && #[trigger] filled[j] {
            let j = choose|j: int| 0 <= j < filled.len() && j != own && #[trigger] filled[j];
            round_tries_each_other_worker_once(own, j, n);
            let offset = choose|offset: int|
                1 <= offset < n && #[trigger] victim(own, offset, n) == j;
            if offset <= tried.len() {
                assert(tried[offset - 1] is Task);
                if first_task(tried) is None {
                    lemma_no_task(tried, offset - 1);
                }
            } else {
                assert(tried.last() is Task);
                if first_task(tried) is None {
                    lemma_no_task(tried, tried.len() - 1);
                }
            }
        } else {
            assert forall|i: int| 0 <= i < tried.len() implies !(#[trigger] tried[i] is Task) by {
                let at = victim(own, i + 1, n);
                assert(tried.take(i).len() == i);
                assert(next_of(first, tried.take(i), own, n) is Some);
                round_tries_each_other_worker_once(own, own, n);
                vstd::arithmetic::div_mod::lemma_mod_bound(own + i + 1, n);
                assert(victim(own, i + 1, n) != own);
                assert(!filled[at]);
            }
            lemma_first_task(tried, tried.len() as int);
            assert(tried.take(tried.len() as int) =~= tried);
        }
    }
}

/// Where no other thread is in the way, so that the stack is found empty only where it holds no
/// task, a search takes the newest task of the stack where there is one, and only that. Otherwise
/// it takes nothing off the stack and goes through the others.
pub proof fn undisturbed_search_takes_the_newest_task(
    search: Search,
    before: TaskStack,
    after: TaskStack,
    queue: TaskQueue,
    stealers: Seq<TaskStealer>,
    own: int,
)
    requires
        takes_own(search, before, after) || takes_from_others(
            search,
            before,
            after,
            queue,
            stealers,
            own,
        ),
        after.popped() == before.popped() ==> before.tasks().len() == 0,
    ensures
        before.tasks().len() > 0 ==> takes_own(search, before, after),
        before.tasks().len() == 0 ==> takes_from_others(
            search,
            before,
            after,
            queue,
            stealers,
            own,
        ),
{
}

/// No search loses a task of the stack: what it takes off it is what it hands out.
pub proof fn search_loses_no_task(
    search: Search,
    before: TaskStack,
    after: TaskStack,
    queue: TaskQueue,
    stealers: Seq<TaskStealer>,
    own: int,
)
    requires
        takes_own(search, before, after) || takes_from_others(
            search,
            before,
            after,
            queue,
            stealers,
            own,
        ),
    ensures
        after.popped() == before.popped() || (search matches Search::Found(task)
            && after.popped() == before.popped().push(task@)),
{
}

} // verus!
