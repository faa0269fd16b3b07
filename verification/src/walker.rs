//! The parallel directory walk.
//!
//! Reading a directory turns one task into one task for each of its directories. A counter
//! holds the directories that are queued or being read; the walk is over when it drops to zero.

use vstd::prelude::*;

use crate::paths::join;
use crate::platform::{EntryFacts, RawEntry};
use crate::pool::RootedDir;
use crate::paths;
use crate::platform;
use crate::pool;
use crate::sums;

verus! {

/// What a directory entry is.
#[derive(Debug, Clone, Copy, PartialEq, Eq, Structural)]
pub enum EntryKind {
    File,
    Dir,
    Symlink,
    Other,
}

/// An entry as a visitor sees it.
pub struct Entry<'a> {
    pub parent: &'a [u8],
    pub name: &'a [u8],
    pub kind: EntryKind,
    pub size: Option<u64>,
}

// ── Configuration ───────────────────────────────────────────────────────

/// How a walk is carried out.
#[derive(Debug, Clone, Copy, PartialEq, Eq, Structural)]
pub struct WalkConfig {
    pub threads: usize,
    pub follow_symlinks: bool,
}

/// The number of performance cores that a system query tells.
pub open spec fn cores_told(result: i32, value: u32) -> Option<usize> {
    if result != 0 || value == 0 {
        None
    } else {
        Some(value as usize)
    }
}

/// The number of performance cores, from a system query that returned `result` and `value`.
pub fn performance_cores(result: i32, value: u32) -> (cores: Option<usize>)
    ensures
        cores == cores_told(result, value),
{
    if result != 0 || value == 0 {
        None
    } else {
        Some(value as usize)
    }
}

/// One worker per performance core, else one per available core, else four.
pub open spec fn thread_choice(performance: Option<usize>, available: Option<usize>) -> usize {
    match (performance, available) {
        (Some(cores), _) => cores,
        (None, Some(cores)) => cores,
        (None, None) => 4,
    }
}

/// The threads that were asked for, at least one, or else the number that is there.
pub open spec fn asked_threads(asked: Option<usize>, there: usize) -> usize {
    match asked {
        Some(threads) => if threads == 0 {
            1
        } else {
            threads
        },
        None => there,
    }
}

/// The workers that a number of threads gives, at least one.
pub open spec fn workers_for(threads: usize) -> usize {
    if threads == 0 {
        1
    } else {
        threads
    }
}

/// One worker per performance core, else one per available core, else four.
pub fn optimal_thread_count(performance: Option<usize>, available: Option<usize>) -> (threads:
    usize)
    ensures
        threads == thread_choice(performance, available),
{
    match performance {
        Some(cores) => cores,
        None => match available {
            Some(cores) => cores,
            None => 4,
        },
    }
}

impl WalkConfig {
    /// The configuration for a machine with these cores: symbolic links are not followed.
    pub fn for_machine(performance: Option<usize>, available: Option<usize>) -> (config: Self)
        ensures
            config.threads == thread_choice(performance, available),
            !config.follow_symlinks,
    {
        WalkConfig {
            threads: optimal_thread_count(performance, available),
            follow_symlinks: false,
        }
    }

    /// The same, with the number of threads that was asked for, at least one.
    pub fn with_threads(self, threads: Option<usize>) -> (config: Self)
        ensures
            config.follow_symlinks == self.follow_symlinks,
            config.threads == asked_threads(threads, self.threads),
    {
        match threads {
            Some(threads) => WalkConfig {
                threads: if threads == 0 {
                    1
                } else {
                    threads
                },
                follow_symlinks: self.follow_symlinks,
            },
            None => self,
        }
    }

    /// How many workers a walk starts: at least one.
    pub fn worker_count(&self) -> (count: usize)
        ensures
            count == workers_for(self.threads),
    {
        if self.threads == 0 {
            1
        } else {
            self.threads
        }
    }
}

// ── Descent ─────────────────────────────────────────────────────────────

/// A directory is descended into unless the visitor skips it; a symbolic link only where links
/// are followed.
pub open spec fn descends(kind: EntryKind, skip: bool, follow_symlinks: bool) -> bool {
    !skip && (kind is Dir || (follow_symlinks && kind is Symlink))
}

/// The tasks that reading `dir` gives, one for each entry that is descended into, in order.
pub open spec fn child_tasks(
    root_idx: u32,
    dir: Seq<u8>,
    listing: Seq<EntryFacts>,
    skips: Seq<bool>,
    follow_symlinks: bool,
) -> Seq<(u32, Seq<u8>)>
    decreases listing.len(),
{
    if listing.len() == 0 {
        seq![]
    } else {
        let n = listing.len() - 1;
        let before = child_tasks(root_idx, dir, listing.drop_last(), skips, follow_symlinks);
        if descends(listing[n].kind, skips[n], follow_symlinks) {
            before.push((root_idx, paths::joined(dir, listing[n].name)))
        } else {
            before
        }
    }
}

/// Reading a directory leads to the entries that are descended into and to nothing else; an
/// entry that the visitor skips leads nowhere.
pub proof fn only_descended_entries_lead_on(
    root_idx: u32,
    dir: Seq<u8>,
    listing: Seq<EntryFacts>,
    skips: Seq<bool>,
    follow_symlinks: bool,
    task: (u32, Seq<u8>),
)
    ensures
        child_tasks(root_idx, dir, listing, skips, follow_symlinks).contains(task)
            <==> exists|i: int|
            0 <= i < listing.len() && descends(
                (#[trigger] listing[i]).kind,
                skips[i],
                follow_symlinks,
            ) && task == (root_idx, paths::joined(dir, listing[i].name)),
    decreases listing.len(),
{
    if listing.len() > 0 {
        let n = listing.len() - 1;
        let before = child_tasks(root_idx, dir, listing.drop_last(), skips, follow_symlinks);
        let all = child_tasks(root_idx, dir, listing, skips, follow_symlinks);
        only_descended_entries_lead_on(
            root_idx,
            dir,
            listing.drop_last(),
            skips,
            follow_symlinks,
            task,
        );
        if before.contains(task) {
            let k = choose|k: int| 0 <= k < before.len() && before[k] == task;
            assert(all[k] == task);
            let i = choose|i: int|
                0 <= i < n && descends(
                    (#[trigger] listing.drop_last()[i]).kind,
                    skips[i],
                    follow_symlinks,
                ) && task == (root_idx, paths::joined(dir, listing.drop_last()[i].name));
            assert(listing[i] == listing.drop_last()[i]);
        }
        if all.contains(task) {
            let k = choose|k: int| 0 <= k < all.len() && all[k] == task;
            if k < before.len() {
                assert(before[k] == task);
            } else {
                assert(descends(listing[n].kind, skips[n], follow_symlinks));
            }
        }
        if exists|i: int|
            0 <= i < listing.len() && descends(
                (#[trigger] listing[i]).kind,
                skips[i],
                follow_symlinks,
            ) && task == (root_idx, paths::joined(dir, listing[i].name)) {
            let i = choose|i: int|
                0 <= i < listing.len() && descends(
                    (#[trigger] listing[i]).kind,
                    skips[i],
                    follow_symlinks,
                ) && task == (root_idx, paths::joined(dir, listing[i].name));
            if i < n {
                assert(listing.drop_last()[i] == listing[i]);
            } else {
                assert(all[before.len() as int] == task);
            }
        }
    }
}

fn descend(kind: EntryKind, skip: bool, follow_symlinks: bool) -> (yes: bool)
    ensures
        yes == descends(kind, skip, follow_symlinks),
{
    !skip && match kind {
        EntryKind::Dir => true,
        EntryKind::Symlink => follow_symlinks,
        _ => false,
    }
}

/// The tasks that reading a directory gives, from its listing and from what the visitor said
/// of each entry.
pub fn process_dir(
    task: &RootedDir,
    listing: &[RawEntry],
    skips: &[bool],
    follow_symlinks: bool,
) -> (children: Vec<RootedDir>)
    requires
        skips@.len() == listing@.len(),
    ensures
        pool::tasks_of(children@) == child_tasks(
            task.root_idx,
            task.path@,
            platform::listing_facts(listing@),
            skips@,
            follow_symlinks,
        ),
{
    let ghost facts = platform::listing_facts(listing@);
    let mut children: Vec<RootedDir> = Vec::new();
    let mut i: usize = 0;
    assert(pool::tasks_of(children@) =~= child_tasks(
        task.root_idx,
        task.path@,
        facts.take(0),
        skips@,
        follow_symlinks,
    ));
    while i < listing.len()
        invariant
            i <= listing@.len(),
            skips@.len() == listing@.len(),
            facts == platform::listing_facts(listing@),
            pool::tasks_of(children@) == child_tasks(
                task.root_idx,
                task.path@,
                facts.take(i as int),
                skips@,
                follow_symlinks,
            ),
        decreases listing@.len() - i,
    {
        let entry = &listing[i];
        proof {
            assert(facts[i as int] == entry@);
            assert(facts.take(i + 1).drop_last() =~= facts.take(i as int));
        }
        if descend(entry.kind, skips[i], follow_symlinks) {
            let child = RootedDir {
                root_idx: task.root_idx,
                path: join(task.path.as_slice(), entry.name.as_slice()),
            };
            assert(pool::tasks_of(children@.push(child)) =~= pool::tasks_of(children@).push(
                child@,
            ));
            children.push(child);
        }
        i = i + 1;
    }
    assert(facts.take(i as int) =~= facts);
    children
}

/// The size of an entry, where the listing tells it.
pub open spec fn told_size() -> spec_fn(EntryFacts) -> nat {
    |e: EntryFacts|
        match e.size {
            Some(bytes) => bytes as nat,
            None => 0,
        }
}

/// The slots of a worker with the sizes of a listing added to slot `r`.
pub open spec fn sizes_added(local: Seq<u64>, r: int, listing: Seq<EntryFacts>) -> Seq<u64> {
    local.update(r, (local[r] + sums::total(listing, told_size())) as u64)
}

/// Whether the sizes of a listing can be added to the slot of the task's root.
pub fn can_count(task: &RootedDir, listing: &[RawEntry], local: &[u64]) -> (can: bool)
    requires
        task.root_idx < local@.len(),
    ensures
        can == (local@[task.root_idx as int] + sums::total(
            platform::listing_facts(listing@),
            told_size(),
        ) <= u64::MAX),
{
    let ghost facts = platform::listing_facts(listing@);
    let mut sum: u64 = local[task.root_idx as usize];
    let mut i: usize = 0;
    while i < listing.len()
        invariant
            i <= listing@.len(),
            facts == platform::listing_facts(listing@),
            task.root_idx < local@.len(),
            sum == local@[task.root_idx as int] + sums::total(facts.take(i as int), told_size()),
        decreases listing@.len() - i,
    {
        proof {
            assert(facts[i as int] == listing@[i as int]@);
            sums::lemma_total_step(facts, i as int, told_size());
        }
        if let Some(bytes) = listing[i].size {
            match sum.checked_add(bytes) {
                Some(next) => {
                    sum = next;
                },
                None => {
                    return false;
                },
            }
        }
        i = i + 1;
    }
    assert(facts.take(i as int) =~= facts);
    true
}

/// Adds the sizes of a listing to the slot of the task's root, and gives the tasks that the
/// listing leads to.
pub fn process_size_dir(
    task: &RootedDir,
    listing: &[RawEntry],
    local: &mut Vec<u64>,
    follow_symlinks: bool,
) -> (children: Vec<RootedDir>)
    requires
        task.root_idx < old(local)@.len(),
        old(local)@[task.root_idx as int] + sums::total(
            platform::listing_facts(listing@),
            told_size(),
        ) <= u64::MAX,
    ensures
        final(local)@ == sizes_added(
            old(local)@,
            task.root_idx as int,
            platform::listing_facts(listing@),
        ),
        pool::tasks_of(children@) == child_tasks(
            task.root_idx,
            task.path@,
            platform::listing_facts(listing@),
            Seq::new(listing@.len(), |i: int| false),
            follow_symlinks,
        ),
{
    let ghost facts = platform::listing_facts(listing@);
    let slot: usize = task.root_idx as usize;
    let mut skips: Vec<bool> = Vec::new();
    let mut sum: u64 = local[slot];
    let mut i: usize = 0;
    while i < listing.len()
        invariant
            i <= listing@.len(),
            facts == platform::listing_facts(listing@),
            local@ == old(local)@,
            slot == task.root_idx,
            slot < local@.len(),
            skips@ == Seq::new(i as nat, |i: int| false),
            sum == local@[slot as int] + sums::total(facts.take(i as int), told_size()),
            local@[slot as int] + sums::total(facts, told_size()) <= u64::MAX,
        decreases listing@.len() - i,
    {
        proof {
            assert(facts[i as int] == listing@[i as int]@);
            sums::lemma_total_step(facts, i as int, told_size());
        }
        match listing[i].size {
            Some(bytes) => {
                sum = sum + bytes;
            },
            None => {},
        }
        skips.push(false);
        i = i + 1;
        assert(skips@ =~= Seq::new(i as nat, |i: int| false));
    }
    assert(facts.take(i as int) =~= facts);
    local.set(slot, sum);
    process_dir(task, listing, skips.as_slice(), follow_symlinks)
}

/// `totals` with the counts of one worker added, slot by slot, modulo 2^64.
pub open spec fn flushed(totals: Seq<u64>, local: Seq<u64>) -> Seq<u64> {
    Seq::new(
        totals.len(),
        |i: int| ((totals[i] + local[i]) % 0x1_0000_0000_0000_0000) as u64,
    )
}

/// Adds what one worker counted to the totals of all.
pub fn flush_local(totals: &mut Vec<u64>, local: &[u64])
    requires
        old(totals)@.len() == local@.len(),
    ensures
        final(totals)@ == flushed(old(totals)@, local@),
{
    let mut i: usize = 0;
    while i < local.len()
        invariant
            i <= local@.len(),
            totals@.len() == local@.len(),
            old(totals)@.len() == local@.len(),
            forall|j: int| 0 <= j < i ==> totals@[j] == flushed(old(totals)@, local@)[j],
            forall|j: int| i <= j < local@.len() ==> totals@[j] == old(totals)@[j],
        decreases local@.len() - i,
    {
        let sum: u64 = totals[i].wrapping_add(local[i]);
        totals.set(i, sum);
        i = i + 1;
    }
    assert(totals@ =~= flushed(old(totals)@, local@));
}

/// The totals after all workers have added what they counted.
pub open spec fn flushed_all(totals: Seq<u64>, locals: Seq<Seq<u64>>) -> Seq<u64>
    decreases locals.len(),
{
    if locals.len() == 0 {
        totals
    } else {
        flushed(flushed_all(totals, locals.drop_last()), locals.last())
    }
}

/// What a worker has counted for root `i`.
pub open spec fn slot(i: int) -> spec_fn(Seq<u64>) -> nat {
    |local: Seq<u64>| local[i] as nat
}

/// A total is the sum of what the workers counted for its root, whichever of them did and in
/// whatever order they finish.
pub proof fn totals_add_up(totals: Seq<u64>, locals: Seq<Seq<u64>>, i: int)
    requires
        0 <= i < totals.len(),
        forall|w: int| 0 <= w < locals.len() ==> (#[trigger] locals[w]).len() == totals.len(),
    ensures
        flushed_all(totals, locals).len() == totals.len(),
        flushed_all(totals, locals)[i] == (totals[i] + sums::total(locals, slot(i)))
            % 0x1_0000_0000_0000_0000,
    decreases locals.len(),
{
    let counted = slot(i);
    if locals.len() > 0 {
        totals_add_up(totals, locals.drop_last(), i);
        let before = flushed_all(totals, locals.drop_last())[i];
        let x = totals[i] + sums::total(locals.drop_last(), counted);
        let y = locals.last()[i];
        assert(sums::total(locals, counted) == sums::total(locals.drop_last(), counted) + y);
        vstd::arithmetic::div_mod::lemma_add_mod_noop(
            x as int,
            y as int,
            0x1_0000_0000_0000_0000,
        );
        vstd::arithmetic::div_mod::lemma_small_mod(y as nat, 0x1_0000_0000_0000_0000);
    }
}

// ── Completion ──────────────────────────────────────────────────────────

/// What becomes of the counter of unfinished directories when one has been read.
#[derive(Debug, PartialEq, Eq, Structural)]
pub enum InFlight {
    /// It drops by one; the walk is over if it was one.
    Drop,
    /// The one directory below takes the place of the one above.
    Keep,
    /// It grows by this much, before the directories below are handed on.
    Grow(usize),
}

pub open spec fn in_flight_after(added: nat) -> InFlight {
    if added == 0 {
        InFlight::Drop
    } else if added == 1 {
        InFlight::Keep
    } else {
        InFlight::Grow((added - 1) as usize)
    }
}

/// What becomes of the counter when a directory has led to `added` more.
pub fn in_flight_change(added: usize) -> (change: InFlight)
    ensures
        change == in_flight_after(added as nat),
{
    if added == 0 {
        InFlight::Drop
    } else if added == 1 {
        InFlight::Keep
    } else {
        InFlight::Grow(added - 1)
    }
}

/// The counter, which stood at `previous` before it dropped, says that the walk is over.
pub open spec fn says_over(previous: int) -> bool {
    previous == 1
}

/// Whether the counter, which stood at `previous` before it dropped, says that the walk is over.
pub fn is_over(previous: usize) -> (over: bool)
    ensures
        over == says_over(previous as int),
{
    previous == 1
}

/// What a worker does that found no task.
#[derive(Debug, PartialEq, Eq, Structural)]
pub enum IdleStep {
    /// The walk is over.
    Stop,
    /// Give way to other threads; then search again.
    Yield,
    /// Sleep for a moment; then search again.
    Sleep,
}

/// What a worker does that found no task, after `idle` such searches in a row, and how many
/// there have been then.
pub open spec fn after_idling(done: bool, idle: u32) -> (IdleStep, u32) {
    let searches = if idle == u32::MAX {
        idle
    } else {
        (idle + 1) as u32
    };
    if done {
        (IdleStep::Stop, idle)
    } else if searches < 32 {
        (IdleStep::Yield, searches)
    } else {
        (IdleStep::Sleep, searches)
    }
}

/// What a worker does that found no task, after `idle` such searches in a row, and how many
/// there have been then.
pub fn idle_step(done: bool, idle: u32) -> (step: (IdleStep, u32))
    ensures
        step == after_idling(done, idle),
{
    if done {
        return (IdleStep::Stop, idle);
    }
    let next: u32 = idle.saturating_add(1);
    if next < 32 {
        (IdleStep::Yield, next)
    } else {
        (IdleStep::Sleep, next)
    }
}

/// What a worker is at.
pub enum WorkerState {
    Idle,
    /// Has taken a directory and not yet settled the counter for it.
    Reading,
    /// Has settled the counter and has this many directories still to hand on.
    Pushing(nat),
}

/// A walk, seen from outside.
pub struct WalkState {
    /// Directories in the queue and on the stacks.
    pub queued: nat,
    pub workers: Seq<WorkerState>,
    /// The counter of unfinished directories.
    pub active: int,
    /// The walk has been declared over.
    pub done: bool,
}

/// The directories that a worker holds and that are in no queue.
pub open spec fn in_hand() -> spec_fn(WorkerState) -> nat {
    |w: WorkerState|
        match w {
            WorkerState::Idle => 0,
            WorkerState::Reading => 1,
            WorkerState::Pushing(left) => left,
        }
}

impl WalkState {
    /// The counter counts every unfinished directory, and the walk is declared over exactly
    /// when there is none.
    pub open spec fn inv(self) -> bool {
        &&& self.active == self.queued + sums::total(self.workers, in_hand())
        &&& self.done == (self.active == 0)
    }

    /// A walk of `roots` roots before any worker has started.
    pub open spec fn start(roots: nat, workers: nat) -> WalkState {
        WalkState {
            queued: roots,
            workers: Seq::new(workers, |i: int| WorkerState::Idle),
            active: roots as int,
            done: false,
        }
    }

    /// Worker `w` takes a directory.
    pub open spec fn take(self, w: int) -> WalkState {
        WalkState {
            queued: (self.queued - 1) as nat,
            workers: self.workers.update(w, WorkerState::Reading),
            ..self
        }
    }

    /// Worker `w` settles the counter for a directory that led to `added` more.
    pub open spec fn settle(self, w: int, added: nat) -> WalkState {
        match in_flight_after(added) {
            InFlight::Drop => WalkState {
                workers: self.workers.update(w, WorkerState::Idle),
                active: self.active - 1,
                done: self.done || says_over(self.active),
                ..self
            },
            InFlight::Keep => WalkState {
                workers: self.workers.update(w, WorkerState::Pushing(added)),
                ..self
            },
            InFlight::Grow(by) => WalkState {
                workers: self.workers.update(w, WorkerState::Pushing(added)),
                active: self.active + by,
                ..self
            },
        }
    }

    /// Worker `w` hands one of its directories on.
    pub open spec fn hand_on(self, w: int) -> WalkState {
        let left = (self.workers[w]->Pushing_0 - 1) as nat;
        WalkState {
            queued: self.queued + 1,
            workers: self.workers.update(
                w,
                if left == 0 {
                    WorkerState::Idle
                } else {
                    WorkerState::Pushing(left)
                },
            ),
            ..self
        }
    }
}

proof fn lemma_total_update(s: Seq<WorkerState>, w: int, x: WorkerState)
    requires
        0 <= w < s.len(),
    ensures
        sums::total(s.update(w, x), in_hand()) + in_hand()(s[w]) == sums::total(s, in_hand())
            + in_hand()(x),
{
    sums::lemma_total_remove(s, w, in_hand());
    sums::lemma_total_remove(s.update(w, x), w, in_hand());
    assert(s.update(w, x).remove(w) =~= s.remove(w));
}

/// A walk with at least one root starts with a right count.
pub proof fn count_is_right_at_start(roots: nat, workers: nat)
    requires
        roots > 0,
    ensures
        WalkState::start(roots, workers).inv(),
    decreases workers,
{
    let s = WalkState::start(roots, workers).workers;
    if workers > 0 {
        count_is_right_at_start(roots, (workers - 1) as nat);
        assert(s.drop_last() =~= WalkState::start(roots, (workers - 1) as nat).workers);
    }
}

/// The count stays right, whatever the workers do and in whatever order: taking a directory,
/// settling the counter for it, and handing on what it led to.
pub proof fn count_stays_right(s: WalkState, w: int, added: nat)
    requires
        s.inv(),
        0 <= w < s.workers.len(),
        added <= usize::MAX,
    ensures
        s.workers[w] is Idle && s.queued > 0 ==> s.take(w).inv(),
        s.workers[w] is Reading ==> s.settle(w, added).inv(),
        s.workers[w] matches WorkerState::Pushing(left) && left > 0 ==> s.hand_on(w).inv(),
{
    lemma_total_update(s.workers, w, WorkerState::Reading);
    lemma_total_update(s.workers, w, WorkerState::Idle);
    lemma_total_update(s.workers, w, WorkerState::Pushing(added));
    if let WorkerState::Pushing(left) = s.workers[w] {
        if left > 0 {
            lemma_total_update(s.workers, w, WorkerState::Pushing((left - 1) as nat));
        }
    }
}

/// A walk is declared over only when no directory is queued, being read or about to be handed
/// on, and it is then declared over.
pub proof fn over_means_nothing_is_left(s: WalkState)
    requires
        s.inv(),
    ensures
        s.done == (s.queued == 0 && forall|w: int|
            0 <= w < s.workers.len() ==> in_hand()(#[trigger] s.workers[w]) == 0),
{
    lemma_total_zero(s.workers);
}

proof fn lemma_total_zero(s: Seq<WorkerState>)
    ensures
        sums::total(s, in_hand()) == 0 <==> forall|w: int|
            0 <= w < s.len() ==> in_hand()(#[trigger] s[w]) == 0,
    decreases s.len(),
{
    if s.len() > 0 {
        lemma_total_zero(s.drop_last());
        let n = s.len() - 1;
        assert(s.last() == s[n]);
        assert forall|w: int| 0 <= w < n implies in_hand()(s.drop_last()[w]) == in_hand()(
            #[trigger] s[w],
        ) by {}
        if sums::total(s, in_hand()) == 0 {
            assert forall|w: int| 0 <= w < s.len() implies in_hand()(#[trigger] s[w]) == 0 by {
                if w < n {
                    assert(in_hand()(s.drop_last()[w]) == 0);
                }
            }
        }
        if forall|w: int| 0 <= w < s.len() ==> in_hand()(#[trigger] s[w]) == 0 {
            assert forall|w: int| 0 <= w < n implies in_hand()(#[trigger] s.drop_last()[w])
                == 0 by {
                assert(in_hand()(s[w]) == 0);
            }
            assert(in_hand()(s[n]) == 0);
        }
    }
}

} // verus!
