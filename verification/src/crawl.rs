//! Which directories a walk reads, and what it counts in them.
//!
//! A walk finds directories and reads them, in whatever order its workers come to them. Reading
//! one finds those that it leads to. The walk is over when all that were found have been read.

use vstd::prelude::*;

use crate::counters::Counts;
use crate::paths::Component;
use crate::platform::EntryFacts;
use crate::walker::EntryKind;
use crate::counters;
use crate::paths;
use crate::pool;
use crate::sums;
use crate::walker;

verus! {

/// A file system as a walk sees it.
pub struct Disk {
    /// What each directory lists: nothing where it cannot be read, and what came before an
    /// error where reading it failed on the way.
    pub list: spec_fn(Seq<u8>) -> Seq<EntryFacts>,
    /// Whether the visitor skips an entry of a directory.
    pub skip: spec_fn(Seq<u8>, EntryFacts) -> bool,
    pub follow_symlinks: bool,
}

impl Disk {
    /// What the visitor says of each entry of a directory.
    pub open spec fn skips(self, dir: Seq<u8>) -> Seq<bool> {
        Seq::new((self.list)(dir).len(), |i: int| (self.skip)(dir, (self.list)(dir)[i]))
    }

    /// The tasks that reading a directory leads to.
    pub open spec fn below(self, task: (u32, Seq<u8>)) -> Seq<(u32, Seq<u8>)> {
        walker::child_tasks(
            task.0,
            task.1,
            (self.list)(task.1),
            self.skips(task.1),
            self.follow_symlinks,
        )
    }

    /// Every directory lists proper names, and none twice.
    pub open spec fn is_proper(self) -> bool {
        &&& forall|dir: Seq<u8>, i: int|
            0 <= i < (self.list)(dir).len() ==> paths::is_file_name(
                (#[trigger] (self.list)(dir)[i]).name,
            )
        &&& forall|dir: Seq<u8>, i: int, j: int|
            0 <= i < j < (self.list)(dir).len() ==> (#[trigger] (self.list)(dir)[i]).name != (
            #[trigger] (self.list)(dir)[j]).name
    }
}

/// A walk under way.
pub struct Crawl {
    /// The directories found so far.
    pub found: Seq<(u32, Seq<u8>)>,
    /// Which of them have been read.
    pub read: Set<int>,
}

impl Crawl {
    /// A walk that has found its roots and read nothing.
    pub open spec fn start(roots: Seq<Seq<u8>>) -> Crawl {
        Crawl { found: pool::seeds(roots), read: Set::empty() }
    }

    /// Directory `i` waits to be read.
    pub open spec fn waits(self, i: int) -> bool {
        0 <= i < self.found.len() && !self.read.contains(i)
    }

    /// The walk after directory `i` was read.
    pub open spec fn after(self, disk: Disk, i: int) -> Crawl {
        Crawl { found: self.found + disk.below(self.found[i]), read: self.read.insert(i) }
    }

    /// No directory waits.
    pub open spec fn is_over(self) -> bool {
        forall|i: int| 0 <= i < self.found.len() ==> #[trigger] self.read.contains(i)
    }
}

/// A walk from its roots on; `picks` are the directories in the order in which they are read.
pub open spec fn is_crawl(
    disk: Disk,
    roots: Seq<Seq<u8>>,
    states: Seq<Crawl>,
    picks: Seq<int>,
) -> bool {
    &&& states.len() == picks.len() + 1
    &&& states[0] == Crawl::start(roots)
    &&& forall|k: int|
        0 <= k < picks.len() ==> states[k].waits(#[trigger] picks[k]) && states[k + 1]
            == states[k].after(disk, picks[k])
}

/// The task is one of the roots, or is reached from them in `n` steps down.
pub open spec fn reached_in(
    disk: Disk,
    roots: Seq<Seq<u8>>,
    task: (u32, Seq<u8>),
    n: nat,
) -> bool
    decreases n,
{
    if n == 0 {
        pool::seeds(roots).contains(task)
    } else {
        exists|from: (u32, Seq<u8>)|
            reached_in(disk, roots, from, (n - 1) as nat) && #[trigger] disk.below(from).contains(
                task,
            )
    }
}

/// The task can be reached from the roots by going down, past no entry that the visitor skips.
pub open spec fn is_reached(disk: Disk, roots: Seq<Seq<u8>>, task: (u32, Seq<u8>)) -> bool {
    exists|n: nat| reached_in(disk, roots, task, n)
}

// ── What is found ───────────────────────────────────────────────────────

/// Directory `p` was read and led to directory `j`.
spec fn led_to(disk: Disk, c: Crawl, p: int, j: int) -> bool {
    &&& 0 <= p < j
    &&& c.read.contains(p)
    &&& disk.below(c.found[p]).contains(c.found[j])
}

spec fn was_led_to(disk: Disk, c: Crawl, j: int) -> bool {
    exists|p: int| led_to(disk, c, p, j)
}

/// What holds of a walk at any time.
spec fn is_on_course(disk: Disk, roots: Seq<Seq<u8>>, c: Crawl) -> bool {
    &&& roots.len() <= c.found.len()
    &&& forall|i: int| 0 <= i < roots.len() ==> #[trigger] c.found[i] == pool::seeds(roots)[i]
    &&& forall|i: int| #[trigger] c.read.contains(i) ==> 0 <= i < c.found.len()
    &&& forall|j: int|
        roots.len() <= j < c.found.len() ==> #[trigger] was_led_to(disk, c, j)
    &&& forall|p: int, k: int|
        c.read.contains(p) && 0 <= k < disk.below(c.found[p]).len() ==> c.found.contains(
            #[trigger] disk.below(c.found[p])[k],
        )
}

proof fn lemma_step_stays_on_course(disk: Disk, roots: Seq<Seq<u8>>, c: Crawl, i: int)
    requires
        is_on_course(disk, roots, c),
        c.waits(i),
    ensures
        is_on_course(disk, roots, c.after(disk, i)),
{
    let d = c.after(disk, i);
    let kids = disk.below(c.found[i]);
    assert forall|j: int| roots.len() <= j < d.found.len() implies #[trigger] was_led_to(
        disk,
        d,
        j,
    ) by {
        if j < c.found.len() {
            assert(was_led_to(disk, c, j));
            let p = choose|p: int| led_to(disk, c, p, j);
            assert(led_to(disk, d, p, j));
        } else {
            assert(kids[j - c.found.len()] == d.found[j]);
            assert(led_to(disk, d, i, j));
        }
    }
    assert forall|p: int, k: int|
        d.read.contains(p) && 0 <= k < disk.below(d.found[p]).len() implies d.found.contains(
        #[trigger] disk.below(d.found[p])[k],
    ) by {
        if p == i {
            assert(d.found[c.found.len() + k] == kids[k]);
        } else {
            assert(d.found[p] == c.found[p]);
            let x = disk.below(c.found[p])[k];
            let m = choose|m: int| 0 <= m < c.found.len() && c.found[m] == x;
            assert(d.found[m] == x);
        }
    }
}

proof fn lemma_on_course(
    disk: Disk,
    roots: Seq<Seq<u8>>,
    states: Seq<Crawl>,
    picks: Seq<int>,
    k: int,
)
    requires
        is_crawl(disk, roots, states, picks),
        0 <= k < states.len(),
    ensures
        is_on_course(disk, roots, states[k]),
    decreases k,
{
    if k > 0 {
        lemma_on_course(disk, roots, states, picks, k - 1);
        assert(states[k - 1].waits(picks[k - 1]) && states[k - 1 + 1] == states[k - 1].after(
            disk,
            picks[k - 1],
        ));
        lemma_step_stays_on_course(disk, roots, states[k - 1], picks[k - 1]);
    }
}

proof fn lemma_found_is_reached(disk: Disk, roots: Seq<Seq<u8>>, c: Crawl, j: int) -> (n: nat)
    requires
        is_on_course(disk, roots, c),
        0 <= j < c.found.len(),
    ensures
        reached_in(disk, roots, c.found[j], n),
    decreases j,
{
    if j < roots.len() {
        assert(pool::seeds(roots)[j] == c.found[j]);
        0
    } else {
        assert(was_led_to(disk, c, j));
        let p = choose|p: int| led_to(disk, c, p, j);
        let n = lemma_found_is_reached(disk, roots, c, p);
        assert(reached_in(disk, roots, c.found[p], (n + 1 - 1) as nat));
        n + 1
    }
}

proof fn lemma_reached_is_found(
    disk: Disk,
    roots: Seq<Seq<u8>>,
    c: Crawl,
    task: (u32, Seq<u8>),
    n: nat,
)
    requires
        is_on_course(disk, roots, c),
        c.is_over(),
        reached_in(disk, roots, task, n),
    ensures
        c.found.contains(task),
    decreases n,
{
    if n == 0 {
        let i = choose|i: int| 0 <= i < roots.len() && pool::seeds(roots)[i] == task;
        assert(c.found[i] == task);
    } else {
        let from = choose|from: (u32, Seq<u8>)|
            reached_in(disk, roots, from, (n - 1) as nat) && #[trigger] disk.below(from).contains(
                task,
            );
        lemma_reached_is_found(disk, roots, c, from, (n - 1) as nat);
        let p = choose|p: int| 0 <= p < c.found.len() && c.found[p] == from;
        assert(c.read.contains(p));
        let k = choose|k: int| 0 <= k < disk.below(from).len() && disk.below(from)[k] == task;
        assert(c.found.contains(disk.below(c.found[p])[k]));
    }
}

/// A walk that is over has read the directories that can be reached from its roots and no
/// others, whichever was read when.
pub proof fn finished_walk_has_read_what_is_reached(
    disk: Disk,
    roots: Seq<Seq<u8>>,
    states: Seq<Crawl>,
    picks: Seq<int>,
)
    requires
        is_crawl(disk, roots, states, picks),
        states.last().is_over(),
    ensures
        forall|task: (u32, Seq<u8>)| #[trigger]
            states.last().found.contains(task) <==> is_reached(disk, roots, task),
{
    let c = states.last();
    lemma_on_course(disk, roots, states, picks, states.len() - 1);
    assert forall|task: (u32, Seq<u8>)| #[trigger] c.found.contains(task) implies is_reached(
        disk,
        roots,
        task,
    ) by {
        let j = choose|j: int| 0 <= j < c.found.len() && c.found[j] == task;
        let n = lemma_found_is_reached(disk, roots, c, j);
        assert(reached_in(disk, roots, task, n));
    }
    assert forall|task: (u32, Seq<u8>)| is_reached(disk, roots, task) implies
        #[trigger] c.found.contains(task) by {
        let n = choose|n: nat| reached_in(disk, roots, task, n);
        lemma_reached_is_found(disk, roots, c, task, n);
    }
}

/// What was read after `k` steps is what was picked in them.
proof fn lemma_read_is_picked(
    disk: Disk,
    roots: Seq<Seq<u8>>,
    states: Seq<Crawl>,
    picks: Seq<int>,
    k: int,
)
    requires
        is_crawl(disk, roots, states, picks),
        0 <= k < states.len(),
    ensures
        forall|i: int| #[trigger] states[k].read.contains(i) <==> picks.take(k).contains(i),
        forall|m: int|
            0 <= m < k ==> 0 <= #[trigger] picks[m] < states[k].found.len()
                && states[k].found[picks[m]] == states[m].found[picks[m]],
    decreases k,
{
    if k > 0 {
        lemma_read_is_picked(disk, roots, states, picks, k - 1);
        let before = states[k - 1];
        assert(before.waits(picks[k - 1]) && states[k - 1 + 1] == before.after(
            disk,
            picks[k - 1],
        ));
        assert(picks.take(k) =~= picks.take(k - 1).push(picks[k - 1]));
        assert forall|i: int| #[trigger] states[k].read.contains(i) <==> picks.take(k).contains(
            i,
        ) by {
            assert(before.read.contains(i) <==> picks.take(k - 1).contains(i));
            assert(picks.take(k)[k - 1] == picks[k - 1]);
            let earlier = picks.take(k - 1);
            if earlier.contains(i) {
                let m = choose|m: int| 0 <= m < earlier.len() && earlier[m] == i;
                assert(picks.take(k)[m] == i);
            }
        }
    }
}

/// A walk that is over has read each directory that it found in exactly one step, and so its
/// visitor, whatever it is, was shown what each of them lists exactly once.
pub proof fn finished_walk_visits_each_directory_once(
    disk: Disk,
    roots: Seq<Seq<u8>>,
    states: Seq<Crawl>,
    picks: Seq<int>,
)
    requires
        is_crawl(disk, roots, states, picks),
        states.last().is_over(),
    ensures
        forall|i: int| #[trigger] picks.contains(i) <==> 0 <= i < states.last().found.len(),
        forall|k: int, m: int| 0 <= k < m < picks.len() ==> picks[k] != picks[m],
        forall|k: int|
            0 <= k < picks.len() ==> states[k].found[#[trigger] picks[k]]
                == states.last().found[picks[k]],
{
    let n = picks.len() as int;
    assert(picks.take(n) =~= picks);
    lemma_read_is_picked(disk, roots, states, picks, n);
    lemma_on_course(disk, roots, states, picks, n);
    assert forall|i: int| #[trigger] picks.contains(i) <==> 0 <= i
        < states.last().found.len() by {
        assert(states.last().read.contains(i) <==> picks.take(n).contains(i));
    }
    assert forall|k: int, m: int| 0 <= k < m < picks.len() implies picks[k] != picks[m] by {
        lemma_read_is_picked(disk, roots, states, picks, m);
        assert(states[m].waits(picks[m]));
        assert(picks.take(m)[k] == picks[k]);
        assert(states[m].read.contains(picks[k]));
    }
}

// ── Nothing is read twice ───────────────────────────────────────────────

/// The components of the path of directory `j`.
pub open spec fn found_path(c: Crawl, j: int) -> Seq<Component> {
    paths::components(c.found[j].1)
}

/// What a directory leads to is one of its entries.
pub(crate) proof fn lemma_child(disk: Disk, from: (u32, Seq<u8>), task: (u32, Seq<u8>)) -> (i: int)
    requires
        disk.is_proper(),
        disk.below(from).contains(task),
    ensures
        0 <= i < (disk.list)(from.1).len(),
        walker::descends(
            (disk.list)(from.1)[i].kind,
            (disk.skip)(from.1, (disk.list)(from.1)[i]),
            disk.follow_symlinks,
        ),
        task == (from.0, paths::joined(from.1, (disk.list)(from.1)[i].name)),
        paths::components(task.1) == paths::components(from.1).push(
            Component::Normal((disk.list)(from.1)[i].name),
        ),
{
    let listing = (disk.list)(from.1);
    let skips = disk.skips(from.1);
    walker::only_descended_entries_lead_on(
        from.0,
        from.1,
        listing,
        skips,
        disk.follow_symlinks,
        task,
    );
    let i = choose|i: int|
        0 <= i < listing.len() && walker::descends(
            (#[trigger] listing[i]).kind,
            skips[i],
            disk.follow_symlinks,
        ) && task == (from.0, paths::joined(from.1, listing[i].name));
    assert(paths::is_file_name((disk.list)(from.1)[i].name));
    paths::joining_adds_one_component(from.1, listing[i].name);
    i
}

/// A directory leads to no path twice.
proof fn lemma_children_apart(
    root_idx: u32,
    dir: Seq<u8>,
    listing: Seq<EntryFacts>,
    skips: Seq<bool>,
    follow: bool,
    a: int,
    b: int,
)
    requires
        forall|i: int| 0 <= i < listing.len() ==> paths::is_file_name((#[trigger] listing[i]).name),
        forall|i: int, j: int|
            0 <= i < j < listing.len() ==> (#[trigger] listing[i]).name != (
            #[trigger] listing[j]).name,
        0 <= a < b < walker::child_tasks(root_idx, dir, listing, skips, follow).len(),
    ensures
        paths::components(walker::child_tasks(root_idx, dir, listing, skips, follow)[a].1)
            != paths::components(walker::child_tasks(root_idx, dir, listing, skips, follow)[b].1),
    decreases listing.len(),
{
    let n = listing.len() - 1;
    let front = listing.drop_last();
    let before = walker::child_tasks(root_idx, dir, front, skips, follow);
    let all = walker::child_tasks(root_idx, dir, listing, skips, follow);
    assert forall|i: int| 0 <= i < front.len() implies (#[trigger] front[i]) == listing[i] by {}
    if b < before.len() {
        lemma_children_apart(root_idx, dir, front, skips, follow, a, b);
    } else {
        assert(before.contains(all[a])) by {
            assert(before[a] == all[a]);
        }
        walker::only_descended_entries_lead_on(root_idx, dir, front, skips, follow, all[a]);
        let i = choose|i: int|
            0 <= i < front.len() && walker::descends(
                (#[trigger] front[i]).kind,
                skips[i],
                follow,
            ) && all[a] == (root_idx, paths::joined(dir, front[i].name));
        assert(listing[i].name != listing[n].name);
        paths::joining_adds_one_component(dir, listing[i].name);
        paths::joining_adds_one_component(dir, listing[n].name);
        let x = paths::components(all[a].1);
        let y = paths::components(all[b].1);
        assert(x.last() != y.last());
    }
}

/// What was found lies at or under the root, each at a place of its own.
spec fn is_apart(root: Seq<u8>, c: Crawl) -> bool {
    &&& forall|j: int|
        0 <= j < c.found.len() ==> paths::components(root).is_prefix_of(
            #[trigger] found_path(c, j),
        )
    &&& forall|j: int|
        0 < j < c.found.len() ==> (#[trigger] found_path(c, j)).len() > paths::components(
            root,
        ).len()
    &&& forall|i: int, j: int|
        0 <= i < j < c.found.len() ==> #[trigger] found_path(c, i) != #[trigger] found_path(c, j)
}

pub(crate) proof fn lemma_prefix_push(a: Seq<Component>, b: Seq<Component>, x: Component)
    requires
        a.is_prefix_of(b),
    ensures
        a.is_prefix_of(b.push(x)),
{
    assert(a =~= b.push(x).subrange(0, a.len() as int)) by {
        assert forall|i: int| 0 <= i < a.len() implies a[i] == b.push(x)[i] by {
            assert(b.subrange(0, a.len() as int)[i] == b[i]);
        }
    }
}

proof fn lemma_step_stays_apart(disk: Disk, root: Seq<u8>, c: Crawl, i: int)
    requires
        disk.is_proper(),
        is_on_course(disk, seq![root], c),
        is_apart(root, c),
        c.waits(i),
    ensures
        is_apart(root, c.after(disk, i)),
{
    let d = c.after(disk, i);
    let n = c.found.len();
    let dir = c.found[i];
    let kids = disk.below(dir);
    assert forall|j: int| 0 <= j < n implies #[trigger] found_path(d, j) == found_path(c, j) by {}
    assert forall|j: int| n <= j < d.found.len() implies (#[trigger] found_path(d, j)).len()
        == found_path(c, i).len() + 1 && found_path(d, j).drop_last() == found_path(c, i)
        && paths::components(root).is_prefix_of(found_path(d, j)) by {
        assert(kids[j - n] == d.found[j]);
        let e = lemma_child(disk, dir, d.found[j]);
        let name = Component::Normal((disk.list)(dir.1)[e].name);
        lemma_prefix_push(paths::components(root), found_path(c, i), name);
        assert(found_path(c, i).push(name).drop_last() =~= found_path(c, i));
    }
    assert forall|j: int| 0 <= j < n implies (#[trigger] found_path(c, j)).len()
        >= paths::components(root).len() by {}
    assert forall|a: int, b: int| 0 <= a < b < d.found.len() implies #[trigger] found_path(d, a)
        != #[trigger] found_path(d, b) by {
        if b < n {
            assert(found_path(c, a) != found_path(c, b));
        } else if a < n {
            if a == 0 {
                assert(c.found[0] == pool::seeds(seq![root])[0]);
            } else {
                assert(was_led_to(disk, c, a));
                let p = choose|p: int| led_to(disk, c, p, a);
                let e = lemma_child(disk, c.found[p], c.found[a]);
                let name = Component::Normal((disk.list)(c.found[p].1)[e].name);
                assert(found_path(c, p).push(name).drop_last() =~= found_path(c, p));
                if found_path(d, a) == found_path(d, b) {
                    assert(found_path(c, p) == found_path(c, i));
                    assert(p != i);
                    assert(p < i || i < p);
                }
            }
        } else {
            lemma_children_apart(
                dir.0,
                dir.1,
                (disk.list)(dir.1),
                disk.skips(dir.1),
                disk.follow_symlinks,
                a - n,
                b - n,
            );
            assert(kids[a - n] == d.found[a] && kids[b - n] == d.found[b]);
        }
    }
}

proof fn lemma_apart(
    disk: Disk,
    root: Seq<u8>,
    states: Seq<Crawl>,
    picks: Seq<int>,
    k: int,
)
    requires
        disk.is_proper(),
        is_crawl(disk, seq![root], states, picks),
        0 <= k < states.len(),
    ensures
        is_apart(root, states[k]),
    decreases k,
{
    if k > 0 {
        lemma_apart(disk, root, states, picks, k - 1);
        lemma_on_course(disk, seq![root], states, picks, k - 1);
        assert(states[k - 1].waits(picks[k - 1]) && states[k - 1 + 1] == states[k - 1].after(
            disk,
            picks[k - 1],
        ));
        lemma_step_stays_apart(disk, root, states[k - 1], picks[k - 1]);
    } else {
        let x = paths::components(root);
        assert(x =~= x.subrange(0, x.len() as int));
    }
}

/// No directory is found twice, and so none is read twice.
pub proof fn no_directory_is_read_twice(
    disk: Disk,
    root: Seq<u8>,
    states: Seq<Crawl>,
    picks: Seq<int>,
    i: int,
    j: int,
)
    requires
        disk.is_proper(),
        is_crawl(disk, seq![root], states, picks),
        0 <= i < j < states.last().found.len(),
    ensures
        found_path(states.last(), i) != found_path(states.last(), j),
{
    lemma_apart(disk, root, states, picks, states.len() - 1);
}

/// At any time the directories found are at places of their own.
pub(crate) proof fn lemma_places_differ(
    disk: Disk,
    root: Seq<u8>,
    states: Seq<Crawl>,
    picks: Seq<int>,
    k: int,
)
    requires
        disk.is_proper(),
        is_crawl(disk, seq![root], states, picks),
        0 <= k < states.len(),
    ensures
        forall|i: int, j: int|
            0 <= i < j < states[k].found.len() ==> #[trigger] found_path(states[k], i)
                != #[trigger] found_path(states[k], j),
        forall|i: int| #[trigger] states[k].read.contains(i) ==> 0 <= i < states[k].found.len(),
{
    lemma_apart(disk, root, states, picks, k);
    lemma_on_course(disk, seq![root], states, picks, k);
}

/// What is found lies at the root or under it, and every directory on the way was found.
pub(crate) proof fn lemma_way_down(
    disk: Disk,
    root: Seq<u8>,
    states: Seq<Crawl>,
    picks: Seq<int>,
    j: int,
    above: Seq<Component>,
) -> (m: int)
    requires
        disk.is_proper(),
        is_crawl(disk, seq![root], states, picks),
        0 <= j < states.last().found.len(),
        above.is_prefix_of(found_path(states.last(), j)),
        above.len() >= paths::components(root).len(),
    ensures
        0 <= m < states.last().found.len(),
        found_path(states.last(), m) == above,
    decreases j,
{
    let c = states.last();
    let path = found_path(c, j);
    lemma_on_course(disk, seq![root], states, picks, states.len() - 1);
    if above.len() == path.len() {
        assert(above =~= path);
        j
    } else {
        if j == 0 {
            assert(c.found[0] == pool::seeds(seq![root])[0]);
            0
        } else {
            assert(was_led_to(disk, c, j));
            let p = choose|p: int| led_to(disk, c, p, j);
            let e = lemma_child(disk, c.found[p], c.found[j]);
            assert(above =~= found_path(c, p).subrange(0, above.len() as int)) by {
                assert forall|i: int| 0 <= i < above.len() implies above[i] == found_path(
                    c,
                    p,
                )[i] by {
                    assert(path.subrange(0, above.len() as int)[i] == path[i]);
                }
            }
            lemma_way_down(disk, root, states, picks, p, above)
        }
    }
}

/// Every directory but the root is one that a directory found before led to.
pub(crate) proof fn lemma_source(
    disk: Disk,
    root: Seq<u8>,
    states: Seq<Crawl>,
    picks: Seq<int>,
    j: int,
) -> (p: int)
    requires
        disk.is_proper(),
        is_crawl(disk, seq![root], states, picks),
        0 < j < states.last().found.len(),
    ensures
        0 <= p < j,
        disk.below(states.last().found[p]).contains(states.last().found[j]),
{
    let c = states.last();
    lemma_on_course(disk, seq![root], states, picks, states.len() - 1);
    assert(was_led_to(disk, c, j));
    choose|p: int| led_to(disk, c, p, j)
}

/// What is found lies at the root or under it.
pub(crate) proof fn lemma_under_root(
    disk: Disk,
    root: Seq<u8>,
    states: Seq<Crawl>,
    picks: Seq<int>,
    k: int,
    j: int,
)
    requires
        disk.is_proper(),
        is_crawl(disk, seq![root], states, picks),
        0 <= k < states.len(),
        0 <= j < states[k].found.len(),
    ensures
        paths::components(root).is_prefix_of(found_path(states[k], j)),
        j > 0 ==> found_path(states[k], j).len() > paths::components(root).len(),
        states[k].found[0] == (0u32, root),
{
    lemma_apart(disk, root, states, picks, k);
    lemma_on_course(disk, seq![root], states, picks, k);
    assert(states[k].found[0] == pool::seeds(seq![root])[0]);
}

/// A walk of one root that is over has found the directories that can be reached.
pub(crate) proof fn lemma_found_are_reached(
    disk: Disk,
    root: Seq<u8>,
    states: Seq<Crawl>,
    picks: Seq<int>,
)
    requires
        is_crawl(disk, seq![root], states, picks),
        states.last().is_over(),
    ensures
        forall|j: int|
            0 <= j < states.last().found.len() ==> (#[trigger] states.last().found[j]).0 == 0
                && is_reached(disk, seq![root], states.last().found[j]),
        forall|task: (u32, Seq<u8>)|
            is_reached(disk, seq![root], task) ==> #[trigger] states.last().found.contains(task),
{
    let c = states.last();
    finished_walk_has_read_what_is_reached(disk, seq![root], states, picks);
    lemma_on_course(disk, seq![root], states, picks, states.len() - 1);
    assert forall|j: int| 0 <= j < c.found.len() implies (#[trigger] c.found[j]).0 == 0
        && is_reached(disk, seq![root], c.found[j]) by {
        lemma_root_idx(disk, seq![root], c, j);
        assert(c.found.contains(c.found[j]));
    }
}

// ── The sums of a walk ──────────────────────────────────────────────────

/// A directory as a walk goes through it.
pub enum ReadTree {
    /// What it lists, and the directories that the walk descends into from it.
    Dir(Seq<EntryFacts>, Seq<ReadTree>),
    Unreadable,
}

/// `tree` is what a walk goes through from `task` on.
pub open spec fn is_tree_of(disk: Disk, task: (u32, Seq<u8>), tree: ReadTree) -> bool
    decreases tree,
{
    match tree {
        ReadTree::Dir(listing, below) => {
            &&& listing == (disk.list)(task.1)
            &&& below.len() == disk.below(task).len()
            &&& forall|k: int|
                0 <= k < below.len() ==> is_tree_of(disk, disk.below(task)[k], #[trigger] below[k])
        },
        ReadTree::Unreadable => (disk.list)(task.1).len() == 0,
    }
}

/// The sum of what all entries in a tree weigh.
pub open spec fn tree_total(tree: ReadTree, weight: spec_fn(EntryFacts) -> nat) -> nat
    decreases tree,
{
    match tree {
        ReadTree::Dir(listing, below) => sums::total(listing, weight) + forest_total(below, weight),
        ReadTree::Unreadable => 0,
    }
}

pub open spec fn forest_total(trees: Seq<ReadTree>, weight: spec_fn(EntryFacts) -> nat) -> nat
    decreases trees,
{
    if trees.len() == 0 {
        0
    } else {
        forest_total(trees.drop_last(), weight) + tree_total(trees.last(), weight)
    }
}

/// A walk under way, and what its workers have counted for each root. What an entry counts is
/// its weight: its size, or one for each entry of a kind.
pub struct Tally {
    pub crawl: Crawl,
    pub counted: Seq<nat>,
}

impl Tally {
    pub open spec fn start(roots: Seq<Seq<u8>>) -> Tally {
        Tally { crawl: Crawl::start(roots), counted: Seq::new(roots.len(), |i: int| 0nat) }
    }

    /// Directory `i` is read, and what its entries weigh is added for its root.
    pub open spec fn after(self, disk: Disk, weight: spec_fn(EntryFacts) -> nat, i: int) -> Tally {
        let (root_idx, dir) = self.crawl.found[i];
        Tally {
            crawl: self.crawl.after(disk, i),
            counted: self.counted.update(
                root_idx as int,
                self.counted[root_idx as int] + sums::total((disk.list)(dir), weight),
            ),
        }
    }
}

/// A walk that counts.
pub open spec fn is_tally(
    disk: Disk,
    roots: Seq<Seq<u8>>,
    weight: spec_fn(EntryFacts) -> nat,
    states: Seq<Tally>,
    picks: Seq<int>,
) -> bool {
    &&& states.len() == picks.len() + 1
    &&& states[0] == Tally::start(roots)
    &&& forall|k: int|
        0 <= k < picks.len() ==> states[k].crawl.waits(#[trigger] picks[k]) && states[k + 1]
            == states[k].after(disk, weight, picks[k])
}

/// What each directory that waits will add to the sum of root `r`.
spec fn owed(
    c: Crawl,
    trees: Seq<ReadTree>,
    weight: spec_fn(EntryFacts) -> nat,
    r: int,
) -> Seq<nat> {
    Seq::new(
        c.found.len(),
        |j: int|
            if c.waits(j) && c.found[j].0 == r {
                tree_total(trees[j], weight)
            } else {
                0
            },
    )
}

spec fn each() -> spec_fn(nat) -> nat {
    |n: nat| n
}

proof fn lemma_total_update(s: Seq<nat>, i: int, x: nat)
    requires
        0 <= i < s.len(),
    ensures
        sums::total(s.update(i, x), each()) + s[i] == sums::total(s, each()) + x,
{
    sums::lemma_total_remove(s, i, each());
    sums::lemma_total_remove(s.update(i, x), i, each());
    assert(s.update(i, x).remove(i) =~= s.remove(i));
}

proof fn lemma_total_zero(s: Seq<nat>)
    requires
        forall|i: int| 0 <= i < s.len() ==> #[trigger] s[i] == 0,
    ensures
        sums::total(s, each()) == 0,
    decreases s.len(),
{
    if s.len() > 0 {
        lemma_total_zero(s.drop_last());
    }
}

proof fn lemma_forest_total(
    trees: Seq<ReadTree>,
    weight: spec_fn(EntryFacts) -> nat,
    sums_below: Seq<nat>,
)
    requires
        sums_below == Seq::new(trees.len(), |k: int| tree_total(trees[k], weight)),
    ensures
        sums::total(sums_below, each()) == forest_total(trees, weight),
    decreases trees.len(),
{
    reveal_with_fuel(forest_total, 2);
    if trees.len() > 0 {
        lemma_forest_total(
            trees.drop_last(),
            weight,
            Seq::new(trees.drop_last().len(), |k: int| tree_total(trees.drop_last()[k], weight)),
        );
        assert(sums_below.drop_last() =~= Seq::new(
            trees.drop_last().len(),
            |k: int| tree_total(trees.drop_last()[k], weight),
        ));
    }
}

/// The trees of the directories found.
spec fn are_trees_of(disk: Disk, c: Crawl, trees: Seq<ReadTree>) -> bool {
    &&& trees.len() == c.found.len()
    &&& forall|j: int|
        0 <= j < trees.len() ==> is_tree_of(disk, c.found[j], #[trigger] trees[j])
}

/// The trees that reading a directory leads to.
spec fn trees_below(tree: ReadTree) -> Seq<ReadTree> {
    match tree {
        ReadTree::Dir(listing, below) => below,
        ReadTree::Unreadable => seq![],
    }
}

/// Reading a directory keeps the sum of every root: what has been counted for it and what its
/// waiting directories hold add up to the same before and after.
proof fn lemma_reading_keeps_the_sums(
    disk: Disk,
    weight: spec_fn(EntryFacts) -> nat,
    s: Tally,
    trees: Seq<ReadTree>,
    i: int,
    r: int,
)
    requires
        s.crawl.waits(i),
        s.crawl.found[i].0 < s.counted.len(),
        0 <= r < s.counted.len(),
        are_trees_of(disk, s.crawl, trees),
        forall|j: int| #[trigger] s.crawl.read.contains(j) ==> 0 <= j < s.crawl.found.len(),
    ensures
        are_trees_of(disk, s.crawl.after(disk, i), trees + trees_below(trees[i])),
        s.after(disk, weight, i).counted[r] + sums::total(
            owed(s.crawl.after(disk, i), trees + trees_below(trees[i]), weight, r),
            each(),
        ) == s.counted[r] + sums::total(owed(s.crawl, trees, weight, r), each()),
{
    let c = s.crawl;
    let d = c.after(disk, i);
    let below = trees_below(trees[i]);
    let more = trees + below;
    let n = c.found.len();
    let root = c.found[i].0;
    reveal_with_fuel(tree_total, 2);
    assert(is_tree_of(disk, c.found[i], trees[i]));
    assert(below.len() == disk.below(c.found[i]).len());
    assert forall|j: int| 0 <= j < more.len() implies is_tree_of(
        disk,
        d.found[j],
        #[trigger] more[j],
    ) by {
        if j < n {
            assert(trees[j] == more[j]);
        } else {
            assert(below[j - n] == more[j]);
        }
    }
    let before = owed(c, trees, weight, r);
    let kids = Seq::new(
        below.len(),
        |k: int|
            if root == r {
                tree_total(below[k], weight)
            } else {
                0
            },
    );
    let after = owed(d, more, weight, r);
    assert forall|k: int| 0 <= k < below.len() implies (#[trigger] d.found[n + k]).0 == root by {
        let task = disk.below(c.found[i])[k];
        assert(disk.below(c.found[i]).contains(task));
        walker::only_descended_entries_lead_on(
            root,
            c.found[i].1,
            (disk.list)(c.found[i].1),
            disk.skips(c.found[i].1),
            disk.follow_symlinks,
            task,
        );
    }
    assert(after =~= before.update(i, 0) + kids) by {
        assert forall|j: int| 0 <= j < after.len() implies after[j] == (before.update(
            i,
            0,
        ) + kids)[j] by {
            if j >= n {
                let k = j - n;
                assert(d.found[n + k].0 == root);
                assert(!c.read.contains(j));
            }
        }
    }
    sums::lemma_total_concat(before.update(i, 0), kids, each());
    lemma_total_update(before, i, 0);
    if root == r {
        assert(kids =~= Seq::new(below.len(), |k: int| tree_total(below[k], weight)));
        lemma_forest_total(below, weight, kids);
    } else {
        lemma_total_zero(kids);
    }
}

/// A walk that counts is a walk.
proof fn lemma_tally_is_crawl(
    disk: Disk,
    roots: Seq<Seq<u8>>,
    weight: spec_fn(EntryFacts) -> nat,
    states: Seq<Tally>,
    picks: Seq<int>,
)
    requires
        is_tally(disk, roots, weight, states, picks),
    ensures
        is_crawl(disk, roots, states.map_values(|s: Tally| s.crawl), picks),
{
    let crawls = states.map_values(|s: Tally| s.crawl);
    assert forall|k: int| 0 <= k < picks.len() implies crawls[k].waits(#[trigger] picks[k])
        && crawls[k + 1] == crawls[k].after(disk, picks[k]) by {
        assert(states[k + 1] == states[k].after(disk, weight, picks[k]));
    }
}

proof fn lemma_root_idx(disk: Disk, roots: Seq<Seq<u8>>, c: Crawl, j: int)
    requires
        roots.len() <= 0x1_0000_0000,
        is_on_course(disk, roots, c),
        0 <= j < c.found.len(),
    ensures
        c.found[j].0 < roots.len(),
    decreases j,
{
    if j < roots.len() {
        assert(c.found[j] == pool::seeds(roots)[j]);
        vstd::arithmetic::div_mod::lemma_small_mod(j as nat, 0x1_0000_0000);
    } else {
        assert(was_led_to(disk, c, j));
        let p = choose|p: int| led_to(disk, c, p, j);
        lemma_root_idx(disk, roots, c, p);
        walker::only_descended_entries_lead_on(
            c.found[p].0,
            c.found[p].1,
            (disk.list)(c.found[p].1),
            disk.skips(c.found[p].1),
            disk.follow_symlinks,
            c.found[j],
        );
    }
}

/// At any time a directory that was found belongs to one of the roots.
pub(crate) proof fn lemma_root_of_found(
    disk: Disk,
    roots: Seq<Seq<u8>>,
    states: Seq<Crawl>,
    picks: Seq<int>,
    k: int,
    j: int,
)
    requires
        roots.len() <= 0x1_0000_0000,
        is_crawl(disk, roots, states, picks),
        0 <= k < states.len(),
        0 <= j < states[k].found.len(),
    ensures
        states[k].found[j].0 < roots.len(),
{
    lemma_on_course(disk, roots, states, picks, k);
    lemma_root_idx(disk, roots, states[k], j);
}

proof fn lemma_states_keep_the_sums(
    disk: Disk,
    roots: Seq<Seq<u8>>,
    weight: spec_fn(EntryFacts) -> nat,
    trees: Seq<ReadTree>,
    states: Seq<Tally>,
    picks: Seq<int>,
    k: int,
    r: int,
) -> (all: Seq<ReadTree>)
    requires
        roots.len() <= 0x1_0000_0000,
        is_tally(disk, roots, weight, states, picks),
        trees.len() == roots.len(),
        forall|i: int|
            0 <= i < roots.len() ==> is_tree_of(disk, pool::seeds(roots)[i], #[trigger] trees[i]),
        0 <= k < states.len(),
        0 <= r < roots.len(),
    ensures
        states[k].counted.len() == roots.len(),
        are_trees_of(disk, states[k].crawl, all),
        states[k].counted[r] + sums::total(owed(states[k].crawl, all, weight, r), each()) == tree_total(
            trees[r],
            weight,
        ),
    decreases k,
{
    if k == 0 {
        let c = states[0].crawl;
        let first = owed(c, trees, weight, r);
        sums::lemma_total_remove(first, r, each());
        assert forall|j: int| 0 <= j < roots.len() implies (#[trigger] c.found[j]).0 == j by {
            vstd::arithmetic::div_mod::lemma_small_mod(j as nat, 0x1_0000_0000);
        }
        assert(c.found[r].0 == r);
        assert(first[r] == tree_total(trees[r], weight));
        assert forall|j: int| 0 <= j < first.remove(r).len() implies #[trigger] first.remove(r)[j]
            == 0 by {
            if j < r {
                assert(c.found[j].0 == j);
            } else {
                assert(c.found[j + 1].0 == j + 1);
            }
        }
        lemma_total_zero(first.remove(r));
        trees
    } else {
        let all = lemma_states_keep_the_sums(disk, roots, weight, trees, states, picks, k - 1, r);
        let before = states[k - 1];
        let i = picks[k - 1];
        let crawls = states.map_values(|s: Tally| s.crawl);
        assert(before.crawl.waits(i) && states[k - 1 + 1] == before.after(disk, weight, i));
        lemma_tally_is_crawl(disk, roots, weight, states, picks);
        lemma_on_course(disk, roots, crawls, picks, k - 1);
        lemma_root_idx(disk, roots, before.crawl, i);
        lemma_reading_keeps_the_sums(disk, weight, before, all, i, r);
        all + trees_below(all[i])
    }
}

/// The sums once no directory waits any more are those of the trees at the roots, whichever
/// directory was read when.
pub proof fn finished_walk_gives_the_sums(
    disk: Disk,
    roots: Seq<Seq<u8>>,
    weight: spec_fn(EntryFacts) -> nat,
    trees: Seq<ReadTree>,
    states: Seq<Tally>,
    picks: Seq<int>,
    r: int,
)
    requires
        roots.len() <= 0x1_0000_0000,
        is_tally(disk, roots, weight, states, picks),
        trees.len() == roots.len(),
        forall|i: int|
            0 <= i < roots.len() ==> is_tree_of(disk, pool::seeds(roots)[i], #[trigger] trees[i]),
        states.last().crawl.is_over(),
        0 <= r < roots.len(),
    ensures
        states.last().counted.len() == roots.len(),
        states.last().counted[r] == tree_total(trees[r], weight),
{
    let all = lemma_states_keep_the_sums(
        disk,
        roots,
        weight,
        trees,
        states,
        picks,
        states.len() - 1,
        r,
    );
    lemma_total_zero(owed(states.last().crawl, all, weight, r));
}

// ── The counts of a walk ────────────────────────────────────────────────

/// One for each entry.
pub open spec fn one() -> spec_fn(EntryFacts) -> nat {
    |e: EntryFacts| 1nat
}

/// The counts of all entries in a tree.
pub open spec fn tree_counts(tree: ReadTree) -> Counts {
    Counts {
        entries: tree_total(tree, one()),
        dirs: tree_total(tree, counters::is_kind(EntryKind::Dir)),
        files: tree_total(tree, counters::is_kind(EntryKind::File)),
        symlinks: tree_total(tree, counters::is_kind(EntryKind::Symlink)),
        total_size: tree_total(tree, walker::told_size()),
    }
}

/// A walk under way, and the counts of its workers together.
pub struct Census {
    pub crawl: Crawl,
    pub counts: Counts,
}

impl Census {
    pub open spec fn start(root: Seq<u8>) -> Census {
        Census { crawl: Crawl::start(seq![root]), counts: counters::tally(seq![]) }
    }

    /// Directory `i` is read, and all that it lists is counted.
    pub open spec fn after(self, disk: Disk, i: int) -> Census {
        Census {
            crawl: self.crawl.after(disk, i),
            counts: counters::sum_of(
                self.counts,
                counters::tally((disk.list)(self.crawl.found[i].1)),
            ),
        }
    }
}

/// A walk of one root that counts its entries.
pub open spec fn is_census(
    disk: Disk,
    root: Seq<u8>,
    states: Seq<Census>,
    picks: Seq<int>,
) -> bool {
    &&& states.len() == picks.len() + 1
    &&& states[0] == Census::start(root)
    &&& forall|k: int|
        0 <= k < picks.len() ==> states[k].crawl.waits(#[trigger] picks[k]) && states[k + 1]
            == states[k].after(disk, picks[k])
}

/// Each count of a walk that is over is that of the tree at the root.
proof fn lemma_count(
    disk: Disk,
    root: Seq<u8>,
    tree: ReadTree,
    states: Seq<Census>,
    picks: Seq<int>,
    weight: spec_fn(EntryFacts) -> nat,
    field: spec_fn(Counts) -> nat,
)
    requires
        is_census(disk, root, states, picks),
        is_tree_of(disk, (0u32, root), tree),
        states.last().crawl.is_over(),
        forall|seen: Seq<EntryFacts>|
            field(#[trigger] counters::tally(seen)) == sums::total(seen, weight),
        forall|a: Counts, b: Counts|
            field(#[trigger] counters::sum_of(a, b)) == field(a) + field(b),
    ensures
        field(states.last().counts) == tree_total(tree, weight),
{
    let roots = seq![root];
    let tallies = states.map_values(
        |s: Census| Tally { crawl: s.crawl, counted: seq![field(s.counts)] },
    );
    lemma_root_indices(disk, root, states, picks);
    assert(tallies[0].counted =~= Tally::start(roots).counted) by {
        assert(field(counters::tally(seq![])) == sums::total(seq![], weight));
    }
    assert forall|k: int| 0 <= k < picks.len() implies tallies[k].crawl.waits(
        #[trigger] picks[k],
    ) && tallies[k + 1] == tallies[k].after(disk, weight, picks[k]) by {
        let before = states[k];
        let dir = before.crawl.found[picks[k]].1;
        assert(states[k + 1] == before.after(disk, picks[k]));
        assert(before.crawl.found[picks[k]].0 == 0);
        assert(field(counters::tally((disk.list)(dir))) == sums::total((disk.list)(dir), weight));
        assert(tallies[k + 1].counted =~= tallies[k].after(disk, weight, picks[k]).counted);
    }
    assert(pool::seeds(roots)[0] == (0u32, root));
    let trees = seq![tree];
    finished_walk_gives_the_sums(disk, roots, weight, trees, tallies, picks, 0);
}

/// In a walk of one root every directory belongs to it.
proof fn lemma_root_indices(
    disk: Disk,
    root: Seq<u8>,
    states: Seq<Census>,
    picks: Seq<int>,
)
    requires
        is_census(disk, root, states, picks),
    ensures
        forall|k: int, j: int|
            0 <= k < states.len() && 0 <= j < states[k].crawl.found.len() ==> (
            #[trigger] states[k].crawl.found[j]).0 == 0,
{
    let crawls = states.map_values(|s: Census| s.crawl);
    assert forall|k: int| 0 <= k < picks.len() implies crawls[k].waits(#[trigger] picks[k])
        && crawls[k + 1] == crawls[k].after(disk, picks[k]) by {
        assert(states[k + 1] == states[k].after(disk, picks[k]));
    }
    assert forall|k: int, j: int|
        0 <= k < states.len() && 0 <= j < states[k].crawl.found.len() implies (
    #[trigger] states[k].crawl.found[j]).0 == 0 by {
        assert(crawls[k] == states[k].crawl);
        lemma_on_course(disk, seq![root], crawls, picks, k);
        lemma_root_idx(disk, seq![root], crawls[k], j);
    }
}

proof fn lemma_ones(seen: Seq<EntryFacts>)
    ensures
        sums::total(seen, one()) == seen.len(),
    decreases seen.len(),
{
    if seen.len() > 0 {
        lemma_ones(seen.drop_last());
    }
}

/// The counts of a walk that is over are those of the tree at the root: every entry of every
/// directory that is reached is counted once, whichever worker met it when.
pub proof fn finished_walk_counts_every_entry(
    disk: Disk,
    root: Seq<u8>,
    tree: ReadTree,
    states: Seq<Census>,
    picks: Seq<int>,
)
    requires
        is_census(disk, root, states, picks),
        is_tree_of(disk, (0u32, root), tree),
        states.last().crawl.is_over(),
    ensures
        states.last().counts == tree_counts(tree),
{
    assert forall|seen: Seq<EntryFacts>|
        (#[trigger] counters::tally(seen)).entries == sums::total(seen, one()) by {
        lemma_ones(seen);
    }
    lemma_count(disk, root, tree, states, picks, one(), |c: Counts| c.entries);
    lemma_count(disk, root, tree, states, picks, counters::is_kind(EntryKind::Dir), |c: Counts| c.dirs);
    lemma_count(disk, root, tree, states, picks, counters::is_kind(EntryKind::File), |c: Counts| c.files);
    lemma_count(
        disk,
        root,
        tree,
        states,
        picks,
        counters::is_kind(EntryKind::Symlink),
        |c: Counts| c.symlinks,
    );
    lemma_count(disk, root, tree, states, picks, walker::told_size(), |c: Counts| c.total_size);
}

} // verus!
