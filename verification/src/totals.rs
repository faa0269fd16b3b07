//! What the workers of a walk count, each for itself, and what that adds up to.

use vstd::prelude::*;

use crate::counters::Counters;
use crate::crawl::{Census, Crawl, Disk, ReadTree, Tally};
use crate::counters;
use crate::crawl;
use crate::pool;
use crate::sums;
use crate::walker;

verus! {

/// A worker reads a directory.
pub struct Reading {
    pub dir: int,
    pub worker: int,
}

spec fn dirs_of(readings: Seq<Reading>) -> Seq<int> {
    readings.map_values(|m: Reading| m.dir)
}

// ── Sizes ───────────────────────────────────────────────────────────────

/// A walk that adds up sizes, and what each worker has counted for each root.
pub struct Sizing {
    pub crawl: Crawl,
    pub locals: Seq<Seq<u64>>,
}

/// Nothing counted for any of `n` roots.
pub open spec fn zeros(n: nat) -> Seq<u64> {
    Seq::new(n, |i: int| 0u64)
}

/// A worker adds the sizes that a directory lists to its slot for the root of the directory. They
/// have to fit it.
pub open spec fn is_sizing_step(disk: Disk, before: Sizing, after: Sizing, m: Reading) -> bool {
    let (root_idx, dir) = before.crawl.found[m.dir];
    let local = before.locals[m.worker];
    let sum = local[root_idx as int] + sums::total((disk.list)(dir), walker::told_size());
    &&& before.crawl.waits(m.dir)
    &&& after.crawl == before.crawl.after(disk, m.dir)
    &&& 0 <= m.worker < before.locals.len()
    &&& sum <= u64::MAX
    &&& after.locals == before.locals.update(
        m.worker,
        walker::sizes_added(local, root_idx as int, (disk.list)(dir)),
    )
}

/// A walk whose workers start with nothing and read directories in any order.
pub open spec fn is_sizing(
    disk: Disk,
    roots: Seq<Seq<u8>>,
    states: Seq<Sizing>,
    readings: Seq<Reading>,
) -> bool {
    &&& states.len() == readings.len() + 1
    &&& states[0].crawl == Crawl::start(roots)
    &&& forall|w: int|
        0 <= w < states[0].locals.len() ==> #[trigger] states[0].locals[w] == zeros(roots.len())
    &&& forall|k: int|
        0 <= k < readings.len() ==> is_sizing_step(
            disk,
            states[k],
            states[k + 1],
            #[trigger] readings[k],
        )
}

/// Where the visitor skips nothing, what a worker does with a listing is such a step: the tasks
/// that it hands on are those that reading the directory leads to.
pub proof fn sizing_skips_nothing(disk: Disk, root_idx: u32, dir: Seq<u8>)
    requires
        forall|i: int|
            0 <= i < (disk.list)(dir).len() ==> !(disk.skip)(dir, #[trigger] (disk.list)(dir)[i]),
    ensures
        walker::child_tasks(
            root_idx,
            dir,
            (disk.list)(dir),
            Seq::new((disk.list)(dir).len(), |i: int| false),
            disk.follow_symlinks,
        ) == disk.below((root_idx, dir)),
{
    assert(disk.skips(dir) =~= Seq::new((disk.list)(dir).len(), |i: int| false));
}

/// What the workers have counted together for each root.
spec fn counted_by(locals: Seq<Seq<u64>>, n: nat) -> Seq<nat> {
    Seq::new(n, |r: int| sums::total(locals, walker::slot(r)))
}

spec fn tally_of(n: nat) -> spec_fn(Sizing) -> Tally {
    |s: Sizing| Tally { crawl: s.crawl, counted: counted_by(s.locals, n) }
}

proof fn lemma_nothing_counted(locals: Seq<Seq<u64>>, n: nat, r: int)
    requires
        0 <= r < n,
        forall|w: int| 0 <= w < locals.len() ==> #[trigger] locals[w] == zeros(n),
    ensures
        sums::total(locals, walker::slot(r)) == 0,
    decreases locals.len(),
{
    if locals.len() > 0 {
        assert forall|w: int| 0 <= w < locals.len() - 1 implies #[trigger] locals.drop_last()[w]
            == zeros(n) by {
            assert(locals[w] == zeros(n));
        }
        lemma_nothing_counted(locals.drop_last(), n, r);
        assert(locals[locals.len() - 1] == zeros(n));
    }
}

proof fn lemma_slot_grows(locals: Seq<Seq<u64>>, w: int, local: Seq<u64>, r: int)
    requires
        0 <= w < locals.len(),
    ensures
        sums::total(locals.update(w, local), walker::slot(r)) + locals[w][r] == sums::total(
            locals,
            walker::slot(r),
        ) + local[r],
{
    sums::lemma_total_remove(locals, w, walker::slot(r));
    sums::lemma_total_remove(locals.update(w, local), w, walker::slot(r));
    assert(locals.update(w, local).remove(w) =~= locals.remove(w));
}

/// Every worker has one slot for each root.
proof fn lemma_slots(
    disk: Disk,
    roots: Seq<Seq<u8>>,
    states: Seq<Sizing>,
    readings: Seq<Reading>,
    k: int,
)
    requires
        roots.len() <= 0x1_0000_0000,
        is_sizing(disk, roots, states, readings),
        0 <= k < states.len(),
    ensures
        forall|w: int|
            0 <= w < states[k].locals.len() ==> (#[trigger] states[k].locals[w]).len()
                == roots.len(),
    decreases k,
{
    if k > 0 {
        let crawls = states.map_values(|s: Sizing| s.crawl);
        let m = readings[k - 1];
        lemma_slots(disk, roots, states, readings, k - 1);
        assert(is_sizing_step(disk, states[k - 1], states[k - 1 + 1], m));
        lemma_sizing_is_crawl(disk, roots, states, readings);
        assert(crawls[k - 1] == states[k - 1].crawl);
        crawl::lemma_root_of_found(disk, roots, crawls, dirs_of(readings), k - 1, m.dir);
        assert forall|w: int| 0 <= w < states[k].locals.len() implies (
        #[trigger] states[k].locals[w]).len() == roots.len() by {
            assert(states[k - 1].locals[w].len() == roots.len());
        }
    } else {
        assert forall|w: int| 0 <= w < states[0].locals.len() implies (
        #[trigger] states[0].locals[w]).len() == roots.len() by {
            assert(states[0].locals[w] == zeros(roots.len()));
        }
    }
}

proof fn lemma_sizing_is_crawl(
    disk: Disk,
    roots: Seq<Seq<u8>>,
    states: Seq<Sizing>,
    readings: Seq<Reading>,
)
    requires
        is_sizing(disk, roots, states, readings),
    ensures
        crawl::is_crawl(
            disk,
            roots,
            states.map_values(|s: Sizing| s.crawl),
            dirs_of(readings),
        ),
{
    let crawls = states.map_values(|s: Sizing| s.crawl);
    let picks = dirs_of(readings);
    assert forall|k: int| 0 <= k < picks.len() implies crawls[k].waits(#[trigger] picks[k])
        && crawls[k + 1] == crawls[k].after(disk, picks[k]) by {
        assert(is_sizing_step(disk, states[k], states[k + 1], readings[k]));
    }
}

/// What the workers count together is what a walk counts.
proof fn lemma_sizing_is_tally(
    disk: Disk,
    roots: Seq<Seq<u8>>,
    states: Seq<Sizing>,
    readings: Seq<Reading>,
)
    requires
        roots.len() <= 0x1_0000_0000,
        is_sizing(disk, roots, states, readings),
    ensures
        crawl::is_tally(
            disk,
            roots,
            walker::told_size(),
            states.map_values(tally_of(roots.len())),
            dirs_of(readings),
        ),
{
    let n = roots.len();
    let tallies = states.map_values(tally_of(n));
    let picks = dirs_of(readings);
    let crawls = states.map_values(|s: Sizing| s.crawl);
    lemma_sizing_is_crawl(disk, roots, states, readings);
    assert(tallies[0].counted =~= Tally::start(roots).counted) by {
        assert forall|r: int| 0 <= r < n implies tallies[0].counted[r] == 0 by {
            lemma_nothing_counted(states[0].locals, n, r);
        }
    }
    assert forall|k: int| 0 <= k < picks.len() implies tallies[k].crawl.waits(
        #[trigger] picks[k],
    ) && tallies[k + 1] == tallies[k].after(disk, walker::told_size(), picks[k]) by {
        let before = states[k];
        let m = readings[k];
        let (root_idx, dir) = before.crawl.found[m.dir];
        assert(is_sizing_step(disk, before, states[k + 1], m));
        assert(crawls[k] == before.crawl);
        crawl::lemma_root_of_found(disk, roots, crawls, picks, k, m.dir);
        lemma_slots(disk, roots, states, readings, k);
        let after = tallies[k].after(disk, walker::told_size(), picks[k]);
        assert(tallies[k + 1].counted =~= after.counted) by {
            assert forall|r: int| 0 <= r < n implies tallies[k + 1].counted[r]
                == after.counted[r] by {
                assert(before.locals[m.worker].len() == n);
                lemma_slot_grows(
                    before.locals,
                    m.worker,
                    states[k + 1].locals[m.worker],
                    r,
                );
                assert(states[k + 1].locals =~= before.locals.update(
                    m.worker,
                    states[k + 1].locals[m.worker],
                ));
            }
        }
    }
}

/// Once the walk is over and the workers have added their slots up, the total of each root is the
/// sum of all sizes in its tree, modulo 2^64 and so exactly where it fits, whichever worker read
/// which directory.
pub proof fn totals_are_the_sizes_of_the_trees(
    disk: Disk,
    roots: Seq<Seq<u8>>,
    trees: Seq<ReadTree>,
    states: Seq<Sizing>,
    readings: Seq<Reading>,
    r: int,
)
    requires
        roots.len() <= 0x1_0000_0000,
        is_sizing(disk, roots, states, readings),
        trees.len() == roots.len(),
        forall|i: int|
            0 <= i < roots.len() ==> crawl::is_tree_of(
                disk,
                pool::seeds(roots)[i],
                #[trigger] trees[i],
            ),
        states.last().crawl.is_over(),
        0 <= r < roots.len(),
    ensures
        ({
            let total = walker::flushed_all(zeros(roots.len()), states.last().locals)[r];
            let size = crawl::tree_total(trees[r], walker::told_size());
            &&& total == size % 0x1_0000_0000_0000_0000
            &&& size <= u64::MAX ==> total == size
        }),
{
    let n = roots.len();
    let tallies = states.map_values(tally_of(n));
    lemma_sizing_is_tally(disk, roots, states, readings);
    crawl::finished_walk_gives_the_sums(
        disk,
        roots,
        walker::told_size(),
        trees,
        tallies,
        dirs_of(readings),
        r,
    );
    assert(tallies.last().counted[r] == sums::total(states.last().locals, walker::slot(r)));
    lemma_slots(disk, roots, states, readings, states.len() - 1);
    walker::totals_add_up(zeros(n), states.last().locals, r);
}

// ── Counts ──────────────────────────────────────────────────────────────

/// A walk that counts entries, and what each worker has counted.
pub struct Counting {
    pub crawl: Crawl,
    pub locals: Seq<Counters>,
}

/// A worker counts what a directory lists.
pub open spec fn is_counting_step(
    disk: Disk,
    before: Counting,
    after: Counting,
    m: Reading,
) -> bool {
    &&& before.crawl.waits(m.dir)
    &&& after.crawl == before.crawl.after(disk, m.dir)
    &&& 0 <= m.worker < before.locals.len() == after.locals.len()
    &&& forall|v: int|
        0 <= v < before.locals.len() && v != m.worker ==> #[trigger] after.locals[v]
            == before.locals[v]
    &&& after.locals[m.worker]@ == counters::sum_of(
        before.locals[m.worker]@,
        counters::tally((disk.list)(before.crawl.found[m.dir].1)),
    )
}

/// A walk of one root whose workers start with nothing and read directories in any order.
pub open spec fn is_counting(
    disk: Disk,
    root: Seq<u8>,
    states: Seq<Counting>,
    readings: Seq<Reading>,
) -> bool {
    &&& states.len() == readings.len() + 1
    &&& states[0].crawl == Crawl::start(seq![root])
    &&& forall|w: int|
        0 <= w < states[0].locals.len() ==> (#[trigger] states[0].locals[w])@ == counters::tally(
            seq![],
        )
    &&& forall|k: int|
        0 <= k < readings.len() ==> is_counting_step(
            disk,
            states[k],
            states[k + 1],
            #[trigger] readings[k],
        )
}

spec fn census_of() -> spec_fn(Counting) -> Census {
    |s: Counting| Census { crawl: s.crawl, counts: counters::sum_of_all(s.locals) }
}

proof fn lemma_none_counted(locals: Seq<Counters>)
    requires
        forall|w: int|
            0 <= w < locals.len() ==> (#[trigger] locals[w])@ == counters::tally(seq![]),
    ensures
        counters::sum_of_all(locals) == counters::tally(seq![]),
    decreases locals.len(),
{
    if locals.len() > 0 {
        assert forall|w: int| 0 <= w < locals.len() - 1 implies (
        #[trigger] locals.drop_last()[w])@ == counters::tally(seq![]) by {
            assert(locals[w]@ == counters::tally(seq![]));
        }
        lemma_none_counted(locals.drop_last());
        assert(locals[locals.len() - 1]@ == counters::tally(seq![]));
    }
}

/// Once the walk is over and the workers have merged their counters, those are the counts of all
/// entries in the tree at the root, modulo 2^64 and so exactly where they fit, whichever worker
/// read which directory.
pub proof fn merged_counters_are_the_counts_of_the_tree(
    disk: Disk,
    root: Seq<u8>,
    tree: ReadTree,
    states: Seq<Counting>,
    readings: Seq<Reading>,
    start: Counters,
)
    requires
        is_counting(disk, root, states, readings),
        crawl::is_tree_of(disk, (0u32, root), tree),
        states.last().crawl.is_over(),
        start@ == counters::tally(seq![]),
    ensures
        counters::merged_all(start, states.last().locals)@ == counters::wrapped(
            crawl::tree_counts(tree),
        ),
        counters::fits(crawl::tree_counts(tree)) ==> counters::merged_all(
            start,
            states.last().locals,
        )@ == crawl::tree_counts(tree),
{
    let censuses = states.map_values(census_of());
    let picks = dirs_of(readings);
    lemma_none_counted(states[0].locals);
    assert forall|k: int| 0 <= k < picks.len() implies censuses[k].crawl.waits(
        #[trigger] picks[k],
    ) && censuses[k + 1] == censuses[k].after(disk, picks[k]) by {
        let before = states[k];
        let m = readings[k];
        assert(is_counting_step(disk, before, states[k + 1], m));
        counters::lemma_sum_grows(
            before.locals,
            states[k + 1].locals,
            m.worker,
            counters::tally((disk.list)(before.crawl.found[m.dir].1)),
        );
    }
    crawl::finished_walk_counts_every_entry(disk, root, tree, censuses, picks);
    counters::merged_counters_add_up(start, states.last().locals);
}

} // verus!
