//! Laws of the walk and the scan: where the walk goes, who goes there, and what is noted down.

use vstd::prelude::*;

use crate::junk::{HitFacts, JunkHit};
use crate::junk_view::HitsBySize;
use crate::platform::EntryFacts;
use crate::pool::{RootedDir, Search, Stolen};
use crate::scan::{Collected, Node, TreeEntry};
use crate::walker::{EntryKind, IdleStep, InFlight};
use crate::laws::trees;
use crate::order;
use crate::paths;
use crate::pool;
use crate::prepare;
use crate::scan;
use crate::sums;
use crate::walker;

verus! {

// ── Where the walk goes ─────────────────────────────────────────────────

/// What an entry leads to: a directory to itself, unless it is skipped, and a link only where links
/// are followed. Nothing else leads anywhere.
pub open spec fn leads_on(
    root_idx: u32,
    dir: Seq<u8>,
    e: EntryFacts,
    skip: bool,
    follow: bool,
) -> Seq<(u32, Seq<u8>)> {
    if !skip && (e.kind == EntryKind::Dir || (follow && e.kind == EntryKind::Symlink)) {
        seq![(root_idx, paths::joined(dir, e.name))]
    } else {
        seq![]
    }
}

/// Reading a directory leads to each directory in it that is not skipped, once, under its path and
/// for the same root, in the order of the listing.
pub proof fn the_walk_goes_into_every_directory(
    root_idx: u32,
    dir: Seq<u8>,
    listing: Seq<EntryFacts>,
    skips: Seq<bool>,
    follow: bool,
)
    requires
        listing.len() <= skips.len(),
    ensures
        walker::child_tasks(root_idx, dir, listing, skips, follow) == Seq::new(
            listing.len(),
            |i: int| leads_on(root_idx, dir, listing[i], skips[i], follow),
        ).flatten(),
    decreases listing.len(),
{
    let all = Seq::new(
        listing.len(),
        |i: int| leads_on(root_idx, dir, listing[i], skips[i], follow),
    );
    if listing.len() > 0 {
        let front = listing.drop_last();
        the_walk_goes_into_every_directory(root_idx, dir, front, skips, follow);
        let before = Seq::new(
            front.len(),
            |i: int| leads_on(root_idx, dir, front[i], skips[i], follow),
        );
        assert(all =~= before.push(all.last()));
        before.lemma_flatten_push(all.last());
        assert(walker::child_tasks(root_idx, dir, listing, skips, follow) =~= all.flatten());
    } else {
        assert(walker::child_tasks(root_idx, dir, listing, skips, follow) =~= all.flatten());
    }
}

/// Every root is queued once, under a number of its own as long as there are no more than 2^32.
pub proof fn every_root_is_queued(roots: Seq<Seq<u8>>, i: int, j: int)
    requires
        0 <= i < j < roots.len() <= 0x1_0000_0000,
    ensures
        pool::seeds(roots).len() == roots.len(),
        pool::seeds(roots)[i].1 == roots[i],
        pool::seeds(roots)[i].0 == i,
        pool::seeds(roots)[i].0 != pool::seeds(roots)[j].0,
{
    vstd::arithmetic::div_mod::lemma_small_mod(i as nat, 0x1_0000_0000);
    vstd::arithmetic::div_mod::lemma_small_mod(j as nat, 0x1_0000_0000);
}

/// Tasks are taken as they stand.
pub proof fn tasks_are_taken_as_they_stand(dirs: Seq<RootedDir>, i: int)
    requires
        0 <= i < dirs.len(),
    ensures
        pool::tasks_of(dirs).len() == dirs.len(),
        pool::tasks_of(dirs)[i].0 == dirs[i].root_idx,
        pool::tasks_of(dirs)[i].1 == dirs[i].path@,
{
}

// ── Who goes there ──────────────────────────────────────────────────────

/// As many workers start as threads were asked for, and one where none was. Where nothing was
/// asked for, the performance cores decide, or else the cores that there are, or else it is four.
pub proof fn as_many_workers_as_were_asked_for(asked: usize, there: usize, cores: Option<usize>)
    ensures
        asked > 0 ==> walker::workers_for(walker::asked_threads(Some(asked), there)) == asked,
        walker::workers_for(walker::asked_threads(Some(0), there)) == 1,
        there > 0 ==> walker::workers_for(walker::asked_threads(None, there)) == there,
        walker::workers_for(walker::asked_threads(None, 0)) == 1,
        walker::thread_choice(Some(there), cores) == there,
        walker::thread_choice(None, Some(there)) == there,
        walker::thread_choice(None, None) == 4,
{
}

/// A worker without a task stops exactly when the walk is over. Until then it searches again,
/// after giving way the first times and after a rest from the thirty-second time in a row on.
pub proof fn workers_stop_when_the_walk_is_over(idle: u32)
    ensures
        walker::after_idling(true, idle).0 == IdleStep::Stop,
        walker::after_idling(false, idle).0 != IdleStep::Stop,
        walker::after_idling(false, idle).0 == IdleStep::Yield <==> idle < 31,
        idle < u32::MAX ==> walker::after_idling(false, idle).1 == idle + 1,
        idle == u32::MAX ==> walker::after_idling(false, idle).1 == idle,
{
}

/// The walk is over exactly when the last directory was taken off the counter.
pub proof fn the_last_directory_ends_the_walk(previous: int)
    ensures
        walker::says_over(previous) <==> previous - 1 == 0,
{
}

/// A search hands out the task that it met first: that of the shared queue where that had one, and
/// else that of the first stack that had one.
pub proof fn the_first_task_that_is_met_is_taken(
    search: Search,
    first: Stolen,
    tried: Seq<Stolen>,
    i: int,
)
    requires
        pool::comes_to(search, first, tried),
    ensures
        first is Task ==> search is Found && search->Found_0@ == first->Task_0@,
        first is Retry ==> search is Contended,
        first is Empty && 0 <= i < tried.len() && tried[i] is Task && (forall|k: int|
            0 <= k < i ==> !(#[trigger] tried[k] is Task)) ==> search is Found && search->Found_0@
            == tried[i]->Task_0@,
        first is Empty && (forall|k: int| 0 <= k < tried.len() ==> #[trigger] tried[k] is Empty)
            ==> search is Exhausted,
        first is Empty && 0 <= i < tried.len() && tried[i] is Retry && (forall|k: int|
            0 <= k < tried.len() ==> !(#[trigger] tried[k] is Task)) ==> search is Contended,
{
    if first is Empty && 0 <= i < tried.len() && tried[i] is Task && (forall|k: int|
        0 <= k < i ==> !(#[trigger] tried[k] is Task)) {
        pool::lemma_first_task(tried, i);
    }
    if forall|k: int| 0 <= k < tried.len() ==> !(#[trigger] tried[k] is Task) {
        pool::lemma_first_task(tried, tried.len() as int);
        assert(tried.take(tried.len() as int) =~= tried);
    }
    if forall|k: int| 0 <= k < tried.len() ==> #[trigger] tried[k] is Empty {
        assert forall|k: int| 0 <= k < tried.len() implies !(#[trigger] tried[k] is Task) by {
            assert(tried[k] is Empty);
        }
        pool::lemma_first_task(tried, tried.len() as int);
        assert(tried.take(tried.len() as int) =~= tried);
    }
}

// ── What is noted down ──────────────────────────────────────────────────

/// An entry is noted with its path, its kind, all of its size where that is told, and how many
/// components lie between the root and it. It is junk exactly where it is a directory that matches
/// a pattern, and is then a hit with the same path.
pub proof fn entries_are_noted_in_full(
    dir: Seq<u8>,
    listing: Seq<EntryFacts>,
    ecosystems: Seq<Option<Seq<char>>>,
    root_depth: usize,
    i: int,
)
    requires
        0 <= i < listing.len(),
        paths::is_file_name(listing[i].name),
        root_depth <= paths::components(dir).len() < usize::MAX,
    ensures
        ({
            let nodes = scan::nodes_in(dir, listing, ecosystems, root_depth);
            let node = nodes[i];
            &&& nodes.len() == listing.len()
            &&& node.path == paths::joined(dir, listing[i].name)
            &&& node.kind == listing[i].kind
            &&& node.depth == paths::components(dir).len() + 1 - root_depth
            &&& forall|b: u64| listing[i].size == Some(b) ==> node.size == b
            &&& listing[i].size is None ==> node.size == 0
            &&& node.is_junk <==> listing[i].kind == EntryKind::Dir && ecosystems[i] is Some
            &&& scan::junk_in(listing, ecosystems)[i] == node.is_junk
        }),
{
    paths::joining_adds_one_component(dir, listing[i].name);
}

/// The hits of a directory are its junk directories, each once, with its path and its ecosystem,
/// in the order of the listing.
pub proof fn every_junk_directory_is_a_hit(
    dir: Seq<u8>,
    listing: Seq<EntryFacts>,
    ecosystems: Seq<Option<Seq<char>>>,
)
    ensures
        scan::hits_in(dir, listing, ecosystems) == Seq::new(
            listing.len(),
            |i: int| hit_for(dir, listing[i], ecosystems[i]),
        ).flatten(),
    decreases listing.len(),
{
    let all = Seq::new(listing.len(), |i: int| hit_for(dir, listing[i], ecosystems[i]));
    if listing.len() > 0 {
        let front = listing.drop_last();
        every_junk_directory_is_a_hit(dir, front, ecosystems);
        let before = Seq::new(front.len(), |i: int| hit_for(dir, front[i], ecosystems[i]));
        assert(all =~= before.push(all.last()));
        before.lemma_flatten_push(all.last());
        assert(scan::hits_in(dir, listing, ecosystems) =~= all.flatten());
    } else {
        assert(scan::hits_in(dir, listing, ecosystems) =~= all.flatten());
    }
}

/// The hit for an entry, where it is a directory that matches a pattern.
pub open spec fn hit_for(
    dir: Seq<u8>,
    e: EntryFacts,
    ecosystem: Option<Seq<char>>,
) -> Seq<HitFacts> {
    if e.kind == EntryKind::Dir && ecosystem is Some {
        seq![
            HitFacts {
                path: paths::joined(dir, e.name),
                ecosystem: ecosystem->0,
                size_bytes: 0,
            },
        ]
    } else {
        seq![]
    }
}

/// The names of ecosystems are taken as they stand.
pub proof fn ecosystems_are_taken_as_they_stand(ecosystems: Seq<Option<&'static str>>, i: int)
    requires
        0 <= i < ecosystems.len(),
    ensures
        scan::ecosystem_names(ecosystems).len() == ecosystems.len(),
        ecosystems[i] is None <==> scan::ecosystem_names(ecosystems)[i] is None,
        ecosystems[i] is Some ==> scan::ecosystem_names(ecosystems)[i] == Some(
            (ecosystems[i]->0)@,
        ),
{
}

/// All entries of a listing find room up to the four millionth of all, and none beyond it.
pub proof fn there_is_room_for_four_million(n: nat, taken: usize)
    ensures
        taken + n <= 4_000_000 ==> scan::room_for(n, taken) == n,
        taken <= 4_000_000 < taken + n ==> taken + scan::room_for(n, taken) == 4_000_000,
        taken >= 4_000_000 ==> scan::room_for(n, taken) == 0,
{
}

/// What the workers have collected is put together worker by worker, and nothing is lost but what
/// is beyond the four millionth entry.
pub proof fn workers_lose_nothing(locals: Seq<Collected>, c: Collected)
    ensures
        scan::all_entries(locals.push(c)) == scan::all_entries(locals) + c.tree@,
        scan::all_hits(locals.push(c)) == scan::all_hits(locals) + c.hits@,
        scan::all_entries(seq![]).len() == 0,
        scan::all_hits(seq![]).len() == 0,
        scan::all_entries(locals).len() <= 4_000_000 ==> scan::kept_entries(locals)
            == scan::all_entries(locals),
        scan::all_entries(locals).len() > 4_000_000 ==> scan::kept_entries(locals).len()
            == 4_000_000 && scan::kept_entries(locals) == scan::all_entries(locals).take(4_000_000),
{
    let trees = locals.map_values(|c: Collected| c.tree@);
    let hits = locals.map_values(|c: Collected| c.hits@);
    assert(locals.push(c).map_values(|c: Collected| c.tree@) =~= trees.push(c.tree@));
    assert(locals.push(c).map_values(|c: Collected| c.hits@) =~= hits.push(c.hits@));
    trees.lemma_flatten_push(c.tree@);
    hits.lemma_flatten_push(c.hits@);
}

// ── Sizes of hits ───────────────────────────────────────────────────────

/// Hits are shared out so that each thread takes one or more, and all threads together take no
/// more than there are, unless there are more threads than hits.
pub proof fn hits_are_shared_out(len: usize, threads: usize)
    requires
        threads > 0,
    ensures
        scan::share_of_one(len, threads) >= 1,
        len >= threads ==> scan::share_of_one(len, threads) * threads <= len,
        len >= threads ==> (scan::share_of_one(len, threads) + 1) * threads > len,
        len < threads ==> scan::share_of_one(len, threads) == 1,
        scan::share_of_one(len, 0) == scan::share_of_one(len, 1),
{
    let q = len as int / threads as int;
    vstd::arithmetic::div_mod::lemma_fundamental_div_mod(len as int, threads as int);
    let r = len as int % threads as int;
    assert(q * threads <= len && (q + 1) * threads > len) by (nonlinear_arith)
        requires
            len == threads * q + r,
            0 <= r < threads,
    ;
    if len >= threads {
        assert(q >= 1) by (nonlinear_arith)
            requires
                (q + 1) * threads > len,
                len >= threads,
                threads > 0,
        ;
    } else {
        assert(q == 0) by (nonlinear_arith)
            requires
                q * threads <= len,
                (q + 1) * threads > len,
                0 <= len < threads,
        ;
    }
}

/// Each hit gets the size that was found for it, and keeps everything else.
pub proof fn each_hit_gets_its_size(hits: Seq<JunkHit>, sizes: Seq<u64>, i: int)
    requires
        hits.len() == sizes.len(),
        0 <= i < hits.len(),
    ensures
        scan::with_sizes(hits, sizes).len() == hits.len(),
        scan::with_sizes(hits, sizes)[i].path == hits[i].path@,
        scan::with_sizes(hits, sizes)[i].ecosystem == hits[i].ecosystem@,
        scan::with_sizes(hits, sizes)[i].size_bytes == sizes[i],
{
}

/// A junk entry without a size takes the size of the hit with its path, the last one where there
/// are several. Every other entry, and everything else of it, stays.
pub proof fn junk_takes_the_size_of_its_hit(hits: Seq<JunkHit>, hit: JunkHit, node: Node)
    ensures
        ({
            let after = scan::with_found_size(hits.push(hit), node);
            let same = paths::components(hit.path@) == paths::components(node.path);
            &&& after.path == node.path && after.kind == node.kind && after.depth == node.depth
            &&& after.is_junk == node.is_junk
            &&& !node.is_junk || node.size != 0 ==> after.size == node.size
            &&& node.is_junk && node.size == 0 && same ==> after.size == hit.size_bytes
            &&& !same ==> after == scan::with_found_size(hits, node)
            &&& scan::with_found_size(seq![], node) == node
        }),
{
    assert(hits.push(hit).drop_last() =~= hits);
}

/// The sizes that a directory lists go to the slot of its root, all of them, and to no other slot.
pub proof fn sizes_go_to_the_slot_of_their_root(
    local: Seq<u64>,
    r: int,
    listing: Seq<EntryFacts>,
    k: int,
)
    requires
        0 <= r < local.len(),
        0 <= k < local.len(),
        local[r] + sums::total(listing, walker::told_size()) <= u64::MAX,
    ensures
        walker::sizes_added(local, r, listing).len() == local.len(),
        k == r ==> walker::sizes_added(local, r, listing)[k] == local[k] + sums::total(
            listing,
            walker::told_size(),
        ),
        k != r ==> walker::sizes_added(local, r, listing)[k] == local[k],
{
}

/// The number of cores is told where the query succeeds and gives one.
pub proof fn cores_are_told_where_the_query_succeeds(result: i32, value: u32)
    ensures
        result == 0 && value > 0 ==> (walker::cores_told(result, value) matches Some(cores)
            && cores == value),
        result != 0 || value == 0 ==> walker::cores_told(result, value) is None,
{
}

/// `after` is the hit with this size.
pub open spec fn is_sized(hit: JunkHit, size: u64, after: JunkHit) -> bool {
    after.path@ == hit.path@ && after.ecosystem@ == hit.ecosystem@ && after.size_bytes == size
}

/// The hit is among `hits`, with this size.
pub open spec fn holds_sized(hits: Seq<JunkHit>, hit: JunkHit, size: u64) -> bool {
    exists|i: int| 0 <= i < hits.len() && is_sized(hit, size, #[trigger] hits[i])
}

/// `after` is one of the hits that were found, with the size that was found for it.
pub open spec fn was_found(found: Seq<JunkHit>, sizes: Seq<u64>, after: JunkHit) -> bool {
    exists|k: int| 0 <= k < found.len() && is_sized(#[trigger] found[k], sizes[k], after)
}

/// What is ready to be shown: every hit that was found, with the size that was found for it, the
/// biggest first.
pub proof fn every_hit_is_made_ready(found: Seq<JunkHit>, sizes: Seq<u64>, ready: Seq<JunkHit>)
    requires
        found.len() == sizes.len() <= usize::MAX,
        prepare::is_ready(found, sizes, ready),
    ensures
        ready.len() == found.len(),
        forall|i: int, j: int|
            0 <= i < j < ready.len() ==> (#[trigger] ready[i]).size_bytes >= (
            #[trigger] ready[j]).size_bytes,
        forall|k: int| 0 <= k < found.len() ==> holds_sized(ready, #[trigger] found[k], sizes[k]),
        forall|i: int| 0 <= i < ready.len() ==> was_found(found, sizes, #[trigger] ready[i]),
{
    let sized = choose|sized: Seq<JunkHit>|
        scan::hit_facts(sized) == scan::with_sizes(found, sizes) && #[trigger]
            order::is_sorted_from::<JunkHit, HitsBySize>(sized, ready);
    assert(scan::hit_facts(sized).len() == sized.len());
    trees::the_biggest_hits_come_first(sized, ready);
    assert forall|k: int| 0 <= k < found.len() implies is_sized(
        found[k],
        sizes[k],
        #[trigger] sized[k],
    ) by {
        assert(scan::hit_facts(sized)[k] == sized[k]@);
    }
    assert forall|k: int| 0 <= k < found.len() implies holds_sized(
        ready,
        #[trigger] found[k],
        sizes[k],
    ) by {
        assert(ready.contains(sized[k]));
        let i = choose|i: int| 0 <= i < ready.len() && ready[i] == sized[k];
        assert(is_sized(found[k], sizes[k], ready[i]));
    }
    assert forall|i: int| 0 <= i < ready.len() implies was_found(
        found,
        sizes,
        #[trigger] ready[i],
    ) by {
        assert(sized.contains(ready[i]));
        let k = choose|k: int| 0 <= k < sized.len() && sized[k] == ready[i];
        assert(is_sized(found[k], sizes[k], ready[i]));
    }
}

/// The sizes of the hits are put into the tree entry by entry.
pub proof fn sizes_are_put_in_entry_by_entry(hits: Seq<JunkHit>, tree: Seq<TreeEntry>, i: int)
    requires
        0 <= i < tree.len(),
    ensures
        prepare::filled_in(hits, tree).len() == tree.len(),
        prepare::filled_in(hits, tree)[i] == scan::with_found_size(hits, tree[i]@),
{
}

/// A directory that is done leaves the counter, and each of those that it led to enters it: the
/// counter changes by their number less one.
pub proof fn the_counter_follows_the_directories(added: nat)
    requires
        added <= usize::MAX,
    ensures
        match walker::in_flight_after(added) {
            InFlight::Drop => added == 0,
            InFlight::Keep => added == 1,
            InFlight::Grow(by) => by > 0 && by + 1 == added,
        },
{
}

} // verus!
